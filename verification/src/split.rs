//! Splitting one line at an occurrence of the delimiter word.

use vstd::prelude::*;

verus! {

/// The delimiter `d` occurs in the line `l` at character position `i`.
pub open spec fn match_at(l: Seq<char>, d: Seq<char>, i: int) -> bool {
    &&& 0 <= i
    &&& i + d.len() <= l.len()
    &&& l.subrange(i, i + d.len() as int) == d
}

/// The delimiter `d` occurs somewhere in the line `l`.
pub open spec fn occurs(l: Seq<char>, d: Seq<char>) -> bool {
    exists|i: int| match_at(l, d, i)
}

/// `i` is the position of the first occurrence of `d` in `l`.
pub open spec fn first_match(l: Seq<char>, d: Seq<char>, i: int) -> bool {
    &&& match_at(l, d, i)
    &&& forall|j: int| 0 <= j < i ==> !match_at(l, d, j)
}

/// `i` is the position of the last occurrence of `d` in `l`.
pub open spec fn last_match(l: Seq<char>, d: Seq<char>, i: int) -> bool {
    &&& match_at(l, d, i)
    &&& forall|j: int| j > i ==> !match_at(l, d, j)
}

/// The occurrence the mode selects: the last in tail mode, the first otherwise.
pub open spec fn mode_match(l: Seq<char>, d: Seq<char>, taild: bool, i: int) -> bool {
    if taild {
        last_match(l, d, i)
    } else {
        first_match(l, d, i)
    }
}

/// `left` and `right` are the two segments of `l` split at the occurrence of
/// `d` that the mode selects; when `d` does not occur, `left` is the whole
/// line and `right` is empty.
pub open spec fn pair_ok(
    l: Seq<char>,
    d: Seq<char>,
    taild: bool,
    left: Seq<char>,
    right: Seq<char>,
) -> bool {
    if occurs(l, d) {
        exists|i: int|
            {
                &&& #[trigger] mode_match(l, d, taild, i)
                &&& left == l.subrange(0, i)
                &&& right == l.subrange(i + d.len() as int, l.len() as int)
            }
    } else {
        left == l && right == Seq::<char>::empty()
    }
}

/// Whether `delim` occurs in `line` at character position `i`.
fn delim_matches_at(line: &str, delim: &str, i: usize) -> (b: bool)
    requires
        i + delim@.len() <= line@.len() <= usize::MAX,
    ensures
        b == match_at(line@, delim@, i as int),
{
    let m = delim.unicode_len();
    let mut j: usize = 0;
    while j < m
        invariant
            m == delim@.len(),
            i + m <= line@.len() <= usize::MAX,
            j <= m,
            forall|k: int| 0 <= k < j ==> line@[i + k] == delim@[k],
        decreases m - j,
    {
        if line.get_char(i + j) != delim.get_char(j) {
            assert(line@.subrange(i as int, i + m)[j as int] == line@[i + j]);
            return false;
        }
        j += 1;
    }
    assert(line@.subrange(i as int, i + m) =~= delim@);
    true
}

/// The position of the first occurrence of `delim` in `line`, if any.
fn find_first(line: &str, delim: &str) -> (r: Option<usize>)
    ensures
        match r {
            Some(i) => first_match(line@, delim@, i as int),
            None => !occurs(line@, delim@),
        },
{
    let n = line.unicode_len();
    let m = delim.unicode_len();
    if m > n {
        assert(forall|i: int| !match_at(line@, delim@, i));
        return None;
    }
    if m == 0 {
        assert(line@.subrange(0, 0) =~= delim@);
        return Some(0);
    }
    let mut i: usize = 0;
    while i <= n - m
        invariant
            n == line@.len(),
            m == delim@.len(),
            0 < m <= n,
            i <= n - m + 1,
            forall|j: int| 0 <= j < i ==> !match_at(line@, delim@, j),
        decreases n - m + 1 - i,
    {
        if delim_matches_at(line, delim, i) {
            return Some(i);
        }
        i += 1;
    }
    assert(forall|j: int| !match_at(line@, delim@, j));
    None
}

/// The position of the last occurrence of `delim` in `line`, if any.
fn find_last(line: &str, delim: &str) -> (r: Option<usize>)
    ensures
        match r {
            Some(i) => last_match(line@, delim@, i as int),
            None => !occurs(line@, delim@),
        },
{
    let n = line.unicode_len();
    let m = delim.unicode_len();
    if m > n {
        assert(forall|i: int| !match_at(line@, delim@, i));
        return None;
    }
    if m == 0 {
        assert(line@.subrange(n as int, n as int) =~= delim@);
        return Some(n);
    }
    let mut i: usize = n - m + 1;
    while i > 0
        invariant
            n == line@.len(),
            m == delim@.len(),
            0 < m <= n,
            i <= n - m + 1,
            forall|j: int| i <= j ==> !match_at(line@, delim@, j),
        decreases i,
    {
        i = i - 1;
        if delim_matches_at(line, delim, i) {
            return Some(i);
        }
    }
    assert(forall|j: int| !match_at(line@, delim@, j));
    None
}

/// Split one line at the occurrence of `align_word` that the mode selects;
/// when the word does not occur, the whole line is the left segment and the
/// right segment is empty.
pub fn split_line(line: &str, align_word: &str, is_taild: bool) -> (p: (String, String))
    ensures
        pair_ok(line@, align_word@, is_taild, p.0@, p.1@),
{
    let pos = if is_taild {
        find_last(line, align_word)
    } else {
        find_first(line, align_word)
    };
    match pos {
        Some(i) => {
            let n = line.unicode_len();
            let m = align_word.unicode_len();
            let left = String::from_str(line.substring_char(0, i));
            let right = String::from_str(line.substring_char(i + m, n));
            proof {
                assert(mode_match(line@, align_word@, is_taild, i as int));
            }
            (left, right)
        },
        None => (String::from_str(line), String::new()),
    }
}

/// Split correctness, head mode: when a non-empty delimiter occurs in the
/// line, the segments reassemble the line around the delimiter, and the
/// delimiter does not occur within the left segment.
pub proof fn lemma_split_head(l: Seq<char>, d: Seq<char>, left: Seq<char>, right: Seq<char>)
    requires
        d.len() > 0,
        occurs(l, d),
        pair_ok(l, d, false, left, right),
    ensures
        left + d + right == l,
        !occurs(left, d),
{
    let i = choose|i: int|
        {
            &&& #[trigger] mode_match(l, d, false, i)
            &&& left == l.subrange(0, i)
            &&& right == l.subrange(i + d.len() as int, l.len() as int)
        };
    assert(l.subrange(i, i + d.len() as int) == d);
    assert(left + d + right =~= l);
    assert(!occurs(left, d)) by {
        if occurs(left, d) {
            let j = choose|j: int| match_at(left, d, j);
            assert(l.subrange(j, j + d.len() as int) =~= left.subrange(j, j + d.len() as int));
            assert(match_at(l, d, j));
            assert(false);
        }
    }
}

/// Split correctness, tail mode: when a non-empty delimiter occurs in the
/// line, the segments reassemble the line around the delimiter, and the
/// delimiter does not occur within the right segment.
pub proof fn lemma_split_tail(l: Seq<char>, d: Seq<char>, left: Seq<char>, right: Seq<char>)
    requires
        d.len() > 0,
        occurs(l, d),
        pair_ok(l, d, true, left, right),
    ensures
        left + d + right == l,
        !occurs(right, d),
{
    let i = choose|i: int|
        {
            &&& #[trigger] mode_match(l, d, true, i)
            &&& left == l.subrange(0, i)
            &&& right == l.subrange(i + d.len() as int, l.len() as int)
        };
    assert(l.subrange(i, i + d.len() as int) == d);
    assert(left + d + right =~= l);
    assert(!occurs(right, d)) by {
        if occurs(right, d) {
            let j = choose|j: int| match_at(right, d, j);
            let k = i + d.len() + j;
            assert(l.subrange(k, k + d.len() as int) =~= right.subrange(j, j + d.len() as int));
            assert(match_at(l, d, k));
            assert(false);
        }
    }
}

/// Fallback: when the delimiter does not occur in the line, the left segment
/// is the whole line and the right segment is empty, in both modes.
pub proof fn lemma_split_fallback(
    l: Seq<char>,
    d: Seq<char>,
    taild: bool,
    left: Seq<char>,
    right: Seq<char>,
)
    requires
        !occurs(l, d),
        pair_ok(l, d, taild, left, right),
    ensures
        left == l,
        right == Seq::<char>::empty(),
{
}

/// The split is deterministic: any two segment pairs that satisfy `pair_ok`
/// for the same line, delimiter and mode are equal.
pub proof fn lemma_split_deterministic(
    l: Seq<char>,
    d: Seq<char>,
    taild: bool,
    left1: Seq<char>,
    right1: Seq<char>,
    left2: Seq<char>,
    right2: Seq<char>,
)
    requires
        pair_ok(l, d, taild, left1, right1),
        pair_ok(l, d, taild, left2, right2),
    ensures
        left1 == left2,
        right1 == right2,
{
    if occurs(l, d) {
        let i1 = choose|i: int|
            {
                &&& #[trigger] mode_match(l, d, taild, i)
                &&& left1 == l.subrange(0, i)
                &&& right1 == l.subrange(i + d.len() as int, l.len() as int)
            };
        let i2 = choose|i: int|
            {
                &&& #[trigger] mode_match(l, d, taild, i)
                &&& left2 == l.subrange(0, i)
                &&& right2 == l.subrange(i + d.len() as int, l.len() as int)
            };
        assert(i1 == i2) by {
            if taild {
                assert(i1 > i2 ==> !match_at(l, d, i1));
                assert(i2 > i1 ==> !match_at(l, d, i2));
            } else {
                assert(i1 < i2 ==> !match_at(l, d, i1));
                assert(i2 < i1 ==> !match_at(l, d, i2));
            }
        }
    }
}

} // verus!
