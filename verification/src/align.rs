//! The fused split/measure pass: split every line and track the widest left
//! segment.

use vstd::prelude::*;

use crate::split::{pair_ok, split_line};

verus! {

/// The largest value in a sequence of lengths; zero when it is empty.
pub open spec fn seq_max(ws: Seq<nat>) -> nat
    decreases ws.len(),
{
    if ws.len() == 0 {
        0
    } else if ws.last() > seq_max(ws.drop_last()) {
        ws.last()
    } else {
        seq_max(ws.drop_last())
    }
}

/// The left-segment lengths of a sequence of pairs, in order.
pub open spec fn left_widths(pairs: Seq<(Seq<char>, Seq<char>)>) -> Seq<nat> {
    pairs.map_values(|p: (Seq<char>, Seq<char>)| p.0.len())
}

/// What `aligr` computes: one pair per input line, each split as `pair_ok`
/// says, and the width is the maximum left-segment length.
pub open spec fn aligr_post(
    lines: Seq<Seq<char>>,
    d: Seq<char>,
    taild: bool,
    pairs: Seq<(Seq<char>, Seq<char>)>,
    width: nat,
) -> bool {
    &&& pairs.len() == lines.len()
    &&& forall|k: int|
        0 <= k < lines.len() ==> pair_ok(lines[k], d, taild, #[trigger] pairs[k].0, pairs[k].1)
    &&& width == seq_max(left_widths(pairs))
}

/// Split every line at the occurrence of `align_word` that the mode selects,
/// and return the pairs together with the maximum left-segment length.
pub fn aligr(lines: &Vec<String>, align_word: &str, is_taild: bool) -> (r: (
    Vec<(String, String)>,
    usize,
))
    ensures
        aligr_post(lines.deep_view(), align_word@, is_taild, r.0.deep_view(), r.1 as nat),
{
    let mut max_align: usize = 0;
    let mut lines_split: Vec<(String, String)> = Vec::new();
    let mut idx: usize = 0;
    proof {
        assert(left_widths(lines_split.deep_view()) =~= Seq::<nat>::empty());
    }
    while idx < lines.len()
        invariant
            idx <= lines@.len(),
            lines_split.deep_view().len() == idx,
            forall|k: int|
                0 <= k < idx ==> pair_ok(
                    lines.deep_view()[k],
                    align_word@,
                    is_taild,
                    #[trigger] lines_split.deep_view()[k].0,
                    lines_split.deep_view()[k].1,
                ),
            max_align as nat == seq_max(left_widths(lines_split.deep_view())),
        decreases lines@.len() - idx,
    {
        let pair = split_line(lines[idx].as_str(), align_word, is_taild);
        let w = pair.0.as_str().unicode_len();
        let ghost prev = lines_split.deep_view();
        if w > max_align {
            max_align = w;
        }
        lines_split.push(pair);
        idx += 1;
        proof {
            let dv = lines_split.deep_view();
            assert(dv =~= prev.push((pair.0@, pair.1@)));
            assert(left_widths(dv) =~= left_widths(prev).push(pair.0@.len()));
            assert(left_widths(dv).drop_last() =~= left_widths(prev));
        }
    }
    proof {
        assert(lines.deep_view().len() == lines@.len());
    }
    (lines_split, max_align)
}

/// The width a sequence of pairs yields is an upper bound on every left
/// segment's length, is attained by some pair when there is one, and is zero
/// for an empty sequence.
pub proof fn lemma_max_width(pairs: Seq<(Seq<char>, Seq<char>)>)
    ensures
        forall|k: int|
            0 <= k < pairs.len() ==> #[trigger] pairs[k].0.len() <= seq_max(left_widths(pairs)),
        pairs.len() > 0 ==> exists|k: int|
            0 <= k < pairs.len() && #[trigger] pairs[k].0.len() == seq_max(left_widths(pairs)),
        pairs.len() == 0 ==> seq_max(left_widths(pairs)) == 0,
    decreases pairs.len(),
{
    if pairs.len() == 0 {
        assert(left_widths(pairs) =~= Seq::<nat>::empty());
    } else {
        let prev = pairs.drop_last();
        lemma_max_width(prev);
        assert(left_widths(pairs).drop_last() =~= left_widths(prev));
        let m = seq_max(left_widths(pairs));
        let last = pairs.len() - 1;
        assert(left_widths(pairs).last() == pairs[last].0.len());
        assert(seq_max(left_widths(prev)) <= m);
        assert forall|k: int| 0 <= k < pairs.len() implies #[trigger] pairs[k].0.len() <= m by {
            if k < prev.len() {
                assert(prev[k].0.len() <= seq_max(left_widths(prev)));
                assert(prev[k].0 == pairs[k].0);
            }
        }
        if pairs[last].0.len() >= seq_max(left_widths(prev)) {
            assert(pairs[last].0.len() == m);
        } else {
            let k = choose|k: int|
                0 <= k < prev.len() && #[trigger] prev[k].0.len() == seq_max(left_widths(prev));
            assert(pairs[k].0.len() == m);
        }
    }
}

/// The whole pass is deterministic: any two results that satisfy the `aligr`
/// contract for the same lines, delimiter and mode are equal.
pub proof fn lemma_aligr_deterministic(
    lines: Seq<Seq<char>>,
    d: Seq<char>,
    taild: bool,
    pairs1: Seq<(Seq<char>, Seq<char>)>,
    width1: nat,
    pairs2: Seq<(Seq<char>, Seq<char>)>,
    width2: nat,
)
    requires
        aligr_post(lines, d, taild, pairs1, width1),
        aligr_post(lines, d, taild, pairs2, width2),
    ensures
        pairs1 == pairs2,
        width1 == width2,
{
    assert forall|k: int| 0 <= k < lines.len() implies pairs1[k] == pairs2[k] by {
        crate::split::lemma_split_deterministic(
            lines[k],
            d,
            taild,
            pairs1[k].0,
            pairs1[k].1,
            pairs2[k].0,
            pairs2[k].1,
        );
        assert(pairs1[k].0 == pairs2[k].0);
        assert(pairs1[k].1 == pairs2[k].1);
    }
    assert(pairs1 =~= pairs2);
}

} // verus!
