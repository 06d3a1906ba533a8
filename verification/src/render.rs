//! The writer stage: render each pair as the left segment padded to the
//! alignment column, then the delimiter word, then the right segment.

use vstd::prelude::*;

use crate::align::{aligr_post, lemma_max_width};

verus! {

/// `n` space characters.
pub open spec fn spaces(n: nat) -> Seq<char> {
    Seq::new(n, |i: int| ' ')
}

/// How many spaces pad a left segment of length `l` to the given width.
pub open spec fn pad_len(l: nat, width: nat) -> nat {
    if l >= width {
        0
    } else {
        (width - l) as nat
    }
}

/// One output line: the left segment padded with spaces to the width, then
/// the delimiter word, then the right segment.
pub open spec fn line_out(left: Seq<char>, right: Seq<char>, d: Seq<char>, width: nat) -> Seq<
    char,
> {
    left + spaces(pad_len(left.len(), width)) + d + right
}

/// The whole output: one line per pair, in order, each newline-terminated.
pub open spec fn rendered_all(
    pairs: Seq<(Seq<char>, Seq<char>)>,
    d: Seq<char>,
    width: nat,
) -> Seq<char>
    decreases pairs.len(),
{
    if pairs.len() == 0 {
        Seq::empty()
    } else {
        rendered_all(pairs.drop_last(), d, width) + line_out(
            pairs.last().0,
            pairs.last().1,
            d,
            width,
        ) + seq!['\n']
    }
}

/// Render one output line: `left` padded with spaces to `width`, then `word`,
/// then `right`.
pub fn render_line(left: &str, right: &str, word: &str, width: usize) -> (out: String)
    ensures
        out@ == line_out(left@, right@, word@, width as nat),
{
    let mut out = left.to_owned();
    let n = left.unicode_len();
    let mut k: usize = n;
    proof {
        assert(out@ =~= left@ + spaces(0));
    }
    while k < width
        invariant
            n == left@.len(),
            n <= k,
            k <= width || k == n,
            out@ == left@ + spaces((k - n) as nat),
        decreases width - k,
    {
        out.append(" ");
        proof {
            reveal_strlit(" ");
            assert(left@ + spaces((k - n) as nat) + " "@ =~= left@ + spaces((k + 1 - n) as nat));
        }
        k += 1;
    }
    proof {
        assert(spaces((k - n) as nat) == spaces(pad_len(left@.len(), width as nat)));
    }
    out.append(word);
    out.append(right);
    proof {
        assert(out@ =~= line_out(left@, right@, word@, width as nat));
    }
    out
}

/// Append one newline-terminated output line per pair to `out`, each left
/// segment padded to the given width.
pub fn write_on(out: &mut String, aligr: (Vec<(String, String)>, usize), word: &str)
    ensures
        final(out)@ == old(out)@ + rendered_all(aligr.0.deep_view(), word@, aligr.1 as nat),
{
    let width = aligr.1;
    let pairs = aligr.0;
    let ghost out0 = out@;
    let mut idx: usize = 0;
    proof {
        assert(out@ =~= out0 + rendered_all(pairs.deep_view().take(0), word@, width as nat));
    }
    while idx < pairs.len()
        invariant
            idx <= pairs@.len(),
            pairs.deep_view().len() == pairs@.len(),
            out@ == out0 + rendered_all(pairs.deep_view().take(idx as int), word@, width as nat),
        decreases pairs@.len() - idx,
    {
        let p = &pairs[idx];
        let line = render_line(p.0.as_str(), p.1.as_str(), word, width);
        out.append(line.as_str());
        out.append("\n");
        proof {
            reveal_strlit("\n");
            let dv = pairs.deep_view();
            assert(dv.take(idx + 1).drop_last() =~= dv.take(idx as int));
            assert(dv.take(idx + 1).last() == dv[idx as int]);
            assert(dv[idx as int].0 == p.0@ && dv[idx as int].1 == p.1@);
            assert("\n"@ =~= seq!['\n']);
            assert(out@ =~= out0 + rendered_all(dv.take(idx + 1), word@, width as nat));
        }
        idx += 1;
    }
    proof {
        assert(pairs.deep_view().take(pairs@.len() as int) =~= pairs.deep_view());
    }
}

/// Alignment of one line: when the left segment is no wider than the width,
/// the delimiter begins at exactly the width position of the output line.
pub proof fn lemma_alignment(left: Seq<char>, right: Seq<char>, d: Seq<char>, width: nat)
    requires
        left.len() <= width,
    ensures
        line_out(left, right, d, width).len() == width + d.len() + right.len(),
        line_out(left, right, d, width).subrange(width as int, width + d.len() as int) == d,
{
    assert(line_out(left, right, d, width).subrange(width as int, width + d.len() as int) =~= d);
}

/// Alignment of the whole output: with the width `aligr` computed, the
/// delimiter begins at the same position, the width itself, in every output
/// line.
pub proof fn lemma_alignment_all(
    lines: Seq<Seq<char>>,
    d: Seq<char>,
    taild: bool,
    pairs: Seq<(Seq<char>, Seq<char>)>,
    width: nat,
)
    requires
        aligr_post(lines, d, taild, pairs, width),
    ensures
        forall|k: int|
            0 <= k < pairs.len() ==> #[trigger] line_out(pairs[k].0, pairs[k].1, d, width).subrange(
                width as int,
                width + d.len() as int,
            ) == d,
{
    lemma_max_width(pairs);
    assert forall|k: int|
        0 <= k < pairs.len() implies #[trigger] line_out(
        pairs[k].0,
        pairs[k].1,
        d,
        width,
    ).subrange(width as int, width + d.len() as int) == d by {
        lemma_alignment(pairs[k].0, pairs[k].1, d, width);
    }
}

/// Idempotence under re-run: given the same lines, delimiter and mode, any
/// two results of the pass render to the identical output text.
pub proof fn lemma_output_deterministic(
    lines: Seq<Seq<char>>,
    d: Seq<char>,
    taild: bool,
    pairs1: Seq<(Seq<char>, Seq<char>)>,
    width1: nat,
    pairs2: Seq<(Seq<char>, Seq<char>)>,
    width2: nat,
)
    requires
        aligr_post(lines, d, taild, pairs1, width1),
        aligr_post(lines, d, taild, pairs2, width2),
    ensures
        rendered_all(pairs1, d, width1) == rendered_all(pairs2, d, width2),
{
    crate::align::lemma_aligr_deterministic(lines, d, taild, pairs1, width1, pairs2, width2);
}

} // verus!
