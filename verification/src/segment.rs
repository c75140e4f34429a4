//! Grapheme-cluster segmentation.
//!
//! All user-facing positions and lengths count extended grapheme clusters,
//! not code points and not bytes. The segmentation itself is outside work;
//! its result is named by [`graphemes_of`], and everything the rest of the
//! crate needs is derived from the facts stated at the one call site.

use unicode_segmentation::UnicodeSegmentation;
use vstd::prelude::*;
use vstd::string::StrSliceExecFns;

verus! {

/// The extended grapheme clusters of a character sequence, in order.
pub uninterp spec fn graphemes_of(s: Seq<char>) -> Seq<Seq<char>>;

/// Relies on unicode_segmentation's `UnicodeSegmentation::graphemes` with
/// extended clusters: the segmentation depends on the characters alone, the
/// clusters are nonempty, and they concatenate back to the input.
#[verifier::external_body]
pub(crate) fn split_graphemes(s: &str) -> (r: Vec<String>)
    ensures
        r@.map_values(|g: String| g@) == graphemes_of(s@),
        r@.map_values(|g: String| g@).flatten() == s@,
        forall|i: int| 0 <= i < r@.len() ==> r@[i]@.len() > 0,
{
    s.graphemes(true).map(|g| g.to_string()).collect()
}

/// A sequence of sequences grows its flattened length by the last part.
pub proof fn lemma_flatten_push(g: Seq<Seq<char>>, part: Seq<char>)
    ensures
        (g.push(part)).flatten() == g.flatten() + part,
    decreases g.len(),
{
    if g.len() == 0 {
        assert(g.push(part).flatten() =~= g.push(part)[0] + g.push(part).drop_first().flatten());
        assert(g.push(part).drop_first() =~= Seq::<Seq<char>>::empty());
        assert(g.push(part).flatten() =~= part);
        assert(g.flatten() + part =~= part);
    } else {
        assert(g.push(part).drop_first() =~= g.drop_first().push(part));
        lemma_flatten_push(g.drop_first(), part);
        assert(g.push(part).flatten() =~= g.push(part)[0] + g.push(part).drop_first().flatten());
        assert(g.push(part)[0] == g[0]);
        assert(g.flatten() == g[0] + g.drop_first().flatten());
        assert(g[0] + (g.drop_first().flatten() + part) =~= (g[0] + g.drop_first().flatten())
            + part);
    }
}

/// Flattening the first `k + 1` parts appends part `k` to the first `k`.
pub proof fn lemma_flatten_take_succ(g: Seq<Seq<char>>, k: int)
    requires
        0 <= k < g.len(),
    ensures
        g.take(k + 1).flatten() == g.take(k).flatten() + g[k],
{
    assert(g.take(k + 1) =~= g.take(k).push(g[k]));
    lemma_flatten_push(g.take(k), g[k]);
}

/// The whole flattening splits at any part boundary.
pub proof fn lemma_flatten_split(g: Seq<Seq<char>>, k: int)
    requires
        0 <= k <= g.len(),
    ensures
        g.flatten() == g.take(k).flatten() + g.skip(k).flatten(),
    decreases g.len() - k,
{
    if k == g.len() {
        assert(g.take(k) =~= g);
        assert(g.skip(k) =~= Seq::<Seq<char>>::empty());
        assert(g.take(k).flatten() + g.skip(k).flatten() =~= g.flatten());
    } else {
        lemma_flatten_split(g, k + 1);
        lemma_flatten_take_succ(g, k);
        assert(g.skip(k) =~= g.skip(k + 1).insert(0, g[k]));
        assert(g.skip(k).drop_first() =~= g.skip(k + 1));
        assert(g.skip(k).flatten() == g[k] + g.skip(k + 1).flatten());
        assert((g.take(k).flatten() + g[k]) + g.skip(k + 1).flatten() =~= g.take(k).flatten() + (
        g[k] + g.skip(k + 1).flatten()));
    }
}

/// A prefix of the parts never flattens to more than the whole.
pub proof fn lemma_flatten_take_le(g: Seq<Seq<char>>, k: int)
    requires
        0 <= k <= g.len(),
    ensures
        g.take(k).flatten().len() <= g.flatten().len(),
{
    lemma_flatten_split(g, k);
}

/// A longer prefix of the parts never flattens to less.
pub proof fn lemma_flatten_take_mono(g: Seq<Seq<char>>, p: int, q: int)
    requires
        0 <= p <= q <= g.len(),
    ensures
        g.take(p).flatten().len() <= g.take(q).flatten().len(),
{
    assert(g.take(q).take(p) =~= g.take(p));
    lemma_flatten_take_le(g.take(q), p);
}

/// With every part nonempty, there are no more parts than characters.
pub proof fn lemma_parts_le_flat_len(g: Seq<Seq<char>>)
    requires
        forall|i: int| 0 <= i < g.len() ==> g[i].len() > 0,
    ensures
        g.len() <= g.flatten().len(),
    decreases g.len(),
{
    if g.len() > 0 {
        assert(g.drop_last() =~= g.take(g.len() - 1));
        lemma_flatten_take_succ(g, g.len() - 1);
        assert(g.take(g.len() as int) =~= g);
        lemma_parts_le_flat_len(g.drop_last());
    }
}

/// The character offset of the grapheme boundary before part `upto`: the
/// flattened length of the first `upto` parts of `gs`.
pub(crate) fn prefix_chars(gs: &Vec<String>, upto: usize) -> (r: usize)
    requires
        upto <= gs@.len(),
        gs@.map_values(|g: String| g@).flatten().len() <= usize::MAX,
    ensures
        r == gs@.map_values(|g: String| g@).take(upto as int).flatten().len(),
{
    let ghost gv = gs@.map_values(|g: String| g@);
    let mut acc: usize = 0;
    let mut i: usize = 0;
    proof {
        assert(gv.take(0).flatten() =~= Seq::<char>::empty());
    }
    while i < upto
        invariant
            i <= upto <= gv.len(),
            gv == gs@.map_values(|g: String| g@),
            gv.flatten().len() <= usize::MAX,
            acc == gv.take(i as int).flatten().len(),
        decreases upto - i,
    {
        let part_chars = gs[i].as_str().unicode_len();
        proof {
            lemma_flatten_take_succ(gv, i as int);
            lemma_flatten_take_le(gv, i + 1);
            assert(gv[i as int] == gs@[i as int]@);
        }
        acc = acc + part_chars;
        i = i + 1;
    }
    acc
}

} // verus!
