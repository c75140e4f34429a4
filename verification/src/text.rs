//! The Fugue text replica.
//!
//! One replica holds the block store (sorted by identifier — the document
//! order), the rendered buffer, the Lamport clock, the client identifier,
//! and the position cache. Local inserts and deletes edit the buffer at the
//! user's grapheme position and record blocks and tombstones in the store;
//! merge joins a remote store in and rebuilds the buffer from the store.

use crate::block::{Block, BlockC, clone_opt_id, opt_view};
use crate::buffer::{
    rope_clone, rope_from_str, rope_insert, rope_len_chars, rope_new, rope_remove, rope_text,
    rope_to_string,
};
use crate::clock::LamportClock;
use crate::errors::TextError;
use crate::node::{NodeId, NodeIdV, id_lt, lemma_id_lt_trichotomy, lemma_id_lt_trans};
use crate::segment::{
    graphemes_of, lemma_flatten_split, lemma_flatten_take_le, lemma_flatten_take_mono,
    prefix_chars, split_graphemes,
};
use crate::store::{
    delete_hits, delete_result, glen_of, has_id, hit_ids_upto, is_merge_of, join_block,
    lemma_glen_prefix_agree, lemma_live_start_mono, lemma_map_join_insert_right,
    lemma_max_clock_ge, lemma_merge_commutative, lemma_resolve_at_empty, lemma_resolve_at_end,
    lemma_resolve_at_span, lemma_sorted_distinct, lemma_sorted_insert, lemma_sorted_update,
    lemma_to_map_at, lemma_to_map_dom, lemma_to_map_insert, lemma_to_map_update, live_len,
    live_start, lives, map_join, max_clock, render_of, resolve_at, seq_glen_prefix, store_sorted,
    stores_compatible, to_map,
};
use vstd::prelude::*;
use vstd::string::StringExecFns;

verus! {

/// The view of a block sequence: each block's mathematical content.
pub open spec fn views_of(s: Seq<Block>) -> Seq<BlockC> {
    s.map_values(|b: Block| b@)
}

/// The grapheme start position of block `i`, from the stored grapheme
/// counts: the summed counts of the live blocks before it in store order.
pub open spec fn live_start_b(s: Seq<Block>, i: int) -> nat
    decreases i,
{
    if i <= 0 {
        0
    } else {
        live_start_b(s, i - 1) + if s[i - 1].deleted {
            0
        } else {
            s[i - 1].grapheme_len as nat
        }
    }
}

/// The indices of the live blocks, in store order.
pub open spec fn live_indices(s: Seq<Block>) -> Seq<int>
    decreases s.len(),
{
    if s.len() == 0 {
        Seq::empty()
    } else if s.last().deleted {
        live_indices(s.drop_last())
    } else {
        live_indices(s.drop_last()).push(s.len() - 1)
    }
}

/// A Fugue text replica.
pub struct FugueText {
    rope: ropey::Rope,
    blocks: Vec<Block>,
    clock: LamportClock,
    client_id: String,
    cache_valid: bool,
    cached_blocks: Vec<usize>,
}

impl FugueText {
    /// The replica's store: the mathematical content of its blocks, in
    /// store order.
    pub closed spec fn crdt_seq(&self) -> Seq<BlockC> {
        views_of(self.blocks@)
    }

    /// The rendered buffer's characters.
    pub closed spec fn text_view(&self) -> Seq<char> {
        rope_text(self.rope)
    }

    /// The document length: the buffer's grapheme count.
    pub open spec fn spec_len(&self) -> nat {
        graphemes_of(self.text_view()).len()
    }

    /// The Lamport clock's value.
    pub closed spec fn spec_clock(&self) -> u64 {
        self.clock.spec_value()
    }

    /// The replica's client identifier.
    pub closed spec fn client(&self) -> Seq<char> {
        self.client_id@
    }

    /// Whether the position cache is marked valid.
    pub closed spec fn cache_is_valid(&self) -> bool {
        self.cache_valid
    }

    /// The cached grapheme start position stored on block `i`.
    pub closed spec fn cached_start(&self, i: int) -> Option<usize> {
        self.blocks@[i].cached_start_pos
    }

    /// The total grapheme length of the live blocks, from the stored
    /// grapheme counts.
    pub closed spec fn live_total(&self) -> nat {
        live_start_b(self.blocks@, self.blocks@.len() as int)
    }

    /// The position cache is coherent: it lists exactly the live blocks in
    /// store order, and each listed block's cached start position is the
    /// summed grapheme length of the live blocks before it.
    spec fn cache_ok(&self) -> bool {
        &&& self.cached_blocks@.map_values(|u: usize| u as int) == live_indices(self.blocks@)
        &&& forall|k: int|
            0 <= k < self.cached_blocks@.len() ==> #[trigger] cache_entry_ok(
                self.blocks@,
                self.cached_blocks@,
                k,
            )
    }

    /// A well-formed replica: the store is strictly sorted by identifier,
    /// every block's grapheme count matches its text, the clock bounds
    /// every block's clock, and a valid cache is coherent.
    pub closed spec fn wf(&self) -> bool {
        &&& store_sorted(self.crdt_seq())
        &&& forall|i: int| 0 <= i < self.blocks@.len() ==> (#[trigger] self.blocks@[i]).wf()
        &&& forall|i: int|
            0 <= i < self.blocks@.len() ==> (#[trigger] self.blocks@[i]).id@.clock
                <= self.clock.spec_value()
        &&& self.cache_valid ==> self.cache_ok()
    }
}

/// Cache entry `k` carries the right start position: the summed grapheme
/// length of the live blocks before block `ix[k]` in store order.
pub open spec fn cache_entry_ok(s: Seq<Block>, ix: Seq<usize>, k: int) -> bool {
    s[ix[k] as int].cached_start_pos matches Some(st) && st as nat == live_start_b(
        s,
        ix[k] as int,
    )
}

/// Two blocks that differ at most in their cached start position.
pub open spec fn same_but_cache(a: Block, b: Block) -> bool {
    &&& a.id == b.id
    &&& a.text == b.text
    &&& a.grapheme_len == b.grapheme_len
    &&& a.left_origin == b.left_origin
    &&& a.right_origin == b.right_origin
    &&& a.deleted == b.deleted
}

/// Stored start positions only read the entries below the bound.
proof fn lemma_live_start_b_agree(a: Seq<Block>, b: Seq<Block>, i: int)
    requires
        forall|j: int|
            0 <= j < i ==> 0 <= j < a.len() && 0 <= j < b.len() && a[j].deleted == b[j].deleted
                && a[j].grapheme_len == b[j].grapheme_len,
    ensures
        live_start_b(a, i) == live_start_b(b, i),
    decreases i,
{
    if i > 0 {
        assert forall|j: int| 0 <= j < i - 1 implies 0 <= j < a.len() && 0 <= j < b.len() && a[j].deleted
            == b[j].deleted && a[j].grapheme_len == b[j].grapheme_len by {
            assert(0 <= j < i);
        }
        lemma_live_start_b_agree(a, b, i - 1);
    }
}

/// Stored start positions never decrease along the store.
proof fn lemma_live_start_b_mono(s: Seq<Block>, i: int, j: int)
    requires
        0 <= i <= j,
    ensures
        live_start_b(s, i) <= live_start_b(s, j),
    decreases j - i,
{
    if i < j {
        lemma_live_start_b_mono(s, i, j - 1);
    }
}

/// On a store of well-formed blocks, the stored grapheme counts give the
/// same start positions as the block texts.
proof fn lemma_live_start_b_is_live_start(s: Seq<Block>, i: int)
    requires
        forall|j: int| 0 <= j < s.len() ==> (#[trigger] s[j]).wf(),
        0 <= i <= s.len(),
    ensures
        live_start_b(s, i) == live_start(views_of(s), i),
    decreases i,
{
    if i > 0 {
        lemma_live_start_b_is_live_start(s, i - 1);
        assert(views_of(s)[i - 1] == s[i - 1]@);
        assert(s[i - 1].wf());
        assert(glen_of(s[i - 1]@) == s[i - 1].grapheme_len as nat);
    }
}

/// What the live index list guarantees: every entry is a live block, the
/// entries increase strictly, and every live block is listed.
proof fn lemma_live_indices_props(s: Seq<Block>)
    ensures
        forall|k: int|
            0 <= k < live_indices(s).len() ==> 0 <= #[trigger] live_indices(s)[k] < s.len()
                && !s[live_indices(s)[k]].deleted,
        forall|k1: int, k2: int|
            0 <= k1 < k2 < live_indices(s).len() ==> live_indices(s)[k1] < live_indices(s)[k2],
        forall|i: int|
            0 <= i < s.len() && !(#[trigger] s[i]).deleted ==> exists|k: int|
                0 <= k < live_indices(s).len() && live_indices(s)[k] == i,
    decreases s.len(),
{
    if s.len() > 0 {
        lemma_live_indices_props(s.drop_last());
        let t = s.drop_last();
        assert forall|k: int| 0 <= k < live_indices(t).len() implies 0 <= #[trigger] live_indices(
            t,
        )[k] < t.len() && !t[live_indices(t)[k]].deleted by {}
        assert forall|k: int|
            0 <= k < live_indices(s).len() implies 0 <= #[trigger] live_indices(s)[k] < s.len()
            && !s[live_indices(s)[k]].deleted by {
            if !s.last().deleted && k == live_indices(s).len() - 1 {
            } else {
                assert(live_indices(s)[k] == live_indices(t)[k]);
                assert(t[live_indices(t)[k]] == s[live_indices(s)[k]]);
            }
        }
        assert forall|i: int|
            0 <= i < s.len() && !(#[trigger] s[i]).deleted implies exists|k: int|
            0 <= k < live_indices(s).len() && live_indices(s)[k] == i by {
            if i == s.len() - 1 {
                assert(live_indices(s)[live_indices(s).len() - 1] == i);
            } else {
                assert(t[i] == s[i]);
                let k = choose|k: int| 0 <= k < live_indices(t).len() && live_indices(t)[k] == i;
                assert(live_indices(s)[k] == i);
            }
        }
    }
}

/// The live index list and the live block sequence correspond entry by
/// entry, and the cached start of entry `k` is the summed grapheme length
/// of the live entries before it.
proof fn lemma_live_indices_spans(s: Seq<Block>)
    requires
        forall|j: int| 0 <= j < s.len() ==> (#[trigger] s[j]).wf(),
    ensures
        live_indices(s).len() == lives(views_of(s)).len(),
        forall|k: int|
            0 <= k < live_indices(s).len() ==> #[trigger] lives(views_of(s))[k] == views_of(
                s,
            )[live_indices(s)[k]],
        forall|k: int|
            0 <= k < live_indices(s).len() ==> live_start_b(s, #[trigger] live_indices(s)[k])
                == seq_glen_prefix(lives(views_of(s)), k),
        live_start_b(s, s.len() as int) == seq_glen_prefix(
            lives(views_of(s)),
            lives(views_of(s)).len() as int,
        ),
    decreases s.len(),
{
    let v = views_of(s);
    if s.len() == 0 {
        assert(v =~= Seq::<BlockC>::empty());
    } else {
        let t = s.drop_last();
        let tv = views_of(t);
        assert(tv =~= v.drop_last());
        assert forall|j: int| 0 <= j < t.len() implies (#[trigger] t[j]).wf() by {
            assert(t[j] == s[j]);
        }
        lemma_live_indices_spans(t);
        lemma_live_indices_props(t);
        let n = s.len() as int;
        // start positions agree on the shared prefix
        assert forall|i: int| 0 <= i <= n - 1 implies live_start_b(s, i) == live_start_b(
            t,
            i,
        ) by {
            assert forall|j: int|
                0 <= j < i implies 0 <= j < s.len() && 0 <= j < t.len() && s[j].deleted
                == t[j].deleted && s[j].grapheme_len == t[j].grapheme_len by {
                assert(t[j] == s[j]);
            }
            lemma_live_start_b_agree(s, t, i);
        }
        // glen prefixes agree on the shared live prefix
        assert forall|k: int| 0 <= k <= lives(tv).len() implies seq_glen_prefix(lives(tv), k)
            == seq_glen_prefix(lives(v), k) by {
            if s.last().deleted {
                assert(lives(v) == lives(tv));
            } else {
                assert(lives(v) == lives(tv).push(v.last()));
                assert forall|j: int|
                    0 <= j < k implies 0 <= j < lives(tv).len() && 0 <= j < lives(v).len()
                    && lives(tv)[j] == lives(v)[j] by {
                    assert(lives(v)[j] == lives(tv)[j]);
                }
                lemma_glen_prefix_agree(lives(tv), lives(v), k);
            }
        }
        if s.last().deleted {
            assert(lives(v) == lives(tv));
            assert(live_indices(s) == live_indices(t));
            assert forall|k: int|
                0 <= k < live_indices(s).len() implies #[trigger] lives(v)[k]
                == v[live_indices(s)[k]] by {
                assert(lives(tv)[k] == tv[live_indices(t)[k]]);
                assert(v[live_indices(t)[k]] == tv[live_indices(t)[k]]);
            }
            assert(live_start_b(s, n) == live_start_b(s, n - 1));
        } else {
            assert(lives(v) == lives(tv).push(v.last()));
            assert(live_indices(s) == live_indices(t).push(n - 1));
            assert forall|k: int|
                0 <= k < live_indices(s).len() implies #[trigger] lives(v)[k]
                == v[live_indices(s)[k]] by {
                if k < live_indices(t).len() {
                    assert(lives(v)[k] == lives(tv)[k]);
                    assert(lives(tv)[k] == tv[live_indices(t)[k]]);
                    assert(v[live_indices(t)[k]] == tv[live_indices(t)[k]]);
                    assert(live_indices(s)[k] == live_indices(t)[k]);
                } else {
                    assert(lives(v)[k] == v.last());
                    assert(live_indices(s)[k] == n - 1);
                }
            }
            assert forall|k: int|
                0 <= k < live_indices(s).len() implies live_start_b(
                s,
                #[trigger] live_indices(s)[k],
            ) == seq_glen_prefix(lives(v), k) by {
                if k < live_indices(t).len() {
                    assert(live_indices(s)[k] == live_indices(t)[k]);
                    assert(live_start_b(t, live_indices(t)[k]) == seq_glen_prefix(lives(tv), k));
                } else {
                    assert(live_indices(s)[k] == n - 1);
                    assert(live_start_b(s, n - 1) == live_start_b(t, n - 1));
                    assert(live_start_b(t, t.len() as int) == seq_glen_prefix(
                        lives(tv),
                        lives(tv).len() as int,
                    ));
                }
            }
            // total: one more live block
            assert(live_start_b(s, n) == live_start_b(s, n - 1) + s[n - 1].grapheme_len);
            assert(s[n - 1].wf());
            assert(v[n - 1] == s[n - 1]@);
            assert(seq_glen_prefix(lives(v), lives(v).len() as int) == seq_glen_prefix(
                lives(v),
                lives(v).len() - 1,
            ) + glen_of(lives(v).last()));
        }
    }
}

/// Live indices depend only on the tombstone flags.
proof fn lemma_live_indices_agree(a: Seq<Block>, b: Seq<Block>)
    requires
        a.len() == b.len(),
        forall|j: int| 0 <= j < a.len() ==> a[j].deleted == b[j].deleted,
    ensures
        live_indices(a) == live_indices(b),
    decreases a.len(),
{
    if a.len() > 0 {
        assert forall|j: int| 0 <= j < a.drop_last().len() implies a.drop_last()[j].deleted
            == b.drop_last()[j].deleted by {
            assert(a.drop_last()[j] == a[j]);
            assert(b.drop_last()[j] == b[j]);
        }
        lemma_live_indices_agree(a.drop_last(), b.drop_last());
        assert(a[a.len() - 1].deleted == b[b.len() - 1].deleted);
    }
}

/// Extending the prefix by one block extends its live index list exactly
/// when the block is live.
proof fn lemma_live_indices_take_succ(s: Seq<Block>, i: int)
    requires
        0 <= i < s.len(),
    ensures
        live_indices(s.take(i + 1)) == if s[i].deleted {
            live_indices(s.take(i))
        } else {
            live_indices(s.take(i)).push(i)
        },
{
    assert(s.take(i + 1).drop_last() =~= s.take(i));
    assert(s.take(i + 1).last() == s[i]);
}

impl FugueText {
    /// Create a new empty replica for the given client.
    pub fn new(client_id: String) -> (t: Self)
        ensures
            t.wf(),
            t.crdt_seq() == Seq::<BlockC>::empty(),
            t.text_view() == Seq::<char>::empty(),
            t.spec_clock() == 0,
            t.client() == client_id@,
            t.cache_is_valid(),
            t.live_total() == 0,
    {
        let t = FugueText {
            rope: rope_new(),
            blocks: Vec::new(),
            clock: LamportClock::new(),
            client_id,
            cache_valid: true,
            cached_blocks: Vec::new(),
        };
        proof {
            assert(t.crdt_seq() =~= Seq::<BlockC>::empty());
            assert(t.cached_blocks@.map_values(|u: usize| u as int) =~= live_indices(t.blocks@));
        }
        t
    }

    /// The number of grapheme clusters in the visible text: what a user
    /// perceives as the document length.
    pub fn len(&self) -> (n: usize)
        ensures
            n == self.spec_len(),
    {
        let s = rope_to_string(&self.rope);
        let gs = split_graphemes(s.as_str());
        proof {
            assert(gs@.map_values(|g: String| g@).len() == gs@.len());
        }
        gs.len()
    }

    /// Whether the visible text is empty.
    pub fn is_empty(&self) -> (r: bool)
        ensures
            r <==> self.spec_len() == 0,
    {
        self.len() == 0
    }

    /// The visible text, deleted blocks excluded.
    pub fn to_string(&self) -> (s: String)
        ensures
            s@ == self.text_view(),
    {
        rope_to_string(&self.rope)
    }

    /// The replica's client identifier.
    pub fn client_id(&self) -> (r: &str)
        ensures
            r@ == self.client(),
    {
        self.client_id.as_str()
    }

    /// The current Lamport clock value.
    pub fn clock(&self) -> (v: u64)
        ensures
            v == self.spec_clock(),
    {
        self.clock.value()
    }

    /// How many blocks the store holds, tombstones included.
    pub fn block_count(&self) -> (n: usize)
        ensures
            n == self.crdt_seq().len(),
    {
        self.blocks.len()
    }

    /// The stored blocks, in store order.
    pub fn blocks(&self) -> (r: &Vec<Block>)
        ensures
            views_of(r@) == self.crdt_seq(),
    {
        &self.blocks
    }

    /// The total grapheme length of the live blocks in the store, or
    /// `None` if it does not fit in `usize`. (After a merge this total may
    /// differ from [`Self::len`] until the buffer and store agree again.)
    pub fn live_grapheme_total(&self) -> (r: Option<usize>)
        requires
            self.wf(),
        ensures
            match r {
                Some(n) => n == self.live_total() && n == live_len(self.crdt_seq()),
                None => self.live_total() > usize::MAX,
            },
    {
        proof {
            lemma_live_start_b_is_live_start(self.blocks@, self.blocks@.len() as int);
        }
        let mut acc: usize = 0;
        let mut i: usize = 0;
        while i < self.blocks.len()
            invariant
                i <= self.blocks@.len(),
                acc == live_start_b(self.blocks@, i as int),
            decreases self.blocks@.len() - i,
        {
            if !self.blocks[i].deleted {
                let g = self.blocks[i].grapheme_len;
                if acc > usize::MAX - g {
                    proof {
                        lemma_live_start_b_mono(self.blocks@, i + 1, self.blocks@.len() as int);
                    }
                    return None;
                }
                acc = acc + g;
            }
            i = i + 1;
        }
        Some(acc)
    }

    /// Rebuild the rendered buffer from the store: concatenate the live
    /// blocks' text in store order and replace the rope. Marks the
    /// position cache invalid.
    fn rebuild_rendered_buffer(&mut self)
        ensures
            final(self).blocks@ == old(self).blocks@,
            final(self).crdt_seq() == old(self).crdt_seq(),
            final(self).text_view() == render_of(old(self).crdt_seq()),
            !final(self).cache_is_valid(),
            final(self).spec_clock() == old(self).spec_clock(),
            final(self).client() == old(self).client(),
            final(self).live_total() == old(self).live_total(),
    {
        let mut text = String::new();
        let mut i: usize = 0;
        proof {
            assert(self.crdt_seq().take(0) =~= Seq::<BlockC>::empty());
        }
        while i < self.blocks.len()
            invariant
                i <= self.blocks@.len(),
                text@ == render_of(self.crdt_seq().take(i as int)),
            decreases self.blocks@.len() - i,
        {
            proof {
                assert(self.crdt_seq().take(i + 1).drop_last() =~= self.crdt_seq().take(i as int));
                assert(self.crdt_seq().take(i + 1).last() == self.crdt_seq()[i as int]);
                assert(self.crdt_seq()[i as int] == self.blocks@[i as int]@);
            }
            if !self.blocks[i].deleted {
                text.append(self.blocks[i].text.as_str());
            }
            i = i + 1;
        }
        proof {
            assert(self.crdt_seq().take(self.blocks@.len() as int) =~= self.crdt_seq());
        }
        self.rope = rope_from_str(text.as_str());
        self.cache_valid = false;
    }

    /// Rebuild the position cache in one pass over the store: assign every
    /// block its running grapheme start position, and list the live blocks
    /// in order. Marks the cache valid.
    fn rebuild_position_cache(&mut self)
        requires
            old(self).wf(),
            old(self).live_total() <= usize::MAX,
        ensures
            final(self).wf(),
            final(self).blocks@.len() == old(self).blocks@.len(),
            forall|i: int|
                0 <= i < old(self).blocks@.len() ==> same_but_cache(
                    #[trigger] old(self).blocks@[i],
                    final(self).blocks@[i],
                ),
            final(self).crdt_seq() == old(self).crdt_seq(),
            final(self).live_total() == old(self).live_total(),
            final(self).cache_is_valid(),
            final(self).cache_ok(),
            forall|i: int|
                0 <= i < final(self).blocks@.len()
                    ==> ((#[trigger] final(self).blocks@[i]).cached_start_pos matches Some(st)
                    && st as nat == live_start_b(final(self).blocks@, i)),
            final(self).text_view() == old(self).text_view(),
            final(self).spec_clock() == old(self).spec_clock(),
            final(self).client() == old(self).client(),
    {
        let ghost orig = self.blocks@;
        let n = self.blocks.len();
        self.cached_blocks.clear();
        let mut current: usize = 0;
        let mut i: usize = 0;
        proof {
            assert(self.cached_blocks@.map_values(|u: usize| u as int) =~= live_indices(
                orig.take(0),
            ));
        }
        while i < n
            invariant
                self.rope == old(self).rope,
                self.clock == old(self).clock,
                self.client_id == old(self).client_id,
                i <= n == self.blocks@.len() == orig.len(),
                forall|j: int|
                    0 <= j < orig.len() ==> same_but_cache(
                        #[trigger] orig[j],
                        self.blocks@[j],
                    ),
                forall|j: int| i <= j < orig.len() ==> self.blocks@[j] == orig[j],
                forall|j: int|
                    0 <= j < i ==> ((#[trigger] self.blocks@[j]).cached_start_pos matches Some(st)
                        && st as nat == live_start_b(orig, j)),
                current == live_start_b(orig, i as int),
                live_start_b(orig, orig.len() as int) <= usize::MAX,
                self.cached_blocks@.map_values(|u: usize| u as int) == live_indices(
                    orig.take(i as int),
                ),
                forall|k: int|
                    0 <= k < self.cached_blocks@.len() ==> #[trigger] cache_entry_ok(
                        self.blocks@,
                        self.cached_blocks@,
                        k,
                    ),
                forall|k: int|
                    0 <= k < self.cached_blocks@.len() ==> self.cached_blocks@[k] < i,
            decreases n - i,
        {
            proof {
                lemma_live_start_b_mono(orig, i + 1, orig.len() as int);
                lemma_live_indices_take_succ(orig, i as int);
                assert forall|j: int| 0 <= j < i implies live_start_b(self.blocks@, j)
                    == live_start_b(orig, j) by {
                    lemma_live_start_b_agree(self.blocks@, orig, j);
                }
            }
            let ghost pre_blocks = self.blocks@;
            let ghost pre_cached = self.cached_blocks@;
            let live = !self.blocks[i].deleted;
            self.blocks[i].cached_start_pos = Some(current);
            proof {
                assert(self.blocks@ == pre_blocks.update(i as int, self.blocks@[i as int]));
                assert(same_but_cache(orig[i as int], self.blocks@[i as int]));
                assert forall|k: int|
                    0 <= k < self.cached_blocks@.len() implies #[trigger] cache_entry_ok(
                    self.blocks@,
                    self.cached_blocks@,
                    k,
                ) by {
                    assert(cache_entry_ok(pre_blocks, pre_cached, k));
                    assert(self.cached_blocks@[k] < i);
                    assert(self.blocks@[self.cached_blocks@[k] as int]
                        == pre_blocks[self.cached_blocks@[k] as int]);
                    lemma_live_start_b_agree(
                        self.blocks@,
                        pre_blocks,
                        self.cached_blocks@[k] as int,
                    );
                }
            }
            if live {
                let ghost pre2_cached = self.cached_blocks@;
                self.cached_blocks.push(i);
                proof {
                    assert(self.cached_blocks@.map_values(|u: usize| u as int) =~= pre2_cached
                        .map_values(|u: usize| u as int).push(i as int));
                    assert forall|k: int|
                        0 <= k < self.cached_blocks@.len() implies #[trigger] cache_entry_ok(
                        self.blocks@,
                        self.cached_blocks@,
                        k,
                    ) by {
                        if k < self.cached_blocks@.len() - 1 {
                            assert(cache_entry_ok(self.blocks@, pre2_cached, k));
                            assert(self.cached_blocks@[k] == pre2_cached[k]);
                        } else {
                            assert(self.cached_blocks@[k] == i);
                            lemma_live_start_b_agree(self.blocks@, orig, i as int);
                        }
                    }
                }
                current = current + self.blocks[i].grapheme_len;
            } else {
                proof {
                    lemma_live_start_b_agree(self.blocks@, orig, i as int);
                }
            }
            i = i + 1;
        }
        self.cache_valid = true;
        proof {
            assert(orig.take(n as int) =~= orig);
            lemma_live_indices_agree(orig, self.blocks@);
            assert forall|j: int| 0 <= j <= orig.len() implies live_start_b(self.blocks@, j)
                == live_start_b(orig, j) by {
                lemma_live_start_b_agree(self.blocks@, orig, j);
            }
            assert(self.crdt_seq() =~= views_of(orig));
            assert forall|j: int| 0 <= j < self.blocks@.len() implies (#[trigger] self.blocks@[j]).wf() by {
                assert(same_but_cache(orig[j], self.blocks@[j]));
                assert(orig[j].wf());
            }
            assert forall|j: int|
                0 <= j < self.blocks@.len() implies (#[trigger] self.blocks@[j]).id@.clock
                <= self.clock.spec_value() by {
                assert(same_but_cache(orig[j], self.blocks@[j]));
            }
        }
    }
}


/// Locate an identifier in a sorted block vector: the position holding it,
/// or the position where it belongs.
fn find_slot(blocks: &Vec<Block>, id: &NodeId) -> (r: Result<usize, usize>)
    requires
        store_sorted(views_of(blocks@)),
    ensures
        match r {
            Ok(j) => j < blocks@.len() && blocks@[j as int].id@ == id@,
            Err(j) => {
                &&& j <= blocks@.len()
                &&& !has_id(views_of(blocks@), id@)
                &&& forall|i: int|
                    0 <= i < j ==> id_lt(#[trigger] views_of(blocks@)[i].id, id@)
                &&& forall|i: int|
                    j <= i < blocks@.len() ==> id_lt(id@, #[trigger] views_of(blocks@)[i].id)
            },
        },
{
    let ghost v = views_of(blocks@);
    let mut lo: usize = 0;
    let mut hi: usize = blocks.len();
    while lo < hi
        invariant
            lo <= hi <= blocks@.len(),
            v == views_of(blocks@),
            store_sorted(v),
            forall|i: int| 0 <= i < lo ==> id_lt(#[trigger] v[i].id, id@),
            forall|i: int| hi <= i < v.len() ==> id_lt(id@, #[trigger] v[i].id),
        decreases hi - lo,
    {
        let mid = lo + (hi - lo) / 2;
        let c = crate::node::node_cmp(&blocks[mid].id, id);
        proof {
            assert(v[mid as int] == blocks@[mid as int]@);
        }
        if c == 0 {
            return Ok(mid);
        } else if c < 0 {
            proof {
                assert forall|i: int| 0 <= i < mid + 1 implies id_lt(#[trigger] v[i].id, id@) by {
                    if i < mid {
                        lemma_id_lt_trans(v[i].id, v[mid as int].id, id@);
                    }
                }
            }
            lo = mid + 1;
        } else {
            proof {
                assert forall|i: int| mid <= i < v.len() implies id_lt(id@, #[trigger] v[i].id) by {
                    if i > mid {
                        lemma_id_lt_trans(id@, v[mid as int].id, v[i].id);
                    }
                }
            }
            hi = mid;
        }
    }
    proof {
        assert forall|i: int| 0 <= i < v.len() implies v[i].id != id@ by {
            lemma_id_lt_trichotomy(v[i].id, id@);
        }
        if has_id(v, id@) {
            let i = choose|i: int| 0 <= i < v.len() && v[i].id == id@;
            assert(false);
        }
    }
    Err(lo)
}

impl FugueText {
    /// How many cache entries there are: one per live block.
    spec fn cache_len(&self) -> nat {
        self.cached_blocks@.len() as nat
    }

    /// The store index cache entry `k` points at.
    fn entry_index(&self, k: usize) -> (idx: usize)
        requires
            self.wf(),
            self.cache_is_valid(),
            k < self.cache_len(),
        ensures
            idx < self.blocks@.len(),
            idx as int == live_indices(self.blocks@)[k as int],
            self.cache_len() == lives(self.crdt_seq()).len(),
            self.blocks@[idx as int]@ == lives(self.crdt_seq())[k as int],
    {
        proof {
            lemma_live_indices_spans(self.blocks@);
            lemma_live_indices_props(self.blocks@);
            assert(self.cached_blocks@.map_values(|u: usize| u as int)[k as int] == live_indices(
                self.blocks@,
            )[k as int]);
        }
        self.cached_blocks[k]
    }

    /// The cached grapheme start position of cache entry `k`.
    fn entry_start(&self, k: usize) -> (st: usize)
        requires
            self.wf(),
            self.cache_is_valid(),
            k < self.cache_len(),
        ensures
            st as nat == seq_glen_prefix(lives(self.crdt_seq()), k as int),
            self.cache_len() == lives(self.crdt_seq()).len(),
    {
        proof {
            lemma_live_indices_spans(self.blocks@);
            lemma_live_indices_props(self.blocks@);
            assert(cache_entry_ok(self.blocks@, self.cached_blocks@, k as int));
            assert(self.cached_blocks@.map_values(|u: usize| u as int)[k as int] == live_indices(
                self.blocks@,
            )[k as int]);
        }
        let idx = self.cached_blocks[k];
        match self.blocks[idx].cached_position() {
            Some(st) => st,
            None => {
                proof {
                    assert(false);
                }
                0
            },
        }
    }

    /// The grapheme length of the live block cache entry `k` points at.
    fn entry_glen(&self, k: usize) -> (n: usize)
        requires
            self.wf(),
            self.cache_is_valid(),
            k < self.cache_len(),
            self.live_total() <= usize::MAX,
        ensures
            n as nat == glen_of(lives(self.crdt_seq())[k as int]),
            seq_glen_prefix(lives(self.crdt_seq()), k as int) + n <= self.live_total(),
            self.cache_len() == lives(self.crdt_seq()).len(),
    {
        let idx = self.entry_index(k);
        proof {
            lemma_live_indices_spans(self.blocks@);
            lemma_live_indices_props(self.blocks@);
            assert(self.blocks@[idx as int].wf());
            assert(live_start_b(self.blocks@, idx as int) + self.blocks@[idx as int].grapheme_len
                == live_start_b(self.blocks@, idx + 1));
            lemma_live_start_b_mono(self.blocks@, idx + 1, self.blocks@.len() as int);
            assert(cache_entry_ok(self.blocks@, self.cached_blocks@, k as int));
        }
        self.blocks[idx].grapheme_count()
    }

    /// The identifier of the live block cache entry `k` points at.
    fn entry_id(&self, k: usize) -> (id: NodeId)
        requires
            self.wf(),
            self.cache_is_valid(),
            k < self.cache_len(),
        ensures
            id@ == lives(self.crdt_seq())[k as int].id,
    {
        let idx = self.entry_index(k);
        self.blocks[idx].id.clone()
    }

    /// Find the index of the live block whose grapheme span holds `pos`,
    /// by binary search over the cached start positions.
    fn find_span(&self, pos: usize) -> (k: usize)
        requires
            self.wf(),
            self.cache_is_valid(),
            self.cache_len() > 0,
            (pos as nat) < seq_glen_prefix(
                lives(self.crdt_seq()),
                lives(self.crdt_seq()).len() as int,
            ),
        ensures
            k < lives(self.crdt_seq()).len(),
            seq_glen_prefix(lives(self.crdt_seq()), k as int) <= pos as nat,
            (pos as nat) < seq_glen_prefix(lives(self.crdt_seq()), k as int + 1),
    {
        let ghost l = lives(self.crdt_seq());
        proof {
            lemma_live_indices_spans(self.blocks@);
        }
        let mut lo: usize = 0;
        let mut hi: usize = self.cached_blocks.len();
        while hi - lo > 1
            invariant
                lo < hi <= self.cache_len(),
                self.wf(),
                self.cache_is_valid(),
                l == lives(self.crdt_seq()),
                self.cache_len() == l.len(),
                seq_glen_prefix(l, lo as int) <= pos as nat,
                (pos as nat) < seq_glen_prefix(l, hi as int),
            decreases hi - lo,
        {
            let mid = lo + (hi - lo) / 2;
            let m_start = self.entry_start(mid);
            if pos < m_start {
                hi = mid;
            } else {
                lo = mid;
            }
        }
        lo
    }

    /// Resolve a grapheme position to its two origins: the identifiers of
    /// the visible neighbours a block inserted at `pos` anchors to. Rebuilds
    /// the position cache first if it is stale.
    #[verifier::rlimit(80)]
    fn find_origins(&mut self, pos: usize) -> (r: (Option<NodeId>, Option<NodeId>))
        requires
            old(self).wf(),
            old(self).live_total() <= usize::MAX,
        ensures
            final(self).wf(),
            final(self).cache_is_valid(),
            final(self).blocks@.len() == old(self).blocks@.len(),
            forall|i: int|
                0 <= i < old(self).blocks@.len() ==> same_but_cache(
                    #[trigger] old(self).blocks@[i],
                    final(self).blocks@[i],
                ),
            final(self).crdt_seq() == old(self).crdt_seq(),
            final(self).text_view() == old(self).text_view(),
            final(self).spec_clock() == old(self).spec_clock(),
            final(self).client() == old(self).client(),
            final(self).live_total() == old(self).live_total(),
            (opt_view(r.0), opt_view(r.1)) == resolve_at(old(self).crdt_seq(), pos as nat),
    {
        if !self.cache_valid {
            self.rebuild_position_cache();
        }
        let ghost l_store = old(self).crdt_seq();
        let ghost l = lives(self.crdt_seq());
        proof {
            lemma_live_indices_spans(self.blocks@);
        }
        let n_live = self.cached_blocks.len();
        if n_live == 0 {
            proof {
                lemma_resolve_at_empty(l_store, pos as nat);
            }
            return (None, None);
        }
        let last_start = self.entry_start(n_live - 1);
        let last_glen = self.entry_glen(n_live - 1);
        let total = last_start + last_glen;
        proof {
            assert(seq_glen_prefix(l, n_live - 1) + glen_of(l[n_live - 1]) == seq_glen_prefix(
                l,
                n_live as int,
            ));
        }
        if pos >= total {
            proof {
                lemma_resolve_at_end(l_store, pos as nat);
            }
            let left = Some(self.entry_id(n_live - 1));
            return (left, None);
        }
        let k = self.find_span(pos);
        proof {
            lemma_resolve_at_span(l_store, pos as nat, k as int);
        }
        let start_k = self.entry_start(k);
        if pos == start_k {
            let left = if k > 0 {
                Some(self.entry_id(k - 1))
            } else {
                None
            };
            let right = Some(self.entry_id(k));
            (left, right)
        } else {
            let left = Some(self.entry_id(k));
            let right = if k + 1 < n_live {
                Some(self.entry_id(k + 1))
            } else {
                None
            };
            (left, right)
        }
    }
}

/// Appending a block leaves the start positions of existing blocks alone.
proof fn lemma_live_start_b_push(s: Seq<Block>, b: Block, i: int)
    requires
        0 <= i <= s.len(),
    ensures
        live_start_b(s.push(b), i) == live_start_b(s, i),
{
    assert forall|j: int|
        0 <= j < i implies 0 <= j < s.push(b).len() && 0 <= j < s.len() && s.push(b)[j].deleted
        == s[j].deleted && s.push(b)[j].grapheme_len == s[j].grapheme_len by {
        assert(s.push(b)[j] == s[j]);
    }
    lemma_live_start_b_agree(s.push(b), s, i);
}

impl FugueText {
    /// Append a freshly minted block to the store (its identifier sorts
    /// after every stored one) and patch the position cache: an append at
    /// the end of the live text extends the cache in place, anything else
    /// marks it for rebuild.
    #[verifier::rlimit(80)]
    fn push_block_and_patch(&mut self, block: Block, position: usize)
        requires
            old(self).wf(),
            old(self).cache_is_valid(),
            old(self).live_total() <= usize::MAX,
            block.wf(),
            !block@.deleted,
            block.cached_start_pos is None,
            forall|i: int|
                0 <= i < old(self).crdt_seq().len() ==> id_lt(
                    #[trigger] old(self).crdt_seq()[i].id,
                    block@.id,
                ),
            block@.id.clock <= old(self).spec_clock(),
        ensures
            final(self).wf(),
            final(self).crdt_seq() == old(self).crdt_seq().push(block@),
            final(self).text_view() == old(self).text_view(),
            final(self).spec_clock() == old(self).spec_clock(),
            final(self).client() == old(self).client(),
            final(self).live_total() == old(self).live_total() + block.grapheme_len,
            final(self).cache_is_valid() <==> position == old(self).live_total(),
    {
        let mut block = block;
        let ghost pre_blocks = self.blocks@;
        let n_live = self.cached_blocks.len();
        proof {
            lemma_live_indices_spans(self.blocks@);
        }
        let s_total = if n_live == 0 {
            0
        } else {
            let st = self.entry_start(n_live - 1);
            let gl = self.entry_glen(n_live - 1);
            proof {
                let l = lives(self.crdt_seq());
                assert(seq_glen_prefix(l, n_live - 1) + glen_of(l[n_live - 1]) == seq_glen_prefix(
                    l,
                    n_live as int,
                ));
            }
            st + gl
        };
        proof {
            assert(s_total as nat == old(self).live_total());
        }
        let keep_cache = position == s_total;
        if keep_cache {
            block.cached_start_pos = Some(position);
        }
        let new_idx = self.blocks.len();
        let ghost bc = block@;
        self.blocks.push(block);
        proof {
            assert(self.crdt_seq() =~= views_of(pre_blocks).push(bc));
            assert forall|p: int, q: int|
                0 <= p < q < self.crdt_seq().len() implies id_lt(
                #[trigger] self.crdt_seq()[p].id,
                #[trigger] self.crdt_seq()[q].id,
            ) by {
                assert(self.crdt_seq()[p] == views_of(pre_blocks)[p]);
                if q < self.crdt_seq().len() - 1 {
                    assert(self.crdt_seq()[q] == views_of(pre_blocks)[q]);
                }
            }
            assert forall|i: int| 0 <= i <= pre_blocks.len() implies live_start_b(
                self.blocks@,
                i,
            ) == live_start_b(pre_blocks, i) by {
                assert(self.blocks@ =~= pre_blocks.push(self.blocks@[pre_blocks.len() as int]));
                lemma_live_start_b_push(pre_blocks, self.blocks@[pre_blocks.len() as int], i);
            }
            assert forall|j: int| 0 <= j < self.blocks@.len() implies (#[trigger] self.blocks@[j]).wf() by {
                if j < pre_blocks.len() {
                    assert(self.blocks@[j] == pre_blocks[j]);
                }
            }
            assert forall|j: int|
                0 <= j < self.blocks@.len() implies (#[trigger] self.blocks@[j]).id@.clock
                <= self.clock.spec_value() by {
                if j < pre_blocks.len() {
                    assert(self.blocks@[j] == pre_blocks[j]);
                }
            }
        }
        if keep_cache {
            let ghost pre_cached = self.cached_blocks@;
            self.cached_blocks.push(new_idx);
            proof {
                lemma_live_indices_props(pre_blocks);
                assert(pre_blocks == old(self).blocks@);
                assert(pre_cached == old(self).cached_blocks@);
                assert(pre_cached.map_values(|u: usize| u as int) == live_indices(pre_blocks));
                assert(live_indices(self.blocks@) =~= live_indices(pre_blocks).push(
                    pre_blocks.len() as int,
                )) by {
                    assert(self.blocks@.drop_last() =~= pre_blocks);
                }
                assert(self.cached_blocks@.map_values(|u: usize| u as int) =~= pre_cached
                    .map_values(|u: usize| u as int).push(new_idx as int));
                assert forall|k: int|
                    0 <= k < self.cached_blocks@.len() implies #[trigger] cache_entry_ok(
                    self.blocks@,
                    self.cached_blocks@,
                    k,
                ) by {
                    if k < self.cached_blocks@.len() - 1 {
                        assert(cache_entry_ok(pre_blocks, pre_cached, k));
                        assert(self.cached_blocks@[k] == pre_cached[k]);
                        assert(pre_cached.map_values(|u: usize| u as int)[k] == pre_cached[
                            k
                        ] as int);
                        assert(live_indices(pre_blocks)[k] == pre_cached[k] as int);
                        assert(0 <= pre_cached[k] < pre_blocks.len());
                        assert(self.blocks@[pre_cached[k] as int] == pre_blocks[pre_cached[k] as int]);
                        assert(live_start_b(self.blocks@, pre_cached[k] as int) == live_start_b(
                            pre_blocks,
                            pre_cached[k] as int,
                        ));
                    } else {
                        assert(self.cached_blocks@[k] == new_idx);
                        assert(self.blocks@[new_idx as int].cached_start_pos == Some(position));
                    }
                }
            }
        } else {
            self.cache_valid = false;
        }
    }

    /// Insert `text` at grapheme position `position`.
    ///
    /// Validates the position against the current length, resolves the two
    /// origins, ticks the clock, mints an identifier, appends the block to
    /// the store (its clock-dominant identifier sorts after everything the
    /// replica has seen), splices the text into the rendered buffer at the
    /// position's boundary, and patches the position cache — incrementally
    /// for an append at the end of the live text, otherwise by marking the
    /// cache for rebuild.
    #[verifier::rlimit(80)]
    pub fn insert(&mut self, position: usize, text: &str) -> (res: Result<NodeId, TextError>)
        requires
            old(self).wf(),
            old(self).spec_clock() < u64::MAX,
            old(self).live_total() <= usize::MAX,
        ensures
            final(self).wf(),
            final(self).client() == old(self).client(),
            res is Ok <==> position <= old(self).spec_len(),
            res matches Err(e) ==> (e matches TextError::PositionOutOfBounds {
                position: p,
                length: len,
            } && p == position && len == old(self).spec_len()) && *final(self) == *old(self),
            res matches Ok(id) ==> {
                &&& id@ == (NodeIdV {
                    client_id: old(self).client(),
                    clock: (old(self).spec_clock() + 1) as u64,
                    offset: 0u32,
                })
                &&& final(self).spec_clock() == old(self).spec_clock() + 1
                &&& final(self).crdt_seq() == old(self).crdt_seq().push(
                    BlockC {
                        id: id@,
                        text: text@,
                        left_origin: resolve_at(old(self).crdt_seq(), position as nat).0,
                        right_origin: resolve_at(old(self).crdt_seq(), position as nat).1,
                        deleted: false,
                    },
                )
                &&& final(self).text_view() == graphemes_of(old(self).text_view()).take(
                    position as int,
                ).flatten() + text@ + graphemes_of(old(self).text_view()).skip(
                    position as int,
                ).flatten()
                &&& final(self).live_total() == old(self).live_total() + graphemes_of(text@).len()
                &&& graphemes_of(text@).len() <= text@.len()
                &&& (final(self).cache_is_valid() <==> position == old(self).live_total())
            },
    {
        let s = rope_to_string(&self.rope);
        let n_chars = rope_len_chars(&self.rope);
        let gs = split_graphemes(s.as_str());
        let ghost gv = graphemes_of(old(self).text_view());
        let n = gs.len();
        if position > n {
            return Err(TextError::PositionOutOfBounds { position, length: n });
        }
        let (left_origin, right_origin) = self.find_origins(position);
        let timestamp = self.clock.tick();
        let id = NodeId::new(self.client_id.clone(), timestamp, 0);
        let block = Block::new(id.clone(), String::from_str(text), left_origin, right_origin, false);
        proof {
            assert forall|i: int| 0 <= i < self.crdt_seq().len() implies id_lt(
                #[trigger] self.crdt_seq()[i].id,
                block@.id,
            ) by {
                assert(self.crdt_seq()[i] == self.blocks@[i]@);
                assert(self.blocks@[i].id@.clock <= self.clock.spec_value());
            }
        }
        let glen = block.grapheme_count();
        self.push_block_and_patch(block, position);
        let char_idx = prefix_chars(&gs, position);
        proof {
            let gvm = gs@.map_values(|g: String| g@);
            assert(gvm == gv);
            lemma_flatten_take_le(gv, position as int);
            lemma_flatten_split(gv, position as int);
            assert(gv.flatten().len() == n_chars);
        }
        rope_insert(&mut self.rope, char_idx, text);
        proof {
            let a = gv.take(position as int).flatten();
            let b = gv.skip(position as int).flatten();
            assert(old(self).text_view() == a + b);
            assert((a + b).take(a.len() as int) =~= a);
            assert((a + b).skip(a.len() as int) =~= b);
        }
        Ok(id)
    }
}

/// Tombstoning blocks never raises a start position.
proof fn lemma_live_start_b_le_more_deleted(a: Seq<Block>, b: Seq<Block>, i: int)
    requires
        forall|j: int|
            0 <= j < i ==> 0 <= j < a.len() && 0 <= j < b.len()
                && a[j].grapheme_len == b[j].grapheme_len
                && (!(#[trigger] a[j]).deleted ==> !b[j].deleted),
    ensures
        live_start_b(a, i) <= live_start_b(b, i),
    decreases i,
{
    if i > 0 {
        assert forall|j: int|
            0 <= j < i - 1 implies 0 <= j < a.len() && 0 <= j < b.len()
            && a[j].grapheme_len == b[j].grapheme_len
            && (!(#[trigger] a[j]).deleted ==> !b[j].deleted) by {
            assert(0 <= j < i);
        }
        lemma_live_start_b_le_more_deleted(a, b, i - 1);
    }
}

impl FugueText {
    /// Delete `length` graphemes starting at grapheme position `position`.
    ///
    /// Validates the range against the current length, tombstones every
    /// live block whose grapheme span overlaps it (blocks stay in the store
    /// as tombstones so merge anchors keep working), removes the range from
    /// the rendered buffer, and re-stripes the position cache from scratch.
    /// Returns the identifiers of the tombstoned blocks in store order.
    #[verifier::rlimit(80)]
    pub fn delete(&mut self, position: usize, length: usize) -> (res: Result<
        Vec<NodeId>,
        TextError,
    >)
        requires
            old(self).wf(),
            old(self).live_total() <= usize::MAX,
            position + length <= usize::MAX,
        ensures
            final(self).wf(),
            final(self).client() == old(self).client(),
            final(self).spec_clock() == old(self).spec_clock(),
            res is Ok <==> position + length <= old(self).spec_len(),
            res matches Err(e) ==> (e matches TextError::RangeOutOfBounds {
                start,
                end,
                length: doc,
            } && start == position && end == position + length && doc == old(self).spec_len())
                && *final(self) == *old(self),
            res matches Ok(ids) ==> {
                &&& final(self).crdt_seq() == delete_result(
                    old(self).crdt_seq(),
                    position as nat,
                    length as nat,
                )
                &&& ids@.map_values(|x: NodeId| x@) == hit_ids_upto(
                    old(self).crdt_seq(),
                    position as nat,
                    length as nat,
                    old(self).crdt_seq().len() as int,
                )
                &&& final(self).text_view() == graphemes_of(old(self).text_view()).take(
                    position as int,
                ).flatten() + graphemes_of(old(self).text_view()).skip(
                    (position + length) as int,
                ).flatten()
                &&& final(self).cache_is_valid()
                &&& final(self).live_total() <= old(self).live_total()
            },
    {
        let s = rope_to_string(&self.rope);
        let n_chars = rope_len_chars(&self.rope);
        let gs = split_graphemes(s.as_str());
        let ghost gv = graphemes_of(old(self).text_view());
        let n = gs.len();
        if position > n || length > n - position {
            return Err(TextError::RangeOutOfBounds {
                start: position,
                end: position + length,
                length: n,
            });
        }
        let ghost v = old(self).crdt_seq();
        let ghost ov = old(self).blocks@;
        let end = position + length;
        self.cache_valid = false;
        let mut deleted_ids: Vec<NodeId> = Vec::new();
        let mut current: usize = 0;
        let nb = self.blocks.len();
        proof {
            lemma_live_start_b_is_live_start(ov, ov.len() as int);
            assert(deleted_ids@.map_values(|x: NodeId| x@) =~= hit_ids_upto(
                v,
                position as nat,
                length as nat,
                0,
            ));
        }
        let mut i: usize = 0;
        while i < nb
            invariant
                self.rope == old(self).rope,
                self.clock == old(self).clock,
                self.client_id == old(self).client_id,
                !self.cache_valid,
                i <= nb == self.blocks@.len() == ov.len(),
                v == views_of(ov),
                end == position + length <= usize::MAX,
                forall|j: int| i <= j < ov.len() ==> self.blocks@[j] == ov[j],
                forall|j: int|
                    0 <= j < i ==> self.blocks@[j] == (if delete_hits(
                        v,
                        j,
                        position as nat,
                        length as nat,
                    ) {
                        Block { deleted: true, ..ov[j] }
                    } else {
                        ov[j]
                    }),
                current as nat == live_start(v, i as int),
                live_start(v, ov.len() as int) <= usize::MAX,
                forall|j: int| 0 <= j < ov.len() ==> (#[trigger] ov[j]).wf(),
                deleted_ids@.map_values(|x: NodeId| x@) == hit_ids_upto(
                    v,
                    position as nat,
                    length as nat,
                    i as int,
                ),
            decreases nb - i,
        {
            proof {
                lemma_live_start_mono(v, i + 1, ov.len() as int);
                assert(v[i as int] == ov[i as int]@);
                assert(ov[i as int].wf());
            }
            if !self.blocks[i].deleted {
                let bl = self.blocks[i].grapheme_count();
                let bs = current;
                let be = bs + bl;
                if length > 0 && bs < end && position < be {
                    let idc = self.blocks[i].id.clone();
                    self.blocks[i].deleted = true;
                    deleted_ids.push(idc);
                    proof {
                        assert(delete_hits(v, i as int, position as nat, length as nat));
                        assert(self.blocks@[i as int] == (Block { deleted: true, ..ov[i as int] }));
                        assert(deleted_ids@.map_values(|x: NodeId| x@) =~= hit_ids_upto(
                            v,
                            position as nat,
                            length as nat,
                            i as int,
                        ).push(v[i as int].id));
                    }
                } else {
                    proof {
                        assert(!delete_hits(v, i as int, position as nat, length as nat));
                    }
                }
                current = be;
            } else {
                proof {
                    assert(!delete_hits(v, i as int, position as nat, length as nat));
                }
            }
            i = i + 1;
        }
        proof {
            assert(self.crdt_seq() =~= delete_result(v, position as nat, length as nat));
            assert forall|j: int| 0 <= j < self.blocks@.len() implies (#[trigger] self.blocks@[j]).wf() by {
                assert(ov[j].wf());
            }
            assert forall|p: int, q: int|
                0 <= p < q < self.crdt_seq().len() implies id_lt(
                #[trigger] self.crdt_seq()[p].id,
                #[trigger] self.crdt_seq()[q].id,
            ) by {
                assert(self.crdt_seq()[p].id == v[p].id);
                assert(self.crdt_seq()[q].id == v[q].id);
            }
            assert forall|j: int|
                0 <= j < self.blocks@.len() implies (#[trigger] self.blocks@[j]).id@.clock
                <= self.clock.spec_value() by {
                assert(self.blocks@[j].id == ov[j].id);
                assert(ov[j].id@.clock <= old(self).spec_clock());
            }
        }
        let b_start = prefix_chars(&gs, position);
        let b_end = prefix_chars(&gs, end);
        proof {
            let gvm = gs@.map_values(|g: String| g@);
            assert(gvm == gv);
            lemma_flatten_take_mono(gv, position as int, end as int);
            lemma_flatten_take_le(gv, end as int);
            lemma_flatten_split(gv, end as int);
            assert(gv.flatten().len() == n_chars);
        }
        rope_remove(&mut self.rope, b_start, b_end);
        proof {
            let a = gv.take(position as int).flatten();
            let mid = gv.take(end as int).flatten();
            let b = gv.skip(end as int).flatten();
            assert(old(self).text_view() == mid + b);
            assert((mid + b).skip(mid.len() as int) =~= b);
            lemma_flatten_split(gv, position as int);
            assert(old(self).text_view() == a + gv.skip(position as int).flatten());
            assert((a + gv.skip(position as int).flatten()).take(a.len() as int) =~= a);
        }
        proof {
            assert forall|j: int|
                0 <= j < ov.len() implies 0 <= j < self.blocks@.len()
                && self.blocks@[j].grapheme_len == ov[j].grapheme_len
                && (!(#[trigger] self.blocks@[j]).deleted ==> !ov[j].deleted) by {}
            lemma_live_start_b_le_more_deleted(self.blocks@, ov, ov.len() as int);
            lemma_live_start_b_is_live_start(ov, ov.len() as int);
        }
        self.rebuild_position_cache();
        Ok(deleted_ids)
    }
}

/// The largest block clock a block vector holds.
fn max_block_clock(blocks: &Vec<Block>) -> (m: u64)
    ensures
        m == max_clock(views_of(blocks@)),
{
    let ghost v = views_of(blocks@);
    let mut m: u64 = 0;
    let mut i: usize = 0;
    proof {
        assert(v.take(0) =~= Seq::<BlockC>::empty());
    }
    while i < blocks.len()
        invariant
            i <= blocks@.len(),
            v == views_of(blocks@),
            m == max_clock(v.take(i as int)),
        decreases blocks@.len() - i,
    {
        proof {
            assert(v.take(i + 1).drop_last() =~= v.take(i as int));
            assert(v.take(i + 1).last() == v[i as int]);
            assert(v[i as int] == blocks@[i as int]@);
        }
        if blocks[i].id.clock > m {
            m = blocks[i].id.clock;
        }
        i = i + 1;
    }
    proof {
        assert(v.take(blocks@.len() as int) =~= v);
    }
    m
}

impl FugueText {
    /// Merge a remote replica's store into this one.
    ///
    /// Every remote block absent locally is inserted where its identifier
    /// sorts; for blocks present on both sides, a remote tombstone carries
    /// over (tombstones only ever spread). The rendered buffer is then
    /// rebuilt from the store, the clock takes the maximum of itself and
    /// the largest remote block clock, and the position cache is marked
    /// invalid. Always succeeds.
    #[verifier::rlimit(80)]
    pub fn merge(&mut self, remote: &FugueText) -> (res: Result<(), TextError>)
        requires
            old(self).wf(),
            remote.wf(),
        ensures
            final(self).wf(),
            res is Ok,
            is_merge_of(final(self).crdt_seq(), old(self).crdt_seq(), remote.crdt_seq()),
            final(self).text_view() == render_of(final(self).crdt_seq()),
            final(self).spec_clock() == (if max_clock(remote.crdt_seq()) > old(self).spec_clock() {
                max_clock(remote.crdt_seq())
            } else {
                old(self).spec_clock()
            }),
            final(self).client() == old(self).client(),
            !final(self).cache_is_valid(),
    {
        let ghost a = old(self).crdt_seq();
        let ghost b = remote.crdt_seq();
        let ghost cb: u64 = if max_clock(b) > old(self).spec_clock() {
            max_clock(b)
        } else {
            old(self).spec_clock()
        };
        self.cache_valid = false;
        let m = remote.blocks.len();
        let mut i: usize = 0;
        proof {
            assert(b.take(0) =~= Seq::<BlockC>::empty());
            assert(map_join(to_map(a), to_map(b.take(0))) =~= to_map(a));
        }
        while i < m
            invariant
                self.rope == old(self).rope,
                self.clock == old(self).clock,
                self.client_id == old(self).client_id,
                !self.cache_valid,
                i <= m == remote.blocks@.len(),
                a == old(self).crdt_seq(),
                b == remote.crdt_seq(),
                remote.wf(),
                cb == (if max_clock(b) > old(self).spec_clock() {
                    max_clock(b)
                } else {
                    old(self).spec_clock()
                }),
                store_sorted(self.crdt_seq()),
                forall|j: int| 0 <= j < self.blocks@.len() ==> (#[trigger] self.blocks@[j]).wf(),
                forall|j: int|
                    0 <= j < self.blocks@.len() ==> (#[trigger] self.blocks@[j]).id@.clock <= cb,
                to_map(self.crdt_seq()) == map_join(to_map(a), to_map(b.take(i as int))),
            decreases m - i,
        {
            let ghost cur = self.crdt_seq();
            let ghost mi = to_map(b.take(i as int));
            let ghost x = b[i as int];
            proof {
                assert(b[i as int] == remote.blocks@[i as int]@);
                assert(b.take(i + 1).drop_last() =~= b.take(i as int));
                assert(b.take(i + 1).last() == x);
                // the remote identifier is fresh among the already-merged prefix
                lemma_to_map_dom(b.take(i as int));
                if has_id(b.take(i as int), x.id) {
                    let j = choose|j: int|
                        0 <= j < b.take(i as int).len() && b.take(i as int)[j].id == x.id;
                    assert(b.take(i as int)[j] == b[j]);
                    lemma_sorted_distinct(b, j, i as int);
                    assert(false);
                }
                assert(to_map(b.take(i + 1)) == mi.insert(x.id, x));
                lemma_map_join_insert_right(to_map(a), mi, x);
                lemma_to_map_dom(cur);
                lemma_to_map_dom(a);
                lemma_max_clock_ge(b, i as int);
            }
            let rb = &remote.blocks[i];
            let slot = find_slot(&self.blocks, &rb.id);
            match slot {
                Ok(j) => {
                    proof {
                        lemma_to_map_at(cur, j as int);
                        assert(cur[j as int].id == x.id);
                        assert(to_map(cur).dom().contains(x.id));
                        assert(to_map(a).dom().contains(x.id) || mi.dom().contains(x.id));
                        assert(to_map(a).dom().contains(x.id));
                        assert(cur[j as int] == to_map(a)[x.id]);
                    }
                    if rb.is_deleted() && !self.blocks[j].deleted {
                        let ghost pre = self.blocks@;
                        self.blocks[j].deleted = true;
                        proof {
                            let bnew = self.blocks@[j as int];
                            assert(self.crdt_seq() =~= cur.update(j as int, bnew@));
                            assert(bnew@ == join_block(to_map(a)[x.id], x));
                            lemma_sorted_update(cur, j as int, bnew@);
                            lemma_to_map_update(cur, j as int, bnew@);
                            assert forall|jj: int|
                                0 <= jj < self.blocks@.len() implies (#[trigger] self.blocks@[jj]).wf() by {
                                if jj != j {
                                    assert(self.blocks@[jj] == pre[jj]);
                                } else {
                                    assert(pre[jj].wf());
                                }
                            }
                        }
                    } else {
                        proof {
                            assert(join_block(to_map(a)[x.id], x) == cur[j as int]);
                            assert(to_map(cur).insert(x.id, cur[j as int]) =~= to_map(cur));
                        }
                    }
                },
                Err(j) => {
                    let nb = rb.clone();
                    let ghost pre = self.blocks@;
                    self.blocks.insert(j, nb);
                    proof {
                        assert(self.crdt_seq() =~= cur.insert(j as int, x));
                        lemma_sorted_insert(cur, j as int, x);
                        lemma_to_map_insert(cur, j as int, x);
                        assert(!to_map(a).dom().contains(x.id)) by {
                            if to_map(a).dom().contains(x.id) {
                                assert(to_map(cur).dom().contains(x.id));
                                assert(has_id(cur, x.id));
                            }
                        }
                        assert forall|jj: int|
                            0 <= jj < self.blocks@.len() implies (#[trigger] self.blocks@[jj]).wf()
                            && self.blocks@[jj].id@.clock <= cb by {
                            if jj < j {
                                assert(self.blocks@[jj] == pre[jj]);
                            } else if jj > j {
                                assert(self.blocks@[jj] == pre[jj - 1]);
                            } else {
                                assert(self.blocks@[jj] == nb);
                                assert(remote.blocks@[i as int].wf());
                            }
                        }
                    }
                },
            }
            i = i + 1;
        }
        proof {
            assert(b.take(m as int) =~= b);
        }
        self.rebuild_rendered_buffer();
        let remote_max = max_block_clock(&remote.blocks);
        self.clock.update(remote_max);
        Ok(())
    }
}


/// Copy a block vector.
fn clone_blocks(v: &Vec<Block>) -> (r: Vec<Block>)
    ensures
        r@ == v@,
{
    let mut r: Vec<Block> = Vec::new();
    let mut i: usize = 0;
    while i < v.len()
        invariant
            i <= v@.len(),
            r@ == v@.take(i as int),
        decreases v@.len() - i,
    {
        r.push(v[i].clone());
        proof {
            assert(v@.take(i + 1) =~= v@.take(i as int).push(v@[i as int]));
        }
        i = i + 1;
    }
    proof {
        assert(v@.take(v@.len() as int) =~= v@);
    }
    r
}

/// Copy an index vector.
fn clone_indices(v: &Vec<usize>) -> (r: Vec<usize>)
    ensures
        r@ == v@,
{
    let mut r: Vec<usize> = Vec::new();
    let mut i: usize = 0;
    while i < v.len()
        invariant
            i <= v@.len(),
            r@ == v@.take(i as int),
        decreases v@.len() - i,
    {
        r.push(v[i]);
        proof {
            assert(v@.take(i + 1) =~= v@.take(i as int).push(v@[i as int]));
        }
        i = i + 1;
    }
    proof {
        assert(v@.take(v@.len() as int) =~= v@);
    }
    r
}

impl Clone for FugueText {
    /// An independent copy: same store, same rendered text, same clock,
    /// same client identifier, same cache state.
    fn clone(&self) -> (r: Self)
        ensures
            r.crdt_seq() == self.crdt_seq(),
            r.text_view() == self.text_view(),
            r.spec_clock() == self.spec_clock(),
            r.client() == self.client(),
            r.cache_is_valid() == self.cache_is_valid(),
            self.wf() ==> r.wf(),
    {
        FugueText {
            rope: rope_clone(&self.rope),
            blocks: clone_blocks(&self.blocks),
            clock: self.clock,
            client_id: self.client_id.clone(),
            cache_valid: self.cache_valid,
            cached_blocks: clone_indices(&self.cached_blocks),
        }
    }
}

impl FugueText {
    /// Reconstruct a replica from deserialized parts: a block list (order
    /// is a hint only; the store re-sorts by identifier, a later duplicate
    /// replacing an earlier one), a clock value, and a client identifier.
    /// The grapheme counts are recomputed, the rendered buffer is rebuilt
    /// from the store, the clock is raised to cover every block (a valid
    /// snapshot already satisfies that), and the position cache is left
    /// invalid.
    #[verifier::rlimit(80)]
    pub fn from_parts(blocks: Vec<Block>, clock: u64, client_id: String) -> (t: Self)
        ensures
            t.wf(),
            store_sorted(t.crdt_seq()),
            to_map(t.crdt_seq()) == to_map(views_of(blocks@)),
            t.text_view() == render_of(t.crdt_seq()),
            t.client() == client_id@,
            t.spec_clock() == (if max_clock(views_of(blocks@)) > clock {
                max_clock(views_of(blocks@))
            } else {
                clock
            }),
            !t.cache_is_valid(),
    {
        let ghost bv = views_of(blocks@);
        let mut lc = LamportClock::new();
        lc.update(clock);
        let mut t = FugueText {
            rope: rope_new(),
            blocks: Vec::new(),
            clock: lc,
            client_id,
            cache_valid: false,
            cached_blocks: Vec::new(),
        };
        let n = blocks.len();
        let mut i: usize = 0;
        proof {
            assert(bv.take(0) =~= Seq::<BlockC>::empty());
            assert(t.crdt_seq() =~= Seq::<BlockC>::empty());
        }
        while i < n
            invariant
                i <= n == blocks@.len(),
                bv == views_of(blocks@),
                !t.cache_valid,
                t.client() == client_id@,
                store_sorted(t.crdt_seq()),
                forall|j: int| 0 <= j < t.blocks@.len() ==> (#[trigger] t.blocks@[j]).wf(),
                forall|j: int|
                    0 <= j < t.blocks@.len() ==> (#[trigger] t.blocks@[j]).id@.clock
                        <= t.clock.spec_value(),
                to_map(t.crdt_seq()) == to_map(bv.take(i as int)),
                t.clock.spec_value() == (if max_clock(bv.take(i as int)) > clock {
                    max_clock(bv.take(i as int))
                } else {
                    clock
                }),
            decreases n - i,
        {
            let ghost cur = t.crdt_seq();
            let ghost x = bv[i as int];
            proof {
                assert(bv[i as int] == blocks@[i as int]@);
                assert(bv.take(i + 1).drop_last() =~= bv.take(i as int));
                assert(bv.take(i + 1).last() == x);
            }
            let src = &blocks[i];
            t.clock.update(src.id.clock);
            let nb = Block::new(
                src.id.clone(),
                src.text.clone(),
                clone_opt_id(&src.left_origin),
                clone_opt_id(&src.right_origin),
                src.deleted,
            );
            proof {
                assert(nb@ == x);
            }
            let slot = find_slot(&t.blocks, &src.id);
            match slot {
                Ok(j) => {
                    let ghost pre = t.blocks@;
                    t.blocks[j] = nb;
                    proof {
                        assert(t.crdt_seq() =~= cur.update(j as int, x));
                        lemma_sorted_update(cur, j as int, x);
                        lemma_to_map_update(cur, j as int, x);
                        assert forall|jj: int|
                            0 <= jj < t.blocks@.len() implies (#[trigger] t.blocks@[jj]).wf()
                            && t.blocks@[jj].id@.clock <= t.clock.spec_value() by {
                            if jj != j {
                                assert(t.blocks@[jj] == pre[jj]);
                            }
                        }
                    }
                },
                Err(j) => {
                    let ghost pre = t.blocks@;
                    t.blocks.insert(j, nb);
                    proof {
                        assert(t.crdt_seq() =~= cur.insert(j as int, x));
                        lemma_sorted_insert(cur, j as int, x);
                        lemma_to_map_insert(cur, j as int, x);
                        assert forall|jj: int|
                            0 <= jj < t.blocks@.len() implies (#[trigger] t.blocks@[jj]).wf()
                            && t.blocks@[jj].id@.clock <= t.clock.spec_value() by {
                            if jj < j {
                                assert(t.blocks@[jj] == pre[jj]);
                            } else if jj > j {
                                assert(t.blocks@[jj] == pre[jj - 1]);
                            }
                        }
                    }
                },
            }
            i = i + 1;
        }
        proof {
            assert(bv.take(n as int) =~= bv);
        }
        t.rebuild_rendered_buffer();
        t
    }
}

/// The reported document length counts the grapheme clusters of the
/// rendered text: `len` and `to_string` agree, always.
pub proof fn lemma_length_counts_render(t: &FugueText)
    ensures
        t.spec_len() == graphemes_of(t.text_view()).len(),
{
}

/// Exposes the store-order invariant of a well-formed replica, for use
/// with the merge laws.
pub proof fn lemma_wf_store_sorted(t: &FugueText)
    requires
        t.wf(),
    ensures
        store_sorted(t.crdt_seq()),
{
}

/// Cache coherence: whenever the position cache is valid, every live
/// block's cached start position equals the summed grapheme length of the
/// live blocks before it in store order.
pub proof fn lemma_cache_coherent(t: &FugueText)
    requires
        t.wf(),
        t.cache_is_valid(),
    ensures
        forall|i: int|
            0 <= i < t.crdt_seq().len() && !t.crdt_seq()[i].deleted ==> ((#[trigger] t.cached_start(
                i,
            )) matches Some(st) && st as nat == live_start(t.crdt_seq(), i)),
{
    lemma_live_indices_props(t.blocks@);
    assert forall|i: int|
        0 <= i < t.crdt_seq().len() && !t.crdt_seq()[i].deleted implies ((#[trigger] t.cached_start(
        i,
    )) matches Some(st) && st as nat == live_start(t.crdt_seq(), i)) by {
        assert(t.crdt_seq()[i] == t.blocks@[i]@);
        assert(!t.blocks@[i].deleted);
        let k = choose|k: int|
            0 <= k < live_indices(t.blocks@).len() && live_indices(t.blocks@)[k] == i;
        assert(t.cached_blocks@.map_values(|u: usize| u as int)[k] == live_indices(t.blocks@)[k]);
        assert(t.cached_blocks@[k] as int == i);
        assert(cache_entry_ok(t.blocks@, t.cached_blocks@, k));
        lemma_live_start_b_is_live_start(t.blocks@, i);
    }
}


/// Convergence at the replica level: once two compatible replicas have
/// merged each other's stores, they render the same text. The hypotheses
/// are exactly what [`FugueText::merge`] ensures of each side.
pub proof fn lemma_replicas_converge(
    r1: &FugueText,
    r2: &FugueText,
    m1: &FugueText,
    m2: &FugueText,
)
    requires
        r1.wf(),
        r2.wf(),
        stores_compatible(r1.crdt_seq(), r2.crdt_seq()),
        is_merge_of(m1.crdt_seq(), r1.crdt_seq(), r2.crdt_seq()),
        is_merge_of(m2.crdt_seq(), r2.crdt_seq(), r1.crdt_seq()),
        m1.text_view() == render_of(m1.crdt_seq()),
        m2.text_view() == render_of(m2.crdt_seq()),
    ensures
        m1.text_view() == m2.text_view(),
        m1.crdt_seq() == m2.crdt_seq(),
{
    lemma_wf_store_sorted(r1);
    lemma_wf_store_sorted(r2);
    lemma_merge_commutative(r1.crdt_seq(), r2.crdt_seq(), m1.crdt_seq(), m2.crdt_seq());
}


} // verus!
