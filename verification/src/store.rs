//! The mathematical model of the block store, and the merge laws.
//!
//! A replica's store is a sequence of blocks strictly sorted by identifier;
//! that order is the canonical document order. Merging is a join on the maps
//! from identifier to block content, with tombstones joined by disjunction.
//! This module proves the store model's laws: a sorted store is determined
//! by its map, and the join is commutative (on compatible stores),
//! associative, and idempotent — so merge converges.

use crate::block::BlockC;
use crate::node::{NodeIdV, id_lt, lemma_id_lt_trichotomy};
use crate::segment::graphemes_of;
use vstd::prelude::*;

verus! {

/// Strictly sorted by identifier: the store order.
pub open spec fn store_sorted(s: Seq<BlockC>) -> bool {
    forall|i: int, j: int| 0 <= i < j < s.len() ==> id_lt(s[i].id, s[j].id)
}

/// Whether some block of `s` carries identifier `k`.
pub open spec fn has_id(s: Seq<BlockC>, k: NodeIdV) -> bool {
    exists|i: int| 0 <= i < s.len() && s[i].id == k
}

/// The map from identifier to block content that a store denotes.
pub open spec fn to_map(s: Seq<BlockC>) -> Map<NodeIdV, BlockC>
    decreases s.len(),
{
    if s.len() == 0 {
        Map::empty()
    } else {
        to_map(s.drop_last()).insert(s.last().id, s.last())
    }
}

/// The join of two blocks with the same identifier: content from the left,
/// tombstones joined by disjunction.
pub open spec fn join_block(l: BlockC, r: BlockC) -> BlockC {
    BlockC { deleted: l.deleted || r.deleted, ..l }
}

/// The join of two stores as maps: union of the keys, [`join_block`] where
/// both sides hold the key.
pub open spec fn map_join(m1: Map<NodeIdV, BlockC>, m2: Map<NodeIdV, BlockC>) -> Map<
    NodeIdV,
    BlockC,
> {
    Map::new(
        |k: NodeIdV| m1.dom().contains(k) || m2.dom().contains(k),
        |k: NodeIdV|
            if m1.dom().contains(k) {
                if m2.dom().contains(k) {
                    join_block(m1[k], m2[k])
                } else {
                    m1[k]
                }
            } else {
                m2[k]
            },
    )
}

/// `m` is what merging `b` into `a` must produce: a sorted store denoting
/// the join of the two maps.
pub open spec fn is_merge_of(m: Seq<BlockC>, a: Seq<BlockC>, b: Seq<BlockC>) -> bool {
    &&& store_sorted(m)
    &&& to_map(m) == map_join(to_map(a), to_map(b))
}

/// Two replicas of one document agree on everything but tombstones for
/// every identifier they share.
pub open spec fn stores_compatible(a: Seq<BlockC>, b: Seq<BlockC>) -> bool {
    forall|k: NodeIdV|
        #![trigger to_map(a)[k], to_map(b)[k]]
        to_map(a).dom().contains(k) && to_map(b).dom().contains(k) ==> {
            &&& to_map(a)[k].id == to_map(b)[k].id
            &&& to_map(a)[k].text == to_map(b)[k].text
            &&& to_map(a)[k].left_origin == to_map(b)[k].left_origin
            &&& to_map(a)[k].right_origin == to_map(b)[k].right_origin
        }
}

/// Compatibility is symmetric.
pub proof fn lemma_compat_symmetric(a: Seq<BlockC>, b: Seq<BlockC>)
    requires
        stores_compatible(a, b),
    ensures
        stores_compatible(b, a),
{
}

/// Appending a block whose identifier the other store has never seen
/// preserves compatibility — the case of a locally minted block, whose
/// clock-dominant identifier is fresh across replicas.
pub proof fn lemma_compat_append_fresh(a: Seq<BlockC>, b: Seq<BlockC>, x: BlockC)
    requires
        stores_compatible(a, b),
        !to_map(b).dom().contains(x.id),
    ensures
        stores_compatible(a.push(x), b),
{
    assert(a.push(x).drop_last() =~= a);
    assert(to_map(a.push(x)) == to_map(a).insert(x.id, x));
    assert forall|k: NodeIdV|
        to_map(a.push(x)).dom().contains(k) && to_map(b).dom().contains(k) implies {
        &&& #[trigger] to_map(a.push(x))[k].id == #[trigger] to_map(b)[k].id
        &&& to_map(a.push(x))[k].text == to_map(b)[k].text
        &&& to_map(a.push(x))[k].left_origin == to_map(b)[k].left_origin
        &&& to_map(a.push(x))[k].right_origin == to_map(b)[k].right_origin
    } by {
        assert(k != x.id);
        assert(to_map(a.push(x))[k] == to_map(a)[k]);
    }
}

/// Tombstoning blocks preserves compatibility: a delete changes only the
/// `deleted` flags, which compatibility does not constrain.
pub proof fn lemma_compat_delete(a: Seq<BlockC>, b: Seq<BlockC>, p: nat, len: nat)
    requires
        store_sorted(a),
        stores_compatible(a, b),
    ensures
        stores_compatible(delete_result(a, p, len), b),
{
    let d = delete_result(a, p, len);
    assert forall|i: int, j: int| 0 <= i < j < d.len() implies id_lt(d[i].id, d[j].id) by {
        assert(d[i].id == a[i].id);
        assert(d[j].id == a[j].id);
    }
    lemma_to_map_dom(a);
    lemma_to_map_dom(d);
    assert forall|k: NodeIdV|
        to_map(d).dom().contains(k) && to_map(b).dom().contains(k) implies {
        &&& #[trigger] to_map(d)[k].id == #[trigger] to_map(b)[k].id
        &&& to_map(d)[k].text == to_map(b)[k].text
        &&& to_map(d)[k].left_origin == to_map(b)[k].left_origin
        &&& to_map(d)[k].right_origin == to_map(b)[k].right_origin
    } by {
        let i = choose|i: int| 0 <= i < d.len() && d[i].id == k;
        lemma_to_map_at(d, i);
        assert(a[i].id == k);
        lemma_to_map_at(a, i);
        assert(to_map(a).dom().contains(k));
        assert(to_map(d)[k].text == to_map(a)[k].text);
    }
}

/// Merging two stores that are each compatible with a third yields a store
/// compatible with that third: compatibility survives synchronization.
pub proof fn lemma_compat_merge(a: Seq<BlockC>, b: Seq<BlockC>, c: Seq<BlockC>, m: Seq<BlockC>)
    requires
        stores_compatible(a, b),
        stores_compatible(a, c),
        is_merge_of(m, b, c),
    ensures
        stores_compatible(a, m),
{
    assert forall|k: NodeIdV|
        to_map(a).dom().contains(k) && to_map(m).dom().contains(k) implies {
        &&& #[trigger] to_map(a)[k].id == #[trigger] to_map(m)[k].id
        &&& to_map(a)[k].text == to_map(m)[k].text
        &&& to_map(a)[k].left_origin == to_map(m)[k].left_origin
        &&& to_map(a)[k].right_origin == to_map(m)[k].right_origin
    } by {
        assert(to_map(m)[k] == map_join(to_map(b), to_map(c))[k]);
        assert(to_map(b).dom().contains(k) || to_map(c).dom().contains(k));
    }
}

/// The grapheme length of a block's text.
pub open spec fn glen_of(b: BlockC) -> nat {
    graphemes_of(b.text).len()
}

/// The live (non-tombstoned) blocks of a store, in store order.
pub open spec fn lives(s: Seq<BlockC>) -> Seq<BlockC>
    decreases s.len(),
{
    if s.len() == 0 {
        Seq::empty()
    } else if s.last().deleted {
        lives(s.drop_last())
    } else {
        lives(s.drop_last()).push(s.last())
    }
}

/// The grapheme length of the first `k` blocks of a (live) sequence.
pub open spec fn seq_glen_prefix(l: Seq<BlockC>, k: int) -> nat
    decreases k,
{
    if k <= 0 {
        0
    } else {
        seq_glen_prefix(l, k - 1) + glen_of(l[k - 1])
    }
}

/// The grapheme start position of block `i` of store `s`: the summed
/// grapheme lengths of the live blocks before it in store order.
pub open spec fn live_start(s: Seq<BlockC>, i: int) -> nat
    decreases i,
{
    if i <= 0 {
        0
    } else {
        live_start(s, i - 1) + if s[i - 1].deleted {
            0
        } else {
            glen_of(s[i - 1])
        }
    }
}

/// The total grapheme length of the live blocks of a store.
pub open spec fn live_len(s: Seq<BlockC>) -> nat {
    live_start(s, s.len() as int)
}

/// The rendered document of a store: the concatenated text of its live
/// blocks in store order.
pub open spec fn render_of(s: Seq<BlockC>) -> Seq<char>
    decreases s.len(),
{
    if s.len() == 0 {
        Seq::empty()
    } else if s.last().deleted {
        render_of(s.drop_last())
    } else {
        render_of(s.drop_last()) + s.last().text
    }
}

/// A store's map holds exactly the identifiers of its blocks.
pub proof fn lemma_to_map_dom(s: Seq<BlockC>)
    ensures
        forall|k: NodeIdV| #[trigger] to_map(s).dom().contains(k) <==> has_id(s, k),
    decreases s.len(),
{
    if s.len() > 0 {
        lemma_to_map_dom(s.drop_last());
        assert forall|k: NodeIdV| #[trigger] to_map(s).dom().contains(k) implies has_id(s, k) by {
            if k == s.last().id {
                assert(s[s.len() - 1].id == k);
            } else {
                assert(to_map(s.drop_last()).dom().contains(k));
                let i = choose|i: int| 0 <= i < s.drop_last().len() && s.drop_last()[i].id == k;
                assert(s[i].id == k);
            }
        }
        assert forall|k: NodeIdV| has_id(s, k) implies #[trigger] to_map(s).dom().contains(k) by {
            let i = choose|i: int| 0 <= i < s.len() && s[i].id == k;
            if i < s.len() - 1 {
                assert(s.drop_last()[i].id == k);
                assert(has_id(s.drop_last(), k));
                assert(to_map(s.drop_last()).dom().contains(k));
            }
        }
    }
}

/// In a sorted store, distinct positions hold distinct identifiers.
pub proof fn lemma_sorted_distinct(s: Seq<BlockC>, i: int, j: int)
    requires
        store_sorted(s),
        0 <= i < s.len(),
        0 <= j < s.len(),
        i != j,
    ensures
        s[i].id != s[j].id,
{
    if i < j {
        lemma_id_lt_trichotomy(s[i].id, s[j].id);
    } else {
        lemma_id_lt_trichotomy(s[j].id, s[i].id);
    }
}

/// Dropping the last block keeps a store sorted.
pub proof fn lemma_sorted_drop_last(s: Seq<BlockC>)
    requires
        store_sorted(s),
        s.len() > 0,
    ensures
        store_sorted(s.drop_last()),
{
    assert forall|i: int, j: int| 0 <= i < j < s.drop_last().len() implies id_lt(
        s.drop_last()[i].id,
        s.drop_last()[j].id,
    ) by {
        assert(s.drop_last()[i] == s[i]);
        assert(s.drop_last()[j] == s[j]);
    }
}

/// A sorted store's map sends each block's identifier to that block.
pub proof fn lemma_to_map_at(s: Seq<BlockC>, i: int)
    requires
        store_sorted(s),
        0 <= i < s.len(),
    ensures
        to_map(s).dom().contains(s[i].id),
        to_map(s)[s[i].id] == s[i],
    decreases s.len(),
{
    if i == s.len() - 1 {
    } else {
        lemma_sorted_distinct(s, i, s.len() - 1);
        lemma_sorted_drop_last(s);
        assert(s.drop_last()[i] == s[i]);
        lemma_to_map_at(s.drop_last(), i);
    }
}

/// Dropping a sorted store's last block removes exactly its key.
proof fn lemma_to_map_drop_last(s: Seq<BlockC>)
    requires
        store_sorted(s),
        s.len() > 0,
    ensures
        to_map(s.drop_last()) == to_map(s).remove(s.last().id),
{
    lemma_to_map_dom(s.drop_last());
    if has_id(s.drop_last(), s.last().id) {
        let i = choose|i: int|
            0 <= i < s.drop_last().len() && s.drop_last()[i].id == s.last().id;
        lemma_sorted_distinct(s, i, s.len() - 1);
        assert(false);
    }
    assert(to_map(s).remove(s.last().id) =~= to_map(s.drop_last()));
}

/// A sorted store is determined by its map: same map, same store.
pub proof fn lemma_sorted_unique(a: Seq<BlockC>, b: Seq<BlockC>)
    requires
        store_sorted(a),
        store_sorted(b),
        to_map(a) == to_map(b),
    ensures
        a == b,
    decreases a.len() + b.len(),
{
    lemma_to_map_dom(a);
    lemma_to_map_dom(b);
    if a.len() == 0 {
        if b.len() > 0 {
            lemma_to_map_at(b, b.len() - 1);
            assert(has_id(a, b.last().id));
            assert(false);
        }
        assert(a =~= b);
    } else if b.len() == 0 {
        lemma_to_map_at(a, a.len() - 1);
        assert(has_id(b, a.last().id));
        assert(false);
    } else {
        // The two last identifiers are both the maximum of the shared key
        // set, so they are equal.
        lemma_to_map_at(a, a.len() - 1);
        lemma_to_map_at(b, b.len() - 1);
        let ka = a.last().id;
        let kb = b.last().id;
        if ka != kb {
            assert(has_id(a, kb));
            let i = choose|i: int| 0 <= i < a.len() && a[i].id == kb;
            assert(i < a.len() - 1);
            assert(id_lt(kb, ka));
            assert(has_id(b, ka));
            let j = choose|j: int| 0 <= j < b.len() && b[j].id == ka;
            assert(j < b.len() - 1);
            assert(id_lt(ka, kb));
            lemma_id_lt_trichotomy(ka, kb);
            assert(false);
        }
        assert(a.last() == to_map(a)[ka]);
        assert(b.last() == to_map(b)[ka]);
        lemma_to_map_drop_last(a);
        lemma_to_map_drop_last(b);
        lemma_sorted_drop_last(a);
        lemma_sorted_drop_last(b);
        lemma_sorted_unique(a.drop_last(), b.drop_last());
        assert(a =~= b) by {
            assert(a.len() == b.len());
            assert forall|i: int| 0 <= i < a.len() implies a[i] == b[i] by {
                if i < a.len() - 1 {
                    assert(a.drop_last()[i] == b.drop_last()[i]);
                }
            }
        }
    }
}

/// Merging a store with itself is a no-op: the merge join is idempotent.
pub proof fn lemma_merge_idempotent(a: Seq<BlockC>, m: Seq<BlockC>)
    requires
        store_sorted(a),
        is_merge_of(m, a, a),
    ensures
        m == a,
        render_of(m) == render_of(a),
{
    assert(map_join(to_map(a), to_map(a)) =~= to_map(a));
    lemma_sorted_unique(m, a);
}

/// The merge join is commutative on compatible stores: both merge orders
/// produce the same store, and so the same rendered text.
pub proof fn lemma_merge_commutative(a: Seq<BlockC>, b: Seq<BlockC>, m1: Seq<BlockC>, m2: Seq<
    BlockC,
>)
    requires
        store_sorted(a),
        store_sorted(b),
        stores_compatible(a, b),
        is_merge_of(m1, a, b),
        is_merge_of(m2, b, a),
    ensures
        m1 == m2,
        render_of(m1) == render_of(m2),
{
    assert(map_join(to_map(a), to_map(b)) =~= map_join(to_map(b), to_map(a)));
    lemma_sorted_unique(m1, m2);
}

/// The merge join is associative: merging in either grouping produces the
/// same store.
pub proof fn lemma_merge_associative(
    a: Seq<BlockC>,
    b: Seq<BlockC>,
    c: Seq<BlockC>,
    ab: Seq<BlockC>,
    ab_c: Seq<BlockC>,
    bc: Seq<BlockC>,
    a_bc: Seq<BlockC>,
)
    requires
        store_sorted(a),
        store_sorted(b),
        store_sorted(c),
        is_merge_of(ab, a, b),
        is_merge_of(ab_c, ab, c),
        is_merge_of(bc, b, c),
        is_merge_of(a_bc, a, bc),
    ensures
        ab_c == a_bc,
        render_of(ab_c) == render_of(a_bc),
{
    assert(to_map(ab_c) =~= to_map(a_bc)) by {
        assert(map_join(map_join(to_map(a), to_map(b)), to_map(c)) =~= map_join(
            to_map(a),
            map_join(to_map(b), to_map(c)),
        ));
    }
    lemma_sorted_unique(ab_c, a_bc);
}

/// Convergence: two replicas that merge each other's stores render the same
/// text afterwards.
pub proof fn lemma_merge_converges(a: Seq<BlockC>, b: Seq<BlockC>, m1: Seq<BlockC>, m2: Seq<
    BlockC,
>)
    requires
        store_sorted(a),
        store_sorted(b),
        stores_compatible(a, b),
        is_merge_of(m1, a, b),
        is_merge_of(m2, b, a),
    ensures
        render_of(m1) == render_of(m2),
{
    lemma_merge_commutative(a, b, m1, m2);
}

/// Appending a live block extends the rendered text by its run.
pub proof fn lemma_render_push_live(s: Seq<BlockC>, b: BlockC)
    requires
        !b.deleted,
    ensures
        render_of(s.push(b)) == render_of(s) + b.text,
{
    assert(s.push(b).drop_last() =~= s);
}

/// An append keeps the buffer and the store rendering in agreement: when a
/// buffer matches the store's rendering and its segmentation concatenates
/// back to it, splicing a run in at the buffer's end matches the rendering
/// of the store with that block appended.
pub proof fn lemma_append_keeps_render_agreement(buf: Seq<char>, s: Seq<BlockC>, b: BlockC, p: int)
    requires
        buf == render_of(s),
        graphemes_of(buf).flatten() == buf,
        !b.deleted,
        p == graphemes_of(buf).len(),
    ensures
        graphemes_of(buf).take(p).flatten() + b.text + graphemes_of(buf).skip(p).flatten()
            == render_of(s.push(b)),
{
    let g = graphemes_of(buf);
    assert(g.take(p) =~= g);
    assert(g.skip(p) =~= Seq::<Seq<char>>::empty());
    lemma_render_push_live(s, b);
    assert(buf + b.text + g.skip(p).flatten() =~= buf + b.text);
}

/// Replacing a block's identifier key in a sorted store's map.
pub proof fn lemma_to_map_update(s: Seq<BlockC>, j: int, x: BlockC)
    requires
        store_sorted(s),
        0 <= j < s.len(),
        x.id == s[j].id,
    ensures
        to_map(s.update(j, x)) == to_map(s).insert(x.id, x),
    decreases s.len(),
{
    if j == s.len() - 1 {
        assert(s.update(j, x).drop_last() =~= s.drop_last());
        assert(s.update(j, x).last() == x);
        assert(to_map(s).insert(x.id, x) =~= to_map(s.drop_last()).insert(x.id, x));
    } else {
        lemma_sorted_distinct(s, j, s.len() - 1);
        lemma_sorted_drop_last(s);
        assert(s.drop_last()[j] == s[j]);
        lemma_to_map_update(s.drop_last(), j, x);
        assert(s.update(j, x).drop_last() =~= s.drop_last().update(j, x));
        assert(s.update(j, x).last() == s.last());
        assert(to_map(s.drop_last()).insert(x.id, x).insert(s.last().id, s.last()) =~= to_map(
            s.drop_last(),
        ).insert(s.last().id, s.last()).insert(x.id, x));
    }
}

/// Inserting a block with a fresh identifier into a store's map.
pub proof fn lemma_to_map_insert(s: Seq<BlockC>, j: int, x: BlockC)
    requires
        0 <= j <= s.len(),
        !has_id(s, x.id),
    ensures
        to_map(s.insert(j, x)) == to_map(s).insert(x.id, x),
    decreases s.len(),
{
    if j == s.len() {
        assert(s.insert(j, x).drop_last() =~= s);
        assert(s.insert(j, x).last() == x);
    } else {
        assert(s.insert(j, x).drop_last() =~= s.drop_last().insert(j, x));
        assert(s.insert(j, x).last() == s.last());
        assert(!has_id(s.drop_last(), x.id)) by {
            if has_id(s.drop_last(), x.id) {
                let i = choose|i: int|
                    0 <= i < s.drop_last().len() && s.drop_last()[i].id == x.id;
                assert(s[i].id == x.id);
            }
        }
        lemma_to_map_insert(s.drop_last(), j, x);
        assert(x.id != s.last().id) by {
            assert(s[s.len() - 1].id == s.last().id);
        }
        assert(to_map(s.drop_last()).insert(x.id, x).insert(s.last().id, s.last()) =~= to_map(
            s.drop_last(),
        ).insert(s.last().id, s.last()).insert(x.id, x));
    }
}

/// A store stays sorted when a block is inserted where it belongs.
pub proof fn lemma_sorted_insert(s: Seq<BlockC>, j: int, x: BlockC)
    requires
        store_sorted(s),
        0 <= j <= s.len(),
        forall|i: int| 0 <= i < j ==> id_lt(s[i].id, x.id),
        forall|i: int| j <= i < s.len() ==> id_lt(x.id, s[i].id),
    ensures
        store_sorted(s.insert(j, x)),
{
    let t = s.insert(j, x);
    assert forall|p: int, q: int| 0 <= p < q < t.len() implies id_lt(t[p].id, t[q].id) by {
        if p < j && q < j {
            assert(t[p] == s[p] && t[q] == s[q]);
        } else if p < j && q == j {
            assert(t[p] == s[p]);
        } else if p < j && q > j {
            assert(t[p] == s[p] && t[q] == s[q - 1]);
        } else if p == j {
            assert(t[q] == s[q - 1]);
        } else {
            assert(t[p] == s[p - 1] && t[q] == s[q - 1]);
        }
    }
}

/// A store stays sorted when a block is replaced by one with the same
/// identifier.
pub proof fn lemma_sorted_update(s: Seq<BlockC>, j: int, x: BlockC)
    requires
        store_sorted(s),
        0 <= j < s.len(),
        x.id == s[j].id,
    ensures
        store_sorted(s.update(j, x)),
{
    let t = s.update(j, x);
    assert forall|p: int, q: int| 0 <= p < q < t.len() implies id_lt(t[p].id, t[q].id) by {
        if p != j {
            assert(t[p] == s[p]);
        }
        if q != j {
            assert(t[q] == s[q]);
        }
    }
}

/// The largest block clock in a store, 0 when empty.
pub open spec fn max_clock(s: Seq<BlockC>) -> u64
    decreases s.len(),
{
    if s.len() == 0 {
        0u64
    } else if s.last().id.clock > max_clock(s.drop_last()) {
        s.last().id.clock
    } else {
        max_clock(s.drop_last())
    }
}

/// Prefix grapheme lengths never decrease.
pub proof fn lemma_glen_prefix_mono(l: Seq<BlockC>, i: int, j: int)
    requires
        0 <= i <= j,
    ensures
        seq_glen_prefix(l, i) <= seq_glen_prefix(l, j),
    decreases j - i,
{
    if i < j {
        lemma_glen_prefix_mono(l, i, j - 1);
    }
}

/// The block span holding a position is unique.
pub proof fn lemma_span_unique(l: Seq<BlockC>, p: nat, k1: int, k2: int)
    requires
        0 <= k1 < l.len(),
        0 <= k2 < l.len(),
        seq_glen_prefix(l, k1) <= p < seq_glen_prefix(l, k1 + 1),
        seq_glen_prefix(l, k2) <= p < seq_glen_prefix(l, k2 + 1),
    ensures
        k1 == k2,
{
    if k1 < k2 {
        lemma_glen_prefix_mono(l, k1 + 1, k2);
    }
    if k2 < k1 {
        lemma_glen_prefix_mono(l, k2 + 1, k1);
    }
}

/// Prefix grapheme lengths only read the entries below the bound.
pub proof fn lemma_glen_prefix_agree(a: Seq<BlockC>, b: Seq<BlockC>, k: int)
    requires
        forall|j: int| 0 <= j < k ==> 0 <= j < a.len() && 0 <= j < b.len() && a[j] == b[j],
    ensures
        seq_glen_prefix(a, k) == seq_glen_prefix(b, k),
    decreases k,
{
    if k > 0 {
        assert(a[k - 1] == b[k - 1]);
        assert forall|j: int| 0 <= j < k - 1 implies 0 <= j < a.len() && 0 <= j < b.len() && a[j]
            == b[j] by {
            assert(0 <= j < k);
        }
        lemma_glen_prefix_agree(a, b, k - 1);
    }
}

/// Block start positions never decrease along the store.
pub proof fn lemma_live_start_mono(s: Seq<BlockC>, i: int, j: int)
    requires
        0 <= i <= j,
    ensures
        live_start(s, i) <= live_start(s, j),
    decreases j - i,
{
    if i < j {
        lemma_live_start_mono(s, i, j - 1);
    }
}

/// The two-sided origin pair that an insert at grapheme position `p` gets:
/// the identifiers of the visible neighbours in store order.
pub open spec fn resolve_at(s: Seq<BlockC>, p: nat) -> (Option<NodeIdV>, Option<NodeIdV>) {
    let l = lives(s);
    if l.len() == 0 {
        (None, None)
    } else if p >= seq_glen_prefix(l, l.len() as int) {
        (Some(l.last().id), None)
    } else {
        let k = choose|k: int|
            0 <= k < l.len() && #[trigger] seq_glen_prefix(l, k) <= p < seq_glen_prefix(l, k + 1);
        if p == seq_glen_prefix(l, k) {
            (
                if k > 0 {
                    Some(l[k - 1].id)
                } else {
                    None
                },
                Some(l[k].id),
            )
        } else {
            (
                Some(l[k].id),
                if k + 1 < l.len() {
                    Some(l[k + 1].id)
                } else {
                    None
                },
            )
        }
    }
}

/// Whether a delete of `len` graphemes at `p` tombstones block `i`: the
/// block is live and its grapheme span overlaps the deleted range.
pub open spec fn delete_hits(s: Seq<BlockC>, i: int, p: nat, len: nat) -> bool {
    &&& !s[i].deleted
    &&& len > 0
    &&& live_start(s, i) < p + len
    &&& p < live_start(s, i) + glen_of(s[i])
}

/// The store after a delete: every block whose live span overlaps the range
/// is tombstoned; nothing else changes.
pub open spec fn delete_result(s: Seq<BlockC>, p: nat, len: nat) -> Seq<BlockC> {
    Seq::new(
        s.len(),
        |i: int|
            if delete_hits(s, i, p, len) {
                BlockC { deleted: true, ..s[i] }
            } else {
                s[i]
            },
    )
}

/// The identifiers of the blocks among the first `k` that a delete at `p`
/// of `len` graphemes tombstones, in store order.
pub open spec fn hit_ids_upto(s: Seq<BlockC>, p: nat, len: nat, k: int) -> Seq<NodeIdV>
    decreases k,
{
    if k <= 0 {
        Seq::empty()
    } else if delete_hits(s, k - 1, p, len) {
        hit_ids_upto(s, p, len, k - 1).push(s[k - 1].id)
    } else {
        hit_ids_upto(s, p, len, k - 1)
    }
}

/// With no live blocks, a position resolves to no origins.
pub proof fn lemma_resolve_at_empty(s: Seq<BlockC>, p: nat)
    requires
        lives(s).len() == 0,
    ensures
        resolve_at(s, p) == (None::<NodeIdV>, None::<NodeIdV>),
{
}

/// At or past the end of the live text, a position resolves to the last
/// live block on the left and nothing on the right.
pub proof fn lemma_resolve_at_end(s: Seq<BlockC>, p: nat)
    requires
        lives(s).len() > 0,
        p >= seq_glen_prefix(lives(s), lives(s).len() as int),
    ensures
        resolve_at(s, p) == (Some(lives(s).last().id), None::<NodeIdV>),
{
}

/// Inside the live text, a position resolves through the unique live block
/// whose span holds it: at the block's start, to the pair around the
/// boundary; strictly inside, to the block itself and its right neighbour.
pub proof fn lemma_resolve_at_span(s: Seq<BlockC>, p: nat, kf: int)
    requires
        0 <= kf < lives(s).len(),
        seq_glen_prefix(lives(s), kf) <= p,
        p < seq_glen_prefix(lives(s), kf + 1),
    ensures
        resolve_at(s, p) == ({
            let l = lives(s);
            if p == seq_glen_prefix(l, kf) {
                (
                    if kf > 0 {
                        Some(l[kf - 1].id)
                    } else {
                        None
                    },
                    Some(l[kf].id),
                )
            } else {
                (
                    Some(l[kf].id),
                    if kf + 1 < l.len() {
                        Some(l[kf + 1].id)
                    } else {
                        None
                    },
                )
            }
        }),
{
    let l = lives(s);
    lemma_glen_prefix_mono(l, kf + 1, l.len() as int);
    assert(p < seq_glen_prefix(l, l.len() as int));
    let k = choose|k: int|
        0 <= k < l.len() && #[trigger] seq_glen_prefix(l, k) <= p < seq_glen_prefix(l, k + 1);
    assert(seq_glen_prefix(l, kf) <= p < seq_glen_prefix(l, kf + 1));
    lemma_span_unique(l, p, k, kf);
}


/// Extending the right-hand store of a join by one fresh key updates the
/// join at exactly that key.
pub proof fn lemma_map_join_insert_right(
    a: Map<NodeIdV, BlockC>,
    m: Map<NodeIdV, BlockC>,
    x: BlockC,
)
    requires
        !m.dom().contains(x.id),
    ensures
        map_join(a, m.insert(x.id, x)) == map_join(a, m).insert(
            x.id,
            if a.dom().contains(x.id) {
                join_block(a[x.id], x)
            } else {
                x
            },
        ),
{
    let lhs = map_join(a, m.insert(x.id, x));
    let rhs = map_join(a, m).insert(
        x.id,
        if a.dom().contains(x.id) {
            join_block(a[x.id], x)
        } else {
            x
        },
    );
    assert(lhs =~= rhs);
}

/// Every block's clock is bounded by the store's maximum clock.
pub proof fn lemma_max_clock_ge(s: Seq<BlockC>, i: int)
    requires
        0 <= i < s.len(),
    ensures
        s[i].id.clock <= max_clock(s),
    decreases s.len(),
{
    if i < s.len() - 1 {
        assert(s.drop_last()[i] == s[i]);
        lemma_max_clock_ge(s.drop_last(), i);
    }
}


} // verus!
