//! Blocks: immutable runs of text with their Fugue anchors.
//!
//! A block is a run of graphemes inserted atomically. It carries its
//! identifier, the identifiers of the visible neighbours at the moment of
//! insertion (the Fugue anchors), a tombstone flag, and a cached grapheme
//! start position maintained by the position cache.

use crate::node::{NodeId, NodeIdV};
use crate::segment::{graphemes_of, lemma_parts_le_flat_len, split_graphemes};
use vstd::prelude::*;

verus! {

/// The mathematical content of a block: what replicas must agree on for a
/// given identifier, plus the tombstone flag. Cached positions are not part
/// of it.
pub ghost struct BlockC {
    pub id: NodeIdV,
    pub text: Seq<char>,
    pub left_origin: Option<NodeIdV>,
    pub right_origin: Option<NodeIdV>,
    pub deleted: bool,
}

/// The value of an optional identifier.
pub open spec fn opt_view(o: Option<NodeId>) -> Option<NodeIdV> {
    match o {
        Some(id) => Some(id@),
        None => None,
    }
}

/// A stored block. `id`, `text` and the origins are immutable once the
/// block exists; `deleted` only ever turns from false to true. Build one
/// with [`Block::new`], which keeps `grapheme_len` honest.
pub struct Block {
    pub id: NodeId,
    pub text: String,
    pub grapheme_len: usize,
    pub left_origin: Option<NodeId>,
    pub right_origin: Option<NodeId>,
    pub deleted: bool,
    pub cached_start_pos: Option<usize>,
}

impl View for Block {
    type V = BlockC;

    open spec fn view(&self) -> BlockC {
        BlockC {
            id: self.id@,
            text: self.text@,
            left_origin: opt_view(self.left_origin),
            right_origin: opt_view(self.right_origin),
            deleted: self.deleted,
        }
    }
}

/// Copy an optional identifier.
pub(crate) fn clone_opt_id(o: &Option<NodeId>) -> (r: Option<NodeId>)
    ensures
        r == *o,
{
    match o {
        Some(id) => Some(id.clone()),
        None => None,
    }
}

impl Block {
    /// A block is well formed when its stored grapheme count matches its
    /// text.
    pub open spec fn wf(&self) -> bool {
        self.grapheme_len == graphemes_of(self.text@).len()
    }

    /// Build a block from its parts, counting the graphemes of `text`.
    pub fn new(
        id: NodeId,
        text: String,
        left_origin: Option<NodeId>,
        right_origin: Option<NodeId>,
        deleted: bool,
    ) -> (b: Block)
        ensures
            b.wf(),
            b@ == (BlockC {
                id: id@,
                text: text@,
                left_origin: opt_view(left_origin),
                right_origin: opt_view(right_origin),
                deleted,
            }),
            b.cached_start_pos is None,
            b.grapheme_len == graphemes_of(text@).len(),
            b.grapheme_len <= text@.len(),
    {
        let gs = split_graphemes(text.as_str());
        let glen = gs.len();
        proof {
            let gv = gs@.map_values(|g: String| g@);
            assert forall|i: int| 0 <= i < gv.len() implies gv[i].len() > 0 by {
                assert(gv[i] == gs@[i]@);
            }
            lemma_parts_le_flat_len(gv);
        }
        Block {
            id,
            text,
            grapheme_len: glen,
            left_origin,
            right_origin,
            deleted,
            cached_start_pos: None,
        }
    }

    /// The number of graphemes in this block's text.
    pub fn grapheme_count(&self) -> (n: usize)
        ensures
            n == self.grapheme_len,
    {
        self.grapheme_len
    }

    /// Whether this block is tombstoned.
    pub fn is_deleted(&self) -> (d: bool)
        ensures
            d == self@.deleted,
    {
        self.deleted
    }

    /// The cached grapheme start position, if the cache has assigned one.
    pub fn cached_position(&self) -> (p: Option<usize>)
        ensures
            p == self.cached_start_pos,
    {
        self.cached_start_pos
    }
}

impl Clone for Block {
    fn clone(&self) -> (r: Self)
        ensures
            r == *self,
    {
        Block {
            id: self.id.clone(),
            text: self.text.clone(),
            grapheme_len: self.grapheme_len,
            left_origin: clone_opt_id(&self.left_origin),
            right_origin: clone_opt_id(&self.right_origin),
            deleted: self.deleted,
            cached_start_pos: self.cached_start_pos,
        }
    }
}

} // verus!
