//! Globally unique, totally ordered block identifiers.
//!
//! An identifier is a triple (client id, Lamport clock, offset). The total
//! order is lexicographic on (clock, client id, offset): the clock dominates,
//! so causally later blocks sort after everything their author had seen; the
//! client id breaks ties deterministically across replicas; the offset is
//! reserved for block splitting. This order is the canonical document order.

use vstd::prelude::*;
use vstd::string::StrSliceExecFns;

verus! {

/// The mathematical value of a [`NodeId`].
pub ghost struct NodeIdV {
    pub client_id: Seq<char>,
    pub clock: u64,
    pub offset: u32,
}

/// A block identifier: minted once, immutable, compared structurally.
#[derive(Debug, PartialEq, Eq)]
pub struct NodeId {
    pub client_id: String,
    pub clock: u64,
    pub offset: u32,
}

impl View for NodeId {
    type V = NodeIdV;

    open spec fn view(&self) -> NodeIdV {
        NodeIdV { client_id: self.client_id@, clock: self.clock, offset: self.offset }
    }
}

impl Clone for NodeId {
    fn clone(&self) -> (r: Self)
        ensures
            r == *self,
    {
        NodeId { client_id: self.client_id.clone(), clock: self.clock, offset: self.offset }
    }
}

impl NodeId {
    /// Mint an identifier from its parts.
    pub fn new(client_id: String, clock: u64, offset: u32) -> (id: Self)
        ensures
            id@ == (NodeIdV { client_id: client_id@, clock, offset }),
    {
        NodeId { client_id, clock, offset }
    }
}

/// Strict lexicographic order on character sequences.
pub open spec fn seq_char_lt(a: Seq<char>, b: Seq<char>) -> bool
    decreases a.len(),
{
    if b.len() == 0 {
        false
    } else if a.len() == 0 {
        true
    } else if a[0] != b[0] {
        (a[0] as u32) < (b[0] as u32)
    } else {
        seq_char_lt(a.drop_first(), b.drop_first())
    }
}

/// Strict total order on identifiers: by clock, then client id, then offset.
pub open spec fn id_lt(x: NodeIdV, y: NodeIdV) -> bool {
    ||| x.clock < y.clock
    ||| (x.clock == y.clock && seq_char_lt(x.client_id, y.client_id))
    ||| (x.clock == y.clock && x.client_id == y.client_id && x.offset < y.offset)
}

/// Distinct characters have distinct code points.
proof fn lemma_char_code_distinct(x: char, y: char)
    requires
        x != y,
    ensures
        (x as u32) != (y as u32),
{
}

/// Of two character sequences, exactly one of `a < b`, `a == b`, `b < a` holds.
pub proof fn lemma_seq_char_lt_trichotomy(a: Seq<char>, b: Seq<char>)
    ensures
        seq_char_lt(a, b) || a == b || seq_char_lt(b, a),
        seq_char_lt(a, b) ==> !seq_char_lt(b, a) && a != b,
        seq_char_lt(b, a) ==> !seq_char_lt(a, b) && a != b,
    decreases a.len(),
{
    if b.len() == 0 || a.len() == 0 {
        if a.len() == 0 && b.len() == 0 {
            assert(a =~= b);
        }
    } else if a[0] != b[0] {
        lemma_char_code_distinct(a[0], b[0]);
    } else {
        lemma_seq_char_lt_trichotomy(a.drop_first(), b.drop_first());
        if a.drop_first() == b.drop_first() {
            assert forall|j: int| 0 <= j < a.len() implies a[j] == b[j] by {
                if j > 0 {
                    assert(a.drop_first()[j - 1] == a[j]);
                    assert(b.drop_first()[j - 1] == b[j]);
                }
            }
            assert(a =~= b);
        }
        if a == b {
            assert(a.drop_first() =~= b.drop_first());
        }
    }
}

/// The lexicographic order on character sequences is transitive.
pub proof fn lemma_seq_char_lt_trans(a: Seq<char>, b: Seq<char>, c: Seq<char>)
    requires
        seq_char_lt(a, b),
        seq_char_lt(b, c),
    ensures
        seq_char_lt(a, c),
    decreases a.len(),
{
    if c.len() == 0 {
    } else if a.len() == 0 {
    } else {
        // a, b, c all nonempty: b nonempty since seq_char_lt(a, b) with b empty is false
        if a[0] != b[0] {
            lemma_char_code_distinct(a[0], b[0]);
        }
        if b[0] != c[0] {
            lemma_char_code_distinct(b[0], c[0]);
        }
        if a[0] != c[0] {
            lemma_char_code_distinct(a[0], c[0]);
        }
        if a[0] != b[0] {
            if b[0] != c[0] {
                if a[0] != c[0] {
                } else {
                }
            } else {
            }
        } else {
            if b[0] != c[0] {
            } else {
                lemma_seq_char_lt_trans(a.drop_first(), b.drop_first(), c.drop_first());
            }
        }
    }
}

/// Of two identifiers, exactly one of `x < y`, `x == y`, `y < x` holds.
pub proof fn lemma_id_lt_trichotomy(x: NodeIdV, y: NodeIdV)
    ensures
        id_lt(x, y) || x == y || id_lt(y, x),
        id_lt(x, y) ==> !id_lt(y, x) && x != y,
        id_lt(y, x) ==> !id_lt(x, y) && x != y,
{
    lemma_seq_char_lt_trichotomy(x.client_id, y.client_id);
}

/// The identifier order is transitive.
pub proof fn lemma_id_lt_trans(x: NodeIdV, y: NodeIdV, z: NodeIdV)
    requires
        id_lt(x, y),
        id_lt(y, z),
    ensures
        id_lt(x, z),
{
    lemma_seq_char_lt_trichotomy(x.client_id, y.client_id);
    lemma_seq_char_lt_trichotomy(y.client_id, z.client_id);
    if x.clock == y.clock && y.clock == z.clock && seq_char_lt(x.client_id, y.client_id)
        && seq_char_lt(y.client_id, z.client_id) {
        lemma_seq_char_lt_trans(x.client_id, y.client_id, z.client_id);
    }
}

proof fn lemma_lt_from_first_difference(a: Seq<char>, b: Seq<char>, i: int)
    requires
        0 <= i < a.len(),
        i < b.len(),
        a.take(i) == b.take(i),
        a[i] != b[i],
        (a[i] as u32) < (b[i] as u32),
    ensures
        seq_char_lt(a, b),
    decreases i,
{
    if i == 0 {
    } else {
        assert(a[0] == a.take(i)[0] && b[0] == b.take(i)[0]);
        assert forall|j: int| 0 <= j < i - 1 implies a.drop_first()[j] == b.drop_first()[j] by {
            assert(a.drop_first()[j] == a[j + 1]);
            assert(b.drop_first()[j] == b[j + 1]);
            assert(a.take(i)[j + 1] == a[j + 1]);
            assert(b.take(i)[j + 1] == b[j + 1]);
            assert(a.take(i)[j + 1] == b.take(i)[j + 1]);
        }
        assert(a.drop_first().take(i - 1) =~= b.drop_first().take(i - 1));
        lemma_lt_from_first_difference(a.drop_first(), b.drop_first(), i - 1);
    }
}

proof fn lemma_lt_from_proper_prefix(a: Seq<char>, b: Seq<char>)
    requires
        a.len() < b.len(),
        a == b.take(a.len() as int),
    ensures
        seq_char_lt(a, b),
    decreases a.len(),
{
    if a.len() == 0 {
    } else {
        assert(a[0] == b.take(a.len() as int)[0]);
        assert forall|j: int| 0 <= j < a.len() - 1 implies a.drop_first()[j] == b.drop_first()[j] by {
            assert(a.drop_first()[j] == a[j + 1]);
            assert(b.drop_first()[j] == b[j + 1]);
            assert(b.take(a.len() as int)[j + 1] == b[j + 1]);
            assert(a[j + 1] == b.take(a.len() as int)[j + 1]);
        }
        assert(a.drop_first() =~= b.drop_first().take(a.len() - 1));
        lemma_lt_from_proper_prefix(a.drop_first(), b.drop_first());
    }
}

/// Three-way comparison of strings in the lexicographic character order.
pub fn str_cmp(a: &str, b: &str) -> (c: i8)
    ensures
        -1 <= c <= 1,
        c == 0 <==> a@ == b@,
        c == -1 <==> seq_char_lt(a@, b@),
        c == 1 <==> seq_char_lt(b@, a@),
{
    proof {
        lemma_seq_char_lt_trichotomy(a@, b@);
    }
    let la = a.unicode_len();
    let lb = b.unicode_len();
    let min = if la < lb {
        la
    } else {
        lb
    };
    let mut i: usize = 0;
    while i < min
        invariant
            i <= min,
            min <= la && min <= lb,
            min == la || min == lb,
            la == a@.len(),
            lb == b@.len(),
            a@.take(i as int) == b@.take(i as int),
        decreases min - i,
    {
        let ca = a.get_char(i);
        let cb = b.get_char(i);
        if ca != cb {
            proof {
                lemma_char_code_distinct(ca, cb);
            }
            if (ca as u32) < (cb as u32) {
                proof {
                    lemma_lt_from_first_difference(a@, b@, i as int);
                    lemma_seq_char_lt_trichotomy(a@, b@);
                }
                return -1;
            } else {
                proof {
                    assert((cb as u32) < (ca as u32));
                    assert(b@.take(i as int) =~= a@.take(i as int));
                    lemma_lt_from_first_difference(b@, a@, i as int);
                    lemma_seq_char_lt_trichotomy(a@, b@);
                }
                return 1;
            }
        }
        proof {
            let ghost ii = i as int;
            assert(a@.take(ii + 1) =~= a@.take(ii) + seq![a@[ii]]);
            assert(b@.take(ii + 1) =~= b@.take(ii) + seq![b@[ii]]);
        }
        i = i + 1;
    }
    proof {
        assert forall|j: int| 0 <= j < min implies a@[j] == b@[j] by {
            assert(a@.take(min as int)[j] == b@.take(min as int)[j]);
        }
    }
    if la == lb {
        proof {
            assert(a@ =~= b@);
            lemma_seq_char_lt_trichotomy(a@, b@);
        }
        0
    } else if la < lb {
        proof {
            assert(a@ =~= b@.take(la as int));
            lemma_lt_from_proper_prefix(a@, b@);
            lemma_seq_char_lt_trichotomy(a@, b@);
        }
        -1
    } else {
        proof {
            assert(b@ =~= a@.take(lb as int));
            lemma_lt_from_proper_prefix(b@, a@);
            lemma_seq_char_lt_trichotomy(a@, b@);
        }
        1
    }
}

/// Three-way comparison of identifiers in the (clock, client id, offset) order.
pub fn node_cmp(a: &NodeId, b: &NodeId) -> (c: i8)
    ensures
        -1 <= c <= 1,
        c == 0 <==> a@ == b@,
        c == -1 <==> id_lt(a@, b@),
        c == 1 <==> id_lt(b@, a@),
{
    proof {
        lemma_id_lt_trichotomy(a@, b@);
    }
    if a.clock < b.clock {
        -1
    } else if b.clock < a.clock {
        1
    } else {
        let sc = str_cmp(a.client_id.as_str(), b.client_id.as_str());
        if sc != 0 {
            sc
        } else if a.offset < b.offset {
            -1
        } else if b.offset < a.offset {
            1
        } else {
            0
        }
    }
}

} // verus!
