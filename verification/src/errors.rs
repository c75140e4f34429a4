//! Structured errors for replica operations.
//!
//! Every error is returned by value; no operation leaves the replica
//! partially mutated. `message` renders an error as text, specified down to
//! the exact character sequence.

use crate::node::{NodeId, NodeIdV};
use vstd::prelude::*;
use vstd::string::StringExecFns;

verus! {

/// Errors raised by text replica operations.
#[derive(Debug, Clone, PartialEq, Eq)]
pub enum TextError {
    /// An insert position beyond the current length. Carries the position
    /// and the length at the time of the call.
    PositionOutOfBounds { position: usize, length: usize },
    /// A delete range reaching beyond the current length. Carries the range
    /// bounds and the length at the time of the call.
    RangeOutOfBounds { start: usize, end: usize, length: usize },
    /// A referenced block identifier is absent (reserved; operations in this
    /// crate do not raise it).
    BlockNotFound(NodeId),
    /// An insert strictly inside a block would need the block split
    /// (reserved; such inserts anchor to the block's right edge instead).
    BlockSplitRequired,
    /// An underlying rendered-buffer failure, as text.
    RopeError(String),
}

/// The decimal digit character for `d` (`d < 10`).
pub open spec fn digit_char(d: nat) -> char {
    if d == 0 {
        '0'
    } else if d == 1 {
        '1'
    } else if d == 2 {
        '2'
    } else if d == 3 {
        '3'
    } else if d == 4 {
        '4'
    } else if d == 5 {
        '5'
    } else if d == 6 {
        '6'
    } else if d == 7 {
        '7'
    } else if d == 8 {
        '8'
    } else {
        '9'
    }
}

/// The decimal rendering of `n`, most significant digit first.
pub open spec fn dec_digits(n: nat) -> Seq<char>
    decreases n,
{
    if n < 10 {
        seq![digit_char(n)]
    } else {
        dec_digits(n / 10) + seq![digit_char(n % 10)]
    }
}

/// The text of an identifier: client id, `@`, clock, `:`, offset.
pub open spec fn id_text(id: NodeIdV) -> Seq<char> {
    id.client_id + "@"@ + dec_digits(id.clock as nat) + ":"@ + dec_digits(id.offset as nat)
}

/// The text of an error, down to the character.
pub open spec fn error_text(e: TextError) -> Seq<char> {
    match e {
        TextError::PositionOutOfBounds { position, length } => "Position "@ + dec_digits(
            position as nat,
        ) + " out of bounds (length: "@ + dec_digits(length as nat) + ")"@,
        TextError::RangeOutOfBounds { start, end, length } => "Range "@ + dec_digits(start as nat)
            + ".."@ + dec_digits(end as nat) + " out of bounds (length: "@ + dec_digits(
            length as nat,
        ) + ")"@,
        TextError::BlockNotFound(id) => "Block not found: "@ + id_text(id@),
        TextError::BlockSplitRequired => "Block splitting not implemented in Phase 1"@,
        TextError::RopeError(m) => "Rope error: "@ + m@,
    }
}

fn digit_str(d: u64) -> (s: &'static str)
    requires
        d < 10,
    ensures
        s@ == seq![digit_char(d as nat)],
{
    proof {
        reveal_strlit("0");
        reveal_strlit("1");
        reveal_strlit("2");
        reveal_strlit("3");
        reveal_strlit("4");
        reveal_strlit("5");
        reveal_strlit("6");
        reveal_strlit("7");
        reveal_strlit("8");
        reveal_strlit("9");
    }
    match d {
        0 => "0",
        1 => "1",
        2 => "2",
        3 => "3",
        4 => "4",
        5 => "5",
        6 => "6",
        7 => "7",
        8 => "8",
        _ => "9",
    }
}

/// Render `n` in decimal.
pub fn u64_to_dec(n: u64) -> (s: String)
    ensures
        s@ == dec_digits(n as nat),
{
    let mut acc = String::from_str(digit_str(n % 10));
    let mut m: u64 = n / 10;
    proof {
        if n >= 10 {
            assert(dec_digits(n as nat) == dec_digits((n / 10) as nat) + seq![
                digit_char((n % 10) as nat),
            ]);
            assert(dec_digits(m as nat) + acc@ =~= dec_digits(n as nat));
        } else {
            assert(acc@ =~= dec_digits(n as nat));
        }
    }
    while m > 0
        invariant
            m > 0 ==> dec_digits(n as nat) == dec_digits(m as nat) + acc@,
            m == 0 ==> dec_digits(n as nat) == acc@,
        decreases m,
    {
        let d = m % 10;
        let mut piece = String::from_str(digit_str(d));
        piece.append(acc.as_str());
        proof {
            assert(piece@ =~= seq![digit_char(d as nat)] + acc@);
            if m >= 10 {
                assert(dec_digits(m as nat) == dec_digits((m / 10) as nat) + seq![
                    digit_char((m % 10) as nat),
                ]);
                assert(dec_digits((m / 10) as nat) + piece@ =~= dec_digits(m as nat) + acc@);
            } else {
                assert(dec_digits(m as nat) == seq![digit_char(m as nat)]);
                assert(piece@ =~= dec_digits(m as nat) + acc@);
            }
        }
        acc = piece;
        m = m / 10;
    }
    acc
}

fn usize_to_dec(n: usize) -> (s: String)
    ensures
        s@ == dec_digits(n as nat),
{
    u64_to_dec(n as u64)
}

impl TextError {
    /// The error rendered as text, exactly [`error_text`].
    pub fn message(&self) -> (s: String)
        ensures
            s@ == error_text(*self),
    {
        match self {
            TextError::PositionOutOfBounds { position, length } => {
                let mut s = String::from_str("Position ");
                s.append(usize_to_dec(*position).as_str());
                s.append(" out of bounds (length: ");
                s.append(usize_to_dec(*length).as_str());
                s.append(")");
                s
            },
            TextError::RangeOutOfBounds { start, end, length } => {
                let mut s = String::from_str("Range ");
                s.append(usize_to_dec(*start).as_str());
                s.append("..");
                s.append(usize_to_dec(*end).as_str());
                s.append(" out of bounds (length: ");
                s.append(usize_to_dec(*length).as_str());
                s.append(")");
                s
            },
            TextError::BlockNotFound(id) => {
                let mut s = String::from_str("Block not found: ");
                s.append(id.client_id.as_str());
                s.append("@");
                s.append(u64_to_dec(id.clock).as_str());
                s.append(":");
                s.append(u64_to_dec(id.offset as u64).as_str());
                s
            },
            TextError::BlockSplitRequired => String::from_str("Block splitting not implemented in Phase 1"),
            TextError::RopeError(m) => {
                let mut s = String::from_str("Rope error: ");
                s.append(m.as_str());
                s
            },
        }
    }
}

} // verus!
