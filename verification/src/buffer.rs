//! The rendered text buffer: a rope holding the visible document.
//!
//! The buffer is derived state. It mirrors the visible text under local
//! edits and is rebuilt from the block store after a merge. The rope itself
//! is outside work; its content is named by [`rope_text`], and each
//! operation the replica uses is declared here with its contract.

use vstd::prelude::*;

verus! {

#[verifier::external_type_specification]
#[verifier::external_body]
pub struct ExRope(ropey::Rope);

/// The characters a rope holds, in order.
pub uninterp spec fn rope_text(r: ropey::Rope) -> Seq<char>;

/// Relies on ropey's `Rope::new`: an empty rope.
#[verifier::external_body]
pub(crate) fn rope_new() -> (r: ropey::Rope)
    ensures
        rope_text(r) == Seq::<char>::empty(),
{
    ropey::Rope::new()
}

/// Relies on ropey's `Rope::from_str`: the rope holds exactly the given text.
#[verifier::external_body]
pub(crate) fn rope_from_str(s: &str) -> (r: ropey::Rope)
    ensures
        rope_text(r) == s@,
{
    ropey::Rope::from_str(s)
}

/// Relies on ropey's `Rope::insert`, which splices `text` in at the given
/// char index and panics only when that index is out of bounds.
#[verifier::external_body]
pub(crate) fn rope_insert(r: &mut ropey::Rope, char_idx: usize, text: &str)
    requires
        char_idx <= rope_text(*old(r)).len(),
    ensures
        rope_text(*final(r)) == rope_text(*old(r)).take(char_idx as int) + text@ + rope_text(
            *old(r),
        ).skip(char_idx as int),
{
    r.insert(char_idx, text)
}

/// Relies on ropey's `Rope::remove` on a `start..end` char range, which
/// panics only when the range is invalid or out of bounds.
#[verifier::external_body]
pub(crate) fn rope_remove(r: &mut ropey::Rope, start: usize, end: usize)
    requires
        start <= end <= rope_text(*old(r)).len(),
    ensures
        rope_text(*final(r)) == rope_text(*old(r)).take(start as int) + rope_text(*old(r)).skip(
            end as int,
        ),
{
    r.remove(start..end)
}

/// Relies on ropey's `Rope::len_chars`: the number of chars the rope holds.
#[verifier::external_body]
pub(crate) fn rope_len_chars(r: &ropey::Rope) -> (n: usize)
    ensures
        n == rope_text(*r).len(),
{
    r.len_chars()
}

/// Relies on ropey's `From<&Rope> for String`: the rope's text as a string.
#[verifier::external_body]
pub(crate) fn rope_to_string(r: &ropey::Rope) -> (s: String)
    ensures
        s@ == rope_text(*r),
{
    String::from(r)
}

/// Relies on ropey's derived `Clone` for `Rope`: the copy holds the same text.
#[verifier::external_body]
pub(crate) fn rope_clone(r: &ropey::Rope) -> (c: ropey::Rope)
    ensures
        rope_text(c) == rope_text(*r),
{
    r.clone()
}

} // verus!
