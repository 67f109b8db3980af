//! Identifier rules for named capture groups, on top of the Unicode
//! `ID_Start` / `ID_Continue` properties that `unicode_id_start` provides.
use vstd::prelude::*;

verus! {

/// Whether `c` has the Unicode `ID_Start` property, as the
/// `unicode_id_start` crate's tables say.
pub uninterp spec fn id_start(c: char) -> bool;

/// Whether `c` has the Unicode `ID_Continue` property, as the
/// `unicode_id_start` crate's tables say.
pub uninterp spec fn id_continue(c: char) -> bool;

/// Calls `unicode_id_start::is_id_start`, a lookup in the crate's static
/// Unicode tables. The contract claims only that the answer is a function of
/// `c` alone, named `id_start`.
#[verifier::external_body]
fn is_id_start(c: char) -> (r: bool)
    ensures
        r == id_start(c),
{
    unicode_id_start::is_id_start(c)
}

/// Calls `unicode_id_start::is_id_continue`, a lookup in the crate's static
/// Unicode tables. The contract claims only that the answer is a function of
/// `c` alone, named `id_continue`.
#[verifier::external_body]
fn is_id_continue(c: char) -> (r: bool)
    ensures
        r == id_continue(c),
{
    unicode_id_start::is_id_continue(c)
}

/// The character with scalar value `v`, when `v` is a Unicode scalar value
/// (at most 0x10FFFF and not a surrogate).
pub open spec fn spec_char_from_u32(v: u32) -> Option<char> {
    if v <= 0x10ffff && !(0xd800 <= v <= 0xdfff) {
        Some(v as char)
    } else {
        None
    }
}

/// Calls `char::from_u32`, which std documents as returning `None` exactly
/// when `v` is above 0x10FFFF or a surrogate, and the character with that
/// value otherwise.
#[verifier::external_body]
pub(crate) fn char_from_u32(v: u32) -> (r: Option<char>)
    ensures
        r == spec_char_from_u32(v),
{
    char::from_u32(v)
}

/// A character that may start a group name: `$`, `_`, or `ID_Start`.
pub open spec fn spec_is_name_start(c: char) -> bool {
    c == '$' || c == '_' || id_start(c)
}

/// A character that may continue a group name: a start character,
/// `ID_Continue`, ZWNJ or ZWJ.
pub open spec fn spec_is_name_continue(c: char) -> bool {
    spec_is_name_start(c) || id_continue(c) || c == '\u{200c}' || c == '\u{200d}'
}

/// An ECMAScript identifier name: a start character followed by continue
/// characters.
pub open spec fn spec_is_group_name(name: Seq<char>) -> bool {
    &&& name.len() > 0
    &&& spec_is_name_start(name[0])
    &&& forall|i: int| 1 <= i < name.len() ==> spec_is_name_continue(#[trigger] name[i])
}

/// Whether `c` may start a group name.
pub(crate) fn is_group_name_start(c: char) -> (r: bool)
    ensures
        r == spec_is_name_start(c),
{
    c == '$' || c == '_' || is_id_start(c)
}

/// Whether `c` may continue a group name.
pub(crate) fn is_group_name_continue(c: char) -> (r: bool)
    ensures
        r == spec_is_name_continue(c),
{
    is_group_name_start(c) || is_id_continue(c) || c == '\u{200c}' || c == '\u{200d}'
}

/// Whether `name` is a valid group name.
pub(crate) fn is_group_name(name: &Vec<char>) -> (r: bool)
    ensures
        r == spec_is_group_name(name@),
{
    if name.len() == 0 {
        return false;
    }
    if !is_group_name_start(name[0]) {
        return false;
    }
    let mut i: usize = 1;
    while i < name.len()
        invariant
            1 <= i <= name.len(),
            spec_is_name_start(name@[0]),
            forall|j: int| 1 <= j < i ==> spec_is_name_continue(#[trigger] name@[j]),
        decreases name.len() - i,
    {
        if !is_group_name_continue(name[i]) {
            return false;
        }
        i = i + 1;
    }
    true
}

} // verus!
