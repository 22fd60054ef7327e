//! Random identifiers.

use uuid::Uuid;
use vstd::prelude::*;

verus! {

/// Whether `c` is a hexadecimal digit in lower case.
pub open spec fn hex_digit(c: char) -> bool {
    '0' <= c <= '9' || 'a' <= c <= 'f'
}

/// Whether the text is a random UUID in groups of 8, 4, 4, 4 and 12 digits: the
/// third group starts with the version, 4, and the fourth with the variant.
pub open spec fn is_uuid(text: Seq<char>) -> bool {
    &&& text.len() == 36
    &&& forall|i: int|
        0 <= i < 36 ==> if i == 8 || i == 13 || i == 18 || i == 23 {
            #[trigger] text[i] == '-'
        } else {
            hex_digit(text[i])
        }
    &&& text[14] == '4'
    &&& text[19] == '8' || text[19] == '9' || text[19] == 'a' || text[19] == 'b'
}

/// Whether the text is a random UUID without hyphens.
pub open spec fn is_simple_uuid(text: Seq<char>) -> bool {
    &&& text.len() == 32
    &&& forall|i: int| 0 <= i < 32 ==> hex_digit(#[trigger] text[i])
    &&& text[12] == '4'
    &&& text[16] == '8' || text[16] == '9' || text[16] == 'a' || text[16] == 'b'
}

/// Whether the text can be a session identifier.
pub open spec fn is_session_id(text: Seq<char>) -> bool {
    &&& text.len() == 8
    &&& forall|i: int| 0 <= i < 8 ==> hex_digit(#[trigger] text[i])
}

/// Calls `Uuid::new_v4` and prints the result with `to_string`: hyphenated, in
/// lower case. The digits are random, so only the form is claimed. The call
/// panics where the operating system has no random bytes to give.
#[verifier::external_body]
fn random_uuid() -> (text: String)
    ensures
        is_uuid(text@),
{
    Uuid::new_v4().to_string()
}

/// Calls `Uuid::new_v4` and prints the result through `Uuid::simple`: without
/// hyphens, in lower case. The digits are random, so only the form is claimed.
/// The call panics where the operating system has no random bytes to give.
#[verifier::external_body]
fn random_simple_uuid() -> (text: String)
    ensures
        is_simple_uuid(text@),
{
    Uuid::new_v4().simple().to_string()
}

/// A fresh identifier for an entry.
pub fn generate_entry_id() -> (id: String)
    ensures
        is_uuid(id@),
{
    random_uuid()
}

/// The session identifier cut from a random UUID: its first eight digits.
pub fn session_id_from(uuid: &str) -> (id: String)
    requires
        is_simple_uuid(uuid@),
    ensures
        id@ == uuid@.take(8),
{
    assert(uuid.is_ascii());
    let id: String = uuid.substring_ascii(0, 8).to_string();
    assert(id@ =~= uuid@.take(8));
    id
}

/// A fresh identifier for a session: eight random hexadecimal digits.
pub fn generate_session_id() -> (id: String)
    ensures
        is_session_id(id@),
{
    let uuid: String = random_simple_uuid();
    session_id_from(uuid.as_str())
}

} // verus!
