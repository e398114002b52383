//! Names for new segments.

use vstd::prelude::*;
use vstd::string::StringExecFns;
use uuid::Uuid;

verus! {

#[verifier::external_type_specification]
#[verifier::external_body]
pub struct ExUuid(Uuid);

/// Whether the character is a decimal digit, a letter from `a` to `f`, or a
/// hyphen.
pub open spec fn is_id_char(c: char) -> bool {
    ('0' <= c && c <= '9') || ('a' <= c && c <= 'f') || c == '-'
}

/// Whether the text is an identifier of 36 characters followed by `.bin`.
pub open spec fn is_segment_name(name: Seq<char>) -> bool {
    &&& name.len() == 40
    &&& forall|i: int| 0 <= i < 36 ==> is_id_char(#[trigger] name[i])
    &&& name.subrange(36, 40) == seq!['.', 'b', 'i', 'n']
}

/// Calls `uuid::Uuid::new_v4`, which draws sixteen random bytes from the
/// operating system. Nothing is claimed of the identifier. The call panics
/// when the operating system gives no random bytes.
#[verifier::external_body]
fn random_id() -> (id: Uuid) {
    Uuid::new_v4()
}

/// Calls `uuid::Uuid::to_hyphenated` and formats the adapter. The contract
/// claims that the text has 36 characters, each a lower-case hexadecimal
/// digit or a hyphen.
#[verifier::external_body]
fn hyphenated(id: Uuid) -> (text: String)
    ensures
        text@.len() == 36,
        forall|i: int| 0 <= i < 36 ==> is_id_char(#[trigger] text@[i]),
{
    id.to_hyphenated().to_string()
}

/// A name for a new segment: a random identifier followed by `.bin`.
pub fn fresh_segment_name() -> (name: String)
    ensures
        is_segment_name(name@),
{
    let id = random_id();
    let name = hyphenated(id).concat(".bin");
    proof {
        reveal_strlit(".bin");
        assert(name@.subrange(36, 40) =~= seq!['.', 'b', 'i', 'n']);
    }
    name
}

} // verus!
