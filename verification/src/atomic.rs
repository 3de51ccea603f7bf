use vstd::prelude::*;

verus! {

/// A lower-case hexadecimal digit.
pub open spec fn is_lower_hex(c: char) -> bool {
    (48 <= c as u32 <= 57) || (97 <= c as u32 <= 102)
}

/// The hyphenated, lower-case text of a version-4 UUID: 36 characters,
/// hyphens at positions 8, 13, 18 and 23, hex digits elsewhere, version digit
/// `4` at position 14 and a variant digit `8`, `9`, `a` or `b` at position 19.
pub open spec fn is_uuid_v4_text(u: Seq<char>) -> bool {
    &&& u.len() == 36
    &&& forall|i: int|
        0 <= i < 36 ==> if i == 8 || i == 13 || i == 18 || i == 23 {
            u[i] == '-'
        } else {
            is_lower_hex(#[trigger] u[i])
        }
    &&& u[14] == '4'
    &&& (u[19] == '8' || u[19] == '9' || u[19] == 'a' || u[19] == 'b')
}

/// A fresh random UUID from `uuid::Uuid::new_v4`, as its `Display` text.
///
/// The value is random; the contract states only the shape that the uuid
/// crate's hyphenated lower-case formatting of a version-4 UUID gives. The
/// uuid crate panics when the system's random source fails.
#[verifier::external_body]
fn new_v4_text() -> (r: String)
    ensures
        is_uuid_v4_text(r@),
{
    uuid::Uuid::new_v4().to_string()
}

/// The name of the temporary file that an atomic write of `file_name` goes
/// through: `.{file_name}.tmp.{uuid}` with a fresh version-4 UUID.
pub fn temp_file_name(file_name: &str) -> (r: String)
    ensures
        exists|u: Seq<char>| is_uuid_v4_text(u) && r@ == "."@ + file_name@ + ".tmp."@ + u,
{
    let u = new_v4_text();
    let r = String::from_str(".").concat(file_name).concat(".tmp.").concat(u.as_str());
    proof {
        assert(is_uuid_v4_text(u@) && r@ == "."@ + file_name@ + ".tmp."@ + u@);
    }
    r
}

} // verus!
