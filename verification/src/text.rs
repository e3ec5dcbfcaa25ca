use vstd::prelude::*;

verus! {

/// Relies on `core::str::from_utf8`: it returns `Ok` exactly on valid UTF-8
/// input and decodes it; vstd's UTF-8 model gives the meaning of the result.
#[verifier::external_body]
pub fn bytes_to_string(v: &Vec<u8>) -> (r: Option<String>)
    ensures
        (r is Some) == vstd::utf8::valid_utf8(v@),
        r matches Some(s) ==> s@ == vstd::utf8::decode_utf8(v@),
{
    match core::str::from_utf8(v.as_slice()) {
        Ok(s) => Some(s.to_owned()),
        Err(_) => None,
    }
}

} // verus!
