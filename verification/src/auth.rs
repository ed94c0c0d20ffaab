use vstd::prelude::*;
use crate::codec::push_all;

verus! {

/// The standard textual encoding of the credential bytes that stand after
/// `Basic ` in an authorization header. Its value depends on the input
/// bytes alone.
pub uninterp spec fn base64_of(bytes: Seq<u8>) -> Seq<u8>;

/// Relies on base64::encode: the standard-alphabet, padded encoding of
/// the input bytes, deterministic in them.
#[verifier::external_body]
fn encode_base64(bytes: &Vec<u8>) -> (r: Vec<u8>)
    ensures
        r@ == base64_of(bytes@),
{
    base64::encode(bytes.as_slice()).into_bytes()
}

/// `user:password`, the credential pair as the header encodes it.
pub open spec fn spec_credentials(user: Seq<u8>, password: Seq<u8>) -> Seq<u8> {
    user + seq![58u8] + password
}

/// The whole value of a basic authentication header.
pub open spec fn spec_basic_auth_value(user: Seq<u8>, password: Seq<u8>) -> Seq<u8> {
    seq![66u8, 97u8, 115u8, 105u8, 99u8, 32u8] + base64_of(spec_credentials(user, password))
}

/// Build the value of the `Authorization` header for a configured
/// credential pair: the word `Basic`, a space, and the encoded
/// `user:password` bytes.
pub fn basic_auth_value(user: &Vec<u8>, password: &Vec<u8>) -> (r: Vec<u8>)
    ensures
        r@ == spec_basic_auth_value(user@, password@),
{
    let mut credentials: Vec<u8> = Vec::new();
    push_all(&mut credentials, user);
    credentials.push(58);
    push_all(&mut credentials, password);
    proof {
        assert(credentials@ =~= spec_credentials(user@, password@));
    }
    let encoded = encode_base64(&credentials);
    let mut r: Vec<u8> = Vec::new();
    r.push(66);
    r.push(97);
    r.push(115);
    r.push(105);
    r.push(99);
    r.push(32);
    push_all(&mut r, &encoded);
    proof {
        assert(r@ =~= spec_basic_auth_value(user@, password@));
    }
    r
}

} // verus!
