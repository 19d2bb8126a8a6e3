use vstd::prelude::*;
use crate::types::TlsConfigurationError;

verus! {

/// The scheme word that opens an `Authorization` header carrying a token.
pub open spec fn bearer_prefix() -> Seq<char> {
    seq!['B', 'e', 'a', 'r', 'e', 'r', ' ']
}

/// The token of an `Authorization` header of the form `Bearer <token>`;
/// `None` for any other header.
pub fn bearer_token(header: &str) -> (r: Option<String>)
    ensures
        bearer_prefix().is_prefix_of(header@) ==> (r matches Some(t) && t@ == header@.subrange(
            7,
            header@.len() as int,
        )),
        !bearer_prefix().is_prefix_of(header@) ==> r is None,
{
    let prefix = "Bearer ";
    proof {
        reveal_strlit("Bearer ");
    }
    assert(prefix@ =~= bearer_prefix());
    if !crate::store::starts_with(header, prefix) {
        return None;
    }
    let n = header.unicode_len();
    let t = header.substring_char(7, n);
    Some(t.to_owned())
}

/// Whether a token that expires at `exp` is still valid at `now` (both in
/// seconds since the epoch).
pub fn token_valid(exp: u64, now: u64) -> (r: bool)
    ensures
        r == (exp >= now),
{
    exp >= now
}

/// The first private key read from a key file; `PrivateKeyNotFound`,
/// naming the file, where it held none.
pub fn first_private_key(keys: Vec<Vec<u8>>, path: &str) -> (r: Result<Vec<u8>, TlsConfigurationError>)
    ensures
        keys@.len() > 0 ==> (r matches Ok(k) && k@ == keys@[0]@),
        keys@.len() == 0 ==> (r matches Err(TlsConfigurationError::PrivateKeyNotFound(p)) && p@ == path@),
{
    let mut keys = keys;
    if keys.len() == 0 {
        return Err(TlsConfigurationError::PrivateKeyNotFound(path.to_owned()));
    }
    Ok(keys.swap_remove(0))
}

} // verus!
