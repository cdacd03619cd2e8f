use vstd::prelude::*;

verus! {

/// A running SHA-256 state. Verus cannot declare `sha2::Sha256` itself (an alias
/// of a deeply generic wrapper), so the state is held in a private field here.
#[verifier::external_body]
pub struct HashState {
    inner: sha2::Sha256,
}

/// The bytes fed into a SHA-256 state since it was created.
pub uninterp spec fn absorbed(h: HashState) -> Seq<u8>;

/// The SHA-256 digest of a byte sequence.
pub uninterp spec fn sha256_of(data: Seq<u8>) -> Seq<u8>;

/// Relies on sha2::Sha256::new (through the Digest trait): a fresh state has absorbed nothing.
#[verifier::external_body]
pub(crate) fn state_new() -> (r: HashState)
    ensures
        absorbed(r) == Seq::<u8>::empty(),
{
    HashState { inner: <sha2::Sha256 as sha2::Digest>::new() }
}

/// Relies on sha2::Sha256::update (through the Digest trait): the bytes are
/// appended to what the state has absorbed.
#[verifier::external_body]
pub(crate) fn state_update(h: &mut HashState, data: &[u8])
    ensures
        absorbed(*final(h)) == absorbed(*old(h)) + data@,
{
    sha2::Digest::update(&mut h.inner, data)
}

/// Relies on sha2::Sha256::finalize (through the Digest trait): the 32-byte
/// digest of everything the state absorbed.
#[verifier::external_body]
pub(crate) fn state_finalize(h: HashState) -> (r: Vec<u8>)
    ensures
        r@ == sha256_of(absorbed(h)),
        r@.len() == 32,
{
    sha2::Digest::finalize(h.inner).to_vec()
}

/// The lowercase hexadecimal digit for a value below 16.
pub open spec fn hex_digit(n: u8) -> char
    recommends
        n < 16,
{
    seq!['0', '1', '2', '3', '4', '5', '6', '7', '8', '9', 'a', 'b', 'c', 'd', 'e', 'f'][n as int]
}

/// Lowercase hexadecimal text of a byte sequence: two digits per byte, high
/// nibble first, no separators.
pub open spec fn hex_lower(b: Seq<u8>) -> Seq<char>
    decreases b.len(),
{
    if b.len() == 0 {
        Seq::empty()
    } else {
        let last = b.last();
        hex_lower(b.drop_last()) + seq![hex_digit(last / 16), hex_digit(last % 16)]
    }
}

/// Relies on base16ct::lower::encode_string: lowercase hex, two digits per byte
/// (it panics only when twice the length overflows).
#[verifier::external_body]
pub(crate) fn to_hex_lower(b: &[u8]) -> (r: String)
    requires
        b@.len() <= usize::MAX / 2,
    ensures
        r@ == hex_lower(b@),
{
    base16ct::lower::encode_string(b)
}

} // verus!
