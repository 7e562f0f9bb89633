//! Content hashes of module sources, as lowercase hexadecimal text.
use vstd::prelude::*;
use sha2::{Digest, Sha256};
use crate::display::push_char;

verus! {

/// The SHA-256 digest of a byte string.
pub uninterp spec fn sha256_spec(bytes: Seq<u8>) -> Seq<u8>;

/// `sha2::Sha256`: a hasher made with `new`, fed `bytes` with `update`, and
/// read with `finalize`. The result is the digest of `bytes` (named, not
/// stated) and has 32 bytes (the output size of `Sha256`).
#[verifier::external_body]
fn sha256_digest(bytes: &[u8]) -> (r: Vec<u8>)
    ensures
        r@ == sha256_spec(bytes@),
        r@.len() == 32,
{
    let mut hasher = Sha256::new();
    hasher.update(bytes);
    hasher.finalize().to_vec()
}

/// The lowercase hexadecimal digit of `d` (below 16).
pub open spec fn hex_digit(d: u8) -> char {
    if d < 10 {
        (48 + d) as char
    } else {
        (87 + d) as char
    }
}

/// Each byte as two lowercase hexadecimal digits, high half first.
pub open spec fn hex_spec(bytes: Seq<u8>) -> Seq<char>
    decreases bytes.len(),
{
    if bytes.len() == 0 {
        Seq::empty()
    } else {
        hex_spec(bytes.drop_last()) + seq![hex_digit(bytes.last() / 16), hex_digit(bytes.last() % 16)]
    }
}

fn hex_digit_exec(d: u8) -> (c: char)
    requires
        d < 16,
    ensures
        c == hex_digit(d),
{
    if d < 10 {
        (48u8 + d) as char
    } else {
        (87u8 + d) as char
    }
}

/// The bytes as lowercase hexadecimal text.
pub fn hex_lower(bytes: &[u8]) -> (r: String)
    ensures
        r@ == hex_spec(bytes@),
        r@.len() == 2 * bytes@.len(),
{
    let mut out = String::new();
    let mut i: usize = 0;
    assert(bytes@.take(0) =~= Seq::<u8>::empty());
    while i < bytes.len()
        invariant
            i <= bytes.len(),
            out@ == hex_spec(bytes@.take(i as int)),
            out@.len() == 2 * i,
        decreases bytes.len() - i,
    {
        let b = bytes[i];
        push_char(&mut out, hex_digit_exec(b / 16));
        push_char(&mut out, hex_digit_exec(b % 16));
        proof {
            let t1 = bytes@.take(i + 1);
            assert(t1.drop_last() =~= bytes@.take(i as int));
            assert(t1.last() == b);
            assert(out@ =~= hex_spec(t1));
        }
        i += 1;
    }
    assert(bytes@.take(bytes.len() as int) =~= bytes@);
    out
}

/// The SHA-256 digest of `bytes` as 64 lowercase hexadecimal digits.
pub fn sha256_hex(bytes: &[u8]) -> (r: String)
    ensures
        r@ == hex_spec(sha256_spec(bytes@)),
        r@.len() == 64,
{
    let d = sha256_digest(bytes);
    hex_lower(d.as_slice())
}

} // verus!
