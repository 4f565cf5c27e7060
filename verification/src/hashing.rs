//! Content hashes: SHA-256 digests written as lowercase hexadecimal.
use vstd::prelude::*;

use sha2::Digest;
use vstd::string::StringSliceAdditionalSpecFns;

use crate::text::push_char;

verus! {

/// The SHA-256 digest of a byte sequence.
pub uninterp spec fn sha256_spec(data: Seq<u8>) -> Seq<u8>;

/// `sha2::Sha256::digest`: the SHA-256 digest of `data`, as the 32 bytes of
/// the output array (`Sha256`'s output size is `U32`).
#[verifier::external_body]
fn sha256_digest(data: &[u8]) -> (res: Vec<u8>)
    ensures
        res@ == sha256_spec(data@),
        res@.len() == 32,
{
    sha2::Sha256::digest(data).to_vec()
}

/// The lowercase hexadecimal digit of a value below 16.
pub open spec fn hex_digit(d: int) -> char {
    if d < 10 {
        (d + 48) as char
    } else {
        (d + 87) as char
    }
}

/// Each byte as two lowercase hexadecimal digits, high digit first
/// (what `format!("{:02x}", b)` gives), all concatenated.
pub open spec fn hex_lower(bytes: Seq<u8>) -> Seq<char>
    decreases bytes.len(),
{
    if bytes.len() == 0 {
        Seq::empty()
    } else {
        hex_lower(bytes.drop_last()) + seq![
            hex_digit(bytes.last() as int / 16),
            hex_digit(bytes.last() as int % 16),
        ]
    }
}

fn hex_digit_exec(d: u8) -> (res: char)
    requires
        d < 16,
    ensures
        res == hex_digit(d as int),
{
    if d < 10 {
        (d + 48) as char
    } else {
        (d + 87) as char
    }
}

/// `bytes` in lowercase hexadecimal.
pub fn to_hex_lower(bytes: &Vec<u8>) -> (res: String)
    ensures
        res@ == hex_lower(bytes@),
{
    let mut res = String::new();
    let mut i: usize = 0;
    assert(bytes@.take(0) =~= Seq::<u8>::empty());
    while i < bytes.len()
        invariant
            i <= bytes.len(),
            res@ == hex_lower(bytes@.take(i as int)),
        decreases bytes.len() - i,
    {
        let b = bytes[i];
        push_char(&mut res, hex_digit_exec(b / 16));
        push_char(&mut res, hex_digit_exec(b % 16));
        proof {
            let t = bytes@.take(i + 1);
            assert(t.drop_last() =~= bytes@.take(i as int));
            assert(t.last() == b);
            assert(res@ =~= hex_lower(t));
        }
        i = i + 1;
    }
    assert(bytes@.take(bytes.len() as int) =~= bytes@);
    res
}

/// The hash under which a text is stored: its UTF-8 bytes' SHA-256 digest in
/// lowercase hexadecimal.
pub fn compute_text_hash(text: &str) -> (res: String)
    ensures
        res@ == hex_lower(sha256_spec(text.spec_bytes())),
{
    let digest = sha256_digest(text.as_bytes());
    to_hex_lower(&digest)
}

/// `x` as `n` bytes, least significant first.
pub open spec fn le_bytes(x: nat, n: nat) -> Seq<u8>
    decreases n,
{
    if n == 0 {
        Seq::empty()
    } else {
        seq![(x % 256) as u8] + le_bytes(x / 256, (n - 1) as nat)
    }
}

/// The bytes of a `usize` in memory: little-endian or big-endian.
pub open spec fn usize_bytes(x: usize, little_endian: bool) -> Seq<u8> {
    let le = le_bytes(x as nat, (usize::BITS / 8) as nat);
    if little_endian {
        le
    } else {
        le.reverse()
    }
}

/// `usize::to_ne_bytes` of both values: their bytes in the machine's byte
/// order. Which order that is, is the machine's: the contract says only that
/// both values are written in the same one.
#[verifier::external_body]
fn native_bytes_pair(a: usize, b: usize) -> (res: (Vec<u8>, Vec<u8>))
    ensures
        exists|little_endian: bool|
            res.0@ == usize_bytes(a, little_endian) && res.1@ == usize_bytes(b, little_endian),
{
    (a.to_ne_bytes().to_vec(), b.to_ne_bytes().to_vec())
}

/// The data hashed for an image: its width and height in the machine's byte
/// order, then its pixel bytes.
pub open spec fn image_hash_input(
    width: usize,
    height: usize,
    bytes: Seq<u8>,
    little_endian: bool,
) -> Seq<u8> {
    usize_bytes(width, little_endian) + usize_bytes(height, little_endian) + bytes
}

/// The hash under which an image is stored: the SHA-256 digest of its width,
/// height (each in the machine's byte order) and pixel bytes, in lowercase
/// hexadecimal.
pub fn compute_image_hash(width: usize, height: usize, bytes: &[u8]) -> (res: String)
    ensures
        exists|little_endian: bool|
            res@ == hex_lower(sha256_spec(image_hash_input(width, height, bytes@, little_endian))),
{
    let (wb, hb) = native_bytes_pair(width, height);
    let ghost order = choose|le: bool|
        wb@ == usize_bytes(width, le) && hb@ == usize_bytes(height, le);
    let mut data: Vec<u8> = Vec::new();
    let mut i: usize = 0;
    while i < wb.len()
        invariant
            i <= wb.len(),
            data@ == wb@.take(i as int),
        decreases wb.len() - i,
    {
        data.push(wb[i]);
        assert(wb@.take(i + 1) =~= wb@.take(i as int).push(wb@[i as int]));
        i = i + 1;
    }
    assert(wb@.take(wb.len() as int) =~= wb@);
    let mut i: usize = 0;
    while i < hb.len()
        invariant
            i <= hb.len(),
            data@ == wb@ + hb@.take(i as int),
        decreases hb.len() - i,
    {
        data.push(hb[i]);
        assert(hb@.take(i + 1) =~= hb@.take(i as int).push(hb@[i as int]));
        assert(wb@ + hb@.take(i + 1) =~= (wb@ + hb@.take(i as int)).push(hb@[i as int]));
        i = i + 1;
    }
    assert(hb@.take(hb.len() as int) =~= hb@);
    let mut i: usize = 0;
    while i < bytes.len()
        invariant
            i <= bytes.len(),
            data@ == wb@ + hb@ + bytes@.take(i as int),
        decreases bytes.len() - i,
    {
        data.push(bytes[i]);
        assert(bytes@.take(i + 1) =~= bytes@.take(i as int).push(bytes@[i as int]));
        assert(wb@ + hb@ + bytes@.take(i + 1) =~= (wb@ + hb@ + bytes@.take(i as int)).push(
            bytes@[i as int],
        ));
        i = i + 1;
    }
    assert(bytes@.take(bytes.len() as int) =~= bytes@);
    assert(data@ == image_hash_input(width, height, bytes@, order));
    let digest = sha256_digest(data.as_slice());
    to_hex_lower(&digest)
}

} // verus!
