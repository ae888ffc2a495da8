//! Hashing, compression and checksums, as the outside crates compute them.

use std::io::{Read, Write};

use base64::Engine;
use sha1::Digest;
use vstd::prelude::*;

verus! {

/// The SHA-1 digest of `data`.
pub uninterp spec fn sha1_digest(data: Seq<u8>) -> Seq<u8>;

/// `sha1::Sha1` fed with all of `data`: the digest is a function of the
/// data, 20 bytes long. What the digest of given data is stays unsaid.
#[verifier::external_body]
pub(crate) fn sha1(data: &[u8]) -> (r: [u8; 20])
    ensures
        r@ == sha1_digest(data@),
{
    let mut hasher = sha1::Sha1::new();
    hasher.update(data);
    hasher.finalize().into()
}

/// The zlib stream that the encoder makes of `data` at the default level,
/// or `None` where it reports an error.
pub uninterp spec fn zlib_deflated(data: Seq<u8>) -> Option<Seq<u8>>;

/// What the decoder makes of `data`, which may go on after the end of the
/// zlib stream: the contents of the stream and how many bytes it takes up,
/// or `None` where it reports an error.
pub uninterp spec fn zlib_inflated(data: Seq<u8>) -> Option<(Seq<u8>, nat)>;

/// `flate2::write::ZlibEncoder` at the default compression level, writing
/// into memory. The stream is a function of the data, and the decoder
/// gives the data back from it, stops at its end and leaves alone whatever
/// follows. That there always is a stream stays unsaid: the compressor lists
/// a failed write to its buffer among its errors.
#[verifier::external_body]
pub(crate) fn zlib_deflate(data: &[u8]) -> (r: Option<Vec<u8>>)
    ensures
        match r {
            Some(z) => zlib_deflated(data@) == Some(z@),
            None => zlib_deflated(data@) is None,
        },
        r matches Some(z) ==> forall|rest: Seq<u8>| #[trigger]
            zlib_inflated(z@ + rest) == Some((data@, z@.len())),
{
    let mut enc = flate2::write::ZlibEncoder::new(Vec::new(), flate2::Compression::default());
    enc.write_all(data).ok()?;
    enc.finish().ok()
}

/// `flate2::read::ZlibDecoder` read to its end: the contents of the zlib
/// stream at the beginning of `data`, and its `total_in`, which counts the
/// bytes of `data` that the stream takes up.
#[verifier::external_body]
pub(crate) fn zlib_inflate(data: &[u8]) -> (r: Option<(Vec<u8>, u64)>)
    ensures
        match r {
            Some((out, used)) => zlib_inflated(data@) == Some((out@, used as nat)) && used
                <= data@.len(),
            None => zlib_inflated(data@) is None,
        },
{
    let mut dec = flate2::read::ZlibDecoder::new(data);
    let mut out = Vec::new();
    dec.read_to_end(&mut out).ok()?;
    Some((out, dec.total_in()))
}

/// A step of a CRC-32 register: it is shifted by one bit, and the reversed
/// polynomial added where the bit is set.
pub open spec fn crc_shift(c: u32) -> u32 {
    if c & 1 == 1 {
        (c >> 1) ^ 0xedb8_8320
    } else {
        c >> 1
    }
}

/// The register after `n` steps.
pub open spec fn crc_shifts(c: u32, n: nat) -> u32
    decreases n,
{
    if n == 0 {
        c
    } else {
        crc_shift(crc_shifts(c, (n - 1) as nat))
    }
}

/// The register after `data`: all bits are set at first, and each byte is
/// added and shifted out.
pub open spec fn crc_register(data: Seq<u8>) -> u32
    decreases data.len(),
{
    if data.len() == 0 {
        0xffff_ffff
    } else {
        crc_shifts(crc_register(data.drop_last()) ^ (data.last() as u32), 8)
    }
}

/// The CRC-32 checksum of `data`: the register with all bits inverted.
pub open spec fn crc32_checksum(data: Seq<u8>) -> u32 {
    crc_register(data) ^ 0xffff_ffff
}

/// `crc32fast::hash`: the CRC-32 checksum of the IEEE polynomial.
#[verifier::external_body]
pub(crate) fn crc32(data: &[u8]) -> (r: u32)
    ensures
        r == crc32_checksum(data@),
{
    crc32fast::hash(data)
}

/// The digit for a value below 64 in the standard base 64 alphabet.
pub open spec fn base64_digit(n: int) -> char {
    if n < 26 {
        (65 + n) as u8 as char
    } else if n < 52 {
        (71 + n) as u8 as char
    } else if n < 62 {
        (n - 4) as u8 as char
    } else if n == 62 {
        '+'
    } else {
        '/'
    }
}

/// Base 64: four digits for each three bytes, and `=` up to four where one
/// or two bytes are left at the end.
pub open spec fn base64_text(s: Seq<u8>) -> Seq<char>
    decreases s.len(),
{
    if s.len() == 0 {
        Seq::empty()
    } else {
        let a = s[0] as int;
        let b = if s.len() > 1 {
            s[1] as int
        } else {
            0
        };
        let c = if s.len() > 2 {
            s[2] as int
        } else {
            0
        };
        let group = seq![
            base64_digit(a / 4),
            base64_digit(a % 4 * 16 + b / 16),
            if s.len() > 1 {
                base64_digit(b % 16 * 4 + c / 64)
            } else {
                '='
            },
            if s.len() > 2 {
                base64_digit(c % 64)
            } else {
                '='
            },
        ];
        if s.len() > 3 {
            group + base64_text(s.skip(3))
        } else {
            group
        }
    }
}

/// `encode` of `base64::engine::general_purpose::STANDARD`: the standard
/// alphabet, with padding.
#[verifier::external_body]
pub(crate) fn base64_encode(data: &[u8]) -> (r: String)
    ensures
        r@ == base64_text(data@),
{
    base64::engine::general_purpose::STANDARD.encode(data)
}

} // verus!
