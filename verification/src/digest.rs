//! Content digests.
//!
//! A manifest identifies file content by its SHA-256 digest, written as a
//! 64-character lowercase hex string.  The hash itself is computed by the
//! `sha2` crate; the digest of a byte sequence is modelled by the
//! uninterpreted function [`sha256_of`], and everything downstream of the
//! raw 32 bytes — hex encoding, determinism, string shape — is verified.

use vstd::prelude::*;
use vstd::slice::slice_subrange;
use crate::text::json_safe;
use sha2::Digest;

verus! {

#[verifier::external_type_specification]
#[verifier::external_body]
pub struct ExSha256(sha2::Sha256);

/// The SHA-256 digest of a byte sequence: a function of the bytes alone,
/// the same in every process and on every machine.
pub uninterp spec fn sha256_of(data: Seq<u8>) -> Seq<u8>;

/// The digest string recorded in a manifest for the given file content:
/// lowercase hex of the SHA-256 digest.
pub open spec fn digest_hex(data: Seq<u8>) -> Seq<char> {
    hex_of(sha256_of(data))
}

/// The lowercase hex digit for a value below 16.
pub open spec fn hex_digit_char(n: u8) -> char {
    if n == 0 { '0' } else if n == 1 { '1' } else if n == 2 { '2' } else if n == 3 { '3' }
    else if n == 4 { '4' } else if n == 5 { '5' } else if n == 6 { '6' } else if n == 7 { '7' }
    else if n == 8 { '8' } else if n == 9 { '9' } else if n == 10 { 'a' } else if n == 11 { 'b' }
    else if n == 12 { 'c' } else if n == 13 { 'd' } else if n == 14 { 'e' } else { 'f' }
}

/// Lowercase hex encoding of a byte sequence, two digits per byte.
pub open spec fn hex_of(data: Seq<u8>) -> Seq<char>
    decreases data.len(),
{
    if data.len() == 0 {
        Seq::empty()
    } else {
        seq![hex_digit_char(data[0] >> 4), hex_digit_char(data[0] & 0x0f)]
            + hex_of(data.drop_first())
    }
}

pub proof fn lemma_hex_of_len(data: Seq<u8>)
    ensures
        hex_of(data).len() == 2 * data.len(),
    decreases data.len(),
{
    if data.len() > 0 {
        lemma_hex_of_len(data.drop_first());
    }
}

/// Hex strings never contain characters that the manifest file format
/// would have to escape.
pub proof fn lemma_hex_of_json_safe(data: Seq<u8>)
    ensures
        json_safe(hex_of(data)),
    decreases data.len(),
{
    if data.len() > 0 {
        lemma_hex_of_json_safe(data.drop_first());
        assert forall|i: int| 0 <= i < hex_of(data).len() implies crate::text::json_safe_char(
            #[trigger] hex_of(data)[i],
        ) by {
            if i >= 2 {
                assert(hex_of(data)[i] == hex_of(data.drop_first())[i - 2]);
            }
        }
    }
}

/// Hashing equal byte content yields the same digest string, whatever file
/// or machine the bytes came from.
pub proof fn lemma_digest_deterministic(a: Seq<u8>, b: Seq<u8>)
    requires
        a == b,
    ensures
        digest_hex(a) == digest_hex(b),
{
}

/// The bytes a SHA-256 state has absorbed since it was created.
pub uninterp spec fn absorbed(h: sha2::Sha256) -> Seq<u8>;

/// Relies on sha2's `Digest::new`: a fresh SHA-256 state has absorbed
/// nothing.
#[verifier::external_body]
fn sha_new() -> (h: sha2::Sha256)
    ensures
        absorbed(h) == Seq::<u8>::empty(),
{
    sha2::Sha256::new()
}

/// Relies on sha2's `Digest::update`: absorbing a chunk appends it to the
/// hashed input.
#[verifier::external_body]
fn sha_update(h: &mut sha2::Sha256, chunk: &[u8])
    ensures
        absorbed(*final(h)) == absorbed(*old(h)) + chunk@,
{
    h.update(chunk);
}

/// Relies on sha2's `Digest::finalize`: the digest of the absorbed bytes,
/// 32 bytes for SHA-256.
#[verifier::external_body]
fn sha_finish(h: sha2::Sha256) -> (d: Vec<u8>)
    ensures
        d@ == sha256_of(absorbed(h)),
        d@.len() == 32,
{
    h.finalize().to_vec()
}

/// An incremental SHA-256 computation, tracking the bytes fed so far.
/// Input is absorbed in bounded chunks, so a caller can digest a stream
/// without holding all of it at once.
pub struct FileHasher {
    inner: sha2::Sha256,
}

impl FileHasher {
    /// The bytes absorbed so far.
    pub closed spec fn bytes_fed(&self) -> Seq<u8> {
        absorbed(self.inner)
    }

    pub fn new() -> (h: FileHasher)
        ensures
            h.bytes_fed() == Seq::<u8>::empty(),
    {
        FileHasher { inner: sha_new() }
    }

    pub fn update(&mut self, chunk: &[u8])
        ensures
            final(self).bytes_fed() == old(self).bytes_fed() + chunk@,
    {
        sha_update(&mut self.inner, chunk);
    }

    /// Finish the computation and return the manifest digest string.
    pub fn finish_hex(self) -> (r: String)
        ensures
            r@ == digest_hex(self.bytes_fed()),
            r@.len() == 64,
    {
        let ghost fed = self.bytes_fed();
        let raw = sha_finish(self.inner);
        proof {
            lemma_hex_of_len(raw@);
        }
        to_hex(&raw)
    }
}

/// A one-character string for a hex digit.
pub(crate) fn hex_digit_str(n: u8) -> (r: &'static str)
    requires
        n < 16,
    ensures
        r@ =~= seq![hex_digit_char(n)],
{
    proof {
        reveal_strlit("0");
        reveal_strlit("1");
        reveal_strlit("2");
        reveal_strlit("3");
        reveal_strlit("4");
        reveal_strlit("5");
        reveal_strlit("6");
        reveal_strlit("7");
        reveal_strlit("8");
        reveal_strlit("9");
        reveal_strlit("a");
        reveal_strlit("b");
        reveal_strlit("c");
        reveal_strlit("d");
        reveal_strlit("e");
        reveal_strlit("f");
    }
    match n {
        0 => "0",
        1 => "1",
        2 => "2",
        3 => "3",
        4 => "4",
        5 => "5",
        6 => "6",
        7 => "7",
        8 => "8",
        9 => "9",
        10 => "a",
        11 => "b",
        12 => "c",
        13 => "d",
        14 => "e",
        _ => "f",
    }
}

/// Lowercase hex encoding of a byte slice.
pub fn to_hex(data: &[u8]) -> (r: String)
    ensures
        r@ == hex_of(data@),
{
    let mut out = String::new();
    let len = data.len();
    proof {
        assert(data@.skip(0) == data@);
    }
    let mut i: usize = 0;
    while i < len
        invariant
            len == data@.len(),
            i <= len,
            hex_of(data@) =~= out@ + hex_of(data@.skip(i as int)),
        decreases len - i,
    {
        let b = data[i];
        assert((b >> 4) < 16 && (b & 0x0f) < 16) by (bit_vector);
        out.append(hex_digit_str(b >> 4));
        out.append(hex_digit_str(b & 0x0f));
        proof {
            assert(data@.skip(i as int).drop_first() =~= data@.skip(i + 1));
            assert(data@.skip(i as int)[0] == data@[i as int]);
        }
        i = i + 1;
    }
    proof {
        assert(data@.skip(len as int) =~= Seq::<u8>::empty());
    }
    out
}

/// The digest string for in-memory content, absorbed in 64 KiB chunks as a
/// stream would be.
pub fn hash_bytes(data: &[u8]) -> (r: String)
    ensures
        r@ == digest_hex(data@),
        r@.len() == 64,
{
    let mut h = FileHasher::new();
    let len = data.len();
    let mut i: usize = 0;
    while i < len
        invariant
            len == data@.len(),
            i <= len,
            h.bytes_fed() =~= data@.subrange(0, i as int),
        decreases len - i,
    {
        let end = if len - i > 65536 {
            i + 65536
        } else {
            len
        };
        let chunk = slice_subrange(data, i, end);
        h.update(chunk);
        proof {
            assert(data@.subrange(0, i as int) + data@.subrange(i as int, end as int)
                =~= data@.subrange(0, end as int));
        }
        i = end;
    }
    proof {
        assert(data@.subrange(0, len as int) =~= data@);
    }
    h.finish_hex()
}

} // verus!
