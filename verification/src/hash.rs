//! File hashes and their hexadecimal form; the BLAKE3 functions the library relies on.

use vstd::prelude::*;

verus! {

/// Result of hashing a single file.
#[derive(Debug)]
pub enum FileHash {
    /// Successful BLAKE3 hash of file content.
    Blake3([u8; 32]),
    /// macOS dataless file (iCloud-evicted), stores file size.
    Dataless(u64),
    /// File could not be read, stores error description.
    Error(String),
    /// Symbolic link, stores target path.
    Symlink(String),
}

/// The BLAKE3 hash state of the `blake3` crate.
#[verifier::external_type_specification]
#[verifier::external_body]
pub struct ExBlake3Hasher(blake3::Hasher);

/// The 32-byte BLAKE3 hash of a byte sequence.
pub uninterp spec fn blake3_digest(data: Seq<u8>) -> [u8; 32];

/// The bytes fed to a `blake3::Hasher` so far.
pub uninterp spec fn hasher_input(h: blake3::Hasher) -> Seq<u8>;

/// `blake3::hash`: the BLAKE3 hash of `data`. The contract claims only that the result is
/// `blake3_digest` of the input bytes, a name for BLAKE3 of which nothing else is stated.
#[verifier::external_body]
pub(crate) fn blake3_hash(data: &[u8]) -> (h: [u8; 32])
    ensures
        h == blake3_digest(data@),
{
    *blake3::hash(data).as_bytes()
}

/// `blake3::Hasher::new`: a hash state that has been fed nothing.
#[verifier::external_body]
pub(crate) fn hasher_new() -> (h: blake3::Hasher)
    ensures
        hasher_input(h) == Seq::<u8>::empty(),
{
    blake3::Hasher::new()
}

/// `blake3::Hasher::update`: feeds `data` after the bytes fed so far.
#[verifier::external_body]
pub(crate) fn hasher_update(h: &mut blake3::Hasher, data: &[u8])
    ensures
        hasher_input(*final(h)) == hasher_input(*old(h)) + data@,
{
    h.update(data);
}

/// `blake3::Hasher::update_rayon`: as `update`, computed with several threads; the
/// `blake3` documentation states it is `update` with Rayon-based multithreading inside.
#[verifier::external_body]
pub(crate) fn hasher_update_rayon(h: &mut blake3::Hasher, data: &[u8])
    ensures
        hasher_input(*final(h)) == hasher_input(*old(h)) + data@,
{
    h.update_rayon(data);
}

/// `blake3::Hasher::finalize`: the hash of all bytes fed so far, which the `blake3`
/// documentation states equals `blake3::hash` of their concatenation.
#[verifier::external_body]
pub(crate) fn hasher_finalize(h: &blake3::Hasher) -> (r: [u8; 32])
    ensures
        r == blake3_digest(hasher_input(*h)),
{
    *h.finalize().as_bytes()
}

/// The lower-case hexadecimal digit for a value below 16.
pub open spec fn hex_digit(d: nat) -> char {
    if d < 10 {
        ((48 + d) as u32) as char
    } else {
        ((87 + d) as u32) as char
    }
}

/// Lower-case hexadecimal text of bytes, two digits per byte, high half first.
pub open spec fn hex_of(bytes: Seq<u8>) -> Seq<char>
    decreases bytes.len(),
{
    if bytes.len() == 0 {
        Seq::empty()
    } else {
        hex_of(bytes.drop_last()) + seq![
            hex_digit((bytes.last() / 16) as nat),
            hex_digit((bytes.last() % 16) as nat),
        ]
    }
}

/// Whether `c` is a lower-case hexadecimal digit.
pub open spec fn is_lower_hex(c: char) -> bool {
    ('0' <= c <= '9') || ('a' <= c <= 'f')
}

/// The text of a hash as the manifest holds it: its first 16 bytes in hexadecimal.
pub open spec fn hash_hex(hash: Seq<u8>) -> Seq<char> {
    hex_of(hash.subrange(0, 16))
}

/// The hexadecimal text of bytes has two lower-case hexadecimal digits per byte.
pub proof fn lemma_hex_of_shape(bytes: Seq<u8>)
    ensures
        hex_of(bytes).len() == 2 * bytes.len(),
        forall|i: int| 0 <= i < hex_of(bytes).len() ==> is_lower_hex(#[trigger] hex_of(bytes)[i]),
    decreases bytes.len(),
{
    if bytes.len() > 0 {
        lemma_hex_of_shape(bytes.drop_last());
        let b = bytes.last();
        assert(hex_digit((b / 16) as nat) as u32 == if b / 16 < 10 { 48 + b / 16 } else { 87 + b / 16 });
        assert(hex_digit((b % 16) as nat) as u32 == if b % 16 < 10 { 48 + b % 16 } else { 87 + b % 16 });
    }
}

/// The hexadecimal digit of a value below 16.
fn hex_digit_exec(d: u8) -> (c: char)
    requires
        d < 16,
    ensures
        c == hex_digit(d as nat),
{
    if d < 10 {
        (d + 48) as char
    } else {
        (d + 87) as char
    }
}

/// Format a 32-byte hash as truncated hex (32 hex chars = 128 bits).
pub fn hash_to_hex(hash: &[u8; 32]) -> (hex: String)
    ensures
        hex@ == hash_hex(hash@),
        hex@.len() == 32,
        forall|i: int| 0 <= i < hex@.len() ==> is_lower_hex(#[trigger] hex@[i]),
{
    let mut out: Vec<char> = Vec::new();
    let mut i: usize = 0;
    while i < 16
        invariant
            i <= 16,
            hash@.len() == 32,
            out@ == hex_of(hash@.subrange(0, i as int)),
        decreases 16 - i,
    {
        let b = hash[i];
        assert(hash@.subrange(0, i + 1).drop_last() == hash@.subrange(0, i as int));
        out.push(hex_digit_exec(b / 16));
        out.push(hex_digit_exec(b % 16));
        i = i + 1;
    }
    proof {
        lemma_hex_of_shape(hash@.subrange(0, 16));
    }
    crate::text::string_of(&out)
}

/// A BLAKE3 hash of content that arrives in pieces, such as a file read in chunks.
pub struct ContentHasher {
    hasher: blake3::Hasher,
}

impl ContentHasher {
    /// The bytes fed so far.
    pub closed spec fn input(&self) -> Seq<u8> {
        hasher_input(self.hasher)
    }

    /// A hasher that has been fed nothing.
    pub fn new() -> (r: ContentHasher)
        ensures
            r.input() == Seq::<u8>::empty(),
    {
        ContentHasher { hasher: hasher_new() }
    }

    /// Feeds `data` after the bytes fed so far.
    pub fn update(&mut self, data: &[u8])
        ensures
            final(self).input() == old(self).input() + data@,
    {
        hasher_update(&mut self.hasher, data);
    }

    /// Feeds `data` after the bytes fed so far, hashing it on several threads; meant for
    /// large buffers.
    pub fn update_parallel(&mut self, data: &[u8])
        ensures
            final(self).input() == old(self).input() + data@,
    {
        hasher_update_rayon(&mut self.hasher, data);
    }

    /// The BLAKE3 hash of all bytes fed so far.
    pub fn finalize(&self) -> (h: [u8; 32])
        ensures
            h == blake3_digest(self.input()),
    {
        hasher_finalize(&self.hasher)
    }
}

} // verus!
