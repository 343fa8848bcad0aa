//! The archive format of the game client, as the `rzfile` crate reads it:
//! the `data.000` index, the XOR cipher of the archives and the encoding of
//! file names. Every call into `rzfile` stands in this file.

use vstd::prelude::*;

use crate::text::{str_lowercase, to_lowercase};

verus! {

/// The failures that `rzfile` reports (its `RZError`), one for one.
#[derive(Debug)]
pub enum RzFault {
    NoHashProvided,
    InvalidDepth,
    InvalidCharacter,
    InvalidLength,
    Unknown,
}

/// One record of the `data.000` index: the hashed name of a resource, and
/// where its bytes lie in its `data.00x` archive.
pub struct IndexRecord {
    /// The hashed (encoded) file name, as raw bytes.
    pub hash: Vec<u8>,
    /// Offset of the resource in its `data.00x` file.
    pub offset: u32,
    /// Size of the resource in bytes.
    pub size: u32,
}

/// The abstract value of an [`IndexRecord`].
pub struct IndexRecordView {
    pub hash: Seq<u8>,
    pub offset: u32,
    pub size: u32,
}

impl View for IndexRecord {
    type V = IndexRecordView;

    open spec fn view(&self) -> IndexRecordView {
        IndexRecordView { hash: self.hash@, offset: self.offset, size: self.size }
    }
}

/// The little-endian `u32` in the four bytes of `b` from `at` on.
pub open spec fn le_u32(b: Seq<u8>, at: int) -> u32 {
    (b[at] as int + b[at + 1] as int * 0x100 + b[at + 2] as int * 0x10000 + b[at + 3] as int
        * 0x1000000) as u32
}

/// The records of a deciphered index: each is one length byte `n`, `n` bytes
/// of hash, a little-endian offset and a little-endian size (`n + 9` bytes in
/// all). `None` where the last record is cut short.
pub open spec fn index_records(plain: Seq<u8>) -> Option<Seq<IndexRecordView>>
    decreases plain.len(),
{
    if plain.len() == 0 {
        Some(Seq::<IndexRecordView>::empty())
    } else {
        let n: int = plain[0] as int;
        if n + 9 > plain.len() {
            None
        } else {
            let record = IndexRecordView {
                hash: plain.subrange(1, n + 1),
                offset: le_u32(plain, n + 1),
                size: le_u32(plain, n + 5),
            };
            match index_records(plain.subrange(n + 9, plain.len() as int)) {
                Some(rest) => Some(seq![record] + rest),
                None => None,
            }
        }
    }
}

/// The cipher of the archives with a given key: every byte XORed with the key
/// byte at the same position, the key repeated; an empty key changes nothing.
pub open spec fn xor_with_key(data: Seq<u8>, key: Seq<u8>) -> Seq<u8> {
    if key.len() == 0 {
        data
    } else {
        Seq::new(data.len(), |i: int| data[i] ^ key[i % (key.len() as int)])
    }
}

/// The cipher with a key undoes itself: applied twice it gives back the data.
pub proof fn lemma_xor_twice(data: Seq<u8>, key: Seq<u8>)
    ensures
        xor_with_key(xor_with_key(data, key), key) == data,
{
    if key.len() > 0 {
        let once = xor_with_key(data, key);
        assert forall|i: int| 0 <= i < data.len() implies xor_with_key(once, key)[i] == data[i] by {
            let a: u8 = data[i];
            let k: u8 = key[i % (key.len() as int)];
            assert((a ^ k) ^ k == a) by (bit_vector);
        }
        assert(xor_with_key(once, key) =~= data);
    }
}

/// The key that `rzfile` uses when it is given none (its
/// `RESOURCE_ENCRYPTION_KEY`, 256 bytes).
pub open spec fn rz_builtin_key() -> Seq<u8> {
    seq![
        0x77, 0xe8, 0x5e, 0xec, 0xb7, 0x4e, 0xc1, 0x87, 0x4f, 0xe6, 0xf5, 0x3c, 0x1f, 0xb3, 0x15, 0x43,
        0x6a, 0x49, 0x30, 0xa6, 0xbf, 0x53, 0xa8, 0x35, 0x5b, 0xe5, 0x9e, 0x0e, 0x41, 0xec, 0x22, 0xb8,
        0xd4, 0x80, 0xa4, 0x8c, 0xce, 0x65, 0x13, 0x1d, 0x4b, 0x08, 0x5a, 0x6a, 0xbb, 0x6f, 0xad, 0x25,
        0xb8, 0xdd, 0xcc, 0x77, 0x30, 0x74, 0xac, 0x8c, 0x5a, 0x4a, 0x9a, 0x9b, 0x36, 0xbc, 0x53, 0x0a,
        0x3c, 0xf8, 0x96, 0x0b, 0x5d, 0xaa, 0x28, 0xa9, 0xb2, 0x82, 0x13, 0x6e, 0xf1, 0xc1, 0x93, 0xa9,
        0x9e, 0x5f, 0x20, 0xcf, 0xd4, 0xcc, 0x5b, 0x2e, 0x16, 0xf5, 0xc9, 0x4c, 0xb2, 0x1c, 0x57, 0xee,
        0x14, 0xed, 0xf9, 0x72, 0x97, 0x22, 0x1b, 0x4a, 0xa4, 0x2e, 0xb8, 0x96, 0xef, 0x4b, 0x3f, 0x8e,
        0xab, 0x60, 0x5d, 0x7f, 0x2c, 0xb8, 0xad, 0x43, 0xad, 0x76, 0x8f, 0x5f, 0x92, 0xe6, 0x4e, 0xa7,
        0xd4, 0x47, 0x19, 0x6b, 0x69, 0x34, 0xb5, 0x0e, 0x62, 0x6d, 0xa4, 0x52, 0xb9, 0xe3, 0xe0, 0x64,
        0x43, 0x3d, 0xe3, 0x70, 0xf5, 0x90, 0xb3, 0xa2, 0x06, 0x42, 0x02, 0x98, 0x29, 0x50, 0x3f, 0xfd,
        0x97, 0x58, 0x68, 0x01, 0x8c, 0x1e, 0x0f, 0xef, 0x8b, 0xb3, 0x41, 0x44, 0x96, 0x21, 0xa8, 0xda,
        0x5e, 0x8b, 0x4a, 0x53, 0x1b, 0xfd, 0xf5, 0x21, 0x3f, 0xf7, 0xba, 0x68, 0x47, 0xf9, 0x65, 0xdf,
        0x52, 0xce, 0xe0, 0xde, 0xec, 0xef, 0xcd, 0x77, 0xa2, 0x0e, 0xbc, 0x38, 0x2f, 0x64, 0x12, 0x8d,
        0xf0, 0x5c, 0xe0, 0x0b, 0x59, 0xd6, 0x2d, 0x99, 0xcd, 0xe7, 0x01, 0x15, 0xe0, 0x67, 0xf4, 0x32,
        0x35, 0xd4, 0x11, 0x21, 0xc3, 0xde, 0x98, 0x65, 0xed, 0x54, 0x9d, 0x1c, 0xb9, 0xb0, 0xaa, 0xa9,
        0x0c, 0x8a, 0xb4, 0x66, 0x60, 0xe1, 0xff, 0x2e, 0xc8, 0x00, 0x43, 0xa9, 0x67, 0x37, 0xdb, 0x9c,
    ]
}

/// The cipher with the key given, or with `rzfile`'s built-in key where none
/// is given.
pub open spec fn deciphered(data: Seq<u8>, key: Option<Seq<u8>>) -> Seq<u8> {
    match key {
        Some(k) => xor_with_key(data, k),
        None => xor_with_key(data, rz_builtin_key()),
    }
}

/// The bytes of an optional slice.
pub open spec fn opt_slice(key: Option<&[u8]>) -> Option<Seq<u8>> {
    match key {
        Some(k) => Some(k@),
        None => None,
    }
}

/// `rzfile::file::parse_index`. Claimed, from its documentation and source:
/// an empty buffer is refused with `InvalidLength`; otherwise the buffer is
/// deciphered (with the key, or the built-in key) and read as consecutive
/// records, and a record cut short is refused with `Unknown`.
#[verifier::external_body]
pub(crate) fn parse_index(data: Vec<u8>, key: Option<&[u8]>) -> (records: Result<Vec<IndexRecord>, RzFault>)
    ensures
        data@.len() == 0 ==> records matches Err(RzFault::InvalidLength),
        data@.len() > 0 ==> match index_records(deciphered(data@, opt_slice(key))) {
            Some(expected) => records matches Ok(found)
                && found@.map_values(|r: IndexRecord| r@) == expected,
            None => records matches Err(RzFault::Unknown),
        },
{
    let mut data = data;
    match rzfile::file::parse_index(&mut data, key) {
        Ok(files) => Ok(files.into_iter().map(|f| IndexRecord { hash: f.hash, offset: f.offset, size: f.size }).collect()),
        Err(rzfile::error::RZError::NoHashProvided) => Err(RzFault::NoHashProvided),
        Err(rzfile::error::RZError::InvalidDepth) => Err(RzFault::InvalidDepth),
        Err(rzfile::error::RZError::InvalidCharacter) => Err(RzFault::InvalidCharacter),
        Err(rzfile::error::RZError::InvalidLength) => Err(RzFault::InvalidLength),
        Err(rzfile::error::RZError::Unknown) => Err(RzFault::Unknown),
    }
}

/// `rzfile::file::cipher`. Claimed, from its source: each byte is XORed
/// with the key byte at the same position, the key repeated (an empty key
/// changes nothing); without a key its built-in key is used.
#[verifier::external_body]
pub(crate) fn cipher(buffer: &mut Vec<u8>, key: Option<&[u8]>)
    ensures
        final(buffer)@ == deciphered(old(buffer)@, opt_slice(key)),
{
    rzfile::file::cipher(buffer.as_mut_slice(), key)
}

/// Whether `s` ends with `suffix`.
pub open spec fn ends_with(s: Seq<char>, suffix: Seq<char>) -> bool {
    suffix.len() <= s.len() && s.subrange(s.len() - suffix.len(), s.len() as int) == suffix
}

/// The extensions that `rzfile` treats as unencrypted when it is given none:
/// `dds`, `cob`, `naf`, `nx3`, `nfm` and `tga`.
pub open spec fn default_plain_extensions() -> Seq<Seq<char>> {
    seq![
        seq!['d', 'd', 's'],
        seq!['c', 'o', 'b'],
        seq!['n', 'a', 'f'],
        seq!['n', 'x', '3'],
        seq!['n', 'f', 'm'],
        seq!['t', 'g', 'a'],
    ]
}

/// The extensions in force: those configured, or `rzfile`'s default list.
pub open spec fn plain_extensions(configured: Option<Seq<Seq<char>>>) -> Seq<Seq<char>> {
    match configured {
        Some(list) => list,
        None => default_plain_extensions(),
    }
}

/// Whether a file is stored unencrypted: its name ends with one of the
/// extensions in force (case-sensitive; an empty extension matches any name).
pub open spec fn spec_is_plain(file_name: Seq<char>, configured: Option<Seq<Seq<char>>>) -> bool {
    exists|i: int|
        0 <= i < plain_extensions(configured).len() && ends_with(
            file_name,
            #[trigger] plain_extensions(configured)[i],
        )
}

/// `rzfile::file::is_decrypted`. Claimed, from its source: true exactly when
/// the name ends (as `str::ends_with`) with one of the given extensions, or of
/// its default list where none are given.
#[verifier::external_body]
pub(crate) fn is_decrypted(file_name: &str, extensions: Option<&Vec<String>>) -> (plain: bool)
    ensures
        plain == spec_is_plain(
            file_name@,
            match extensions {
                Some(l) => Some(l@.map_values(|t: String| t@)),
                None => None,
            },
        ),
{
    rzfile::file::is_decrypted(file_name, extensions.cloned())
}

/// What `rzfile::name::decode_file_name` returns for a name, a reference
/// table, a decryption table and the `check_encoded` flag.
pub uninterp spec fn rz_decoded_name(
    name: Seq<char>,
    reference: Option<Seq<u8>>,
    table: Option<Seq<u8>>,
    check_encoded: bool,
) -> Result<Seq<char>, RzFault>;

/// Whether every byte of an optional table is ASCII.
pub open spec fn ascii_table(table: Option<Seq<u8>>) -> bool {
    match table {
        Some(t) => forall|i: int| 0 <= i < t.len() ==> t[i] < 128,
        None => true,
    }
}

/// `rzfile::name::decode_file_name`. Claimed: the result is
/// `rz_decoded_name` of the arguments; an empty name is refused with
/// `NoHashProvided` and a name of at most three bytes with `InvalidLength`,
/// as its documentation says. The function panics when the decoded bytes are
/// not UTF-8; every decoded byte is a byte of the decryption table, so the
/// call is made only with a table of ASCII bytes (its built-in table is one).
/// How a name is decoded is not stated here.
#[verifier::external_body]
pub(crate) fn decode_file_name(
    name: &str,
    reference: Option<&[u8]>,
    table: Option<&[u8]>,
    check_encoded: bool,
) -> (decoded: Result<String, RzFault>)
    requires
        ascii_table(opt_slice(table)),
    ensures
        match decoded {
            Ok(s) => rz_decoded_name(name@, opt_slice(reference), opt_slice(table), check_encoded)
                == Ok::<Seq<char>, RzFault>(s@),
            Err(f) => rz_decoded_name(name@, opt_slice(reference), opt_slice(table), check_encoded)
                == Err::<Seq<char>, RzFault>(f),
        },
        name@.len() == 0 ==> decoded matches Err(RzFault::NoHashProvided),
        name@.len() > 0 && vstd::utf8::encode_utf8(name@).len() <= 3 ==> decoded matches Err(RzFault::InvalidLength),
{
    match rzfile::name::decode_file_name(name, reference, table, check_encoded) {
        Ok(s) => Ok(s),
        Err(rzfile::error::RZError::NoHashProvided) => Err(RzFault::NoHashProvided),
        Err(rzfile::error::RZError::InvalidDepth) => Err(RzFault::InvalidDepth),
        Err(rzfile::error::RZError::InvalidCharacter) => Err(RzFault::InvalidCharacter),
        Err(rzfile::error::RZError::InvalidLength) => Err(RzFault::InvalidLength),
        Err(rzfile::error::RZError::Unknown) => Err(RzFault::Unknown),
    }
}

/// The checksum of a byte string as `rzfile::name::get_file_no` computes it:
/// `c = c * 31 + b` over the bytes, wrapping in `i32`.
pub open spec fn java_checksum(bytes: Seq<u8>) -> i32
    decreases bytes.len(),
{
    if bytes.len() == 0 {
        0
    } else {
        vstd::wrapping::i32_specs::wrapping_add(
            vstd::wrapping::i32_specs::wrapping_mul(java_checksum(bytes.drop_last()), 31),
            bytes.last() as i32,
        )
    }
}

/// The checksum is the fold `c = c * 31 + b` over the bytes, from 0, kept in
/// `i32` by wrapping: no bytes give 0, and one more byte `b` gives the `i32`
/// congruent to `31 * c + b` modulo 2^32, for strings of every length.
pub proof fn lemma_checksum_fold(bytes: Seq<u8>, b: u8)
    ensures
        java_checksum(Seq::<u8>::empty()) == 0,
        (java_checksum(bytes.push(b)) - (31 * java_checksum(bytes) + b)) % 0x1_0000_0000 == 0,
{
    let c = java_checksum(bytes);
    assert(bytes.push(b).drop_last() == bytes);
    let x: int = c * 31;
    let m = vstd::wrapping::i32_specs::wrapping_mul(c, 31);
    assert((m - x) % 0x1_0000_0000 == 0) by {
        let r: int = x % 0x1_0000_0000;
        vstd::arithmetic::div_mod::lemma_fundamental_div_mod(x, 0x1_0000_0000);
        assert(0 <= r < 0x1_0000_0000);
        if r > 0x7fff_ffff {
            assert(m == r - 0x1_0000_0000);
        } else {
            assert(m == r);
        }
        let q: int = x / 0x1_0000_0000;
        assert((m - x) == 0x1_0000_0000 * (if r > 0x7fff_ffff { -1 - q } else { -q }));
        lemma_mod_multiple(if r > 0x7fff_ffff { -1 - q } else { -q });
    }
    let y = vstd::wrapping::i32_specs::wrapping_add(m, b as i32);
    assert(y == java_checksum(bytes.push(b)));
    let d: int = if m + b > 0x7fff_ffff { -1 } else { 0 };
    assert(y == m + b + 0x1_0000_0000 * d);
    let k: int = (m - x) / 0x1_0000_0000;
    assert(m - x == 0x1_0000_0000 * k) by {
        vstd::arithmetic::div_mod::lemma_fundamental_div_mod(m - x, 0x1_0000_0000);
    }
    assert(y - (31 * c + b) == 0x1_0000_0000 * (k + d));
    lemma_mod_multiple(k + d);
}

/// A multiple of 2^32 leaves no remainder.
proof fn lemma_mod_multiple(q: int)
    ensures
        (0x1_0000_0000 * q) % 0x1_0000_0000 == 0,
{
    vstd::arithmetic::div_mod::lemma_mod_multiples_basic(q, 0x1_0000_0000);
    assert(0x1_0000_0000 * q == q * 0x1_0000_0000) by (nonlinear_arith);
}

/// The checksum of a hashed name: that of the UTF-8 bytes of its lowercase
/// form.
pub open spec fn file_no_checksum(hash: Seq<char>) -> i32 {
    java_checksum(vstd::utf8::encode_utf8(str_lowercase(hash)))
}

/// The archive number of a hashed name: the absolute value of its checksum,
/// its three low bits, plus one. For a checksum of `i32::MIN` this is 1, what
/// `rzfile` gives when its negation wraps.
pub open spec fn spec_file_no(hash: Seq<char>) -> u8 {
    let c = file_no_checksum(hash) as int;
    ((if c < 0 { -c } else { c }) % 8 + 1) as u8
}

/// Archive numbers lie in `1..=8`.
pub proof fn lemma_file_no_range(hash: Seq<char>)
    ensures
        1 <= spec_file_no(hash) <= 8,
{
}

/// `rzfile::name::get_file_no`. Claimed, from its source: the checksum of
/// the lowercase name, negated when negative, its three low bits plus one.
/// For a checksum of exactly `i32::MIN` the negation overflows, which panics
/// where overflow checks are on; that input is excluded.
#[verifier::external_body]
pub(crate) fn file_no(hash: &str) -> (n: u8)
    requires
        file_no_checksum(hash@) != i32::MIN,
    ensures
        n == spec_file_no(hash@),
{
    rzfile::name::get_file_no(hash)
}

/// Computes the checksum of a hashed name that decides its archive number.
pub fn name_checksum(hash: &str) -> (c: i32)
    ensures
        c == file_no_checksum(hash@),
        c == java_checksum(vstd::utf8::encode_utf8(str_lowercase(hash@))),
{
    let lower = to_lowercase(hash);
    let bytes = lower.as_str().as_bytes();
    let mut c: i32 = 0;
    let mut i: usize = 0;
    while i < bytes.len()
        invariant
            i <= bytes@.len(),
            bytes@ == vstd::utf8::encode_utf8(str_lowercase(hash@)),
            c == java_checksum(bytes@.take(i as int)),
        decreases bytes@.len() - i,
    {
        assert(bytes@.take(i as int + 1).drop_last() == bytes@.take(i as int));
        c = c.wrapping_mul(31).wrapping_add(bytes[i] as i32);
        i = i + 1;
    }
    assert(bytes@.take(i as int) == bytes@);
    c
}

} // verus!
