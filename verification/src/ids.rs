//! Deterministic record ids for GPX rows.
//!
//! GPX carries no ids, but ingest has to be an upsert: re-exporting the archive, or re-running
//! over an unchanged file, must land on the same rows rather than duplicate every day of
//! history. So an id is a hash of what identifies the record in the file, rendered in the UUID
//! shape the rest of the database uses.
//!
//! The hash is FNV-1a rather than `std::hash`, whose `DefaultHasher` is explicitly not stable
//! across Rust releases: an id that changed with the compiler would fork the whole archive.

use vstd::prelude::*;
use vstd::string::*;
use vstd::utf8::encode_utf8;
use crate::text::string_from_chars;

verus! {

/// FNV-1a 128-bit, from the reference parameters.
pub const OFFSET_BASIS: u128 = 0x6c62_272e_07bb_0142_62b8_2175_6295_c58d;
pub const PRIME: u128 = 0x0000_0000_0100_0000_0000_0000_0000_013b;

/// FNV-1a over `bytes`, starting from `hash`: each byte is folded in with xor, then the hash is
/// multiplied by the prime, wrapping.
pub open spec fn fnv1a(hash: u128, bytes: Seq<u8>) -> u128
    decreases bytes.len(),
{
    if bytes.len() == 0 {
        hash
    } else {
        fnv1a((hash ^ (bytes[0] as u128)).wrapping_mul(PRIME), bytes.drop_first())
    }
}

/// What an id is a hash of: the three parts as UTF-8, separated by a zero byte so that
/// `("a", "bc")` and `("ab", "c")` cannot collide.
pub open spec fn id_input(source: Seq<char>, kind: Seq<char>, key: Seq<char>) -> Seq<u8> {
    encode_utf8(source) + seq![0u8] + encode_utf8(kind) + seq![0u8] + encode_utf8(key)
}

proof fn lemma_fnv1a_push(hash: u128, bytes: Seq<u8>, b: u8)
    ensures
        fnv1a(hash, bytes.push(b)) == (fnv1a(hash, bytes) ^ (b as u128)).wrapping_mul(PRIME),
    decreases bytes.len(),
{
    if bytes.len() > 0 {
        lemma_fnv1a_push((hash ^ (bytes[0] as u128)).wrapping_mul(PRIME), bytes.drop_first(), b);
        assert(bytes.push(b).drop_first() =~= bytes.drop_first().push(b));
        assert(bytes.push(b)[0] == bytes[0]);
    } else {
        let next = (hash ^ (b as u128)).wrapping_mul(PRIME);
        assert(bytes.push(b).drop_first() =~= bytes);
        assert(bytes.push(b)[0] == b);
        assert(fnv1a(next, bytes) == next);
        assert(fnv1a(hash, bytes) == hash);
    }
}

fn fold_bytes(hash: u128, bytes: &[u8]) -> (r: u128)
    ensures
        r == fnv1a(hash, bytes@),
{
    let mut h = hash;
    let mut i: usize = 0;
    while i < bytes.len()
        invariant
            i <= bytes@.len(),
            h == fnv1a(hash, bytes@.take(i as int)),
        decreases bytes.len() - i,
    {
        proof {
            lemma_fnv1a_push(hash, bytes@.take(i as int), bytes@[i as int]);
            assert(bytes@.take(i + 1) =~= bytes@.take(i as int).push(bytes@[i as int]));
        }
        h = (h ^ (bytes[i] as u128)).wrapping_mul(PRIME);
        i = i + 1;
    }
    assert(bytes@.take(bytes@.len() as int) =~= bytes@);
    h
}

proof fn lemma_fnv1a_concat(hash: u128, a: Seq<u8>, b: Seq<u8>)
    ensures
        fnv1a(hash, a + b) == fnv1a(fnv1a(hash, a), b),
    decreases a.len(),
{
    if a.len() > 0 {
        lemma_fnv1a_concat((hash ^ (a[0] as u128)).wrapping_mul(PRIME), a.drop_first(), b);
        assert((a + b).drop_first() =~= a.drop_first() + b);
    } else {
        assert(a + b =~= b);
    }
}

/// The hash `deterministic_id` renders: FNV-1a over the separated parts.
pub open spec fn id_hash(source: Seq<char>, kind: Seq<char>, key: Seq<char>) -> u128 {
    fnv1a(OFFSET_BASIS, id_input(source, kind, key))
}

/// The hash with the UUID version 8 and variant bits set: byte 6 gets `8` in its high
/// nibble, byte 8 gets `10` in its two high bits.
pub open spec fn uuid_bits(hash: u128) -> u128 {
    (hash & !(0xf0u128 << 72u128) | (0x80u128 << 72u128)) & !(0xc0u128 << 56u128) | (0x80u128
        << 56u128)
}

/// The `k`th hex digit of a 128-bit value, most significant first.
pub open spec fn nibble(v: u128, k: int) -> u128 {
    (v >> ((31 - k) * 4) as u128) & 0xf
}

/// An uppercase hex digit.
pub open spec fn hex_digit(d: u128) -> char {
    if d < 10 {
        ((d + 48) as u32) as char
    } else {
        ((d + 55) as u32) as char
    }
}

/// The 32 hex digits of a value.
pub open spec fn hex_of(v: u128) -> Seq<char> {
    Seq::new(32, |k: int| hex_digit(nibble(v, k)))
}

/// The 128 bits as a version 8 (custom) UUID: 8-4-4-4-12 uppercase hex digits.
pub open spec fn uuid_text(hash: u128) -> Seq<char> {
    let hex = hex_of(uuid_bits(hash));
    hex.subrange(0, 8) + seq!['-'] + hex.subrange(8, 12) + seq!['-'] + hex.subrange(12, 16)
        + seq!['-'] + hex.subrange(16, 20) + seq!['-'] + hex.subrange(20, 32)
}

fn hex_char(d: u128) -> (c: char)
    requires
        d < 16,
    ensures
        c == hex_digit(d),
{
    match d {
        0 => '0',
        1 => '1',
        2 => '2',
        3 => '3',
        4 => '4',
        5 => '5',
        6 => '6',
        7 => '7',
        8 => '8',
        9 => '9',
        10 => 'A',
        11 => 'B',
        12 => 'C',
        13 => 'D',
        14 => 'E',
        _ => 'F',
    }
}

/// The 128 bits as a version 8 (custom) UUID, so a GPX id is visibly the same shape as the
/// UUIDs Arc's own records carry.
pub fn format_uuid(hash: u128) -> (r: String)
    ensures
        r@ == uuid_text(hash),
{
    let v = (hash & !(0xf0u128 << 72u128) | (0x80u128 << 72u128)) & !(0xc0u128 << 56u128) | (0x80u128
        << 56u128);
    let mut hex: Vec<char> = Vec::new();
    let mut k: usize = 0;
    while k < 32
        invariant
            k <= 32,
            v == uuid_bits(hash),
            hex@ =~= hex_of(v).take(k as int),
        decreases 32 - k,
    {
        let shift = ((31 - k) * 4) as u128;
        let d = (v >> shift) & 0xf;
        assert(d < 16) by (bit_vector)
            requires
                d == (v >> shift) & 0xf,
        ;
        hex.push(hex_char(d));
        k = k + 1;
    }
    let mut out: Vec<char> = Vec::new();
    let mut i: usize = 0;
    while i < 32
        invariant
            i <= 32,
            hex@ == hex_of(v),
            v == uuid_bits(hash),
            out@ == (if i <= 8 {
                hex@.subrange(0, i as int)
            } else if i <= 12 {
                hex@.subrange(0, 8) + seq!['-'] + hex@.subrange(8, i as int)
            } else if i <= 16 {
                hex@.subrange(0, 8) + seq!['-'] + hex@.subrange(8, 12) + seq!['-'] + hex@.subrange(
                    12,
                    i as int,
                )
            } else if i <= 20 {
                hex@.subrange(0, 8) + seq!['-'] + hex@.subrange(8, 12) + seq!['-'] + hex@.subrange(
                    12,
                    16,
                ) + seq!['-'] + hex@.subrange(16, i as int)
            } else {
                hex@.subrange(0, 8) + seq!['-'] + hex@.subrange(8, 12) + seq!['-'] + hex@.subrange(
                    12,
                    16,
                ) + seq!['-'] + hex@.subrange(16, 20) + seq!['-'] + hex@.subrange(20, i as int)
            }),
        decreases 32 - i,
    {
        if i == 8 || i == 12 || i == 16 || i == 20 {
            out.push('-');
        }
        out.push(hex[i]);
        i = i + 1;
        assert(out@ =~= (if i <= 8 {
            hex@.subrange(0, i as int)
        } else if i <= 12 {
            hex@.subrange(0, 8) + seq!['-'] + hex@.subrange(8, i as int)
        } else if i <= 16 {
            hex@.subrange(0, 8) + seq!['-'] + hex@.subrange(8, 12) + seq!['-'] + hex@.subrange(
                12,
                i as int,
            )
        } else if i <= 20 {
            hex@.subrange(0, 8) + seq!['-'] + hex@.subrange(8, 12) + seq!['-'] + hex@.subrange(
                12,
                16,
            ) + seq!['-'] + hex@.subrange(16, i as int)
        } else {
            hex@.subrange(0, 8) + seq!['-'] + hex@.subrange(8, 12) + seq!['-'] + hex@.subrange(
                12,
                16,
            ) + seq!['-'] + hex@.subrange(16, 20) + seq!['-'] + hex@.subrange(20, i as int)
        }));
    }
    string_from_chars(&out)
}

/// A stable id for `(source, kind, key)`, e.g. the file name and element index of a track.
/// `kind` keeps the trip, its fixes and the place derived from the same string apart.
pub fn deterministic_id(source: &str, kind: &str, key: &str) -> (r: String)
    ensures
        r@ == uuid_text(id_hash(source@, kind@, key@)),
{
    let separator: [u8; 1] = [0u8];
    let mut hash = fold_bytes(OFFSET_BASIS, source.as_bytes());
    hash = fold_bytes(hash, separator.as_slice());
    hash = fold_bytes(hash, kind.as_bytes());
    hash = fold_bytes(hash, separator.as_slice());
    hash = fold_bytes(hash, key.as_bytes());
    proof {
        let s = encode_utf8(source@);
        let z = seq![0u8];
        let k = encode_utf8(kind@);
        let y = encode_utf8(key@);
        assert(separator@ =~= z);
        lemma_fnv1a_concat(OFFSET_BASIS, s, z);
        lemma_fnv1a_concat(OFFSET_BASIS, s + z, k);
        lemma_fnv1a_concat(OFFSET_BASIS, s + z + k, z);
        lemma_fnv1a_concat(OFFSET_BASIS, s + z + k + z, y);
    }
    format_uuid(hash)
}


/// An uppercase hex digit character.
pub open spec fn is_hex_char(c: char) -> bool {
    ('0' <= c <= '9') || ('A' <= c <= 'F')
}

/// Every id has the shape of a UUID: 36 characters, dashes after the 8th, 12th, 16th and 20th
/// hex digit and uppercase hex digits elsewhere, version 8 and the RFC 4122 variant.
pub proof fn ids_are_uuid_shaped(hash: u128)
    ensures
        uuid_text(hash).len() == 36,
        uuid_text(hash)[8] == '-',
        uuid_text(hash)[13] == '-',
        uuid_text(hash)[18] == '-',
        uuid_text(hash)[23] == '-',
        forall|i: int| 0 <= i < 36 && i != 8 && i != 13 && i != 18 && i != 23 ==> is_hex_char(
            #[trigger] uuid_text(hash)[i],
        ),
        uuid_text(hash)[14] == '8',
        uuid_text(hash)[19] == '8' || uuid_text(hash)[19] == '9' || uuid_text(hash)[19] == 'A'
            || uuid_text(hash)[19] == 'B',
{
    let v = uuid_bits(hash);
    let hex = hex_of(v);
    let t = uuid_text(hash);
    assert forall|k: int| 0 <= k < 32 implies is_hex_char(#[trigger] hex[k]) by {
        let shift = ((31 - k) * 4) as u128;
        let d = (v >> shift) & 0xf;
        assert(d < 16) by (bit_vector)
            requires
                d == (v >> shift) & 0xf,
        ;
        assert(nibble(v, k) == d);
    }
    assert forall|i: int| 0 <= i < 36 && i != 8 && i != 13 && i != 18 && i != 23 implies is_hex_char(
        #[trigger] t[i],
    ) by {
        if i < 8 {
            assert(t[i] == hex[i]);
        } else if i < 13 {
            assert(t[i] == hex[i - 1]);
        } else if i < 18 {
            assert(t[i] == hex[i - 2]);
        } else if i < 23 {
            assert(t[i] == hex[i - 3]);
        } else {
            assert(t[i] == hex[i - 4]);
        }
    }
    assert(t[14] == hex[12]);
    assert(t[19] == hex[16]);
    let version = (v >> 76u128) & 0xf;
    assert(version == 8) by (bit_vector)
        requires
            v == (hash & !(0xf0u128 << 72u128) | (0x80u128 << 72u128)) & !(0xc0u128 << 56u128) | (
            0x80u128 << 56u128),
            version == (v >> 76u128) & 0xf,
    ;
    assert(nibble(v, 12) == version);
    let variant = (v >> 60u128) & 0xf;
    assert(8 <= variant <= 11) by (bit_vector)
        requires
            v == (hash & !(0xf0u128 << 72u128) | (0x80u128 << 72u128)) & !(0xc0u128 << 56u128) | (
            0x80u128 << 56u128),
            variant == (v >> 60u128) & 0xf,
    ;
    assert(nibble(v, 16) == variant);
}

} // verus!
