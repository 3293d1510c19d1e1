//! The record codec: one cache entry becomes a fixed 16-byte little-endian
//! header followed by a variable payload.
//!
//! The header word (bytes 0–3) holds a 30-bit length-or-index field plus
//! flag bits; bytes 4–5 and 6–7 hold the category and subkey indices; bytes
//! 8–15 hold the 64-bit timestamp bit pattern. The payload depends on which
//! of three value representations is chosen, in priority order: dictionary
//! indexing (no payload), nibble packing over a 16-symbol alphabet (half the
//! value's length), or a literal copy of the value bytes.

use vstd::prelude::*;
use byteorder::{ByteOrder, LE};
use crate::push_bytes;
use crate::dicts::{Dicts, dict_step, contains_str, str_index, VALS_MAX};

verus! {

/// Header bit marking a record whose value expired rather than changed.
pub const FLAG_EXPIRING: u32 = 0x8000_0000;

/// Header bit marking a nibble-packed payload.
pub const FLAG_ENCODED: u32 = 0x4000_0000;

/// Header bit marking a dictionary-indexed value with no payload.
pub const FLAG_INDEXED: u32 = 0x2000_0000;

/// Values at least this long cannot be represented: the length must stay
/// clear of the three flag bits.
pub const MAX_VALUE_LEN: u32 = 0x2000_0000;

/// The nibble assigned to a byte of the 16-symbol alphabet
/// `0123456789.,-[]e`, or `None` outside the alphabet.
pub open spec fn spec_enc_map(b: u8) -> Option<u8> {
    if 48 <= b <= 57 {
        Some((b - 48) as u8)
    } else if b == 46 {
        Some(10u8)
    } else if b == 44 {
        Some(11u8)
    } else if b == 45 {
        Some(12u8)
    } else if b == 91 {
        Some(13u8)
    } else if b == 93 {
        Some(14u8)
    } else if b == 101 {
        Some(15u8)
    } else {
        None
    }
}

/// The byte belongs to the 16-symbol numeric alphabet.
pub open spec fn is_alpha(b: u8) -> bool {
    spec_enc_map(b) is Some
}

/// Every byte of `v` belongs to the numeric alphabet.
pub open spec fn all_alpha(v: Seq<u8>) -> bool {
    forall|i: int| 0 <= i < v.len() ==> is_alpha(#[trigger] v[i])
}

/// The alphabet byte written for nibble `n` (the inverse of the alphabet
/// mapping for `n < 16`).
pub open spec fn spec_dec_map(n: u8) -> u8 {
    if n <= 9 {
        (48 + n) as u8
    } else if n == 10 {
        46u8
    } else if n == 11 {
        44u8
    } else if n == 12 {
        45u8
    } else if n == 13 {
        91u8
    } else if n == 14 {
        93u8
    } else {
        101u8
    }
}

/// Nibble-packs an alphabet-only byte string: two input bytes per output
/// byte, the first in the low nibble, the second in the high nibble; a
/// trailing odd byte leaves the high nibble zero.
pub open spec fn spec_pack(v: Seq<u8>) -> Seq<u8>
    decreases v.len(),
{
    if v.len() == 0 {
        Seq::empty()
    } else if v.len() == 1 {
        seq![spec_enc_map(v[0]).unwrap()]
    } else {
        seq![(spec_enc_map(v[0]).unwrap() + spec_enc_map(v[1]).unwrap() * 16) as u8]
            + spec_pack(v.skip(2))
    }
}

/// Unpacks nibble-packed bytes: each packed byte yields the alphabet bytes
/// of its low nibble and its high nibble, in that order.
pub open spec fn spec_unpack(p: Seq<u8>) -> Seq<u8>
    decreases p.len(),
{
    if p.len() == 0 {
        Seq::empty()
    } else {
        seq![spec_dec_map((p[0] % 16) as u8), spec_dec_map((p[0] / 16) as u8)]
            + spec_unpack(p.skip(1))
    }
}

/// The nibble assigned to an alphabet byte, or `None` outside the alphabet.
pub fn enc_map(b: u8) -> (r: Option<u8>)
    ensures
        r == spec_enc_map(b),
{
    if 48 <= b && b <= 57 {
        Some(b - 48)
    } else if b == 46 {
        Some(10)
    } else if b == 44 {
        Some(11)
    } else if b == 45 {
        Some(12)
    } else if b == 91 {
        Some(13)
    } else if b == 93 {
        Some(14)
    } else if b == 101 {
        Some(15)
    } else {
        None
    }
}

/// The alphabet byte for nibble `n`.
pub fn dec_map(n: u8) -> (r: u8)
    requires
        n < 16,
    ensures
        r == spec_dec_map(n),
{
    if n <= 9 {
        48 + n
    } else if n == 10 {
        46
    } else if n == 11 {
        44
    } else if n == 12 {
        45
    } else if n == 13 {
        91
    } else if n == 14 {
        93
    } else {
        101
    }
}

/// Nibble-packs `value` when every byte belongs to the numeric alphabet;
/// fails otherwise.
pub fn enc(value: &[u8]) -> (r: Option<Vec<u8>>)
    ensures
        r is Some <==> all_alpha(value@),
        r matches Some(b) ==> b@ == spec_pack(value@),
{
    let n = value.len();
    let mut out: Vec<u8> = Vec::new();
    let mut i: usize = 0;
    proof {
        assert(value@.skip(0) =~= value@);
        assert(Seq::<u8>::empty() + spec_pack(value@) =~= spec_pack(value@));
    }
    while i < n
        invariant
            n == value@.len(),
            0 <= i <= n,
            i % 2 == 0 || i == n,
            all_alpha(value@.subrange(0, i as int)),
            spec_pack(value@) == out@ + spec_pack(value@.skip(i as int)),
        decreases n - i,
    {
        let ghost tail = value@.skip(i as int);
        proof {
            assert(tail[0] == value@[i as int]);
        }
        let first = match enc_map(value[i]) {
            Some(x) => x,
            None => {
                proof {
                    assert(!is_alpha(value@[i as int]));
                }
                return None;
            }
        };
        if i + 1 < n {
            proof {
                assert(tail[1] == value@[i + 1]);
            }
            let second = match enc_map(value[i + 1]) {
                Some(x) => x,
                None => {
                    proof {
                        assert(!is_alpha(value@[i + 1]));
                    }
                    return None;
                }
            };
            let ghost out_before = out@;
            out.push(first + second * 16);
            proof {
                assert(tail.skip(2) =~= value@.skip(i + 2));
                assert(spec_pack(tail) == seq![(first + second * 16) as u8] + spec_pack(tail.skip(2)));
                assert(out@ + spec_pack(value@.skip(i + 2)) =~= out_before + spec_pack(tail));
                assert(all_alpha(value@.subrange(0, i + 2))) by {
                    let pre = value@.subrange(0, i + 2);
                    assert(forall|j: int| 0 <= j < pre.len() ==> pre[j] == value@[j]);
                }
            }
            i = i + 2;
        } else {
            out.push(first);
            proof {
                assert(tail.len() == 1);
                assert(spec_pack(tail) == seq![spec_enc_map(tail[0]).unwrap()]);
            }
            i = i + 1;
        }
    }
    proof {
        assert(value@.subrange(0, n as int) =~= value@);
        assert(spec_pack(value@.skip(n as int)) =~= Seq::<u8>::empty());
        assert(out@ + Seq::<u8>::empty() =~= out@);
    }
    Some(out)
}

/// Unpacks a nibble-packed payload and truncates the result to `len`, the
/// original length recorded in the header.
pub fn dec(value: &[u8], len: usize) -> (r: Vec<u8>)
    ensures
        len <= 2 * value@.len() ==> r@ == spec_unpack(value@).take(len as int),
        len > 2 * value@.len() ==> r@ == spec_unpack(value@),
{
    let n = value.len();
    let mut out: Vec<u8> = Vec::new();
    let mut i: usize = 0;
    proof {
        assert(value@.skip(0) =~= value@);
        assert(Seq::<u8>::empty() + spec_unpack(value@) =~= spec_unpack(value@));
    }
    while i < n
        invariant
            n == value@.len(),
            0 <= i <= n,
            out@.len() == 2 * i,
            spec_unpack(value@) == out@ + spec_unpack(value@.skip(i as int)),
        decreases n - i,
    {
        let ghost tail = value@.skip(i as int);
        proof {
            assert(tail[0] == value@[i as int]);
            assert(tail.skip(1) =~= value@.skip(i + 1));
        }
        let b = value[i];
        out.push(dec_map(b % 16));
        out.push(dec_map(b / 16));
        i = i + 1;
    }
    proof {
        assert(spec_unpack(value@.skip(n as int)) =~= Seq::<u8>::empty());
        assert(out@ + Seq::<u8>::empty() =~= out@);
    }
    out.truncate(len);
    proof {
        if len <= 2 * value@.len() {
            assert(spec_unpack(value@).subrange(0, len as int)
                =~= spec_unpack(value@).take(len as int));
        }
    }
    out
}

/// The little-endian bytes of a 16-bit integer.
pub open spec fn u16_le(x: u16) -> Seq<u8> {
    seq![(x & 0xff) as u8, ((x >> 8) & 0xff) as u8]
}

/// The little-endian bytes of a 32-bit integer.
pub open spec fn u32_le(x: u32) -> Seq<u8> {
    seq![
        (x & 0xff) as u8,
        ((x >> 8) & 0xff) as u8,
        ((x >> 16) & 0xff) as u8,
        ((x >> 24) & 0xff) as u8,
    ]
}

/// The little-endian bytes of a 64-bit integer.
pub open spec fn u64_le(x: u64) -> Seq<u8> {
    seq![
        (x & 0xff) as u8,
        ((x >> 8) & 0xff) as u8,
        ((x >> 16) & 0xff) as u8,
        ((x >> 24) & 0xff) as u8,
        ((x >> 32) & 0xff) as u8,
        ((x >> 40) & 0xff) as u8,
        ((x >> 48) & 0xff) as u8,
        ((x >> 56) & 0xff) as u8,
    ]
}

/// The integer read little-endian from two bytes.
pub open spec fn u16_from_le(b0: u8, b1: u8) -> int {
    b0 + 0x100 * b1
}

/// The integer read little-endian from four bytes.
pub open spec fn u32_from_le(b0: u8, b1: u8, b2: u8, b3: u8) -> int {
    b0 + 0x100 * b1 + 0x10000 * b2 + 0x1000000 * b3
}

/// The integer read little-endian from eight bytes.
pub open spec fn u64_from_le(b0: u8, b1: u8, b2: u8, b3: u8, b4: u8, b5: u8, b6: u8, b7: u8) -> int {
    b0 + 0x100 * b1 + 0x10000 * b2 + 0x1000000 * b3 + 0x100000000 * b4 + 0x10000000000 * b5
        + 0x1000000000000 * b6 + 0x100000000000000 * b7
}

/// Reading a 16-bit integer's little-endian bytes back gives the integer.
pub proof fn lemma_u16_le_round_trip(x: u16)
    ensures
        ({
            let s = u16_le(x);
            u16_from_le(s[0], s[1]) == x
        }),
{
    assert((x & 0xff) < 0x100 && ((x >> 8) & 0xff) < 0x100) by (bit_vector);
    assert((x & 0xff) + 0x100 * ((x >> 8) & 0xff) == x) by (bit_vector);
}

/// Reading a 32-bit integer's little-endian bytes back gives the integer.
pub proof fn lemma_u32_le_round_trip(x: u32)
    ensures
        ({
            let s = u32_le(x);
            u32_from_le(s[0], s[1], s[2], s[3]) == x
        }),
{
    assert((x & 0xff) < 0x100 && ((x >> 8) & 0xff) < 0x100 && ((x >> 16) & 0xff) < 0x100 && ((x
        >> 24) & 0xff) < 0x100) by (bit_vector);
    assert((x & 0xff) + 0x100 * ((x >> 8) & 0xff) + 0x10000 * ((x >> 16) & 0xff) + 0x1000000 * ((
    x >> 24) & 0xff) == x) by (bit_vector);
}

/// Reading a 64-bit integer's little-endian bytes back gives the integer.
pub proof fn lemma_u64_le_round_trip(x: u64)
    ensures
        ({
            let s = u64_le(x);
            u64_from_le(s[0], s[1], s[2], s[3], s[4], s[5], s[6], s[7]) == x
        }),
{
    assert((x & 0xff) < 0x100 && ((x >> 8) & 0xff) < 0x100 && ((x >> 16) & 0xff) < 0x100 && ((x
        >> 24) & 0xff) < 0x100 && ((x >> 32) & 0xff) < 0x100 && ((x >> 40) & 0xff) < 0x100 && ((x
        >> 48) & 0xff) < 0x100 && ((x >> 56) & 0xff) < 0x100) by (bit_vector);
    assert((x & 0xff) + 0x100 * ((x >> 8) & 0xff) + 0x10000 * ((x >> 16) & 0xff) + 0x1000000 * ((
    x >> 24) & 0xff) + 0x100000000 * ((x >> 32) & 0xff) + 0x10000000000 * ((x >> 40) & 0xff)
        + 0x1000000000000 * ((x >> 48) & 0xff) + 0x100000000000000 * ((x >> 56) & 0xff) == x)
        by (bit_vector);
}

/// Relies on byteorder::LittleEndian::write_u16, which stores the
/// integer's two little-endian bytes (its `to_le_bytes`) into the slice.
#[verifier::external_body]
fn le_u16(x: u16) -> (r: [u8; 2])
    ensures
        r@ == u16_le(x),
{
    let mut b = [0u8; 2];
    LE::write_u16(&mut b, x);
    b
}

/// Relies on byteorder::LittleEndian::write_u32, which stores the
/// integer's four little-endian bytes (its `to_le_bytes`) into the slice.
#[verifier::external_body]
fn le_u32(x: u32) -> (r: [u8; 4])
    ensures
        r@ == u32_le(x),
{
    let mut b = [0u8; 4];
    LE::write_u32(&mut b, x);
    b
}

/// Relies on byteorder::LittleEndian::write_u64, which stores the
/// integer's eight little-endian bytes (its `to_le_bytes`) into the slice.
/// byteorder's write_f64 stores a timestamp the same way, through the
/// float's 64-bit pattern (its `to_bits`).
#[verifier::external_body]
fn le_u64(x: u64) -> (r: [u8; 8])
    ensures
        r@ == u64_le(x),
{
    let mut b = [0u8; 8];
    LE::write_u64(&mut b, x);
    b
}

/// The 16-byte record header: the flag-and-length word, the category index,
/// the subkey index and the timestamp bit pattern, each little-endian.
pub open spec fn header_bytes(firstfield: u32, catindex: u16, subkeyindex: u16, ts: u64) -> Seq<
    u8,
> {
    u32_le(firstfield) + u16_le(catindex) + u16_le(subkeyindex) + u64_le(ts)
}

/// Assembles the 16-byte record header.
pub fn encode_header(firstfield: u32, catindex: u16, subkeyindex: u16, timestamp_bits: u64) -> (r:
    Vec<u8>)
    ensures
        r@ == header_bytes(firstfield, catindex, subkeyindex, timestamp_bits),
        r@.len() == 16,
{
    let mut out: Vec<u8> = Vec::new();
    let w = le_u32(firstfield);
    push_bytes(&mut out, w.as_slice());
    let c = le_u16(catindex);
    push_bytes(&mut out, c.as_slice());
    let s = le_u16(subkeyindex);
    push_bytes(&mut out, s.as_slice());
    let t = le_u64(timestamp_bits);
    push_bytes(&mut out, t.as_slice());
    proof {
        assert(out@ =~= header_bytes(firstfield, catindex, subkeyindex, timestamp_bits));
    }
    out
}

/// The value is represented by a dictionary index: it begins with a quote
/// or an opening parenthesis, or it is exactly the sentinel `-`.
pub open spec fn is_dict_mode(v: Seq<u8>) -> bool {
    (v.len() > 0 && (v[0] == 39 || v[0] == 40)) || v == seq![45u8]
}

/// The expiring bit of the header word.
pub open spec fn exp_flag(expiring: bool) -> u32 {
    if expiring {
        FLAG_EXPIRING
    } else {
        0
    }
}

/// The full record for one cache entry, given the value dictionary's
/// entries, or `None` when the value must be dictionary-indexed and the
/// dictionary cannot accept it.
///
/// The three representations, in priority order: a dictionary-indexed value
/// stores its index in the header word and no payload; an alphabet-only
/// value stores its original length and the nibble-packed payload; any
/// other value stores its length and the raw bytes.
pub open spec fn spec_encode(
    catindex: u16,
    subkeyindex: u16,
    v: Seq<u8>,
    ts: u64,
    expiring: bool,
    vals: Seq<Seq<u8>>,
) -> Option<Seq<u8>> {
    if is_dict_mode(v) {
        let step = dict_step(vals, VALS_MAX as nat, v);
        if step.1 is Some {
            Some(
                header_bytes(
                    (step.1.unwrap() as u32) | FLAG_INDEXED | exp_flag(expiring),
                    catindex,
                    subkeyindex,
                    ts,
                ),
            )
        } else {
            None
        }
    } else if all_alpha(v) {
        Some(
            header_bytes(
                (v.len() as u32) | FLAG_ENCODED | exp_flag(expiring),
                catindex,
                subkeyindex,
                ts,
            ) + spec_pack(v),
        )
    } else {
        Some(header_bytes((v.len() as u32) | exp_flag(expiring), catindex, subkeyindex, ts) + v)
    }
}

/// Encodes one cache entry, resolving a dictionary-indexed value through
/// the value dictionary (inserting it if it is new). Fails exactly when the
/// value must be dictionary-indexed and the dictionary is full or the value
/// contains the line-terminator byte.
pub fn encode_entry(
    catindex: u16,
    subkeyindex: u16,
    value: &[u8],
    timestamp_bits: u64,
    expiring: bool,
    dicts: &mut Dicts,
) -> (r: Option<Vec<u8>>)
    requires
        old(dicts).wf(),
        value@.len() < MAX_VALUE_LEN,
    ensures
        final(dicts).wf(),
        final(dicts).keys_entries() == old(dicts).keys_entries(),
        final(dicts).vals_entries() == if is_dict_mode(value@) {
            dict_step(old(dicts).vals_entries(), VALS_MAX as nat, value@).0
        } else {
            old(dicts).vals_entries()
        },
        r is Some <==> spec_encode(
            catindex,
            subkeyindex,
            value@,
            timestamp_bits,
            expiring,
            old(dicts).vals_entries(),
        ) is Some,
        r matches Some(b) ==> Some(b@) == spec_encode(
            catindex,
            subkeyindex,
            value@,
            timestamp_bits,
            expiring,
            old(dicts).vals_entries(),
        ),
{
    let dict_mode = if value.len() > 0 && (value[0] == 39 || value[0] == 40) {
        true
    } else {
        value.len() == 1 && value[0] == 45
    };
    proof {
        if value@.len() == 1 && value@[0] == 45 {
            assert(value@ =~= seq![45u8]);
        }
        assert(dict_mode == is_dict_mode(value@));
    }
    let expf: u32 = if expiring {
        FLAG_EXPIRING
    } else {
        0
    };
    if dict_mode {
        match dicts.value_index(value) {
            None => None,
            Some(idx) => {
                let ff = idx | FLAG_INDEXED | expf;
                proof {
                    let step = dict_step(old(dicts).vals_entries(), VALS_MAX as nat, value@);
                    assert(step.1 == Some(idx as int));
                    assert((step.1.unwrap() as u32) == idx);
                }
                Some(encode_header(ff, catindex, subkeyindex, timestamp_bits))
            }
        }
    } else {
        let len32 = value.len() as u32;
        proof {
            assert(len32 == value@.len() as u32);
        }
        match enc(value) {
            Some(packed) => {
                let ff = len32 | FLAG_ENCODED | expf;
                let mut out = encode_header(ff, catindex, subkeyindex, timestamp_bits);
                push_bytes(&mut out, packed.as_slice());
                Some(out)
            }
            None => {
                let ff = len32 | expf;
                let mut out = encode_header(ff, catindex, subkeyindex, timestamp_bits);
                push_bytes(&mut out, value);
                Some(out)
            }
        }
    }
}

/// Law: unpacking a nibble-packed alphabet-only byte string and truncating
/// to the original length reproduces the input exactly, odd lengths
/// included.
pub proof fn lemma_codec_round_trip(v: Seq<u8>)
    requires
        all_alpha(v),
    ensures
        spec_unpack(spec_pack(v)).take(v.len() as int) == v,
        spec_unpack(spec_pack(v)).len() == v.len() + (v.len() % 2),
    decreases v.len(),
{
    if v.len() == 0 {
        assert(spec_unpack(spec_pack(v)).take(0) =~= v);
    } else if v.len() == 1 {
        let n = spec_enc_map(v[0]).unwrap();
        assert(n < 16);
        assert(n % 16 == n && n / 16 == 0);
        assert(spec_dec_map(n) == v[0]);
        let p = spec_pack(v);
        assert(p == seq![n]);
        assert(p[0] == n);
        assert(p.skip(1) =~= Seq::<u8>::empty());
        assert(spec_unpack(p)
            == seq![spec_dec_map((p[0] % 16) as u8), spec_dec_map((p[0] / 16) as u8)]
                + spec_unpack(p.skip(1)));
        assert(spec_dec_map(0u8) == 48u8);
        assert(spec_unpack(p) =~= seq![v[0], 48u8]);
        assert(spec_unpack(p).take(1) =~= v);
    } else {
        let lo = spec_enc_map(v[0]).unwrap();
        let hi = spec_enc_map(v[1]).unwrap();
        assert(lo < 16 && hi < 16);
        let pair = (lo + hi * 16) as u8;
        assert(pair % 16 == lo && pair / 16 == hi) by (nonlinear_arith)
            requires
                lo < 16 && hi < 16 && pair == lo + hi * 16,
        ;
        assert(spec_dec_map(lo) == v[0]);
        assert(spec_dec_map(hi) == v[1]);
        let rest = v.skip(2);
        assert(all_alpha(rest)) by {
            assert(forall|i: int| 0 <= i < rest.len() ==> rest[i] == v[i + 2]);
        }
        lemma_codec_round_trip(rest);
        let p = spec_pack(v);
        assert(p == seq![pair] + spec_pack(rest));
        assert(p[0] == pair);
        assert(p.skip(1) =~= spec_pack(rest));
        assert(spec_unpack(p) == seq![v[0], v[1]] + spec_unpack(spec_pack(rest)));
        assert(rest.len() % 2 == v.len() % 2);
        assert(spec_unpack(p).take(v.len() as int)
            =~= seq![v[0], v[1]] + spec_unpack(spec_pack(rest)).take(rest.len() as int));
        assert(seq![v[0], v[1]] + rest =~= v);
    }
}

/// Law: a value that is neither dictionary-indexed nor alphabet-only is
/// stored literally — the record always exists and its payload reproduces
/// the value byte for byte.
pub proof fn lemma_literal_round_trip(
    catindex: u16,
    subkeyindex: u16,
    v: Seq<u8>,
    ts: u64,
    expiring: bool,
    vals: Seq<Seq<u8>>,
)
    requires
        !is_dict_mode(v),
        !all_alpha(v),
        v.len() < MAX_VALUE_LEN,
    ensures
        spec_encode(catindex, subkeyindex, v, ts, expiring, vals) is Some,
        ({
            let b = spec_encode(catindex, subkeyindex, v, ts, expiring, vals).unwrap();
            &&& b.len() == 16 + v.len()
            &&& b.subrange(16, b.len() as int) == v
        }),
{
    let b = spec_encode(catindex, subkeyindex, v, ts, expiring, vals).unwrap();
    assert(b.subrange(16, b.len() as int) =~= v);
}

/// Law: a literal record with the expiring flag clear carries, little-endian,
/// exactly the value's length with all three flag bits clear, the category
/// index, the subkey index and the timestamp bits, followed by the raw value.
pub proof fn lemma_header_exact(catindex: u16, subkeyindex: u16, v: Seq<u8>, ts: u64, vals: Seq<
    Seq<u8>,
>)
    requires
        !is_dict_mode(v),
        !all_alpha(v),
        v.len() < MAX_VALUE_LEN,
    ensures
        spec_encode(catindex, subkeyindex, v, ts, false, vals) is Some,
        ({
            let b = spec_encode(catindex, subkeyindex, v, ts, false, vals).unwrap();
            &&& b.len() == 16 + v.len()
            &&& u32_from_le(b[0], b[1], b[2], b[3]) == v.len()
            &&& b[3] < 0x20
            &&& u16_from_le(b[4], b[5]) == catindex
            &&& u16_from_le(b[6], b[7]) == subkeyindex
            &&& u64_from_le(b[8], b[9], b[10], b[11], b[12], b[13], b[14], b[15]) == ts
            &&& b.subrange(16, b.len() as int) == v
        }),
{
    let len32 = v.len() as u32;
    assert(len32 | 0u32 == len32) by (bit_vector);
    let ff = len32 | exp_flag(false);
    assert(ff == len32);
    let b = spec_encode(catindex, subkeyindex, v, ts, false, vals).unwrap();
    let h = header_bytes(ff, catindex, subkeyindex, ts);
    assert(b.subrange(16, b.len() as int) =~= v);
    assert forall|i: int| 0 <= i < 16 implies b[i] == h[i] by {}
    lemma_u32_le_round_trip(ff);
    lemma_u16_le_round_trip(catindex);
    lemma_u16_le_round_trip(subkeyindex);
    lemma_u64_le_round_trip(ts);
    assert(h[4] == u16_le(catindex)[0] && h[5] == u16_le(catindex)[1]);
    assert(h[6] == u16_le(subkeyindex)[0] && h[7] == u16_le(subkeyindex)[1]);
    assert(forall|i: int| 8 <= i < 16 ==> h[i] == u64_le(ts)[i - 8]);
    assert(ff < 0x2000_0000 ==> ((ff >> 24) & 0xff) < 0x20) by (bit_vector);
}

/// The expiring bit changes only the top bit of the header word's last byte.
proof fn lemma_expiring_byte(ff: u32)
    requires
        ff < 0x8000_0000,
    ensures
        ({
            let a = u32_le(ff | FLAG_EXPIRING);
            let b = u32_le(ff);
            &&& a[0] == b[0]
            &&& a[1] == b[1]
            &&& a[2] == b[2]
            &&& b[3] < 0x80
            &&& a[3] == b[3] + 0x80
        }),
{
    assert(((ff | 0x8000_0000) & 0xff) == (ff & 0xff)) by (bit_vector);
    assert((((ff | 0x8000_0000) >> 8) & 0xff) == ((ff >> 8) & 0xff)) by (bit_vector);
    assert((((ff | 0x8000_0000) >> 16) & 0xff) == ((ff >> 16) & 0xff)) by (bit_vector);
    assert(ff < 0x8000_0000 ==> ((ff >> 24) & 0xff) < 0x80 && (((ff | 0x8000_0000) >> 24) & 0xff)
        == ((ff >> 24) & 0xff) + 0x80) by (bit_vector);
}

/// Law: two records that differ only in the expiring flag differ only in
/// the top bit of header byte 3; every other header byte and the whole
/// payload are identical.
pub proof fn lemma_expiring_flag_independence(
    catindex: u16,
    subkeyindex: u16,
    v: Seq<u8>,
    ts: u64,
    vals: Seq<Seq<u8>>,
)
    requires
        v.len() < MAX_VALUE_LEN,
        vals.len() <= VALS_MAX as nat,
    ensures
        spec_encode(catindex, subkeyindex, v, ts, true, vals) is Some <==> spec_encode(
            catindex,
            subkeyindex,
            v,
            ts,
            false,
            vals,
        ) is Some,
        spec_encode(catindex, subkeyindex, v, ts, true, vals) matches Some(a) ==> ({
            let b = spec_encode(catindex, subkeyindex, v, ts, false, vals).unwrap();
            &&& a.len() == b.len()
            &&& b[3] < 0x80
            &&& a[3] == b[3] + 0x80
            &&& forall|i: int| 0 <= i < a.len() && i != 3 ==> a[i] == b[i]
        }),
{
    if spec_encode(catindex, subkeyindex, v, ts, true, vals) is Some {
        let a = spec_encode(catindex, subkeyindex, v, ts, true, vals).unwrap();
        let b = spec_encode(catindex, subkeyindex, v, ts, false, vals).unwrap();
        let ff = if is_dict_mode(v) {
            (dict_step(vals, VALS_MAX as nat, v).1.unwrap() as u32) | FLAG_INDEXED
        } else if all_alpha(v) {
            (v.len() as u32) | FLAG_ENCODED
        } else {
            (v.len() as u32)
        };
        assert(ff | exp_flag(false) == ff) by (bit_vector);
        if is_dict_mode(v) {
            let step = dict_step(vals, VALS_MAX as nat, v);
            let idx = step.1.unwrap();
            assert(0 <= idx < VALS_MAX as int) by {
                if contains_str(vals, v) {
                    let k = str_index(vals, v);
                    assert(0 <= k < vals.len());
                    if vals.len() == VALS_MAX as nat {
                        assert(k < VALS_MAX as int);
                    }
                }
            }
            let idx32 = idx as u32;
            assert(idx32 < 0x4000_0000 ==> (idx32 | FLAG_INDEXED) < 0x8000_0000) by (bit_vector);
        } else {
            let len32 = v.len() as u32;
            assert(len32 < 0x2000_0000 ==> (len32 | FLAG_ENCODED) < 0x8000_0000 && len32
                < 0x8000_0000) by (bit_vector);
        }
        assert(ff < 0x8000_0000);
        lemma_expiring_byte(ff);
        assert(a[3] == u32_le(ff | FLAG_EXPIRING)[3]);
        assert(b[3] == u32_le(ff)[3]);
        assert(forall|i: int| 0 <= i < a.len() && i != 3 ==> a[i] == b[i]) by {
            assert(forall|i: int| 0 <= i < 3 ==> a[i] == u32_le(ff | FLAG_EXPIRING)[i] && b[i]
                == u32_le(ff)[i]);
            assert(forall|i: int| 4 <= i < a.len() ==> a[i] == b[i]);
        }
    }
}

} // verus!
