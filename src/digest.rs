//! The canonical bytes that a configuration is hashed from, and the digest.
use vstd::prelude::*;
use vstd::utf8::*;
use sha3::Digest;

verus! {

/// The eight little-endian bytes of `x`.
pub open spec fn le64(x: u64) -> Seq<u8> {
    Seq::new(8, |i: int| ((x >> ((8 * i) as u64)) & 0xffu64) as u8)
}

/// A byte string, prefixed with its length.
pub open spec fn enc_bytes(b: Seq<u8>) -> Seq<u8> {
    le64(b.len() as u64) + b
}

/// A text, as its UTF-8 bytes prefixed with their count.
pub open spec fn enc_str(s: Seq<char>) -> Seq<u8> {
    enc_bytes(encode_utf8(s))
}

pub open spec fn enc_str_items(v: Seq<Seq<char>>) -> Seq<u8>
    decreases v.len(),
{
    if v.len() == 0 {
        Seq::empty()
    } else {
        enc_str_items(v.drop_last()) + enc_str(v.last())
    }
}

/// A list of texts, prefixed with its length.
pub open spec fn enc_strs(v: Seq<Seq<char>>) -> Seq<u8> {
    le64(v.len() as u64) + enc_str_items(v)
}

pub open spec fn enc_bool(b: bool) -> Seq<u8> {
    seq![if b { 1u8 } else { 0u8 }]
}

/// Lowercase hexadecimal digit of a value below 16.
pub open spec fn hex_digit(d: u8) -> char {
    if d < 10 {
        (48 + d) as char
    } else {
        (87 + d) as char
    }
}

/// Two lowercase hexadecimal digits per byte, high nibble first.
pub open spec fn hex_of(b: Seq<u8>) -> Seq<char>
    decreases b.len(),
{
    if b.len() == 0 {
        Seq::empty()
    } else {
        hex_of(b.drop_last()) + seq![hex_digit(b.last() / 16), hex_digit(b.last() % 16)]
    }
}

proof fn lemma_byte_eq(x: u64, y: u64, sh: u64)
    requires
        (((x >> sh) & 0xffu64) as u8) == (((y >> sh) & 0xffu64) as u8),
    ensures
        ((x >> sh) & 0xffu64) == ((y >> sh) & 0xffu64),
{
    assert((((x >> sh) & 0xffu64) as u8) == (((y >> sh) & 0xffu64) as u8) ==> ((x >> sh) & 0xffu64) == ((y >> sh)
        & 0xffu64)) by (bit_vector);
}

proof fn lemma_le64_injective(x: u64, y: u64)
    requires
        le64(x) == le64(y),
    ensures
        x == y,
{
    assert(le64(x)[0] == le64(y)[0]);
    assert(le64(x)[1] == le64(y)[1]);
    assert(le64(x)[2] == le64(y)[2]);
    assert(le64(x)[3] == le64(y)[3]);
    assert(le64(x)[4] == le64(y)[4]);
    assert(le64(x)[5] == le64(y)[5]);
    assert(le64(x)[6] == le64(y)[6]);
    assert(le64(x)[7] == le64(y)[7]);
    assert(le64(x)[0] == ((x >> ((8 * 0) as u64)) & 0xffu64) as u8);
    assert(le64(y)[0] == ((y >> ((8 * 0) as u64)) & 0xffu64) as u8);
    assert(((8 * 0) as u64) == 0u64);
    lemma_byte_eq(x, y, 0);
    assert(le64(x)[1] == ((x >> ((8 * 1) as u64)) & 0xffu64) as u8);
    assert(le64(y)[1] == ((y >> ((8 * 1) as u64)) & 0xffu64) as u8);
    assert(((8 * 1) as u64) == 8u64);
    lemma_byte_eq(x, y, 8);
    assert(le64(x)[2] == ((x >> ((8 * 2) as u64)) & 0xffu64) as u8);
    assert(le64(y)[2] == ((y >> ((8 * 2) as u64)) & 0xffu64) as u8);
    assert(((8 * 2) as u64) == 16u64);
    lemma_byte_eq(x, y, 16);
    assert(le64(x)[3] == ((x >> ((8 * 3) as u64)) & 0xffu64) as u8);
    assert(le64(y)[3] == ((y >> ((8 * 3) as u64)) & 0xffu64) as u8);
    assert(((8 * 3) as u64) == 24u64);
    lemma_byte_eq(x, y, 24);
    assert(le64(x)[4] == ((x >> ((8 * 4) as u64)) & 0xffu64) as u8);
    assert(le64(y)[4] == ((y >> ((8 * 4) as u64)) & 0xffu64) as u8);
    assert(((8 * 4) as u64) == 32u64);
    lemma_byte_eq(x, y, 32);
    assert(le64(x)[5] == ((x >> ((8 * 5) as u64)) & 0xffu64) as u8);
    assert(le64(y)[5] == ((y >> ((8 * 5) as u64)) & 0xffu64) as u8);
    assert(((8 * 5) as u64) == 40u64);
    lemma_byte_eq(x, y, 40);
    assert(le64(x)[6] == ((x >> ((8 * 6) as u64)) & 0xffu64) as u8);
    assert(le64(y)[6] == ((y >> ((8 * 6) as u64)) & 0xffu64) as u8);
    assert(((8 * 6) as u64) == 48u64);
    lemma_byte_eq(x, y, 48);
    assert(le64(x)[7] == ((x >> ((8 * 7) as u64)) & 0xffu64) as u8);
    assert(le64(y)[7] == ((y >> ((8 * 7) as u64)) & 0xffu64) as u8);
    assert(((8 * 7) as u64) == 56u64);
    lemma_byte_eq(x, y, 56);
    assert(((x >> 0u64) & 0xffu64) == ((y >> 0u64) & 0xffu64) && ((x >> 8u64) & 0xffu64) == ((y >> 8u64) & 0xffu64)
        && ((x >> 16u64) & 0xffu64) == ((y >> 16u64) & 0xffu64) && ((x >> 24u64) & 0xffu64) == ((y >> 24u64) & 0xffu64)
        && ((x >> 32u64) & 0xffu64) == ((y >> 32u64) & 0xffu64) && ((x >> 40u64) & 0xffu64) == ((y >> 40u64) & 0xffu64)
        && ((x >> 48u64) & 0xffu64) == ((y >> 48u64) & 0xffu64) && ((x >> 56u64) & 0xffu64) == ((y >> 56u64) & 0xffu64)
        ==> x == y) by (bit_vector);
}

/// The UTF-8 form of every text of the list has a length that its prefix can hold.
pub open spec fn fits(v: Seq<Seq<char>>) -> bool {
    forall|i: int| 0 <= i < v.len() ==> encode_utf8(#[trigger] v[i]).len() <= u64::MAX
}

/// The items of a list encode as the first item, then the rest.
proof fn lemma_items_front(v: Seq<Seq<char>>)
    requires
        v.len() > 0,
    ensures
        enc_str_items(v) == enc_str(v[0]) + enc_str_items(v.drop_first()),
    decreases v.len(),
{
    if v.len() == 1 {
        assert(v.drop_last() =~= Seq::<Seq<char>>::empty());
        assert(v.drop_first() =~= Seq::<Seq<char>>::empty());
        assert(enc_str_items(v) =~= enc_str(v[0]) + enc_str_items(v.drop_first()));
    } else {
        lemma_items_front(v.drop_last());
        assert(v.drop_last().drop_first() =~= v.drop_first().drop_last());
        assert(v.drop_first().last() == v.last());
        assert(enc_str_items(v) =~= enc_str(v[0]) + enc_str_items(v.drop_first()));
    }
}

/// Eight bytes of length, then the rest: the value and the rest are read back.
pub proof fn lemma_u64_prefix(x: u64, y: u64, r1: Seq<u8>, r2: Seq<u8>)
    requires
        le64(x) + r1 == le64(y) + r2,
    ensures
        x == y,
        r1 == r2,
{
    assert((le64(x) + r1).subrange(0, 8) =~= le64(x));
    assert((le64(y) + r2).subrange(0, 8) =~= le64(y));
    lemma_le64_injective(x, y);
    assert((le64(x) + r1).subrange(8, (le64(x) + r1).len() as int) =~= r1);
    assert((le64(y) + r2).subrange(8, (le64(y) + r2).len() as int) =~= r2);
}

/// One byte, then the rest.
pub proof fn lemma_byte_prefix(a: u8, b: u8, r1: Seq<u8>, r2: Seq<u8>)
    requires
        seq![a] + r1 == seq![b] + r2,
    ensures
        a == b,
        r1 == r2,
{
    assert((seq![a] + r1)[0] == a);
    assert((seq![b] + r2)[0] == b);
    assert((seq![a] + r1).subrange(1, (seq![a] + r1).len() as int) =~= r1);
    assert((seq![b] + r2).subrange(1, (seq![b] + r2).len() as int) =~= r2);
}

/// An encoded text, then the rest.
pub proof fn lemma_str_prefix(a: Seq<char>, b: Seq<char>, r1: Seq<u8>, r2: Seq<u8>)
    requires
        enc_str(a) + r1 == enc_str(b) + r2,
        encode_utf8(a).len() <= u64::MAX,
        encode_utf8(b).len() <= u64::MAX,
    ensures
        a == b,
        r1 == r2,
{
    broadcast use vstd::utf8::encode_utf8_decode_utf8;
    let ba = encode_utf8(a);
    let bb = encode_utf8(b);
    assert(enc_str(a) + r1 == le64(ba.len() as u64) + (ba + r1));
    assert(enc_str(b) + r2 == le64(bb.len() as u64) + (bb + r2));
    lemma_u64_prefix(ba.len() as u64, bb.len() as u64, ba + r1, bb + r2);
    assert((ba + r1).subrange(0, ba.len() as int) =~= ba);
    assert((bb + r2).subrange(0, ba.len() as int) =~= bb);
    assert(decode_utf8(ba) == a);
    assert(decode_utf8(bb) == b);
    assert((ba + r1).subrange(ba.len() as int, (ba + r1).len() as int) =~= r1);
    assert((bb + r2).subrange(ba.len() as int, (ba + r1).len() as int) =~= r2);
}

/// The encoded items of two lists of one length, then the rest.
pub proof fn lemma_items_prefix(v: Seq<Seq<char>>, w: Seq<Seq<char>>, r1: Seq<u8>, r2: Seq<u8>)
    requires
        v.len() == w.len(),
        enc_str_items(v) + r1 == enc_str_items(w) + r2,
        fits(v),
        fits(w),
    ensures
        v == w,
        r1 == r2,
    decreases v.len(),
{
    if v.len() == 0 {
        assert(v =~= w);
        assert(enc_str_items(v) + r1 =~= r1);
        assert(enc_str_items(w) + r2 =~= r2);
    } else {
        lemma_items_front(v);
        lemma_items_front(w);
        let dv = v.drop_first();
        let dw = w.drop_first();
        assert(enc_str(v[0]) + (enc_str_items(dv) + r1) =~= enc_str_items(v) + r1);
        assert(enc_str(w[0]) + (enc_str_items(dw) + r2) =~= enc_str_items(w) + r2);
        lemma_str_prefix(v[0], w[0], enc_str_items(dv) + r1, enc_str_items(dw) + r2);
        assert(fits(dv) && fits(dw)) by {
            assert forall|i: int| 0 <= i < dv.len() implies encode_utf8(#[trigger] dv[i]).len() <= u64::MAX by {
                assert(dv[i] == v[i + 1]);
            }
            assert forall|i: int| 0 <= i < dw.len() implies encode_utf8(#[trigger] dw[i]).len() <= u64::MAX by {
                assert(dw[i] == w[i + 1]);
            }
        }
        lemma_items_prefix(dv, dw, r1, r2);
        assert(v =~= seq![v[0]] + dv);
        assert(w =~= seq![w[0]] + dw);
    }
}

/// An encoded list of texts, then the rest.
pub proof fn lemma_strs_prefix(v: Seq<Seq<char>>, w: Seq<Seq<char>>, r1: Seq<u8>, r2: Seq<u8>)
    requires
        enc_strs(v) + r1 == enc_strs(w) + r2,
        v.len() <= u64::MAX,
        w.len() <= u64::MAX,
        fits(v),
        fits(w),
    ensures
        v == w,
        r1 == r2,
{
    assert(enc_strs(v) + r1 =~= le64(v.len() as u64) + (enc_str_items(v) + r1));
    assert(enc_strs(w) + r2 =~= le64(w.len() as u64) + (enc_str_items(w) + r2));
    lemma_u64_prefix(v.len() as u64, w.len() as u64, enc_str_items(v) + r1, enc_str_items(w) + r2);
    lemma_items_prefix(v, w, r1, r2);
}

/// The SHA3-256 digest of a byte string.
pub uninterp spec fn sha3_256_of(b: Seq<u8>) -> Seq<u8>;

/// Relies on sha3's `Sha3_256::digest`: the 32-byte SHA3-256 digest of the input.
#[verifier::external_body]
fn sha3_256(b: &Vec<u8>) -> (r: Vec<u8>)
    ensures
        r@ == sha3_256_of(b@),
        r@.len() == 32,
{
    sha3::Sha3_256::digest(b.as_slice()).to_vec()
}

/// Relies on hex's `encode`: two lowercase digits per byte, in order.
#[verifier::external_body]
fn to_hex(b: &Vec<u8>) -> (r: String)
    ensures
        r@ == hex_of(b@),
{
    hex::encode(b)
}

/// The lowercase hex SHA3-256 digest of `b`.
pub fn digest_hex(b: &Vec<u8>) -> (r: String)
    ensures
        r@ == hex_of(sha3_256_of(b@)),
        r@.len() == 64,
{
    let d = sha3_256(b);
    proof {
        lemma_hex_len(d@);
    }
    to_hex(&d)
}

/// Two characters per byte.
pub proof fn lemma_hex_len(b: Seq<u8>)
    ensures
        hex_of(b).len() == 2 * b.len(),
    decreases b.len(),
{
    if b.len() > 0 {
        lemma_hex_len(b.drop_last());
    }
}

pub fn push_u64(out: &mut Vec<u8>, x: u64)
    ensures
        final(out)@ == old(out)@ + le64(x),
{
    let ghost start = out@;
    let mut k: u64 = 0;
    while k < 8
        invariant
            0 <= k <= 8,
            out@.len() == start.len() + k,
            forall|i: int| 0 <= i < start.len() ==> #[trigger] out@[i] == start[i],
            forall|i: int| 0 <= i < k ==> #[trigger] out@[start.len() + i] == le64(x)[i],
        decreases 8 - k,
    {
        out.push(((x >> (8 * k)) & 0xff) as u8);
        k += 1;
    }
    assert forall|i: int| 0 <= i < out@.len() implies #[trigger] out@[i] == (start + le64(x))[i] by {
        if i >= start.len() {
            assert(out@[start.len() + (i - start.len())] == le64(x)[i - start.len()]);
        }
    }
    assert(out@ =~= start + le64(x));
}

pub fn push_bool(out: &mut Vec<u8>, b: bool)
    ensures
        final(out)@ == old(out)@ + enc_bool(b),
{
    out.push(if b { 1u8 } else { 0u8 });
    assert(out@ =~= old(out)@ + enc_bool(b));
}

pub fn push_str(out: &mut Vec<u8>, s: &String)
    ensures
        final(out)@ == old(out)@ + enc_str(s@),
{
    let b = s.as_str().as_bytes();
    push_u64(out, b.len() as u64);
    out.extend_from_slice(b);
}

pub fn push_strs(out: &mut Vec<u8>, v: &Vec<String>)
    ensures
        final(out)@ == old(out)@ + enc_strs(v@.map_values(|s: String| s@)),
{
    let ghost start = out@;
    let ghost tv = v@.map_values(|s: String| s@);
    push_u64(out, v.len() as u64);
    let mut k: usize = 0;
    while k < v.len()
        invariant
            tv == v@.map_values(|s: String| s@),
            0 <= k <= v@.len(),
            out@ == start + le64(v@.len() as u64) + enc_str_items(tv.subrange(0, k as int)),
        decreases v@.len() - k,
    {
        push_str(out, &v[k]);
        proof {
            assert(tv.subrange(0, k + 1).drop_last() =~= tv.subrange(0, k as int));
        }
        k += 1;
    }
    assert(tv.subrange(0, v@.len() as int) =~= tv);
    assert(out@ =~= start + enc_strs(tv));
}

} // verus!
