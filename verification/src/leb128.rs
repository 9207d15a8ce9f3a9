//! LEB128 variable-length integers, as used by every length, index and
//! integer value on the wire.
//!
//! Encoding goes through `wasm_tokio`'s `put_*_leb128` functions; decoding is
//! written here against the statement of what those decoders accept: at most
//! `n` bytes, the `n`-th of which must not exceed a bound that keeps the value
//! within the integer's width. Non-minimal encodings are accepted, exactly as
//! `wasm_tokio`'s decoders accept them.

use vstd::prelude::*;

verus! {

/// `128^k`
pub open spec fn pow128(k: nat) -> nat
    decreases k,
{
    if k == 0 {
        1
    } else {
        128 * pow128((k - 1) as nat)
    }
}

/// Minimal unsigned LEB128 encoding of `v`: seven bits per byte, least
/// significant group first, the high bit set on every byte but the last.
pub open spec fn uleb(v: nat) -> Seq<u8>
    decreases v,
{
    if v < 128 {
        seq![v as u8]
    } else {
        seq![(v % 128 + 128) as u8] + uleb(v / 128)
    }
}

/// Outcome of reading an unsigned varint from a byte sequence.
pub enum UlebRead {
    /// The input ends before the last byte of the varint.
    Incomplete,
    /// The varint does not fit in the integer being read.
    Overflow,
    /// The varint holds `value` and ends just before index `end`.
    Done(nat, nat),
}

/// Reads an unsigned varint whose next byte is `s[k]`, `c` bytes of it having
/// been read already. The varint is at most `n` bytes long and its `n`-th
/// byte must not exceed `m`.
pub open spec fn uleb_read(s: Seq<u8>, k: nat, c: nat, n: nat, m: nat) -> UlebRead
    decreases n - c,
{
    if c >= n {
        UlebRead::Overflow
    } else if k >= s.len() {
        UlebRead::Incomplete
    } else {
        let b = s[k as int];
        if c + 1 == n && b > m {
            UlebRead::Overflow
        } else if b < 128 {
            UlebRead::Done(b as nat, k + 1)
        } else {
            match uleb_read(s, k + 1, c + 1, n, m) {
                UlebRead::Done(v, e) => UlebRead::Done((b - 128) as nat + 128 * v, e),
                r => r,
            }
        }
    }
}

/// Reading a `u8` varint: at most 2 bytes, the last one at most 1.
pub open spec fn read_u8_spec(s: Seq<u8>, k: nat) -> UlebRead {
    uleb_read(s, k, 0, 2, 1)
}

/// Reading a `u16` varint: at most 3 bytes, the last one at most 3.
pub open spec fn read_u16_spec(s: Seq<u8>, k: nat) -> UlebRead {
    uleb_read(s, k, 0, 3, 3)
}

/// Reading a `u32` varint: at most 5 bytes, the last one at most 15.
pub open spec fn read_u32_spec(s: Seq<u8>, k: nat) -> UlebRead {
    uleb_read(s, k, 0, 5, 15)
}

/// Reading a `u64` varint: at most 10 bytes, the last one at most 1.
pub open spec fn read_u64_spec(s: Seq<u8>, k: nat) -> UlebRead {
    uleb_read(s, k, 0, 10, 1)
}

/// Executable outcome of reading a varint.
#[derive(Debug, Clone, Copy, PartialEq, Eq)]
pub enum Varint {
    /// The input ends before the last byte of the varint.
    Incomplete,
    /// The varint does not fit in the integer being read.
    Overflow,
    /// The varint holds `value` and the bytes after it start at `end`.
    Value { value: u64, end: usize },
}

impl Varint {
    /// Whether this outcome is the one that `spec` describes.
    pub open spec fn is_read(self, spec: UlebRead) -> bool {
        match spec {
            UlebRead::Incomplete => self is Incomplete,
            UlebRead::Overflow => self is Overflow,
            UlebRead::Done(v, e) => self matches Varint::Value { value, end } && value == v && end
                == e,
        }
    }
}

/// The powers of 128 that bound the integer widths read here.
pub proof fn lemma_pow128_values()
    ensures
        pow128(0) == 1,
        pow128(1) == 128,
        pow128(2) == 16384,
        pow128(4) == 0x1000_0000,
        pow128(9) == 0x80_0000_0000_0000_00,
{
    assert(pow128(0) == 1);
    assert(pow128(1) == 128);
    assert(pow128(2) == 16384);
    assert(pow128(3) == 2097152);
    assert(pow128(4) == 0x1000_0000);
    assert(pow128(5) == 0x8_0000_0000);
    assert(pow128(6) == 0x400_0000_0000);
    assert(pow128(7) == 0x2_0000_0000_0000);
    assert(pow128(8) == 0x100_0000_0000_0000);
    assert(pow128(9) == 0x80_0000_0000_0000_00);
}

pub proof fn lemma_pow128_positive(k: nat)
    ensures
        pow128(k) >= 1,
    decreases k,
{
    if k > 0 {
        lemma_pow128_positive((k - 1) as nat);
    }
}

/// A decoded varint lies within the bound set by its width, and occupies
/// at least one and at most `n - c` bytes of the input.
pub proof fn lemma_uleb_read_bound(s: Seq<u8>, k: nat, c: nat, n: nat, m: nat)
    requires
        m < 128,
    ensures
        uleb_read(s, k, c, n, m) matches UlebRead::Done(v, e) ==> {
            &&& c < n
            &&& v < (m + 1) * pow128((n - 1 - c) as nat)
            &&& k < e <= s.len()
            &&& e <= k + (n - c)
        },
    decreases n - c,
{
    if c < n && k < s.len() {
        let b = s[k as int];
        if !(c + 1 == n && b > m) && b >= 128 {
            lemma_uleb_read_bound(s, k + 1, c + 1, n, m);
            if let UlebRead::Done(v, e) = uleb_read(s, k + 1, c + 1, n, m) {
                let p = pow128((n - 2 - c) as nat);
                assert(pow128((n - 1 - c) as nat) == 128 * p);
                assert((b - 128) as nat + 128 * v < (m + 1) * (128 * p)) by (nonlinear_arith)
                    requires
                        v < (m + 1) * p,
                        b < 256,
                        b >= 128,
                ;
            }
        } else if b < 128 && !(c + 1 == n && b > m) {
            lemma_pow128_positive((n - 1 - c) as nat);
            if c + 1 < n {
                assert(pow128((n - 1 - c) as nat) == 128 * pow128((n - 2 - c) as nat));
                lemma_pow128_positive((n - 2 - c) as nat);
            }
            if c + 1 == n {
                assert(pow128((n - 1 - c) as nat) == 1);
            }
            assert(b < (m + 1) * pow128((n - 1 - c) as nat)) by (nonlinear_arith)
                requires
                    pow128((n - 1 - c) as nat) >= 1,
                    c + 1 == n ==> pow128((n - 1 - c) as nat) == 1,
                    c < n,
                    c + 1 < n ==> pow128((n - 1 - c) as nat) >= 128,
                    c + 1 == n ==> b <= m,
                    b < 128,
            ;
        }
    }
}

/// Once a varint is decided (read or refused), more input behind it does not
/// change the outcome.
pub proof fn lemma_uleb_read_extend(s: Seq<u8>, t: Seq<u8>, k: nat, c: nat, n: nat, m: nat)
    requires
        !(uleb_read(s, k, c, n, m) is Incomplete),
    ensures
        uleb_read(s + t, k, c, n, m) == uleb_read(s, k, c, n, m),
    decreases n - c,
{
    if c < n && k < s.len() {
        assert((s + t)[k as int] == s[k as int]);
        let b = s[k as int];
        if !(c + 1 == n && b > m) && b >= 128 {
            lemma_uleb_read_extend(s, t, k + 1, c + 1, n, m);
        }
    }
}

/// A varint read from a sequence reads the same from any prefix that still
/// holds all of its bytes.
pub proof fn lemma_uleb_read_truncate(t: Seq<u8>, k: nat, c: nat, n: nat, m: nat, l: nat)
    requires
        uleb_read(t, k, c, n, m) matches UlebRead::Done(_, e) && e <= l,
        l <= t.len(),
    ensures
        uleb_read(t.subrange(0, l as int), k, c, n, m) == uleb_read(t, k, c, n, m),
    decreases n - c,
{
    let u = t.subrange(0, l as int);
    if c < n && k < t.len() {
        let b = t[k as int];
        if !(c + 1 == n && b > m) && b >= 128 {
            lemma_uleb_read_truncate(t, k + 1, c + 1, n, m, l);
        }
        assert(k < l);
        assert(u[k as int] == b);
    }
}

/// A varint read from a prefix that stops inside its bytes is incomplete.
pub proof fn lemma_uleb_read_cut(t: Seq<u8>, k: nat, c: nat, n: nat, m: nat, l: nat)
    requires
        uleb_read(t, k, c, n, m) matches UlebRead::Done(_, e) && k <= l < e,
        l <= t.len(),
    ensures
        uleb_read(t.subrange(0, l as int), k, c, n, m) is Incomplete,
    decreases n - c,
{
    let u = t.subrange(0, l as int);
    if k < l {
        assert(u[k as int] == t[k as int]);
        lemma_uleb_read_cut(t, k + 1, c + 1, n, m, l);
    }
}

/// Moves the outcome of a read by `d` bytes.
pub open spec fn uleb_shift(r: UlebRead, d: nat) -> UlebRead {
    match r {
        UlebRead::Done(v, e) => UlebRead::Done(v, e + d),
        r => r,
    }
}

/// Bytes before the varint only move where it ends.
pub proof fn lemma_uleb_read_shift(p: Seq<u8>, s: Seq<u8>, k: nat, c: nat, n: nat, m: nat)
    ensures
        uleb_read(p + s, p.len() + k, c, n, m) == uleb_shift(uleb_read(s, k, c, n, m), p.len()),
    decreases n - c,
{
    if c < n && k < s.len() {
        assert((p + s)[(p.len() + k) as int] == s[k as int]);
        let b = s[k as int];
        if !(c + 1 == n && b > m) && b >= 128 {
            lemma_uleb_read_shift(p, s, k + 1, c + 1, n, m);
            assert(p.len() + k + 1 == p.len() + (k + 1));
        }
    }
}

/// A varint read looks at no byte past the first `n - c` from `k`.
proof fn lemma_uleb_read_window(s: Seq<u8>, k: nat, c: nat, n: nat, m: nat, j: nat)
    requires
        j <= s.len(),
        j >= k + (n - c) || j == s.len(),
    ensures
        uleb_read(s.subrange(0, j as int), k, c, n, m) == uleb_read(s, k, c, n, m),
    decreases n - c,
{
    let u = s.subrange(0, j as int);
    if c < n && k < j {
        assert(u[k as int] == s[k as int]);
        lemma_uleb_read_window(s, k + 1, c + 1, n, m, j);
    }
}

/// Reading at `k` is reading the bytes from `k` on, at most `n` of them, and
/// moving where the varint ends by `k`.
proof fn lemma_uleb_read_at(s: Seq<u8>, k: nat, n: nat, m: nat, j: nat)
    requires
        k <= j <= s.len(),
        j == k + n || j == s.len(),
    ensures
        uleb_read(s, k, 0, n, m) == uleb_shift(uleb_read(s.subrange(k as int, j as int), 0, 0, n, m), k),
{
    lemma_uleb_read_window(s, k, 0, n, m, j);
    let p = s.subrange(0, k as int);
    let w = s.subrange(k as int, j as int);
    assert(s.subrange(0, j as int) =~= p + w);
    lemma_uleb_read_shift(p, w, 0, 0, n, m);
}

/// The minimal encoding of any value within the width reads back as that
/// value, whatever precedes or follows it.
pub proof fn lemma_uleb_roundtrip(p: Seq<u8>, v: nat, t: Seq<u8>, c: nat, n: nat, m: nat)
    requires
        m < 128,
        c < n,
        v < (m + 1) * pow128((n - 1 - c) as nat),
    ensures
        uleb_read(p + uleb(v) + t, p.len(), c, n, m) == UlebRead::Done(v, p.len() + uleb(v).len()),
    decreases v,
{
    let s = p + uleb(v) + t;
    assert(s[p.len() as int] == uleb(v)[0]);
    if v < 128 {
        if c + 1 == n {
            assert(pow128((n - 1 - c) as nat) == 1);
            assert((m + 1) * pow128((n - 1 - c) as nat) == m + 1) by (nonlinear_arith)
                requires pow128((n - 1 - c) as nat) == 1;
            assert(v <= m);
        }
    } else {
        if c + 1 == n {
            assert(pow128((n - 1 - c) as nat) == 1);
            assert((m + 1) * pow128((n - 1 - c) as nat) == m + 1) by (nonlinear_arith)
                requires pow128((n - 1 - c) as nat) == 1;
            assert(v < m + 1);
            assert(false);
        }
        let q = v / 128;
        let p2 = p + seq![(v % 128 + 128) as u8];
        let pw = pow128((n - 2 - c) as nat);
        assert(pow128((n - 1 - c) as nat) == 128 * pw);
        assert(q < (m + 1) * pw) by (nonlinear_arith)
            requires
                v < (m + 1) * (128 * pw),
                q == v / 128,
        ;
        lemma_uleb_roundtrip(p2, q, t, c + 1, n, m);
        assert(p2 + uleb(q) + t =~= s);
        assert(uleb(v).len() == 1 + uleb(q).len());
    }
}

/// Reads a varint that must fit in a `u8`, with `wasm_tokio`'s `Leb128DecoderU8`.
pub fn read_u8(src: &[u8], k: usize) -> (r: Varint)
    ensures
        r.is_read(read_u8_spec(src@, k as nat)),
        r matches Varint::Value { value, .. } ==> value <= u8::MAX,
{
    if k >= src.len() {
        return Varint::Incomplete;
    }
    let (w, j) = window(src, k, 2);
    proof {
        lemma_uleb_read_at(src@, k as nat, 2, 1, j as nat);
        lemma_uleb_read_bound(w@, 0, 0, 2, 1);
        lemma_pow128_values();
        assert(pow128((2 - 1 - 0) as nat) == 128);
    }
    match decode_u8(w) {
        None => Varint::Overflow,
        Some(None) => Varint::Incomplete,
        Some(Some((value, rest))) => Varint::Value { value: value as u64, end: j - rest },
    }
}

/// `wasm_tokio::Leb128DecoderU8::decode` on `src`: it reads the varint at
/// the start of `src` as `read_u8_spec` does (at most two bytes, the second at most 1), giving `None` when
/// it refuses it, `Some(None)` when it waits for more input, and else the
/// value with the number of bytes of `src` left after it.
#[verifier::external_body]
fn decode_u8(src: &[u8]) -> (r: Option<Option<(u8, usize)>>)
    ensures
        match read_u8_spec(src@, 0) {
            UlebRead::Incomplete => r == Some(None::<(u8, usize)>),
            UlebRead::Overflow => r is None,
            UlebRead::Done(v, e) => r == Some(Some((v as u8, (src@.len() - e) as usize))),
        },
{
    let mut buf = bytes::BytesMut::from(src);
    match tokio_util::codec::Decoder::decode(&mut wasm_tokio::Leb128DecoderU8, &mut buf) {
        Ok(Some(v)) => Some(Some((v, buf.len()))),
        Ok(None) => Some(None),
        Err(_) => None,
    }
}

/// Reads a varint that must fit in a `u16`, with `wasm_tokio`'s `Leb128DecoderU16`.
pub fn read_u16(src: &[u8], k: usize) -> (r: Varint)
    ensures
        r.is_read(read_u16_spec(src@, k as nat)),
        r matches Varint::Value { value, .. } ==> value <= u16::MAX,
{
    if k >= src.len() {
        return Varint::Incomplete;
    }
    let (w, j) = window(src, k, 3);
    proof {
        lemma_uleb_read_at(src@, k as nat, 3, 3, j as nat);
        lemma_uleb_read_bound(w@, 0, 0, 3, 3);
        lemma_pow128_values();
        assert(pow128((3 - 1 - 0) as nat) == 16384);
    }
    match decode_u16(w) {
        None => Varint::Overflow,
        Some(None) => Varint::Incomplete,
        Some(Some((value, rest))) => Varint::Value { value: value as u64, end: j - rest },
    }
}

/// `wasm_tokio::Leb128DecoderU16::decode` on `src`: it reads the varint at
/// the start of `src` as `read_u16_spec` does (at most three bytes, the third at most 3), giving `None` when
/// it refuses it, `Some(None)` when it waits for more input, and else the
/// value with the number of bytes of `src` left after it.
#[verifier::external_body]
fn decode_u16(src: &[u8]) -> (r: Option<Option<(u16, usize)>>)
    ensures
        match read_u16_spec(src@, 0) {
            UlebRead::Incomplete => r == Some(None::<(u16, usize)>),
            UlebRead::Overflow => r is None,
            UlebRead::Done(v, e) => r == Some(Some((v as u16, (src@.len() - e) as usize))),
        },
{
    let mut buf = bytes::BytesMut::from(src);
    match tokio_util::codec::Decoder::decode(&mut wasm_tokio::Leb128DecoderU16, &mut buf) {
        Ok(Some(v)) => Some(Some((v, buf.len()))),
        Ok(None) => Some(None),
        Err(_) => None,
    }
}

/// Reads a varint that must fit in a `u32`, with `wasm_tokio`'s `Leb128DecoderU32`.
pub fn read_u32(src: &[u8], k: usize) -> (r: Varint)
    ensures
        r.is_read(read_u32_spec(src@, k as nat)),
        r matches Varint::Value { value, .. } ==> value <= u32::MAX,
{
    if k >= src.len() {
        return Varint::Incomplete;
    }
    let (w, j) = window(src, k, 5);
    proof {
        lemma_uleb_read_at(src@, k as nat, 5, 15, j as nat);
        lemma_uleb_read_bound(w@, 0, 0, 5, 15);
        lemma_pow128_values();
        assert(pow128((5 - 1 - 0) as nat) == 0x1000_0000);
    }
    match decode_u32(w) {
        None => Varint::Overflow,
        Some(None) => Varint::Incomplete,
        Some(Some((value, rest))) => Varint::Value { value: value as u64, end: j - rest },
    }
}

/// `wasm_tokio::Leb128DecoderU32::decode` on `src`: it reads the varint at
/// the start of `src` as `read_u32_spec` does (at most five bytes, the fifth at most 15), giving `None` when
/// it refuses it, `Some(None)` when it waits for more input, and else the
/// value with the number of bytes of `src` left after it.
#[verifier::external_body]
fn decode_u32(src: &[u8]) -> (r: Option<Option<(u32, usize)>>)
    ensures
        match read_u32_spec(src@, 0) {
            UlebRead::Incomplete => r == Some(None::<(u32, usize)>),
            UlebRead::Overflow => r is None,
            UlebRead::Done(v, e) => r == Some(Some((v as u32, (src@.len() - e) as usize))),
        },
{
    let mut buf = bytes::BytesMut::from(src);
    match tokio_util::codec::Decoder::decode(&mut wasm_tokio::Leb128DecoderU32, &mut buf) {
        Ok(Some(v)) => Some(Some((v, buf.len()))),
        Ok(None) => Some(None),
        Err(_) => None,
    }
}

/// Reads a varint that must fit in a `u64`, with `wasm_tokio`'s `Leb128DecoderU64`.
pub fn read_u64(src: &[u8], k: usize) -> (r: Varint)
    ensures
        r.is_read(read_u64_spec(src@, k as nat)),
{
    if k >= src.len() {
        return Varint::Incomplete;
    }
    let (w, j) = window(src, k, 10);
    proof {
        lemma_uleb_read_at(src@, k as nat, 10, 1, j as nat);
        lemma_uleb_read_bound(w@, 0, 0, 10, 1);
        lemma_pow128_values();
        assert(pow128((10 - 1 - 0) as nat) == 0x80_0000_0000_0000_00);
    }
    match decode_u64(w) {
        None => Varint::Overflow,
        Some(None) => Varint::Incomplete,
        Some(Some((value, rest))) => Varint::Value { value: value as u64, end: j - rest },
    }
}

/// `wasm_tokio::Leb128DecoderU64::decode` on `src`: it reads the varint at
/// the start of `src` as `read_u64_spec` does (at most ten bytes, the tenth at most 1), giving `None` when
/// it refuses it, `Some(None)` when it waits for more input, and else the
/// value with the number of bytes of `src` left after it.
#[verifier::external_body]
fn decode_u64(src: &[u8]) -> (r: Option<Option<(u64, usize)>>)
    ensures
        match read_u64_spec(src@, 0) {
            UlebRead::Incomplete => r == Some(None::<(u64, usize)>),
            UlebRead::Overflow => r is None,
            UlebRead::Done(v, e) => r == Some(Some((v as u64, (src@.len() - e) as usize))),
        },
{
    let mut buf = bytes::BytesMut::from(src);
    match tokio_util::codec::Decoder::decode(&mut wasm_tokio::Leb128DecoderU64, &mut buf) {
        Ok(Some(v)) => Some(Some((v, buf.len()))),
        Ok(None) => Some(None),
        Err(_) => None,
    }
}

/// `wasm_tokio::put_u32_leb128`: the minimal unsigned LEB128 encoding of `x`.
#[verifier::external_body]
pub(crate) fn uleb_u32(x: u32) -> (r: Vec<u8>)
    ensures
        r@ == uleb(x as nat),
{
    let mut buf = [0u8; 5];
    wasm_tokio::put_u32_leb128(&mut buf, x).to_vec()
}

/// `wasm_tokio::put_u64_leb128`: the minimal unsigned LEB128 encoding of `x`.
#[verifier::external_body]
pub(crate) fn uleb_u64(x: u64) -> (r: Vec<u8>)
    ensures
        r@ == uleb(x as nat),
{
    let mut buf = [0u8; 10];
    wasm_tokio::put_u64_leb128(&mut buf, x).to_vec()
}

/// Appends the LEB128 encoding of a `u32` to `dst`.
pub fn write_u32(x: u32, dst: &mut Vec<u8>)
    ensures
        final(dst)@ == old(dst)@ + uleb(x as nat),
{
    let mut b = uleb_u32(x);
    dst.append(&mut b);
}

/// Appends the LEB128 encoding of a `u64` to `dst`.
pub fn write_u64(x: u64, dst: &mut Vec<u8>)
    ensures
        final(dst)@ == old(dst)@ + uleb(x as nat),
{
    let mut b = uleb_u64(x);
    dst.append(&mut b);
}

/// Any `u16` written reads back as a `u16` varint.
pub proof fn lemma_u16_roundtrip(p: Seq<u8>, x: u16, t: Seq<u8>)
    ensures
        read_u16_spec(p + uleb(x as nat) + t, p.len()) == UlebRead::Done(
            x as nat,
            p.len() + uleb(x as nat).len(),
        ),
{
    lemma_pow128_values();
    assert(pow128((3 - 1 - 0) as nat) == 16384);
    lemma_uleb_roundtrip(p, x as nat, t, 0, 3, 3);
}

/// Any `u32` written reads back as a `u32` varint.
pub proof fn lemma_u32_roundtrip(p: Seq<u8>, x: u32, t: Seq<u8>)
    ensures
        read_u32_spec(p + uleb(x as nat) + t, p.len()) == UlebRead::Done(
            x as nat,
            p.len() + uleb(x as nat).len(),
        ),
{
    lemma_pow128_values();
    assert(pow128((5 - 1 - 0) as nat) == 0x1000_0000);
    lemma_uleb_roundtrip(p, x as nat, t, 0, 5, 15);
}

/// Any `u64` written reads back as a `u64` varint.
pub proof fn lemma_u64_roundtrip(p: Seq<u8>, x: u64, t: Seq<u8>)
    ensures
        read_u64_spec(p + uleb(x as nat) + t, p.len()) == UlebRead::Done(
            x as nat,
            p.len() + uleb(x as nat).len(),
        ),
{
    lemma_pow128_values();
    assert(pow128((10 - 1 - 0) as nat) == 0x80_0000_0000_0000_00);
    lemma_uleb_roundtrip(p, x as nat, t, 0, 10, 1);
}

/// Minimal signed LEB128 encoding of `v`: seven bits per byte, least
/// significant group first, until the rest is the sign extension of the last
/// group written.
pub open spec fn sleb(v: int) -> Seq<u8>
    decreases (if v < 0 { -v } else { v }),
{
    let low = v % 128;
    let rest = v / 128;
    if (rest == 0 && low < 64) || (rest == -1 && low >= 64) {
        seq![low as u8]
    } else {
        seq![(low + 128) as u8] + sleb(rest)
    }
}

/// Outcome of reading a signed varint.
pub enum SlebRead {
    /// The input ends before the last byte of the varint.
    Incomplete,
    /// The varint does not fit in the integer being read.
    Overflow,
    /// The varint holds the value and ends just before the index.
    Done(int, nat),
}

/// Reads a signed varint whose next byte is `s[k]`, `c` bytes of it having
/// been read already. The varint is at most `n` bytes long and its `n`-th
/// byte must be at most `lo` or at least `hi` (and below 128): the bits
/// beyond the integer's width must repeat its sign bit.
pub open spec fn sleb_read(s: Seq<u8>, k: nat, c: nat, n: nat, lo: nat, hi: nat) -> SlebRead
    decreases n - c,
{
    if c >= n {
        SlebRead::Overflow
    } else if k >= s.len() {
        SlebRead::Incomplete
    } else {
        let b = s[k as int];
        if c + 1 == n && !(b <= lo || (hi <= b && b < 128)) {
            SlebRead::Overflow
        } else if b < 128 {
            SlebRead::Done(if b >= 64 { b - 128 } else { b as int }, k + 1)
        } else {
            match sleb_read(s, k + 1, c + 1, n, lo, hi) {
                SlebRead::Done(v, e) => SlebRead::Done((b - 128) + 128 * v, e),
                r => r,
            }
        }
    }
}

/// Reading an `i16` varint: at most 3 bytes.
pub open spec fn read_i16_spec(s: Seq<u8>, k: nat) -> SlebRead {
    sleb_read(s, k, 0, 3, 1, 126)
}

/// Reading an `i32` varint: at most 5 bytes.
pub open spec fn read_i32_spec(s: Seq<u8>, k: nat) -> SlebRead {
    sleb_read(s, k, 0, 5, 7, 120)
}

/// Reading an `i64` varint: at most 10 bytes.
pub open spec fn read_i64_spec(s: Seq<u8>, k: nat) -> SlebRead {
    sleb_read(s, k, 0, 10, 0, 127)
}

/// Executable outcome of reading a signed varint.
#[derive(Debug, Clone, Copy, PartialEq, Eq)]
pub enum Svarint {
    /// The input ends before the last byte of the varint.
    Incomplete,
    /// The varint does not fit in the integer being read.
    Overflow,
    /// The varint holds `value` and the bytes after it start at `end`.
    Value { value: i64, end: usize },
}

impl Svarint {
    /// Whether this outcome is the one that `spec` describes.
    pub open spec fn is_read(self, spec: SlebRead) -> bool {
        match spec {
            SlebRead::Incomplete => self is Incomplete,
            SlebRead::Overflow => self is Overflow,
            SlebRead::Done(v, e) => self matches Svarint::Value { value, end } && value == v && end
                == e,
        }
    }
}

/// A decoded signed varint lies within the range set by its width.
pub proof fn lemma_sleb_read_bound(s: Seq<u8>, k: nat, c: nat, n: nat, lo: nat, hi: nat)
    requires
        lo < 64,
        64 <= hi < 128,
    ensures
        sleb_read(s, k, c, n, lo, hi) matches SlebRead::Done(v, e) ==> {
            &&& c < n
            &&& -((128 - hi) * pow128((n - 1 - c) as nat)) <= v < (lo + 1) * pow128((n - 1 - c) as nat)
            &&& k < e <= s.len()
        },
    decreases n - c,
{
    if c < n && k < s.len() {
        let b = s[k as int];
        lemma_pow128_positive((n - 1 - c) as nat);
        if !(c + 1 == n && !(b <= lo || (hi <= b && b < 128))) && b >= 128 {
            lemma_sleb_read_bound(s, k + 1, c + 1, n, lo, hi);
            if let SlebRead::Done(v, e) = sleb_read(s, k + 1, c + 1, n, lo, hi) {
                let p = pow128((n - 2 - c) as nat);
                assert(pow128((n - 1 - c) as nat) == 128 * p);
                assert(-((128 - hi) * (128 * p)) <= (b - 128) + 128 * v < (lo + 1) * (128 * p))
                    by (nonlinear_arith)
                    requires
                        -((128 - hi) * p) <= v < (lo + 1) * p,
                        128 <= b < 256,
                ;
            }
        } else if b < 128 && !(c + 1 == n && !(b <= lo || (hi <= b && b < 128))) {
            if c + 1 < n {
                assert(pow128((n - 1 - c) as nat) == 128 * pow128((n - 2 - c) as nat));
                lemma_pow128_positive((n - 2 - c) as nat);
                assert((128 - hi) * pow128((n - 1 - c) as nat) >= 128) by (nonlinear_arith)
                    requires
                        pow128((n - 1 - c) as nat) >= 128,
                        hi < 128,
                ;
                assert((lo + 1) * pow128((n - 1 - c) as nat) >= 128) by (nonlinear_arith)
                    requires
                        pow128((n - 1 - c) as nat) >= 128,
                ;
            } else {
                assert(pow128((n - 1 - c) as nat) == 1);
            }
        }
    }
}

/// Reads a varint that must fit in an `i16`, with `wasm_tokio`'s `Leb128DecoderI16`.
pub fn read_i16(src: &[u8], k: usize) -> (r: Svarint)
    ensures
        r.is_read(read_i16_spec(src@, k as nat)),
        r matches Svarint::Value { value, .. } ==> i16::MIN <= value <= i16::MAX,
{
    if k >= src.len() {
        return Svarint::Incomplete;
    }
    let (w, j) = window(src, k, 3);
    proof {
        lemma_sleb_read_at(src@, k as nat, 3, 1, 126, j as nat);
        lemma_sleb_read_bound(w@, 0, 0, 3, 1, 126);
        lemma_pow128_values();
        assert(pow128((3 - 1 - 0) as nat) == 16384);
    }
    match decode_i16(w) {
        None => Svarint::Overflow,
        Some(None) => Svarint::Incomplete,
        Some(Some((value, rest))) => Svarint::Value { value: value as i64, end: j - rest },
    }
}

/// `wasm_tokio::Leb128DecoderI16::decode` on `src`: it reads the varint at
/// the start of `src` as `read_i16_spec` does (at most three bytes, the third 0, 1, 126 or 127), giving `None` when
/// it refuses it, `Some(None)` when it waits for more input, and else the
/// value with the number of bytes of `src` left after it.
#[verifier::external_body]
fn decode_i16(src: &[u8]) -> (r: Option<Option<(i16, usize)>>)
    ensures
        match read_i16_spec(src@, 0) {
            SlebRead::Incomplete => r == Some(None::<(i16, usize)>),
            SlebRead::Overflow => r is None,
            SlebRead::Done(v, e) => r == Some(Some((v as i16, (src@.len() - e) as usize))),
        },
{
    let mut buf = bytes::BytesMut::from(src);
    match tokio_util::codec::Decoder::decode(&mut wasm_tokio::Leb128DecoderI16, &mut buf) {
        Ok(Some(v)) => Some(Some((v, buf.len()))),
        Ok(None) => Some(None),
        Err(_) => None,
    }
}

/// Reads a varint that must fit in an `i32`, with `wasm_tokio`'s `Leb128DecoderI32`.
pub fn read_i32(src: &[u8], k: usize) -> (r: Svarint)
    ensures
        r.is_read(read_i32_spec(src@, k as nat)),
        r matches Svarint::Value { value, .. } ==> i32::MIN <= value <= i32::MAX,
{
    if k >= src.len() {
        return Svarint::Incomplete;
    }
    let (w, j) = window(src, k, 5);
    proof {
        lemma_sleb_read_at(src@, k as nat, 5, 7, 120, j as nat);
        lemma_sleb_read_bound(w@, 0, 0, 5, 7, 120);
        lemma_pow128_values();
        assert(pow128((5 - 1 - 0) as nat) == 0x1000_0000);
    }
    match decode_i32(w) {
        None => Svarint::Overflow,
        Some(None) => Svarint::Incomplete,
        Some(Some((value, rest))) => Svarint::Value { value: value as i64, end: j - rest },
    }
}

/// `wasm_tokio::Leb128DecoderI32::decode` on `src`: it reads the varint at
/// the start of `src` as `read_i32_spec` does (at most five bytes, the fifth at most 7 or at least 120), giving `None` when
/// it refuses it, `Some(None)` when it waits for more input, and else the
/// value with the number of bytes of `src` left after it.
#[verifier::external_body]
fn decode_i32(src: &[u8]) -> (r: Option<Option<(i32, usize)>>)
    ensures
        match read_i32_spec(src@, 0) {
            SlebRead::Incomplete => r == Some(None::<(i32, usize)>),
            SlebRead::Overflow => r is None,
            SlebRead::Done(v, e) => r == Some(Some((v as i32, (src@.len() - e) as usize))),
        },
{
    let mut buf = bytes::BytesMut::from(src);
    match tokio_util::codec::Decoder::decode(&mut wasm_tokio::Leb128DecoderI32, &mut buf) {
        Ok(Some(v)) => Some(Some((v, buf.len()))),
        Ok(None) => Some(None),
        Err(_) => None,
    }
}

/// Reads a varint that must fit in an `i64`, with `wasm_tokio`'s `Leb128DecoderI64`.
pub fn read_i64(src: &[u8], k: usize) -> (r: Svarint)
    ensures
        r.is_read(read_i64_spec(src@, k as nat)),
{
    if k >= src.len() {
        return Svarint::Incomplete;
    }
    let (w, j) = window(src, k, 10);
    proof {
        lemma_sleb_read_at(src@, k as nat, 10, 0, 127, j as nat);
        lemma_sleb_read_bound(w@, 0, 0, 10, 0, 127);
        lemma_pow128_values();
        assert(pow128((10 - 1 - 0) as nat) == 0x80_0000_0000_0000_00);
    }
    match decode_i64(w) {
        None => Svarint::Overflow,
        Some(None) => Svarint::Incomplete,
        Some(Some((value, rest))) => Svarint::Value { value: value as i64, end: j - rest },
    }
}

/// `wasm_tokio::Leb128DecoderI64::decode` on `src`: it reads the varint at
/// the start of `src` as `read_i64_spec` does (at most ten bytes, the tenth 0 or 127), giving `None` when
/// it refuses it, `Some(None)` when it waits for more input, and else the
/// value with the number of bytes of `src` left after it.
#[verifier::external_body]
fn decode_i64(src: &[u8]) -> (r: Option<Option<(i64, usize)>>)
    ensures
        match read_i64_spec(src@, 0) {
            SlebRead::Incomplete => r == Some(None::<(i64, usize)>),
            SlebRead::Overflow => r is None,
            SlebRead::Done(v, e) => r == Some(Some((v as i64, (src@.len() - e) as usize))),
        },
{
    let mut buf = bytes::BytesMut::from(src);
    match tokio_util::codec::Decoder::decode(&mut wasm_tokio::Leb128DecoderI64, &mut buf) {
        Ok(Some(v)) => Some(Some((v, buf.len()))),
        Ok(None) => Some(None),
        Err(_) => None,
    }
}

/// `wasm_tokio::put_i16_leb128`: the minimal signed LEB128 encoding of `x`.
#[verifier::external_body]
pub(crate) fn sleb_i16(x: i16) -> (r: Vec<u8>)
    ensures
        r@ == sleb(x as int),
{
    let mut buf = [0u8; 3];
    wasm_tokio::put_i16_leb128(&mut buf, x).to_vec()
}

/// `wasm_tokio::put_i32_leb128`: the minimal signed LEB128 encoding of `x`.
#[verifier::external_body]
pub(crate) fn sleb_i32(x: i32) -> (r: Vec<u8>)
    ensures
        r@ == sleb(x as int),
{
    let mut buf = [0u8; 5];
    wasm_tokio::put_i32_leb128(&mut buf, x).to_vec()
}

/// `wasm_tokio::put_i64_leb128`: the minimal signed LEB128 encoding of `x`.
#[verifier::external_body]
pub(crate) fn sleb_i64(x: i64) -> (r: Vec<u8>)
    ensures
        r@ == sleb(x as int),
{
    let mut buf = [0u8; 10];
    wasm_tokio::put_i64_leb128(&mut buf, x).to_vec()
}

/// Appends the signed LEB128 encoding of an `i16` to `dst`.
pub fn write_i16(x: i16, dst: &mut Vec<u8>)
    ensures
        final(dst)@ == old(dst)@ + sleb(x as int),
{
    let mut b = sleb_i16(x);
    dst.append(&mut b);
}

/// Appends the signed LEB128 encoding of an `i32` to `dst`.
pub fn write_i32(x: i32, dst: &mut Vec<u8>)
    ensures
        final(dst)@ == old(dst)@ + sleb(x as int),
{
    let mut b = sleb_i32(x);
    dst.append(&mut b);
}

/// Appends the signed LEB128 encoding of an `i64` to `dst`.
pub fn write_i64(x: i64, dst: &mut Vec<u8>)
    ensures
        final(dst)@ == old(dst)@ + sleb(x as int),
{
    let mut b = sleb_i64(x);
    dst.append(&mut b);
}

/// Moves the outcome of a signed read by `d` bytes.
pub open spec fn sleb_shift(r: SlebRead, d: nat) -> SlebRead {
    match r {
        SlebRead::Done(v, e) => SlebRead::Done(v, e + d),
        r => r,
    }
}

/// Bytes before a signed varint only move where it ends.
proof fn lemma_sleb_read_shift(p: Seq<u8>, s: Seq<u8>, k: nat, c: nat, n: nat, lo: nat, hi: nat)
    ensures
        sleb_read(p + s, p.len() + k, c, n, lo, hi) == sleb_shift(sleb_read(s, k, c, n, lo, hi), p.len()),
    decreases n - c,
{
    if c < n && k < s.len() {
        assert((p + s)[(p.len() + k) as int] == s[k as int]);
        let b = s[k as int];
        if !(c + 1 == n && !(b <= lo || (hi <= b && b < 128))) && b >= 128 {
            lemma_sleb_read_shift(p, s, k + 1, c + 1, n, lo, hi);
            assert(p.len() + k + 1 == p.len() + (k + 1));
        }
    }
}

/// A signed varint read looks at no byte past the first `n - c` from `k`.
proof fn lemma_sleb_read_window(s: Seq<u8>, k: nat, c: nat, n: nat, lo: nat, hi: nat, j: nat)
    requires
        j <= s.len(),
        j >= k + (n - c) || j == s.len(),
    ensures
        sleb_read(s.subrange(0, j as int), k, c, n, lo, hi) == sleb_read(s, k, c, n, lo, hi),
    decreases n - c,
{
    let u = s.subrange(0, j as int);
    if c < n && k < j {
        assert(u[k as int] == s[k as int]);
        lemma_sleb_read_window(s, k + 1, c + 1, n, lo, hi, j);
    }
}

/// Reading a signed varint at `k` is reading the bytes from `k` on, at most
/// `n` of them, and moving where it ends by `k`.
proof fn lemma_sleb_read_at(s: Seq<u8>, k: nat, n: nat, lo: nat, hi: nat, j: nat)
    requires
        k <= j <= s.len(),
        j == k + n || j == s.len(),
    ensures
        sleb_read(s, k, 0, n, lo, hi) == sleb_shift(sleb_read(s.subrange(k as int, j as int), 0, 0, n, lo, hi), k),
{
    lemma_sleb_read_window(s, k, 0, n, lo, hi, j);
    let p = s.subrange(0, k as int);
    let w = s.subrange(k as int, j as int);
    assert(s.subrange(0, j as int) =~= p + w);
    lemma_sleb_read_shift(p, w, 0, 0, n, lo, hi);
}

/// The bytes of `src` from `k` on, at most `n` of them, and where they end.
fn window(src: &[u8], k: usize, n: usize) -> (r: (&[u8], usize))
    requires
        k <= src.len(),
    ensures
        r.1 == (if src.len() - k < n { src.len() as int } else { k + n }),
        r.0@ == src@.subrange(k as int, r.1 as int),
{
    let j = if src.len() - k < n { src.len() } else { k + n };
    (vstd::slice::slice_subrange(src, k, j), j)
}

/// The minimal signed encoding of any value within the width reads back as
/// that value, whatever precedes or follows it.
pub proof fn lemma_sleb_roundtrip(p: Seq<u8>, v: int, t: Seq<u8>, c: nat, n: nat, lo: nat, hi: nat)
    requires
        lo < 64,
        64 <= hi < 128,
        c < n,
        -((128 - hi) * pow128((n - 1 - c) as nat)) <= v < (lo + 1) * pow128((n - 1 - c) as nat),
    ensures
        sleb_read(p + sleb(v) + t, p.len(), c, n, lo, hi) == SlebRead::Done(v, p.len() + sleb(v).len()),
    decreases n - c,
{
    let s = p + sleb(v) + t;
    let low = v % 128;
    let rest = v / 128;
    assert(s[p.len() as int] == sleb(v)[0]);
    if (rest == 0 && low < 64) || (rest == -1 && low >= 64) {
        if c + 1 == n {
            assert(pow128((n - 1 - c) as nat) == 1);
            assert(-((128 - hi) * pow128((n - 1 - c) as nat)) == -(128 - hi)) by (nonlinear_arith)
                requires pow128((n - 1 - c) as nat) == 1;
            assert((lo + 1) * pow128((n - 1 - c) as nat) == lo + 1) by (nonlinear_arith)
                requires pow128((n - 1 - c) as nat) == 1;
        }
    } else {
        if c + 1 == n {
            assert(pow128((n - 1 - c) as nat) == 1);
            assert(-((128 - hi) * pow128((n - 1 - c) as nat)) == -(128 - hi)) by (nonlinear_arith)
                requires pow128((n - 1 - c) as nat) == 1;
            assert((lo + 1) * pow128((n - 1 - c) as nat) == lo + 1) by (nonlinear_arith)
                requires pow128((n - 1 - c) as nat) == 1;
            assert(false);
        }
        let p2 = p + seq![(low + 128) as u8];
        let pw = pow128((n - 2 - c) as nat);
        assert(pow128((n - 1 - c) as nat) == 128 * pw);
        assert(-((128 - hi) * pw) <= rest < (lo + 1) * pw) by (nonlinear_arith)
            requires
                -((128 - hi) * (128 * pw)) <= v < (lo + 1) * (128 * pw),
                rest == v / 128,
                pw >= 1,
        ;
        lemma_sleb_roundtrip(p2, rest, t, c + 1, n, lo, hi);
        assert(p2 + sleb(rest) + t =~= s);
        assert(sleb(v).len() == 1 + sleb(rest).len());
    }
}

/// Any `i16` written reads back as an `i16` varint.
pub proof fn lemma_i16_roundtrip(p: Seq<u8>, x: i16, t: Seq<u8>)
    ensures
        read_i16_spec(p + sleb(x as int) + t, p.len()) == SlebRead::Done(x as int, p.len() + sleb(x as int).len()),
{
    lemma_pow128_values();
    assert(pow128((3 - 1 - 0) as nat) == 16384);
    lemma_sleb_roundtrip(p, x as int, t, 0, 3, 1, 126);
}

/// Any `i32` written reads back as an `i32` varint.
pub proof fn lemma_i32_roundtrip(p: Seq<u8>, x: i32, t: Seq<u8>)
    ensures
        read_i32_spec(p + sleb(x as int) + t, p.len()) == SlebRead::Done(x as int, p.len() + sleb(x as int).len()),
{
    lemma_pow128_values();
    assert(pow128((5 - 1 - 0) as nat) == 0x1000_0000);
    lemma_sleb_roundtrip(p, x as int, t, 0, 5, 7, 120);
}

/// Any `i64` written reads back as an `i64` varint.
pub proof fn lemma_i64_roundtrip(p: Seq<u8>, x: i64, t: Seq<u8>)
    ensures
        read_i64_spec(p + sleb(x as int) + t, p.len()) == SlebRead::Done(x as int, p.len() + sleb(x as int).len()),
{
    lemma_pow128_values();
    assert(pow128((10 - 1 - 0) as nat) == 0x80_0000_0000_0000_00);
    lemma_sleb_roundtrip(p, x as int, t, 0, 10, 0, 127);
}

} // verus!
