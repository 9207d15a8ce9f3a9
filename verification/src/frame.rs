//! wRPC stream framing.
//!
//! A frame carries a structural `path` (the indices of the nested async value
//! that the bytes belong to) and a payload. On the wire it is the path length,
//! each path element, the payload length (all LEB128 varints) and the payload.

use vstd::prelude::*;

use crate::leb128::{
    lemma_u32_roundtrip, lemma_u64_roundtrip, lemma_uleb_read_bound, lemma_uleb_read_extend,
    lemma_uleb_read_cut, lemma_uleb_read_shift, lemma_uleb_read_truncate,
    read_u32, read_u32_spec, read_u64, read_u64_spec, uleb, uleb_shift, write_u32, write_u64,
    UlebRead, Varint,
};
use crate::wire::{str_bytes, str_fits, write_str};

verus! {

/// Framing protocol version
pub const PROTOCOL: u8 = 0;

/// Owned wRPC frame
#[derive(Clone, Debug, PartialEq, Eq)]
pub struct Frame {
    /// Frame path
    pub path: Vec<usize>,
    /// Frame data
    pub data: Vec<u8>,
}

/// wRPC frame reference
#[derive(Clone, Copy, Debug, PartialEq, Eq)]
pub struct FrameRef<'a> {
    /// Frame path
    pub path: &'a [usize],
    /// Frame data
    pub data: &'a [u8],
}

/// Mathematical content of a frame.
pub struct FrameSpec {
    pub path: Seq<usize>,
    pub data: Seq<u8>,
}

impl View for Frame {
    type V = FrameSpec;

    open spec fn view(&self) -> FrameSpec {
        FrameSpec { path: self.path@, data: self.data@ }
    }
}

impl<'a> View for FrameRef<'a> {
    type V = FrameSpec;

    open spec fn view(&self) -> FrameSpec {
        FrameSpec { path: self.path@, data: self.data@ }
    }
}

impl Frame {
    /// Borrows the frame, as `From<&Frame> for FrameRef` does.
    pub fn as_ref(&self) -> (r: FrameRef<'_>)
        ensures
            r@ == self@,
    {
        FrameRef { path: self.path.as_slice(), data: self.data.as_slice() }
    }
}

/// Errors of the frame codec.
#[derive(Clone, Copy, Debug, PartialEq, Eq)]
pub enum FrameError {
    /// A varint on the wire does not fit in its integer type.
    Overflow,
    /// The path is longer than the decoder accepts.
    PathTooDeep { depth: u32, max: u32 },
    /// The payload is longer than the decoder accepts.
    PayloadTooLarge { size: u64, max: u64 },
    /// A length or an index does not fit where it has to go: a path element
    /// or path length above `u32::MAX` on encode, a payload length above
    /// `usize::MAX` on decode.
    InvalidInput,
    /// A nested stream was asked for at the empty path.
    EmptyPath,
}

/// Encoding of the path elements, in order.
pub open spec fn path_bytes(p: Seq<usize>) -> Seq<u8>
    decreases p.len(),
{
    if p.len() == 0 {
        seq![]
    } else {
        path_bytes(p.drop_last()) + uleb(p.last() as nat)
    }
}

/// Wire encoding of a frame.
pub open spec fn frame_bytes(f: FrameSpec) -> Seq<u8> {
    uleb(f.path.len()) + path_bytes(f.path) + uleb(f.data.len()) + f.data
}

/// Whether every path element fits in a `u32`, as the wire requires.
pub open spec fn path_fits(p: Seq<usize>) -> bool {
    forall|i: int| 0 <= i < p.len() ==> #[trigger] p[i] <= u32::MAX
}

/// Index of the first path element that does not fit in a `u32`.
pub open spec fn first_wide(p: Seq<usize>) -> int
    decreases p.len(),
{
    if p.len() == 0 {
        0
    } else if !path_fits(p.drop_last()) {
        first_wide(p.drop_last())
    } else if p.last() > u32::MAX {
        p.len() - 1
    } else {
        p.len() as int
    }
}

/// Frame encoder
pub struct Encoder;

impl Encoder {
    /// Appends the encoding of `frame` to `dst`.
    ///
    /// Fails with `InvalidInput` when the path is longer than `u32::MAX` (and
    /// then writes nothing) or when a path element exceeds `u32::MAX` (and
    /// then the elements before it have been written).
    pub fn encode(&mut self, frame: FrameRef<'_>, dst: &mut Vec<u8>) -> (r: Result<(), FrameError>)
        ensures
            r is Ok <==> frame.path.len() <= u32::MAX && path_fits(frame.path@),
            r is Ok ==> final(dst)@ == old(dst)@ + frame_bytes(frame@),
            r is Err ==> r == Err::<(), FrameError>(FrameError::InvalidInput),
            r is Err && frame.path.len() > u32::MAX ==> final(dst)@ == old(dst)@,
            r is Err && frame.path.len() <= u32::MAX ==> final(dst)@ == old(dst)@ + uleb(
                frame.path.len() as nat,
            ) + path_bytes(frame.path@.subrange(0, first_wide(frame.path@))),
    {
        let path = frame.path;
        let data = frame.data;
        if path.len() > u32::MAX as usize {
            return Err(FrameError::InvalidInput);
        }
        let ghost d0 = dst@;
        write_u32(path.len() as u32, dst);
        let mut i: usize = 0;
        while i < path.len()
            invariant
                path == frame.path,
                d0 == old(dst)@,
                i <= path.len(),
                path.len() <= u32::MAX,
                path_fits(path@.subrange(0, i as int)),
                dst@ == d0 + uleb(path.len() as nat) + path_bytes(path@.subrange(0, i as int)),
            decreases path.len() - i,
        {
            let p = path[i];
            if p > u32::MAX as usize {
                proof {
                    lemma_first_wide(path@, i as int);
                }
                return Err(FrameError::InvalidInput);
            }
            write_u32(p as u32, dst);
            proof {
                let q = path@.subrange(0, i + 1);
                assert(q.drop_last() =~= path@.subrange(0, i as int));
                assert(path_fits(q));
            }
            i = i + 1;
        }
        proof {
            assert(path@.subrange(0, path.len() as int) =~= path@);
        }
        write_u64(data.len() as u64, dst);
        let mut d = vstd::slice::slice_to_vec(data);
        dst.append(&mut d);
        Ok(())
    }

    /// Appends the encoding of an owned frame to `dst`, failing as `encode`
    /// does.
    pub fn encode_frame(&mut self, frame: &Frame, dst: &mut Vec<u8>) -> (r: Result<(), FrameError>)
        ensures
            r is Ok <==> frame.path.len() <= u32::MAX && path_fits(frame.path@),
            r is Ok ==> final(dst)@ == old(dst)@ + frame_bytes(frame@),
            r is Err ==> r == Err::<(), FrameError>(FrameError::InvalidInput),
            r is Err && frame.path.len() > u32::MAX ==> final(dst)@ == old(dst)@,
            r is Err && frame.path.len() <= u32::MAX ==> final(dst)@ == old(dst)@ + uleb(
                frame.path.len() as nat,
            ) + path_bytes(frame.path@.subrange(0, first_wide(frame.path@))),
    {
        self.encode(frame.as_ref(), dst)
    }
}

/// Outcome of reading the path elements.
pub enum PathRead {
    Incomplete,
    Invalid,
    Done(Seq<usize>, nat),
}

/// Reads `n` path elements (`u32` varints) starting at `t[k]`.
pub open spec fn path_read(t: Seq<u8>, k: nat, n: nat) -> PathRead
    decreases n,
{
    if n == 0 {
        PathRead::Done(seq![], k)
    } else {
        match path_read(t, k, (n - 1) as nat) {
            PathRead::Done(p, e) => match read_u32_spec(t, e) {
                UlebRead::Incomplete => PathRead::Incomplete,
                UlebRead::Overflow => PathRead::Invalid,
                UlebRead::Done(v, e2) => PathRead::Done(p.push(v as usize), e2),
            },
            r => r,
        }
    }
}

/// What a byte sequence holds at its start, for a decoder bounded by
/// `max_depth` and `max_size`.
pub enum FrameStatus {
    /// More bytes are needed to tell.
    Incomplete,
    /// No continuation makes a frame of it.
    Invalid(FrameError),
    /// A frame, taking the first `len` bytes.
    Complete(FrameSpec, nat),
}

/// The frame at the start of `t`, if there is one.
pub open spec fn frame_status(t: Seq<u8>, max_depth: nat, max_size: nat) -> FrameStatus {
    match read_u32_spec(t, 0) {
        UlebRead::Incomplete => FrameStatus::Incomplete,
        UlebRead::Overflow => FrameStatus::Invalid(FrameError::Overflow),
        UlebRead::Done(n, k1) => if n > max_depth {
            FrameStatus::Invalid(FrameError::PathTooDeep { depth: n as u32, max: max_depth as u32 })
        } else {
            match path_read(t, k1, n) {
                PathRead::Incomplete => FrameStatus::Incomplete,
                PathRead::Invalid => FrameStatus::Invalid(FrameError::Overflow),
                PathRead::Done(p, k2) => match read_u64_spec(t, k2) {
                    UlebRead::Incomplete => FrameStatus::Incomplete,
                    UlebRead::Overflow => FrameStatus::Invalid(FrameError::Overflow),
                    UlebRead::Done(m, k3) => if m > max_size {
                        FrameStatus::Invalid(
                            FrameError::PayloadTooLarge { size: m as u64, max: max_size as u64 },
                        )
                    } else if m > usize::MAX {
                        FrameStatus::Invalid(FrameError::InvalidInput)
                    } else if k3 + m > t.len() {
                        FrameStatus::Incomplete
                    } else {
                        FrameStatus::Complete(
                            FrameSpec { path: p, data: t.subrange(k3 as int, (k3 + m) as int) },
                            k3 + m,
                        )
                    },
                },
            }
        },
    }
}

/// Path elements read from a sequence read the same with more bytes behind.
proof fn lemma_path_read_extend(c: Seq<u8>, s: Seq<u8>, k: nat, n: nat)
    requires
        path_read(c, k, n) is Done,
    ensures
        path_read(c + s, k, n) == path_read(c, k, n),
    decreases n,
{
    if n > 0 {
        lemma_path_read_extend(c, s, k, (n - 1) as nat);
        if let PathRead::Done(p, e) = path_read(c, k, (n - 1) as nat) {
            lemma_uleb_read_extend(c, s, e, 0, 5, 15);
        }
    }
}

/// Path elements read from a sequence read the same from a prefix that
/// still holds them.
proof fn lemma_path_read_truncate(t: Seq<u8>, k: nat, n: nat, l: nat)
    requires
        path_read(t, k, n) matches PathRead::Done(_, e) && e <= l,
        l <= t.len(),
    ensures
        path_read(t.subrange(0, l as int), k, n) == path_read(t, k, n),
    decreases n,
{
    if n > 0 {
        if let PathRead::Done(p, e) = path_read(t, k, (n - 1) as nat) {
            lemma_uleb_read_bound(t, e, 0, 5, 15);
            lemma_path_read_truncate(t, k, (n - 1) as nat, l);
            lemma_uleb_read_truncate(t, e, 0, 5, 15, l);
        }
    }
}

/// Every element takes at least one byte, and the first `j` elements are
/// read on the way.
proof fn lemma_path_read_prefix(t: Seq<u8>, k: nat, n: nat, j: nat)
    requires
        j <= n,
        path_read(t, k, n) is Done,
    ensures
        path_read(t, k, n) matches PathRead::Done(p, e) && path_read(t, k, j) matches PathRead::Done(
            q,
            ej,
        ) && q == p.subrange(0, j as int) && e >= ej + (n - j) && p.len() == n && ej >= k,
    decreases n,
{
    if n == 0 {
        assert(seq![].subrange(0, 0) =~= Seq::<usize>::empty());
    } else {
        lemma_path_read_prefix(t, k, (n - 1) as nat, (n - 1) as nat);
        if let PathRead::Done(p1, e1) = path_read(t, k, (n - 1) as nat) {
            lemma_uleb_read_bound(t, e1, 0, 5, 15);
            if j < n {
                lemma_path_read_prefix(t, k, (n - 1) as nat, j);
                if let PathRead::Done(p, e) = path_read(t, k, n) {
                    assert(p.subrange(0, j as int) =~= p1.subrange(0, j as int));
                }
            } else {
                if let PathRead::Done(p, e) = path_read(t, k, n) {
                    assert(p.subrange(0, j as int) =~= p);
                }
            }
        }
    }
}

/// Once the path cannot be read, reading more elements does not help.
proof fn lemma_path_read_stuck(t: Seq<u8>, k: nat, a: nat, b: nat)
    requires
        a <= b,
        !(path_read(t, k, a) is Done),
    ensures
        path_read(t, k, b) == path_read(t, k, a),
    decreases b,
{
    if a < b {
        lemma_path_read_stuck(t, k, a, (b - 1) as nat);
    }
}

/// The encoded path elements read back as the path.
proof fn lemma_path_read_bytes(p0: Seq<u8>, path: Seq<usize>, t: Seq<u8>)
    requires
        path_fits(path),
    ensures
        path_read(p0 + path_bytes(path) + t, p0.len(), path.len()) == PathRead::Done(
            path,
            p0.len() + path_bytes(path).len(),
        ),
    decreases path.len(),
{
    if path.len() > 0 {
        let q = path.drop_last();
        let x = path.last();
        assert(path_fits(q)) by {
            assert forall|i: int| 0 <= i < q.len() implies #[trigger] q[i] <= u32::MAX by {
                assert(q[i] == path[i]);
            }
        }
        assert(x <= u32::MAX) by {
            assert(path[path.len() - 1] == x);
        }
        let rest = uleb(x as nat) + t;
        lemma_path_read_bytes(p0, q, rest);
        assert(p0 + path_bytes(q) + rest =~= p0 + path_bytes(path) + t);
        lemma_u32_roundtrip(p0 + path_bytes(q), x as u32, t);
        assert(p0 + path_bytes(q) + uleb(x as nat) + t =~= p0 + path_bytes(path) + t);
        assert(q.push(x) =~= path);
        assert(path_bytes(path) == path_bytes(q) + uleb(x as nat));
        assert(path_read(p0 + path_bytes(path) + t, p0.len(), (path.len() - 1) as nat)
            == PathRead::Done(q, p0.len() + path_bytes(q).len()));
        assert((p0 + path_bytes(q)).len() == p0.len() + path_bytes(q).len());
    } else {
        assert(path =~= seq![]);
    }
}

/// Streaming frame decoder.
///
/// It consumes bytes from the front of its input as far as it can and keeps
/// what it has read of a frame until the rest arrives.
pub struct Decoder {
    path: Option<Vec<usize>>,
    path_cap: usize,
    data_len: usize,
    max_depth: u32,
    max_size: u64,
    consumed: Ghost<Seq<u8>>,
}

impl Decoder {
    /// The bytes of the current frame that this decoder has consumed.
    pub closed spec fn consumed(&self) -> Seq<u8> {
        self.consumed@
    }

    /// The largest path length accepted.
    pub closed spec fn max_depth(&self) -> u32 {
        self.max_depth
    }

    /// The largest payload length accepted.
    pub closed spec fn max_size(&self) -> u64 {
        self.max_size
    }

    /// The number of path elements still to be read, while the path is being read.
    pub closed spec fn pending(&self) -> nat {
        match self.path {
            Some(_) => self.path_cap as nat,
            None => 0,
        }
    }

    /// The state agrees with the consumed bytes.
    pub closed spec fn wf(&self) -> bool {
        let c = self.consumed@;
        match self.path {
            None => self.data_len == 0 && c.len() == 0,
            Some(p) => match read_u32_spec(c, 0) {
                UlebRead::Done(n, k1) => {
                    &&& n <= self.max_depth
                    &&& p.len() + self.path_cap == n
                    &&& path_read(c, k1, p.len() as nat) matches PathRead::Done(q, k2) && {
                        &&& q == p@
                        &&& self.data_len == 0 ==> k2 == c.len()
                        &&& self.data_len > 0 ==> {
                            &&& self.path_cap == 0
                            &&& self.data_len <= self.max_size
                            &&& read_u64_spec(c, k2) == UlebRead::Done(self.data_len as nat, c.len())
                        }
                    }
                },
                _ => false,
            },
        }
    }

    /// Whether a call with input `s` stops before reading the path elements
    /// because `s` holds fewer bytes than there are elements left to read.
    pub open spec fn stalls(&self, s: Seq<u8>) -> bool {
        if self.consumed().len() == 0 {
            read_u32_spec(s, 0) matches UlebRead::Done(n, k1) && n <= self.max_depth() && n + k1
                > s.len()
        } else {
            self.pending() > s.len()
        }
    }

    /// A decoder with nothing consumed.
    #[must_use]
    pub fn new(max_depth: u32, max_size: u64) -> (r: Self)
        ensures
            r.wf(),
            r.consumed() == Seq::<u8>::empty(),
            r.max_depth() == max_depth,
            r.max_size() == max_size,
    {
        Decoder {
            path: None,
            path_cap: 0,
            data_len: 0,
            max_depth,
            max_size,
            consumed: Ghost(Seq::empty()),
        }
    }

    /// A decoder accepting paths of up to 32 elements and payloads of up to
    /// `u32::MAX` bytes.
    pub fn default() -> (r: Self)
        ensures
            r.wf(),
            r.consumed() == Seq::<u8>::empty(),
            r.max_depth() == 32,
            r.max_size() == u32::MAX,
    {
        Self::new(32, 0xffff_ffff)
    }
}

/// Drops the first `pos` bytes of `src`.
fn take_front(src: &mut Vec<u8>, pos: usize)
    requires
        pos <= old(src)@.len(),
    ensures
        final(src)@ == old(src)@.subrange(pos as int, old(src)@.len() as int),
{
    let mut rest = src.split_off(pos);
    core::mem::swap(src, &mut rest);
}

impl Decoder {
    /// Saves a partly read frame whose bytes, up to `end`, have been consumed.
    proof fn lemma_saved_wf(
        c: Seq<u8>,
        t: Seq<u8>,
        end: nat,
        n: nat,
        k1: nat,
        path: Seq<usize>,
        k2: nat,
        data_len: nat,
        max_depth: nat,
        max_size: nat,
    )
        requires
            end <= t.len(),
            c == t.subrange(0, end as int),
            read_u32_spec(t, 0) == UlebRead::Done(n, k1),
            n <= max_depth,
            path_read(t, k1, path.len() as nat) == PathRead::Done(path, k2),
            k2 <= end,
            data_len == 0 ==> k2 == end,
            data_len > 0 ==> read_u64_spec(t, k2) == UlebRead::Done(data_len, end),
        ensures
            read_u32_spec(c, 0) == UlebRead::Done(n, k1),
            path_read(c, k1, path.len() as nat) == PathRead::Done(path, k2),
            data_len > 0 ==> read_u64_spec(c, k2) == UlebRead::Done(data_len, end),
            c.len() == end,
    {
        lemma_path_read_prefix(t, k1, path.len() as nat, 0);
        lemma_uleb_read_truncate(t, 0, 0, 5, 15, end);
        lemma_path_read_truncate(t, k1, path.len() as nat, end);
        if data_len > 0 {
            lemma_uleb_read_truncate(t, k2, 0, 10, 1, end);
        }
    }

    /// Decodes a frame from the front of `src`, consuming the bytes it reads.
    ///
    /// With `t` the bytes consumed earlier followed by `src`: a frame comes
    /// out exactly when `t` starts with one; an error comes out exactly when no
    /// continuation of `t` holds a frame, unless the decoder stalls first
    /// (`stalls`), in which case it asks for more input.
    pub fn decode(&mut self, src: &mut Vec<u8>) -> (r: Result<Option<Frame>, FrameError>)
        requires
            old(self).wf(),
        ensures
            final(self).wf(),
            final(self).max_depth() == old(self).max_depth(),
            final(self).max_size() == old(self).max_size(),
            decode_post(
                old(self).consumed() + old(src)@,
                frame_status(
                    old(self).consumed() + old(src)@,
                    old(self).max_depth() as nat,
                    old(self).max_size() as nat,
                ),
                old(self).stalls(old(src)@),
                r,
                final(self).consumed(),
                final(src)@,
            ),
    {
        let ghost c = self.consumed@;
        let ghost s = src@;
        let ghost t = c + s;
        let ghost md = self.max_depth as nat;
        let ghost ms = self.max_size as nat;
        let ghost stalled = self.stalls(s);
        let taken = self.path.take();
        match taken {
            Some(path) => {
                let ghost mut n: nat = 0;
                let ghost mut k1: nat = 0;
                let ghost mut k2: nat = 0;
                proof {
                    if let UlebRead::Done(nn, kk) = read_u32_spec(c, 0) {
                        n = nn;
                        k1 = kk;
                    }
                    lemma_uleb_read_extend(c, s, 0, 0, 5, 15);
                    lemma_path_read_extend(c, s, k1, path.len() as nat);
                    if let PathRead::Done(q, kk) = path_read(c, k1, path.len() as nat) {
                        k2 = kk;
                    }
                    lemma_path_read_prefix(c, k1, path.len() as nat, 0);
                    if self.data_len > 0 {
                        lemma_uleb_read_extend(c, s, k2, 0, 10, 1);
                    }
                    assert(c.len() > 0) by {
                        lemma_uleb_read_bound(c, 0, 0, 5, 15);
                    }
                    assert(c + s == t);
                }
                let r = if self.data_len == 0 {
                    self.decode_path(path, src, 0, Ghost(c), Ghost(t), Ghost(n), Ghost(k1), Ghost(stalled))
                } else {
                    self.decode_data(path, src, 0, Ghost(c), Ghost(t), Ghost(n), Ghost(k1), Ghost(k2), Ghost(stalled))
                };
                proof {
                    assert(decode_post(t, frame_status(t, md, ms), stalled, r, self.consumed@, src@));
                    assert(t == old(self).consumed() + old(src)@);
                    assert(md == old(self).max_depth() as nat);
                    assert(ms == old(self).max_size() as nat);
                    assert(stalled == old(self).stalls(old(src)@));
                    assert(self.consumed@ == self.consumed());
                }
                r
            },
            None => {
                proof {
                    assert(t =~= s);
                    assert(c =~= Seq::<u8>::empty());
                    lemma_uleb_read_bound(s, 0, 0, 5, 15);
                }
                match read_u32(src.as_slice(), 0) {
                    Varint::Incomplete => Ok(None),
                    Varint::Overflow => {
                        proof {
                            assert(t.subrange(t.len() - s.len(), t.len() as int) =~= s);
                        }
                        Err(FrameError::Overflow)
                    },
                    Varint::Value { value, end } => {
                        if value > self.max_depth as u64 {
                            take_front(src, end);
                            proof {
                                assert(src@ =~= t.subrange(t.len() - src@.len(), t.len() as int));
                                assert(read_u32_spec(t, 0) == UlebRead::Done(value as nat, end as nat));
                                assert(frame_status(t, md, ms) == FrameStatus::Invalid(
                                    FrameError::PathTooDeep { depth: value as u32, max: self.max_depth },
                                ));
                                assert(!stalled);
                            }
                            return Err(
                                FrameError::PathTooDeep { depth: value as u32, max: self.max_depth },
                            );
                        }
                        self.path_cap = value as usize;
                        let path = Vec::new();
                        proof {
                            assert(path@ =~= Seq::<usize>::empty());
                            assert(c =~= Seq::<u8>::empty());
                        }
                        self.decode_path(
                            path,
                            src,
                            end,
                            Ghost(c),
                            Ghost(t),
                            Ghost(value as nat),
                            Ghost(end as nat),
                            Ghost(stalled),
                        )
                    },
                }
            },
        }
    }

    /// Reads the remaining path elements, then the payload.
    fn decode_path(
        &mut self,
        path: Vec<usize>,
        src: &mut Vec<u8>,
        pos: usize,
        Ghost(c): Ghost<Seq<u8>>,
        Ghost(t): Ghost<Seq<u8>>,
        Ghost(n): Ghost<nat>,
        Ghost(k1): Ghost<nat>,
        Ghost(stalled): Ghost<bool>,
    ) -> (r: Result<Option<Frame>, FrameError>)
        requires
            old(self).path is None,
            old(self).data_len == 0,
            old(self).consumed@ == c,
            t == c + old(src)@,
            pos <= old(src)@.len(),
            read_u32_spec(t, 0) == UlebRead::Done(n, k1),
            n <= old(self).max_depth,
            path.len() + old(self).path_cap == n,
            path_read(t, k1, path.len() as nat) == PathRead::Done(path@, (c.len() + pos) as nat),
            k1 <= c.len() + pos,
            stalled == (old(self).path_cap > old(src)@.len() - pos),
        ensures
            final(self).wf(),
            final(self).max_depth == old(self).max_depth,
            final(self).max_size == old(self).max_size,
            decode_post(
                t,
                frame_status(t, old(self).max_depth as nat, old(self).max_size as nat),
                stalled,
                r,
                final(self).consumed(),
                final(src)@,
            ),
    {
        let ghost s = src@;
        let ghost md = self.max_depth as nat;
        let ghost ms = self.max_size as nat;
        let mut path = path;
        let mut pos = pos;
        if self.path_cap > src.len() - pos {
            proof {
                if let PathRead::Done(p, e) = path_read(t, k1, n) {
                    lemma_path_read_prefix(t, k1, n, path.len() as nat);
                }
            }
            self.save(path, src, pos, Ghost(c), Ghost(t), Ghost(n), Ghost(k1), Ghost((c.len() + pos) as nat));
            return Ok(None);
        }
        while self.path_cap > 0
            invariant
                self.path is None,
                self.data_len == 0,
                self.max_depth == md,
                self.max_size == ms,
                md == old(self).max_depth,
                ms == old(self).max_size,
                s == old(src)@,
                self.consumed@ == c,
                src@ == s,
                t == c + s,
                pos <= s.len(),
                read_u32_spec(t, 0) == UlebRead::Done(n, k1),
                n <= md,
                path.len() + self.path_cap == n,
                path_read(t, k1, path.len() as nat) == PathRead::Done(path@, (c.len() + pos) as nat),
                k1 <= c.len() + pos,
                !stalled,
            decreases self.path_cap,
        {
            proof {
                lemma_uleb_read_shift(c, s, pos as nat, 0, 5, 15);
                lemma_uleb_read_bound(s, pos as nat, 0, 5, 15);
            }
            match read_u32(src.as_slice(), pos) {
                Varint::Incomplete => {
                    proof {
                        lemma_path_read_stuck(t, k1, (path.len() + 1) as nat, n);
                    }
                    self.save(path, src, pos, Ghost(c), Ghost(t), Ghost(n), Ghost(k1), Ghost((c.len() + pos) as nat));
                    return Ok(None);
                },
                Varint::Overflow => {
                    proof {
                        lemma_path_read_stuck(t, k1, (path.len() + 1) as nat, n);
                    }
                    self.fail(src, pos, Ghost(c), Ghost(t));
                    return Err(FrameError::Overflow);
                },
                Varint::Value { value, end } => {
                    path.push(value as usize);
                    pos = end;
                    self.path_cap = self.path_cap - 1;
                },
            }
        }
        self.decode_data(path, src, pos, Ghost(c), Ghost(t), Ghost(n), Ghost(k1), Ghost((c.len() + pos) as nat), Ghost(stalled))
    }

    /// Reads the payload length, if not read yet, then the payload.
    fn decode_data(
        &mut self,
        path: Vec<usize>,
        src: &mut Vec<u8>,
        pos: usize,
        Ghost(c): Ghost<Seq<u8>>,
        Ghost(t): Ghost<Seq<u8>>,
        Ghost(n): Ghost<nat>,
        Ghost(k1): Ghost<nat>,
        Ghost(k2): Ghost<nat>,
        Ghost(stalled): Ghost<bool>,
    ) -> (r: Result<Option<Frame>, FrameError>)
        requires
            old(self).path is None,
            old(self).path_cap == 0,
            old(self).consumed@ == c,
            t == c + old(src)@,
            pos <= old(src)@.len(),
            read_u32_spec(t, 0) == UlebRead::Done(n, k1),
            n <= old(self).max_depth,
            path.len() == n,
            path_read(t, k1, n) == PathRead::Done(path@, k2),
            k2 <= c.len() + pos,
            old(self).data_len == 0 ==> k2 == c.len() + pos,
            old(self).data_len > 0 ==> {
                &&& read_u64_spec(t, k2) == UlebRead::Done(old(self).data_len as nat, (c.len() + pos) as nat)
                &&& old(self).data_len <= old(self).max_size
            },
            !stalled,
        ensures
            final(self).wf(),
            final(self).max_depth == old(self).max_depth,
            final(self).max_size == old(self).max_size,
            decode_post(
                t,
                frame_status(t, old(self).max_depth as nat, old(self).max_size as nat),
                stalled,
                r,
                final(self).consumed(),
                final(src)@,
            ),
    {
        let ghost s = src@;
        let mut pos = pos;
        if self.data_len == 0 {
            proof {
                lemma_uleb_read_shift(c, s, pos as nat, 0, 10, 1);
                lemma_uleb_read_bound(s, pos as nat, 0, 10, 1);
            }
            match read_u64(src.as_slice(), pos) {
                Varint::Incomplete => {
                    self.save(path, src, pos, Ghost(c), Ghost(t), Ghost(n), Ghost(k1), Ghost(k2));
                    return Ok(None);
                },
                Varint::Overflow => {
                    self.fail(src, pos, Ghost(c), Ghost(t));
                    return Err(FrameError::Overflow);
                },
                Varint::Value { value, end } => {
                    if value > self.max_size {
                        self.fail(src, end, Ghost(c), Ghost(t));
                        return Err(FrameError::PayloadTooLarge { size: value, max: self.max_size });
                    }
                    if value > usize::MAX as u64 {
                        self.fail(src, end, Ghost(c), Ghost(t));
                        return Err(FrameError::InvalidInput);
                    }
                    pos = end;
                    self.data_len = value as usize;
                    if value == 0 {
                        take_front(src, pos);
                        self.consumed = Ghost(Seq::empty());
                        let data: Vec<u8> = Vec::new();
                        proof {
                            assert(t.subrange((c.len() + pos) as int, (c.len() + pos) as int)
                                =~= data@);
                            assert(src@ =~= t.subrange((c.len() + pos) as int, t.len() as int));
                        }
                        self.data_len = 0;
                        return Ok(Some(Frame { path, data }));
                    }
                },
            }
        }
        let ghost k3 = (c.len() + pos) as nat;
        if self.data_len > src.len() - pos {
            self.save(path, src, pos, Ghost(c), Ghost(t), Ghost(n), Ghost(k1), Ghost(k2));
            return Ok(None);
        }
        take_front(src, pos);
        let mut data = src.split_off(self.data_len);
        core::mem::swap(src, &mut data);
        proof {
            assert(data@ =~= t.subrange(k3 as int, (k3 + self.data_len) as int));
            assert(src@ =~= t.subrange((k3 + self.data_len) as int, t.len() as int));
        }
        self.data_len = 0;
        self.consumed = Ghost(Seq::empty());
        Ok(Some(Frame { path, data }))
    }

    /// Keeps a partly read frame, the first `pos` bytes of `src` being the
    /// last ones consumed.
    fn save(
        &mut self,
        path: Vec<usize>,
        src: &mut Vec<u8>,
        pos: usize,
        Ghost(c): Ghost<Seq<u8>>,
        Ghost(t): Ghost<Seq<u8>>,
        Ghost(n): Ghost<nat>,
        Ghost(k1): Ghost<nat>,
        Ghost(k2): Ghost<nat>,
    )
        requires
            old(self).path is None,
            t == c + old(src)@,
            pos <= old(src)@.len(),
            read_u32_spec(t, 0) == UlebRead::Done(n, k1),
            n <= old(self).max_depth,
            path.len() + old(self).path_cap == n,
            path_read(t, k1, path.len() as nat) == PathRead::Done(path@, k2),
            k2 <= c.len() + pos,
            old(self).data_len == 0 ==> k2 == c.len() + pos,
            old(self).data_len > 0 ==> {
                &&& old(self).path_cap == 0
                &&& old(self).data_len <= old(self).max_size
                &&& read_u64_spec(t, k2) == UlebRead::Done(old(self).data_len as nat, (c.len() + pos) as nat)
            },
        ensures
            final(self).wf(),
            final(self).max_depth == old(self).max_depth,
            final(self).max_size == old(self).max_size,
            final(self).consumed() + final(src)@ == t,
    {
        let ghost s = src@;
        self.path = Some(path);
        take_front(src, pos);
        self.consumed = Ghost(t.subrange(0, c.len() + pos));
        proof {
            Self::lemma_saved_wf(
                self.consumed@,
                t,
                (c.len() + pos) as nat,
                n,
                k1,
                path@,
                k2,
                self.data_len as nat,
                self.max_depth as nat,
                self.max_size as nat,
            );
            assert(self.consumed@ + src@ =~= t);
        }
    }

    /// Forgets the frame being read after an error, dropping the first `pos`
    /// bytes of `src`.
    fn fail(&mut self, src: &mut Vec<u8>, pos: usize, Ghost(c): Ghost<Seq<u8>>, Ghost(t): Ghost<Seq<u8>>)
        requires
            old(self).path is None,
            t == c + old(src)@,
            pos <= old(src)@.len(),
        ensures
            final(self).wf(),
            final(self).max_depth == old(self).max_depth,
            final(self).max_size == old(self).max_size,
            final(self).consumed() == Seq::<u8>::empty(),
            final(src)@ == t.subrange(t.len() - final(src)@.len(), t.len() as int),
    {
        take_front(src, pos);
        self.data_len = 0;
        self.consumed = Ghost(Seq::empty());
        proof {
            assert(src@ =~= t.subrange(t.len() - src@.len(), t.len() as int));
        }
    }
}

/// What `Decoder::decode` promises, with `t` the bytes consumed before the
/// call followed by the input, `st` what `t` holds, `stalled` whether the call
/// stops before the path elements, and `c2`, `s2` the consumed bytes and the
/// input after the call.
pub open spec fn decode_post(
    t: Seq<u8>,
    st: FrameStatus,
    stalled: bool,
    r: Result<Option<Frame>, FrameError>,
    c2: Seq<u8>,
    s2: Seq<u8>,
) -> bool {
    &&& (r matches Ok(Some(_))) <==> st is Complete
    &&& r matches Ok(Some(f)) ==> st matches FrameStatus::Complete(g, len) && f@ == g && s2
        == t.subrange(len as int, t.len() as int) && c2 == Seq::<u8>::empty()
    &&& r matches Ok(None) ==> (st is Incomplete || stalled) && c2 + s2 == t
    &&& (r is Err) <==> (st is Invalid && !stalled)
    &&& r matches Err(e) ==> st == FrameStatus::Invalid(e)
    &&& r is Err ==> c2 == Seq::<u8>::empty() && s2 == t.subrange(
        t.len() - s2.len(),
        t.len() as int,
    )
}

/// Encoding then decoding gives the frame back: the encoding of a frame
/// that the decoder's limits admit starts any byte sequence with exactly that
/// frame, whatever follows it.
pub proof fn lemma_frame_roundtrip(f: FrameSpec, rest: Seq<u8>, max_depth: nat, max_size: nat)
    requires
        f.path.len() <= max_depth,
        f.path.len() <= u32::MAX,
        path_fits(f.path),
        f.data.len() <= max_size,
        f.data.len() <= usize::MAX,
    ensures
        frame_status(frame_bytes(f) + rest, max_depth, max_size) == FrameStatus::Complete(
            f,
            frame_bytes(f).len(),
        ),
{
    let p = f.path;
    let d = f.data;
    let h = uleb(p.len());
    let pb = path_bytes(p);
    let dl = uleb(d.len());
    let t = frame_bytes(f) + rest;
    assert(t =~= Seq::<u8>::empty() + h + (pb + dl + d + rest));
    lemma_u32_roundtrip(Seq::<u8>::empty(), p.len() as u32, pb + dl + d + rest);
    assert(t =~= h + pb + (dl + d + rest));
    lemma_path_read_bytes(h, p, dl + d + rest);
    assert(t =~= (h + pb) + dl + (d + rest));
    lemma_u64_roundtrip(h + pb, d.len() as u64, d + rest);
    let k3 = h.len() + pb.len() + dl.len();
    assert(t.subrange(k3 as int, (k3 + d.len()) as int) =~= d);
    assert(read_u32_spec(t, 0) == UlebRead::Done(p.len(), h.len()));
    assert(path_read(t, h.len(), p.len()) == PathRead::Done(p, h.len() + pb.len()));
    assert(read_u64_spec(t, h.len() + pb.len()) == UlebRead::Done(d.len(), k3));
    assert(frame_bytes(f).len() == k3 + d.len());
    assert(f == FrameSpec { path: p, data: t.subrange(k3 as int, (k3 + d.len()) as int) });
}

/// Path elements read from a prefix that stops inside them are incomplete.
proof fn lemma_path_read_cut(t: Seq<u8>, k: nat, n: nat, l: nat)
    requires
        path_read(t, k, n) matches PathRead::Done(_, e) && k <= l < e,
        l <= t.len(),
    ensures
        path_read(t.subrange(0, l as int), k, n) is Incomplete,
    decreases n,
{
    if n > 0 {
        if let PathRead::Done(p1, e1) = path_read(t, k, (n - 1) as nat) {
            if l < e1 {
                lemma_path_read_cut(t, k, (n - 1) as nat, l);
            } else {
                lemma_path_read_truncate(t, k, (n - 1) as nat, l);
                lemma_uleb_read_cut(t, e1, 0, 5, 15, l);
            }
        }
    }
}

/// The reads that make up the frame at the start of `frame_bytes(f) + rest`.
proof fn lemma_frame_reads(f: FrameSpec, rest: Seq<u8>)
    requires
        f.path.len() <= u32::MAX,
        path_fits(f.path),
        f.data.len() <= usize::MAX,
    ensures
        ({
            let t = frame_bytes(f) + rest;
            let k1 = uleb(f.path.len()).len();
            let k2 = k1 + path_bytes(f.path).len();
            let k3 = k2 + uleb(f.data.len()).len();
            &&& read_u32_spec(t, 0) == UlebRead::Done(f.path.len(), k1)
            &&& path_read(t, k1, f.path.len()) == PathRead::Done(f.path, k2)
            &&& read_u64_spec(t, k2) == UlebRead::Done(f.data.len(), k3)
            &&& frame_bytes(f).len() == k3 + f.data.len()
        }),
{
    let p = f.path;
    let d = f.data;
    let h = uleb(p.len());
    let pb = path_bytes(p);
    let dl = uleb(d.len());
    let t = frame_bytes(f) + rest;
    assert(t =~= Seq::<u8>::empty() + h + (pb + dl + d + rest));
    lemma_u32_roundtrip(Seq::<u8>::empty(), p.len() as u32, pb + dl + d + rest);
    assert(t =~= h + pb + (dl + d + rest));
    lemma_path_read_bytes(h, p, dl + d + rest);
    assert(t =~= (h + pb) + dl + (d + rest));
    lemma_u64_roundtrip(h + pb, d.len() as u64, d + rest);
}

/// A strict prefix of an encoded frame that the decoder's limits admit is
/// incomplete: it is neither a frame nor refused.
pub proof fn lemma_frame_prefix_incomplete(f: FrameSpec, l: nat, max_depth: nat, max_size: nat)
    requires
        f.path.len() <= max_depth,
        f.path.len() <= u32::MAX,
        path_fits(f.path),
        f.data.len() <= max_size,
        f.data.len() <= usize::MAX,
        l < frame_bytes(f).len(),
    ensures
        frame_status(frame_bytes(f).subrange(0, l as int), max_depth, max_size) is Incomplete,
{
    let t = frame_bytes(f);
    lemma_frame_reads(f, Seq::<u8>::empty());
    assert(t + Seq::<u8>::empty() =~= t);
    let u = t.subrange(0, l as int);
    let k1 = uleb(f.path.len()).len();
    let k2 = k1 + path_bytes(f.path).len();
    let k3 = k2 + uleb(f.data.len()).len();
    lemma_uleb_read_bound(t, 0, 0, 5, 15);
    lemma_uleb_read_bound(t, k2, 0, 10, 1);
    if l < k1 {
        lemma_uleb_read_cut(t, 0, 0, 5, 15, l);
    } else {
        lemma_uleb_read_truncate(t, 0, 0, 5, 15, l);
        if l < k2 {
            lemma_path_read_cut(t, k1, f.path.len(), l);
        } else {
            lemma_path_read_truncate(t, k1, f.path.len(), l);
            if l < k3 {
                lemma_uleb_read_cut(t, k2, 0, 10, 1, l);
            } else {
                lemma_uleb_read_truncate(t, k2, 0, 10, 1, l);
            }
        }
    }
}

/// Wire encoding of a sequence of frames, one after the other.
pub open spec fn frames_bytes(fs: Seq<FrameSpec>) -> Seq<u8>
    decreases fs.len(),
{
    if fs.len() == 0 {
        seq![]
    } else {
        frame_bytes(fs[0]) + frames_bytes(fs.drop_first())
    }
}

/// Whether every frame is one that a decoder with these limits admits.
pub open spec fn frames_admitted(fs: Seq<FrameSpec>, max_depth: nat, max_size: nat) -> bool {
    forall|i: int|
        0 <= i < fs.len() ==> {
            &&& (#[trigger] fs[i]).path.len() <= max_depth
            &&& fs[i].path.len() <= u32::MAX
            &&& path_fits(fs[i].path)
            &&& fs[i].data.len() <= max_size
            &&& fs[i].data.len() <= usize::MAX
        }
}

/// Decoding a stream of encoded frames however it is cut into chunks: when
/// the bytes a decoder holds (those it consumed before the call followed by
/// its input) are any prefix of the encoding of frames the decoder admits,
/// a call never fails; it returns the first frame as soon as all of its bytes
/// are there, leaving the rest of the input, again a prefix of the encoding of
/// the frames after it, and otherwise waits for more, keeping every byte.
/// Appending the next chunk of the stream keeps the held bytes a prefix, so
/// by induction over the calls (with `lemma_frames_skip` and
/// `lemma_decode_stream_end`) the frames come out in order, whatever the
/// cuts, and nothing is left once the stream is done.
pub proof fn lemma_decode_stream(
    fs: Seq<FrameSpec>,
    t: Seq<u8>,
    max_depth: nat,
    max_size: nat,
    stalled: bool,
    r: Result<Option<Frame>, FrameError>,
    c2: Seq<u8>,
    s2: Seq<u8>,
)
    requires
        frames_admitted(fs, max_depth, max_size),
        t.len() <= frames_bytes(fs).len(),
        t == frames_bytes(fs).subrange(0, t.len() as int),
        decode_post(t, frame_status(t, max_depth, max_size), stalled, r, c2, s2),
    ensures
        !(r is Err),
        fs.len() > 0 && t.len() >= frame_bytes(fs[0]).len() ==> {
            &&& r matches Ok(Some(f)) && f@ == fs[0]
            &&& c2 == Seq::<u8>::empty()
            &&& s2 == frames_bytes(fs.drop_first()).subrange(0, s2.len() as int)
            &&& s2.len() == t.len() - frame_bytes(fs[0]).len()
        },
        !(fs.len() > 0 && t.len() >= frame_bytes(fs[0]).len()) ==> r == Ok::<Option<Frame>, FrameError>(None)
            && c2 + s2 == t,
{
    if fs.len() == 0 {
        assert(t =~= Seq::<u8>::empty());
        assert(read_u32_spec(t, 0) is Incomplete);
    } else {
        let f = fs[0];
        let fb = frame_bytes(f);
        let rest = frames_bytes(fs.drop_first());
        assert(frames_bytes(fs) == fb + rest);
        if t.len() >= fb.len() {
            let tail = t.subrange(fb.len() as int, t.len() as int);
            assert(t =~= fb + tail);
            lemma_frame_roundtrip(f, tail, max_depth, max_size);
            assert(tail =~= rest.subrange(0, tail.len() as int));
        } else {
            assert(t =~= fb.subrange(0, t.len() as int));
            lemma_frame_prefix_incomplete(f, t.len(), max_depth, max_size);
        }
    }
}

/// The end of a chunked stream: once a decoder holds the whole encoding of
/// the frames it has not returned yet and a call waits for more, every frame
/// has been returned and nothing is left.
pub proof fn lemma_decode_stream_end(
    fs: Seq<FrameSpec>,
    t: Seq<u8>,
    max_depth: nat,
    max_size: nat,
    stalled: bool,
    r: Result<Option<Frame>, FrameError>,
    c2: Seq<u8>,
    s2: Seq<u8>,
)
    requires
        frames_admitted(fs, max_depth, max_size),
        t == frames_bytes(fs),
        decode_post(t, frame_status(t, max_depth, max_size), stalled, r, c2, s2),
        r == Ok::<Option<Frame>, FrameError>(None),
    ensures
        fs.len() == 0,
        c2 + s2 == Seq::<u8>::empty(),
{
    assert(t =~= frames_bytes(fs).subrange(0, t.len() as int));
    lemma_decode_stream(fs, t, max_depth, max_size, stalled, r, c2, s2);
    if fs.len() > 0 {
        assert(frames_bytes(fs) == frame_bytes(fs[0]) + frames_bytes(fs.drop_first()));
    }
}

/// The frames after the first `k` are the rest of the stream once those are
/// returned.
pub proof fn lemma_frames_skip(fs: Seq<FrameSpec>, k: int)
    requires
        0 <= k < fs.len(),
    ensures
        fs.skip(k).drop_first() == fs.skip(k + 1),
        fs.skip(k)[0] == fs[k],
{
    assert(fs.skip(k).drop_first() =~= fs.skip(k + 1));
}

/// `first_wide` is the first element that does not fit.
proof fn lemma_first_wide(p: Seq<usize>, i: int)
    requires
        0 <= i < p.len(),
        path_fits(p.subrange(0, i)),
        p[i] > u32::MAX,
    ensures
        first_wide(p) == i,
        !path_fits(p),
    decreases p.len(),
{
    assert(!path_fits(p)) by {
        assert(p[i] > u32::MAX);
    }
    if i < p.len() - 1 {
        let q = p.drop_last();
        assert(q.subrange(0, i) =~= p.subrange(0, i));
        assert(q[i] == p[i]);
        lemma_first_wide(q, i);
    } else {
        assert(p.drop_last() =~= p.subrange(0, i));
    }
}

/// The bytes that open an invocation: the protocol version, the instance
/// and function names, the empty path, and the parameters with their length.
pub open spec fn invocation_bytes(instance: Seq<char>, func: Seq<char>, params: Seq<u8>) -> Seq<u8> {
    seq![PROTOCOL] + str_bytes(instance) + str_bytes(func) + seq![0u8] + uleb(params.len()) + params
}

/// Appends the opening of an invocation of `func` on `instance` with the
/// encoded `params` to `buf`. Nothing is appended when a name or the
/// parameters are too long to be written.
pub fn encode_invocation(buf: &mut Vec<u8>, instance: &str, func: &str, params: &[u8]) -> (r: Result<(), FrameError>)
    ensures
        r is Ok <==> str_fits(instance@) && str_fits(func@) && params.len() <= u32::MAX,
        r is Ok ==> final(buf)@ == old(buf)@ + invocation_bytes(instance@, func@, params@),
        r is Err ==> r == Err::<(), FrameError>(FrameError::InvalidInput) && final(buf)@ == old(buf)@,
{
    let mut b: Vec<u8> = Vec::new();
    b.push(PROTOCOL);
    if write_str(instance, &mut b).is_err() {
        return Err(FrameError::InvalidInput);
    }
    if write_str(func, &mut b).is_err() {
        return Err(FrameError::InvalidInput);
    }
    b.push(0);
    if params.len() > u32::MAX as usize {
        return Err(FrameError::InvalidInput);
    }
    write_u32(params.len() as u32, &mut b);
    let mut c = vstd::slice::slice_to_vec(params);
    b.append(&mut c);
    assert(b@ =~= invocation_bytes(instance@, func@, params@));
    buf.append(&mut b);
    Ok(())
}

/// The path of the nested stream at `path` under the stream at `base`, and
/// the bytes that name it at the start of every frame sent on it.
pub fn index_path(base: &[usize], path: &[usize]) -> (r: Result<(Vec<usize>, Vec<u8>), FrameError>)
    ensures
        match r {
            Ok((p, b)) => path.len() > 0 && p@ == base@ + path@ && p@.len() <= u32::MAX && path_fits(p@)
                && b@ == uleb(p@.len()) + path_bytes(p@),
            Err(e) => if path.len() == 0 {
                e == FrameError::EmptyPath
            } else {
                e == FrameError::InvalidInput && !(base@.len() + path@.len() <= u32::MAX && path_fits(
                    base@ + path@,
                ))
            },
        },
{
    if path.len() == 0 {
        return Err(FrameError::EmptyPath);
    }
    if base.len() > u32::MAX as usize || path.len() > u32::MAX as usize - base.len() {
        return Err(FrameError::InvalidInput);
    }
    let mut full = vstd::slice::slice_to_vec(base);
    let mut rest = vstd::slice::slice_to_vec(path);
    full.append(&mut rest);
    let mut buf: Vec<u8> = Vec::new();
    let mut e = Encoder;
    let empty: &[u8] = &[];
    assert(empty@ =~= Seq::<u8>::empty());
    let r = e.encode(FrameRef { path: full.as_slice(), data: empty }, &mut buf);
    match r {
        Err(x) => Err(x),
        Ok(()) => {
            assert(uleb(0) =~= seq![0u8]);
            assert(buf@ =~= (uleb(full@.len()) + path_bytes(full@)).push(0u8));
            buf.pop();
            assert(buf@ =~= uleb(full@.len()) + path_bytes(full@));
            Ok((full, buf))
        },
    }
}

} // verus!
