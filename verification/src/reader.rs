//! A byte stream carried in messages: reads of bounded size are served from
//! the payload of the message last received, the part that does not fit
//! waiting for the next read; writes are cut to the largest payload a
//! message may carry.

use vstd::prelude::*;

verus! {

/// The bytes of received messages not read yet.
pub struct ReadBuffer {
    pub buffer: Vec<u8>,
}

/// The smaller of two lengths.
pub open spec fn min_len(a: nat, b: nat) -> nat {
    if a <= b {
        a
    } else {
        b
    }
}

/// Moves the first `n` bytes of `src` out into a vector of their own.
fn split_front(src: &mut Vec<u8>, n: usize) -> (r: Vec<u8>)
    requires
        n <= old(src)@.len(),
    ensures
        r@ == old(src)@.take(n as int),
        final(src)@ == old(src)@.skip(n as int),
{
    let mut rest = src.split_off(n);
    std::mem::swap(src, &mut rest);
    assert(rest@ =~= old(src)@.take(n as int));
    assert(src@ =~= old(src)@.skip(n as int));
    rest
}

impl ReadBuffer {
    /// A buffer holding the payload that came with the stream.
    pub fn new(buffer: Vec<u8>) -> (r: Self)
        ensures
            r.buffer@ == buffer@,
    {
        ReadBuffer { buffer }
    }

    /// Serves a read of up to `cap` bytes from what is buffered, as the NATS
    /// and Zenoh readers do: the front of the buffer, which keeps the rest
    /// (a buffer read whole is emptied). With room for no byte the read
    /// takes nothing; with nothing buffered it gives `None`, and the reader
    /// waits for the next message.
    pub fn read_buffered(&mut self, cap: usize) -> (r: Option<Vec<u8>>)
        ensures
            r is None <==> cap > 0 && old(self).buffer@.len() == 0,
            r is Some ==> {
                let n = min_len(cap as nat, old(self).buffer@.len());
                &&& r.unwrap()@ == old(self).buffer@.take(n as int)
                &&& final(self).buffer@ == old(self).buffer@.skip(n as int)
            },
            r is None ==> final(self).buffer@ == old(self).buffer@,
            r is Some ==> r.unwrap()@ + final(self).buffer@ == old(self).buffer@,
    {
        if cap == 0 {
            let out: Vec<u8> = Vec::new();
            assert(self.buffer@.skip(0) =~= self.buffer@);
            assert(out@ =~= self.buffer@.take(0));
            return Some(out);
        }
        if self.buffer.len() == 0 {
            return None;
        }
        let n = if self.buffer.len() > cap {
            cap
        } else {
            self.buffer.len()
        };
        let out = split_front(&mut self.buffer, n);
        assert(out@ + self.buffer@ =~= old(self).buffer@);
        Some(out)
    }

    /// Serves a read of up to `cap` bytes from what is buffered, as the next
    /// NATS transport's reader does: a buffer longer than `cap` gives its
    /// front and keeps the rest, but one that fits is read whole and kept as
    /// it is, so the next read serves it again. With room for no byte the read
    /// takes nothing; with nothing buffered it gives `None`.
    pub fn read_buffered_kept(&mut self, cap: usize) -> (r: Option<Vec<u8>>)
        ensures
            r is None <==> cap > 0 && old(self).buffer@.len() == 0,
            r is Some ==> r.unwrap()@ == old(self).buffer@.take(
                min_len(cap as nat, old(self).buffer@.len()) as int,
            ),
            old(self).buffer@.len() > cap ==> final(self).buffer@ == old(self).buffer@.skip(cap as int),
            old(self).buffer@.len() <= cap ==> final(self).buffer@ == old(self).buffer@,
    {
        if cap == 0 {
            let out: Vec<u8> = Vec::new();
            assert(out@ =~= self.buffer@.take(0));
            return Some(out);
        }
        if self.buffer.len() == 0 {
            return None;
        }
        if self.buffer.len() > cap {
            Some(split_front(&mut self.buffer, cap))
        } else {
            let out = vstd::slice::slice_to_vec(self.buffer.as_slice());
            assert(out@ =~= self.buffer@.take(self.buffer@.len() as int));
            Some(out)
        }
    }

    /// Serves a read of up to `cap` bytes from a message just received,
    /// when nothing was buffered: the front of its payload; the rest waits
    /// for the next reads. An empty payload ends the stream and gives
    /// nothing.
    pub fn read_message(&mut self, payload: Vec<u8>, cap: usize) -> (r: Vec<u8>)
        requires
            old(self).buffer@.len() == 0,
        ensures
            r@ == payload@.take(min_len(cap as nat, payload@.len()) as int),
            final(self).buffer@ == payload@.skip(min_len(cap as nat, payload@.len()) as int),
            r@ + final(self).buffer@ == payload@,
    {
        let ghost whole = payload@;
        let mut payload = payload;
        let n = if payload.len() > cap {
            cap
        } else {
            payload.len()
        };
        let out = split_front(&mut payload, n);
        self.buffer = payload;
        assert(out@ + self.buffer@ =~= whole);
        out
    }
}

/// How many of `len` bytes one message carries when a message may carry at
/// most `max_payload` bytes: as many as fit, or `None` when no byte can be
/// sent at all.
pub fn chunk_len(len: usize, max_payload: usize) -> (r: Option<usize>)
    ensures
        r is None <==> max_payload == 0,
        r is Some ==> r.unwrap() == min_len(len as nat, max_payload as nat),
{
    if max_payload == 0 {
        None
    } else if len > max_payload {
        Some(max_payload)
    } else {
        Some(len)
    }
}

} // verus!
