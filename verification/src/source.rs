//! An in-memory byte source with buffered look-ahead.
use vstd::prelude::*;
use vstd::slice::slice_subrange;

verus! {

/// The look-ahead window of a source made with [`ByteSource::new`].
pub const DEFAULT_CAPACITY: usize = 8192;

/// A cursor over a byte string that shows its contents one window at a
/// time.
///
/// [`ByteSource::fill_buf`] shows at most `capacity` of the bytes that have
/// not been consumed yet, and [`ByteSource::consume`] moves past some of
/// them. A reader that wants more bytes than one window holds has to ask
/// again, as it would with any buffered stream.
pub struct ByteSource<'a> {
    bytes: &'a [u8],
    pos: usize,
    capacity: usize,
}

impl<'a> ByteSource<'a> {
    #[verifier::type_invariant]
    spec fn inv(self) -> bool {
        &&& self.pos <= self.bytes@.len()
        &&& self.capacity > 0
    }

    /// The bytes that have not been consumed yet.
    pub closed spec fn remaining(&self) -> Seq<u8> {
        self.bytes@.skip(self.pos as int)
    }

    /// The largest number of bytes that `fill_buf` shows at once.
    pub closed spec fn capacity(&self) -> nat {
        self.capacity as nat
    }

    /// What `fill_buf` shows: the next `capacity` bytes, or all that remain
    /// if that is fewer.
    pub open spec fn window(&self) -> Seq<u8> {
        if self.remaining().len() <= self.capacity() {
            self.remaining()
        } else {
            self.remaining().take(self.capacity() as int)
        }
    }

    /// A source over `bytes` with the default window.
    pub fn new(bytes: &'a [u8]) -> (r: Self)
        ensures
            r.remaining() == bytes@,
            r.capacity() == DEFAULT_CAPACITY,
    {
        ByteSource { bytes, pos: 0, capacity: DEFAULT_CAPACITY }
    }

    /// A source over `bytes` with a window of `capacity` bytes. A window
    /// of no bytes could never show anything, so a capacity of 0 counts
    /// as 1.
    pub fn with_capacity(capacity: usize, bytes: &'a [u8]) -> (r: Self)
        ensures
            r.remaining() == bytes@,
            r.capacity() == if capacity == 0 { 1 } else { capacity as nat },
    {
        ByteSource { bytes, pos: 0, capacity: if capacity == 0 { 1 } else { capacity } }
    }

    /// Shows the current window without consuming it. The window is empty
    /// only at the end of the source.
    pub fn fill_buf(&self) -> (buf: &'a [u8])
        ensures
            buf@ == self.window(),
            buf@.len() == 0 <==> self.remaining().len() == 0,
    {
        proof {
            use_type_invariant(self);
        }
        let left = self.bytes.len() - self.pos;
        let shown = if left <= self.capacity { left } else { self.capacity };
        let buf = slice_subrange(self.bytes, self.pos, self.pos + shown);
        assert(buf@ =~= self.window());
        buf
    }

    /// Moves past `amt` bytes, or to the end of the source if fewer remain.
    pub fn consume(&mut self, amt: usize)
        ensures
            final(self).remaining() == if amt <= old(self).remaining().len() {
                old(self).remaining().skip(amt as int)
            } else {
                Seq::<u8>::empty()
            },
            final(self).capacity() == old(self).capacity(),
    {
        proof {
            use_type_invariant(&*self);
        }
        let left = self.bytes.len() - self.pos;
        let step = if amt <= left { amt } else { left };
        self.pos = self.pos + step;
        assert(self.remaining() =~= if amt <= old(self).remaining().len() {
            old(self).remaining().skip(amt as int)
        } else {
            Seq::<u8>::empty()
        });
    }

    /// Reads exactly `n` bytes and moves past them. If fewer than `n`
    /// remain, nothing is consumed and the result is `None`.
    pub fn read_exact(&mut self, n: usize) -> (r: Option<&'a [u8]>)
        ensures
            final(self).capacity() == old(self).capacity(),
            match r {
                Some(bytes) => {
                    &&& n <= old(self).remaining().len()
                    &&& bytes@ == old(self).remaining().take(n as int)
                    &&& final(self).remaining() == old(self).remaining().skip(n as int)
                },
                None => {
                    &&& n > old(self).remaining().len()
                    &&& final(self).remaining() == old(self).remaining()
                },
            },
    {
        proof {
            use_type_invariant(&*self);
        }
        if n > self.bytes.len() - self.pos {
            return None;
        }
        let out = slice_subrange(self.bytes, self.pos, self.pos + n);
        self.pos = self.pos + n;
        assert(out@ =~= old(self).remaining().take(n as int));
        assert(self.remaining() =~= old(self).remaining().skip(n as int));
        Some(out)
    }
}

} // verus!
