//! Buffers for serialization and deserialization.
//!
//! `DeBytesWriter` is a double-ended writer over a mutable byte slice: the head grows forward
//! from the start, the tail grows backward from the end, and `finalize` closes the gap.
//! `DeBytesReader` reads a byte slice from both ends.
use vstd::prelude::*;
use crate::errors::Error;

verus! {

/// Whether `n` more bytes fit into a writer with `room` bytes left (`None`: no limit).
pub open spec fn fits(room: Option<nat>, n: nat) -> bool {
    match room {
        Option::None => true,
        Option::Some(k) => n <= k,
    }
}

/// Room left after writing `n` bytes.
pub open spec fn room_after(room: Option<nat>, n: nat) -> Option<nat> {
    match room {
        Option::None => Option::None,
        Option::Some(k) => Option::Some((k - n) as nat),
    }
}

/// Writer to the head of a byte buffer
pub trait WriteBytes {
    /// Bytes written at the head so far.
    spec fn written(&self) -> Seq<u8>;

    /// Bytes held elsewhere in the buffer, which writing at the head leaves alone.
    spec fn held(&self) -> Seq<u8>;

    /// Bytes that can still be written, `None` when there is no limit.
    spec fn room(&self) -> Option<nat>;

    spec fn wf(&self) -> bool;

    /// Write to the byte buffer
    fn write(&mut self, value: &[u8]) -> (r: Result<(), Error>)
        requires
            old(self).wf(),
        ensures
            final(self).wf(),
            r is Ok <==> fits(old(self).room(), value@.len()),
            r is Ok ==> final(self).written() == old(self).written() + value@
                && final(self).held() == old(self).held()
                && final(self).room() == room_after(old(self).room(), value@.len()),
            r is Err ==> r == Err::<(), Error>(Error::BufferOverflow),
    ;
}

/// Writer to the tail of a double-ended buffer: what it writes goes in front of what it holds
pub trait TailWriteBytes: WriteBytes {
    /// Write to the tail of the byte buffer
    fn write_tail(&mut self, value: &[u8]) -> (r: Result<(), Error>)
        requires
            old(self).wf(),
        ensures
            final(self).wf(),
            r is Ok <==> fits(old(self).room(), value@.len()),
            r is Ok ==> final(self).held() == value@ + old(self).held()
                && final(self).written() == old(self).written()
                && final(self).room() == room_after(old(self).room(), value@.len()),
            r is Err ==> r == Err::<(), Error>(Error::BufferOverflow),
    ;
}

/// Growable byte buffers for serialized data
pub trait BytesBufExt: WriteBytes + Sized {
    /// An empty buffer with room reserved for `n` bytes
    fn with_reserve(n: usize) -> (r: Self)
        ensures
            r.wf(),
            r.written() == Seq::<u8>::empty(),
    ;

    /// The bytes written, as a vector
    fn into_vec8(self) -> (r: Vec<u8>)
        ensures
            r@ == self.written(),
    ;
}

impl BytesBufExt for Vec<u8> {
    fn with_reserve(n: usize) -> (r: Self) {
        Vec::with_capacity(n)
    }

    fn into_vec8(self) -> (r: Vec<u8>) {
        self
    }
}

/// Appends to the vector: no limit, nothing held.
impl WriteBytes for Vec<u8> {
    open spec fn written(&self) -> Seq<u8> {
        self@
    }

    open spec fn held(&self) -> Seq<u8> {
        Seq::empty()
    }

    open spec fn room(&self) -> Option<nat> {
        Option::None
    }

    open spec fn wf(&self) -> bool {
        true
    }

    fn write(&mut self, value: &[u8]) -> (r: Result<(), Error>) {
        let mut i: usize = 0;
        while i < value.len()
            invariant
                i <= value@.len(),
                self@ == old(self)@ + value@.subrange(0, i as int),
            decreases value@.len() - i,
        {
            self.push(value[i]);
            i = i + 1;
            assert(value@.subrange(0, i as int) == value@.subrange(0, i - 1 as int).push(value@[i - 1]));
        }
        assert(value@.subrange(0, value@.len() as int) == value@);
        Ok(())
    }
}

/// Double-ended writer over a mutable byte slice
///
/// The head `buf[..head]` grows forward, the tail `buf[tail..]` grows backward; writes fail
/// with `BufferOverflow` when they would cross. `0 <= head <= tail <= buf.len()` holds
/// throughout (`wf`).
pub struct DeBytesWriter<'a> {
    pub buf: &'a mut [u8],
    pub head: usize,
    pub tail: usize,
}

impl<'a> DeBytesWriter<'a> {
    pub open spec fn wf(&self) -> bool {
        self.head <= self.tail <= self.buf@.len()
    }

    /// Bytes written at the head.
    pub open spec fn head_data(&self) -> Seq<u8> {
        self.buf@.subrange(0, self.head as int)
    }

    /// Bytes written at the tail, in buffer order.
    pub open spec fn tail_data(&self) -> Seq<u8> {
        self.buf@.subrange(self.tail as int, self.buf@.len() as int)
    }

    /// Unused space between head and tail.
    pub open spec fn gap(&self) -> nat {
        (self.tail - self.head) as nat
    }

    /// Use the provided byte slice as buffer
    pub fn new(buf: &'a mut [u8]) -> (r: Self)
        ensures
            r.wf(),
            r.buf@ == old(buf)@,
            final(r.buf)@ == final(buf)@,
            r.head == 0,
            r.tail == old(buf)@.len(),
            r.head_data() == Seq::<u8>::empty(),
            r.tail_data() == Seq::<u8>::empty(),
    {
        let tail = buf.len();
        DeBytesWriter { buf, head: 0, tail }
    }

    /// Write `value` at the head
    pub fn write(&mut self, value: &[u8]) -> (r: Result<(), Error>)
        requires
            old(self).wf(),
        ensures
            final(self).wf(),
            final(final(self).buf)@ == final(old(self).buf)@,
            final(self).buf@.len() == old(self).buf@.len(),
            final(self).tail == old(self).tail,
            final(self).tail_data() == old(self).tail_data(),
            r is Ok <==> value@.len() <= old(self).gap(),
            r is Ok ==> final(self).head == old(self).head + value@.len()
                && final(self).head_data() == old(self).head_data() + value@
                && final(self).buf@.subrange(final(self).head as int, final(self).tail as int)
                == old(self).buf@.subrange(final(self).head as int, old(self).tail as int),
            r is Err ==> r == Err::<(), Error>(Error::BufferOverflow)
                && final(self).head == old(self).head
                && final(self).buf@ == old(self).buf@,
    {
        if value.len() > self.tail - self.head {
            return Err(Error::BufferOverflow);
        }
        let start = self.head;
        let mut i: usize = 0;
        while i < value.len()
            invariant
                self.wf(),
                final(self.buf)@ == final(old(self).buf)@,
                self.head == start,
                self.tail == old(self).tail,
                start == old(self).head,
                start + value@.len() <= self.tail,
                self.buf@.len() == old(self).buf@.len(),
                i <= value@.len(),
                forall|k: int| 0 <= k < start ==> self.buf@[k] == old(self).buf@[k],
                forall|k: int| start <= k < start + i ==> self.buf@[k] == value@[k - start],
                forall|k: int| start + value@.len() <= k < self.buf@.len() ==> self.buf@[k] == old(self).buf@[k],
            decreases value@.len() - i,
        {
            self.buf[start + i] = value[i];
            i = i + 1;
        }
        self.head = start + value.len();
        assert(self.head_data() =~= old(self).head_data() + value@);
        assert(self.buf@.subrange(self.head as int, self.tail as int) =~= old(self).buf@.subrange(self.head as int, old(self).tail as int));
        assert(self.tail_data() =~= old(self).tail_data());
        Ok(())
    }

    /// Write `value` at the tail, just before the bytes written there so far
    pub fn write_tail(&mut self, value: &[u8]) -> (r: Result<(), Error>)
        requires
            old(self).wf(),
        ensures
            final(self).wf(),
            final(final(self).buf)@ == final(old(self).buf)@,
            final(self).buf@.len() == old(self).buf@.len(),
            final(self).head == old(self).head,
            final(self).head_data() == old(self).head_data(),
            r is Ok <==> value@.len() <= old(self).gap(),
            r is Ok ==> final(self).tail == old(self).tail - value@.len()
                && final(self).tail_data() == value@ + old(self).tail_data()
                && final(self).buf@.subrange(old(self).head as int, final(self).tail as int)
                == old(self).buf@.subrange(old(self).head as int, final(self).tail as int),
            r is Err ==> r == Err::<(), Error>(Error::BufferOverflow)
                && final(self).tail == old(self).tail
                && final(self).buf@ == old(self).buf@,
    {
        if value.len() > self.tail - self.head {
            return Err(Error::BufferOverflow);
        }
        let start = self.tail - value.len();
        let mut i: usize = 0;
        while i < value.len()
            invariant
                self.wf(),
                final(self.buf)@ == final(old(self).buf)@,
                self.head == old(self).head,
                self.tail == old(self).tail,
                start == old(self).tail - value@.len(),
                self.head <= start,
                self.buf@.len() == old(self).buf@.len(),
                i <= value@.len(),
                forall|k: int| 0 <= k < start ==> self.buf@[k] == old(self).buf@[k],
                forall|k: int| start <= k < start + i ==> self.buf@[k] == value@[k - start],
                forall|k: int| self.tail <= k < self.buf@.len() ==> self.buf@[k] == old(self).buf@[k],
            decreases value@.len() - i,
        {
            self.buf[start + i] = value[i];
            i = i + 1;
        }
        self.tail = start;
        assert(self.head_data() =~= old(self).head_data());
        assert(self.buf@.subrange(old(self).head as int, self.tail as int) =~= old(self).buf@.subrange(old(self).head as int, self.tail as int));
        assert(self.tail_data() =~= value@ + old(self).tail_data());
        Ok(())
    }

    /// Finalize by collapsing the gap between head and tail
    ///
    /// Returns the data length: the head bytes followed by the tail bytes now stand at the
    /// start of the buffer. Afterwards the two cursors are equal.
    pub fn finalize(&mut self) -> (r: Result<usize, Error>)
        requires
            old(self).wf(),
        ensures
            final(self).wf(),
            final(final(self).buf)@ == final(old(self).buf)@,
            final(self).buf@.len() == old(self).buf@.len(),
            final(self).head == final(self).tail,
            r == Ok::<usize, Error>((old(self).head + old(self).buf@.len() - old(self).tail) as usize),
            final(self).buf@.subrange(0, r.unwrap() as int) == old(self).head_data() + old(self).tail_data(),
    {
        let len = self.buf.len();
        if self.head == self.tail {
            assert(self.buf@.subrange(0, len as int) =~= self.head_data() + self.tail_data());
            return Ok(len);
        }
        let head = self.head;
        let tail = self.tail;
        let mut i: usize = 0;
        while i < len - tail
            invariant
                final(self.buf)@ == final(old(self).buf)@,
                self.head == head,
                self.tail == tail,
                head == old(self).head,
                tail == old(self).tail,
                head < tail <= len,
                len == self.buf@.len(),
                self.buf@.len() == old(self).buf@.len(),
                i <= len - tail,
                forall|k: int| 0 <= k < head ==> self.buf@[k] == old(self).buf@[k],
                forall|k: int| head <= k < head + i ==> self.buf@[k] == old(self).buf@[k - head + tail],
                forall|k: int| tail + i <= k < len ==> self.buf@[k] == old(self).buf@[k],
            decreases len - tail - i,
        {
            let b = self.buf[tail + i];
            self.buf[head + i] = b;
            i = i + 1;
        }
        let n = len - (tail - head);
        self.head = self.tail;
        assert(self.buf@.subrange(0, n as int) =~= old(self).head_data() + old(self).tail_data());
        Ok(n)
    }

    /// Checks that the buffer is completely filled
    pub fn is_complete(&self) -> (r: Result<(), Error>)
        ensures
            r is Ok <==> self.head == self.tail,
            r is Err ==> r == Err::<(), Error>(Error::BufferUnderflow),
    {
        if self.head == self.tail {
            Ok(())
        } else {
            Err(Error::BufferUnderflow)
        }
    }
}

/// Head writes of a `DeBytesWriter`; the tail is what it holds.
impl<'a> WriteBytes for DeBytesWriter<'a> {
    open spec fn written(&self) -> Seq<u8> {
        self.head_data()
    }

    open spec fn held(&self) -> Seq<u8> {
        self.tail_data()
    }

    open spec fn room(&self) -> Option<nat> {
        Option::Some(self.gap())
    }

    open spec fn wf(&self) -> bool {
        self.head <= self.tail <= self.buf@.len()
    }

    fn write(&mut self, value: &[u8]) -> (r: Result<(), Error>) {
        DeBytesWriter::write(self, value)
    }
}

impl<'a> TailWriteBytes for DeBytesWriter<'a> {
    fn write_tail(&mut self, value: &[u8]) -> (r: Result<(), Error>) {
        DeBytesWriter::write_tail(self, value)
    }
}

/// Double-ended writer over a mutable byte slice (another name of `DeBytesWriter`)
pub type BiBuffer<'a> = DeBytesWriter<'a>;

/// Double-ended reader over a byte slice (another name of `DeBytesReader`)
pub type BytesReader<'a> = DeBytesReader<'a>;

/// Reader from the head of a byte buffer
pub trait ReadBytes<'a> {
    /// The bytes not read yet.
    spec fn remaining(&self) -> Seq<u8>;

    /// Peek at the first `n` bytes
    fn peek(&self, n: usize) -> (r: Result<&'a [u8], Error>)
        ensures
            r is Ok <==> n <= self.remaining().len(),
            r is Ok ==> r.unwrap()@ == self.remaining().subrange(0, n as int),
            r is Err ==> r == Err::<&'a [u8], Error>(Error::PrematureEndOfInput),
    ;

    /// Drop the first `n` bytes
    fn advance(&mut self, n: usize)
        requires
            n <= old(self).remaining().len(),
        ensures
            final(self).remaining() == old(self).remaining().subrange(n as int, old(self).remaining().len() as int),
    ;

    /// Take the first `n` bytes
    fn read(&mut self, n: usize) -> (r: Result<&'a [u8], Error>)
        ensures
            r is Ok <==> n <= old(self).remaining().len(),
            r is Ok ==> r.unwrap()@ == old(self).remaining().subrange(0, n as int)
                && final(self).remaining() == old(self).remaining().subrange(n as int, old(self).remaining().len() as int),
            r is Err ==> r == Err::<&'a [u8], Error>(Error::PrematureEndOfInput)
                && final(self).remaining() == old(self).remaining(),
    ;

    /// The bytes not read yet
    fn remaining_buffer(&self) -> (r: &'a [u8])
        ensures
            r@ == self.remaining(),
    ;

    /// Check that the buffer is fully consumed
    fn is_complete(&self) -> (r: Result<(), Error>)
        ensures
            r is Ok <==> self.remaining().len() == 0,
            r is Err ==> r == Err::<(), Error>(Error::BufferUnderflow),
    ;
}

/// Reader from both ends of a byte buffer
pub trait TailReadBytes<'a>: ReadBytes<'a> {
    /// Peek at the last `n` bytes
    fn peek_tail(&self, n: usize) -> (r: Result<&'a [u8], Error>)
        ensures
            r is Ok <==> n <= self.remaining().len(),
            r is Ok ==> r.unwrap()@ == self.remaining().subrange(self.remaining().len() - n, self.remaining().len() as int),
            r is Err ==> r == Err::<&'a [u8], Error>(Error::PrematureEndOfInput),
    ;

    /// Drop the last `n` bytes
    fn advance_tail(&mut self, n: usize)
        requires
            n <= old(self).remaining().len(),
        ensures
            final(self).remaining() == old(self).remaining().subrange(0, old(self).remaining().len() - n),
    ;

    /// Take the last `n` bytes
    fn read_tail(&mut self, n: usize) -> (r: Result<&'a [u8], Error>)
        ensures
            r is Ok <==> n <= old(self).remaining().len(),
            r is Ok ==> r.unwrap()@ == old(self).remaining().subrange(
                old(self).remaining().len() - n,
                old(self).remaining().len() as int,
            ) && final(self).remaining() == old(self).remaining().subrange(0, old(self).remaining().len() - n),
            r is Err ==> r == Err::<&'a [u8], Error>(Error::PrematureEndOfInput)
                && final(self).remaining() == old(self).remaining(),
    ;
}

/// Double-ended reader over a byte slice
///
/// Reads advance inward from both ends; its view is the part not read yet.
pub struct DeBytesReader<'a> {
    buf: &'a [u8],
}

impl<'a> View for DeBytesReader<'a> {
    type V = Seq<u8>;

    closed spec fn view(&self) -> Seq<u8> {
        self.buf@
    }
}

impl<'a> DeBytesReader<'a> {
    /// Construct a reader over the provided byte slice
    pub fn new(buf: &'a [u8]) -> (r: Self)
        ensures
            r@ == buf@,
    {
        DeBytesReader { buf }
    }

    /// The bytes not read yet
    pub fn remaining_buffer(&self) -> (r: &'a [u8])
        ensures
            r@ == self@,
    {
        self.buf
    }

    /// Peek at the first `n` bytes
    pub fn peek(&self, n: usize) -> (r: Result<&'a [u8], Error>)
        ensures
            r is Ok <==> n <= self@.len(),
            r is Ok ==> r.unwrap()@ == self@.subrange(0, n as int),
            r is Err ==> r == Err::<&'a [u8], Error>(Error::PrematureEndOfInput),
    {
        if n <= self.buf.len() {
            Ok(vstd::slice::slice_subrange(self.buf, 0, n))
        } else {
            Err(Error::PrematureEndOfInput)
        }
    }

    /// Drop the first `n` bytes
    pub fn advance(&mut self, n: usize)
        requires
            n <= old(self)@.len(),
        ensures
            final(self)@ == old(self)@.subrange(n as int, old(self)@.len() as int),
    {
        self.buf = vstd::slice::slice_subrange(self.buf, n, self.buf.len());
    }

    /// Take the first `n` bytes
    pub fn read(&mut self, n: usize) -> (r: Result<&'a [u8], Error>)
        ensures
            r is Ok <==> n <= old(self)@.len(),
            r is Ok ==> r.unwrap()@ == old(self)@.subrange(0, n as int)
                && final(self)@ == old(self)@.subrange(n as int, old(self)@.len() as int),
            r is Err ==> r == Err::<&'a [u8], Error>(Error::PrematureEndOfInput)
                && final(self)@ == old(self)@,
    {
        let r = self.peek(n);
        if r.is_ok() {
            self.advance(n);
        }
        r
    }

    /// Peek at the last `n` bytes
    pub fn peek_tail(&self, n: usize) -> (r: Result<&'a [u8], Error>)
        ensures
            r is Ok <==> n <= self@.len(),
            r is Ok ==> r.unwrap()@ == self@.subrange(self@.len() - n, self@.len() as int),
            r is Err ==> r == Err::<&'a [u8], Error>(Error::PrematureEndOfInput),
    {
        if n <= self.buf.len() {
            Ok(vstd::slice::slice_subrange(self.buf, self.buf.len() - n, self.buf.len()))
        } else {
            Err(Error::PrematureEndOfInput)
        }
    }

    /// Drop the last `n` bytes
    pub fn advance_tail(&mut self, n: usize)
        requires
            n <= old(self)@.len(),
        ensures
            final(self)@ == old(self)@.subrange(0, old(self)@.len() - n),
    {
        self.buf = vstd::slice::slice_subrange(self.buf, 0, self.buf.len() - n);
    }

    /// Take the last `n` bytes
    pub fn read_tail(&mut self, n: usize) -> (r: Result<&'a [u8], Error>)
        ensures
            r is Ok <==> n <= old(self)@.len(),
            r is Ok ==> r.unwrap()@ == old(self)@.subrange(old(self)@.len() - n, old(self)@.len() as int)
                && final(self)@ == old(self)@.subrange(0, old(self)@.len() - n),
            r is Err ==> r == Err::<&'a [u8], Error>(Error::PrematureEndOfInput)
                && final(self)@ == old(self)@,
    {
        let r = self.peek_tail(n);
        if r.is_ok() {
            self.advance_tail(n);
        }
        r
    }

    /// Check that the buffer is fully consumed
    pub fn is_complete(&self) -> (r: Result<(), Error>)
        ensures
            r is Ok <==> self@.len() == 0,
            r is Err ==> r == Err::<(), Error>(Error::BufferUnderflow),
    {
        if self.buf.len() == 0 {
            Ok(())
        } else {
            Err(Error::BufferUnderflow)
        }
    }
}

impl<'a> ReadBytes<'a> for DeBytesReader<'a> {
    open spec fn remaining(&self) -> Seq<u8> {
        self@
    }

    fn peek(&self, n: usize) -> (r: Result<&'a [u8], Error>) {
        DeBytesReader::peek(self, n)
    }

    fn advance(&mut self, n: usize) {
        DeBytesReader::advance(self, n)
    }

    fn read(&mut self, n: usize) -> (r: Result<&'a [u8], Error>) {
        DeBytesReader::read(self, n)
    }

    fn remaining_buffer(&self) -> (r: &'a [u8]) {
        DeBytesReader::remaining_buffer(self)
    }

    fn is_complete(&self) -> (r: Result<(), Error>) {
        DeBytesReader::is_complete(self)
    }
}

impl<'a> TailReadBytes<'a> for DeBytesReader<'a> {
    fn peek_tail(&self, n: usize) -> (r: Result<&'a [u8], Error>) {
        DeBytesReader::peek_tail(self, n)
    }

    fn advance_tail(&mut self, n: usize) {
        DeBytesReader::advance_tail(self, n)
    }

    fn read_tail(&mut self, n: usize) -> (r: Result<&'a [u8], Error>) {
        DeBytesReader::read_tail(self, n)
    }
}

} // verus!
