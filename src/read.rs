//! Input sources: a byte slice held in memory, or a stream read as it comes.
use crate::error::{Error, IoError, Result};
use crate::private::Sealed;
use vstd::prelude::*;

verus! {

/// A view of bytes handed out by a source: `Borrowed` points into the
/// source's own input and lives as long as it; `Copied` points into a
/// scratch buffer and lives only until the next read into it.
pub enum Reference<'b, 'c, T: ?Sized + 'static> {
    Borrowed(&'b T),
    Copied(&'c T),
}

impl<'b, 'c> Reference<'b, 'c, [u8]> {
    /// The bytes in view.
    pub open spec fn bytes(&self) -> Seq<u8> {
        match self {
            Reference::Borrowed(s) => s@,
            Reference::Copied(s) => s@,
        }
    }

    /// The bytes in view, whichever storage holds them.
    pub fn deref(&self) -> (r: &[u8])
        ensures
            r@ == self.bytes(),
    {
        match self {
            Reference::Borrowed(s) => s,
            Reference::Copied(s) => s,
        }
    }
}

/// A source of input bytes.
pub trait Read<'de>: Sealed {
    /// The bytes that the source will still deliver, where it holds its whole
    /// input in memory; `None` for a stream.
    spec fn pending(&self) -> Option<Seq<u8>>;

    /// The bytes that the source has handed out so far, in order.
    spec fn delivered(&self) -> Seq<u8>;

    /// The next byte, or `None` at the end of the input.
    fn next(&mut self) -> (r: Result<Option<u8>>)
        ensures
            old(self).pending() is Some <==> final(self).pending() is Some,
            r matches Err(x) ==> x is Io,
            r matches Ok(Some(b)) ==> final(self).delivered() == old(self).delivered().push(b),
            r matches Ok(None) ==> final(self).delivered() == old(self).delivered(),
            old(self).pending() is Some ==> {
                let p = old(self).pending()->0;
                if p.len() == 0 {
                    r == Ok::<Option<u8>, Error>(None) && final(self).pending() == Some(p)
                } else {
                    r == Ok::<Option<u8>, Error>(Some(p[0])) && final(self).pending() == Some(
                        p.drop_first(),
                    )
                }
            },
    ;

    /// A view of the next `len` bytes.
    fn read_ref<'s>(&mut self, len: usize, scratch: &'s mut Vec<u8>) -> (r: Result<
        Reference<'de, 's, [u8]>,
    >)
        ensures
            old(self).pending() is Some <==> final(self).pending() is Some,
            r matches Ok(v) ==> v.bytes().len() == len,
            len == 0 ==> (r matches Ok(v) && v.bytes().len() == 0),
            r matches Err(x) ==> x is Io,
            r matches Ok(v) ==> final(self).delivered() == old(self).delivered() + v.bytes(),
            old(self).pending() is Some ==> *final(scratch) == *old(scratch),
            old(self).pending() is Some ==> {
                let p = old(self).pending()->0;
                if len <= p.len() {
                    &&& r matches Ok(v) && v is Borrowed && v.bytes() == p.take(len as int)
                    &&& final(self).pending() == Some(p.skip(len as int))
                } else {
                    r matches Err(e) && e == Error::Io(IoError::UnexpectedEof)
                }
            },
            old(self).pending() is None ==> (r matches Ok(v) ==> v is Copied && v.bytes()
                == final(scratch)@),
    ;
}

/// A source that reads from a byte slice, handing out views into it.
pub struct SliceRead<'de> {
    slice: &'de [u8],
    index: usize,
}

impl<'de> SliceRead<'de> {
    #[verifier::type_invariant]
    spec fn inv(&self) -> bool {
        self.index <= self.slice@.len()
    }

    /// A source over `slice`, at its start.
    pub fn new(slice: &'de [u8]) -> (r: SliceRead<'de>)
        ensures
            r.pending() == Some(slice@),
            r.delivered() == Seq::<u8>::empty(),
    {
        SliceRead { slice, index: 0 }
    }
}

impl<'de> Sealed for SliceRead<'de> {

}

impl<'de> Read<'de> for SliceRead<'de> {
    closed spec fn pending(&self) -> Option<Seq<u8>> {
        if self.index <= self.slice@.len() {
            Some(self.slice@.skip(self.index as int))
        } else {
            Some(Seq::empty())
        }
    }

    closed spec fn delivered(&self) -> Seq<u8> {
        self.slice@.take(self.index as int)
    }

    fn next(&mut self) -> (r: Result<Option<u8>>) {
        proof {
            use_type_invariant(&*self);
        }
        if self.index < self.slice.len() {
            let ch = self.slice[self.index];
            self.index = self.index + 1;
            assert(self.slice@.skip(self.index as int) =~= old(self).pending()->0.drop_first());
            assert(self.slice@.take(self.index as int) =~= old(self).delivered().push(ch));
            Ok(Some(ch))
        } else {
            Ok(None)
        }
    }

    fn read_ref<'s>(&mut self, len: usize, scratch: &'s mut Vec<u8>) -> (r: Result<
        Reference<'de, 's, [u8]>,
    >) {
        proof {
            use_type_invariant(&*self);
        }
        if len <= self.slice.len() - self.index {
            let end = self.index + len;
            let bytes = vstd::slice::slice_subrange(self.slice, self.index, end);
            self.index = end;
            assert(bytes@ =~= old(self).pending()->0.take(len as int));
            assert(self.slice@.skip(end as int) =~= old(self).pending()->0.skip(len as int));
            assert(self.slice@.take(end as int) =~= old(self).delivered() + bytes@);
            return Ok(Reference::Borrowed(bytes));
        }
        Err(Error::Io(IoError::UnexpectedEof))
    }
}

/// A stream of bytes, pulled one at a time.
pub trait Stream {
    /// The next byte; `None` at the end of the stream; `Err` with the
    /// stream's message when it fails.
    fn next_byte(&mut self) -> core::result::Result<Option<u8>, String>;
}

/// A source that reads from a stream, copying what it reads into scratch space.
pub struct IoRead<R> {
    read: R,
    log: Ghost<Seq<u8>>,
}

impl<R: Stream> IoRead<R> {
    /// A source over `read`.
    pub fn new(read: R) -> (r: IoRead<R>)
        ensures
            r.inner() == read,
            r.pending() is None,
            r.delivered() == Seq::<u8>::empty(),
    {
        IoRead { read, log: Ghost(Seq::empty()) }
    }

    pub closed spec fn inner(&self) -> R {
        self.read
    }

    /// The stream, as the source is given up.
    pub fn into_inner(self) -> (r: R)
        ensures
            r == self.inner(),
    {
        self.read
    }
}

impl<R> Sealed for IoRead<R> {

}

impl<'de, R: Stream> Read<'de> for IoRead<R> {
    closed spec fn pending(&self) -> Option<Seq<u8>> {
        None
    }

    closed spec fn delivered(&self) -> Seq<u8> {
        self.log@
    }

    fn next(&mut self) -> (r: Result<Option<u8>>) {
        match self.read.next_byte() {
            Ok(Some(b)) => {
                self.log = Ghost(self.log@.push(b));
                Ok(Some(b))
            },
            Ok(None) => Ok(None),
            Err(m) => Err(Error::Io(IoError::Reader(m))),
        }
    }

    fn read_ref<'s>(&mut self, len: usize, scratch: &'s mut Vec<u8>) -> (r: Result<
        Reference<'de, 's, [u8]>,
    >) {
        scratch.clear();
        let ghost start = self.log@;
        let mut i: usize = 0;
        while i < len
            invariant
                scratch@.len() == i,
                i <= len,
                self.log@ == start + scratch@,
            decreases len - i,
        {
            match self.read.next_byte() {
                Ok(Some(b)) => {
                    scratch.push(b);
                    self.log = Ghost(self.log@.push(b));
                    assert(self.log@ =~= start + scratch@);
                },
                Ok(None) => {
                    return Err(Error::Io(IoError::UnexpectedEof));
                },
                Err(m) => {
                    return Err(Error::Io(IoError::Reader(m)));
                },
            }
            i = i + 1;
        }
        assert(start == old(self).delivered());
        Ok(Reference::Copied(scratch.as_slice()))
    }
}

} // verus!
