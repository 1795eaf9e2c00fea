//! The copy engine: moves every remaining byte of a source stream into a
//! destination stream through a bounded buffer. The streams are the narrow
//! interface the engine consumes; backends outside the library implement them
//! over files and network sessions, and the in-memory pair below implements
//! them inside it.

use vstd::prelude::*;

verus! {

/// A read or write call failed in the backend.
#[derive(Clone, Copy, Debug, PartialEq, Eq, Structural)]
pub struct IoFault;

/// A sequential byte source, modelled by the bytes it has yet to yield.
pub trait ReadStream {
    /// The bytes not yet read.
    spec fn remaining(&self) -> Seq<u8>;

    /// Reads some bytes into `buf[start..]`, returning how many. Zero means
    /// the source is exhausted, and only that.
    fn read_into(&mut self, buf: &mut Vec<u8>, start: usize) -> (r: Result<usize, IoFault>)
        requires
            start < old(buf).len(),
        ensures
            final(buf).len() == old(buf).len(),
            forall|k: int| 0 <= k < start ==> final(buf)@[k] == old(buf)@[k],
            r matches Ok(n) ==> {
                &&& n <= old(buf).len() - start
                &&& n <= old(self).remaining().len()
                &&& final(buf)@.subrange(start as int, start + n) == old(self).remaining().take(
                    n as int,
                )
                &&& final(self).remaining() == old(self).remaining().skip(n as int)
                &&& (n == 0 <==> old(self).remaining().len() == 0)
            },
    ;
}

/// A sequential byte sink, modelled by everything written to it.
pub trait WriteStream {
    /// The bytes written so far.
    spec fn written(&self) -> Seq<u8>;

    /// Writes exactly the first `n` bytes of the buffer.
    fn write_all_bytes(&mut self, buf: &Vec<u8>, n: usize) -> (r: Result<(), IoFault>)
        requires
            n <= buf.len(),
        ensures
            r is Ok ==> final(self).written() == old(self).written() + buf@.take(n as int),
    ;
}

/// Why a copy failed.
#[derive(Clone, Copy, Debug, PartialEq, Eq, Structural)]
pub enum CopyError {
    /// A read or write call failed.
    Fault,
    /// The byte count left the counter's range.
    TooLarge,
}

/// Copies every remaining source byte to the destination through a buffer of
/// `buff_size` bytes, returning the number of bytes copied.
pub fn copier<R: ReadStream, W: WriteStream>(reader: &mut R, writer: &mut W, buff_size: usize) -> (r:
    Result<u64, CopyError>)
    requires
        buff_size > 0,
    ensures
        r matches Ok(total) ==> {
            &&& final(writer).written() == old(writer).written() + old(reader).remaining()
            &&& final(reader).remaining().len() == 0
            &&& total == old(reader).remaining().len()
        },
{
    let ghost r0 = reader.remaining();
    let ghost w0 = writer.written();
    let mut buf: Vec<u8> = vec![0u8; buff_size];
    let mut total: u64 = 0;
    let mut done = false;
    while !done
        invariant
            buf.len() == buff_size,
            buff_size > 0,
            total <= r0.len(),
            reader.remaining() == r0.skip(total as int),
            writer.written() == w0 + r0.take(total as int),
            done ==> reader.remaining().len() == 0,
        decreases r0.len() - total, (if done {
            0int
        } else {
            1int
        }),
    {
        let n = match reader.read_into(&mut buf, 0) {
            Err(_) => {
                return Err(CopyError::Fault);
            },
            Ok(n) => n,
        };
        if n == 0 {
            done = true;
        } else {
            proof {
                assert(buf@.subrange(0, n as int) == buf@.take(n as int));
            }
            match writer.write_all_bytes(&buf, n) {
                Err(_) => {
                    return Err(CopyError::Fault);
                },
                Ok(_) => {},
            }
            let new_total = match total.checked_add(n as u64) {
                None => {
                    return Err(CopyError::TooLarge);
                },
                Some(t) => t,
            };
            proof {
                assert(r0.take(new_total as int) =~= r0.take(total as int) + r0.skip(
                    total as int,
                ).take(n as int));
            }
            total = new_total;
        }
    }
    proof {
        assert(r0.skip(total as int).len() == 0);
        assert(r0.take(total as int) =~= r0);
    }
    Ok(total)
}

/// Reads into the buffer until it is full or the source is exhausted,
/// returning how much of the buffer was filled.
pub fn fill_buff<R: ReadStream>(handle: &mut R, buff: &mut Vec<u8>) -> (r: Result<usize, IoFault>)
    requires
        old(buff).len() > 0,
    ensures
        final(buff).len() == old(buff).len(),
        r matches Ok(sz) ==> {
            &&& sz <= old(buff).len()
            &&& sz <= old(handle).remaining().len()
            &&& final(buff)@.take(sz as int) == old(handle).remaining().take(sz as int)
            &&& final(handle).remaining() == old(handle).remaining().skip(sz as int)
            &&& (sz == old(buff).len() || final(handle).remaining().len() == 0)
        },
{
    let ghost r0 = handle.remaining();
    let len = buff.len();
    let mut sz: usize = 0;
    let mut done = false;
    while !done
        invariant
            sz <= len,
            sz <= r0.len(),
            len == buff.len(),
            len == old(buff).len(),
            len > 0,
            buff@.take(sz as int) == r0.take(sz as int),
            handle.remaining() == r0.skip(sz as int),
            done ==> (sz == len || handle.remaining().len() == 0),
        decreases len - sz, (if done {
            0int
        } else {
            1int
        }),
    {
        if sz == len {
            done = true;
        } else {
            let ghost buff_before = buff@;
            let n = match handle.read_into(buff, sz) {
                Err(_) => {
                    return Err(IoFault);
                },
                Ok(n) => n,
            };
            if n == 0 {
                done = true;
            } else {
                proof {
                    assert(buff@.take(sz + n) =~= buff@.take(sz as int) + buff@.subrange(
                        sz as int,
                        sz + n,
                    ));
                    assert(buff@.take(sz as int) =~= buff_before.take(sz as int));
                    assert(r0.take(sz + n) =~= r0.take(sz as int) + r0.skip(sz as int).take(
                        n as int,
                    ));
                }
                sz += n;
            }
        }
    }
    Ok(sz)
}

/// An in-memory byte source: a buffer and a cursor over it.
pub struct MemReader {
    data: Vec<u8>,
    pos: usize,
}

impl MemReader {
    /// A source that will yield exactly the given bytes.
    pub fn new(data: Vec<u8>) -> (r: MemReader)
        ensures
            r.remaining() == data@,
    {
        MemReader { data, pos: 0 }
    }
}

impl ReadStream for MemReader {
    closed spec fn remaining(&self) -> Seq<u8> {
        if self.pos <= self.data@.len() {
            self.data@.skip(self.pos as int)
        } else {
            Seq::empty()
        }
    }

    fn read_into(&mut self, buf: &mut Vec<u8>, start: usize) -> (r: Result<usize, IoFault>) {
        let avail = if self.pos <= self.data.len() {
            self.data.len() - self.pos
        } else {
            0
        };
        let room = buf.len() - start;
        let n = if avail < room {
            avail
        } else {
            room
        };
        if n > 0 {
            let mut k: usize = 0;
            while k < n
                invariant
                    k <= n,
                    n > 0,
                    start + n <= buf.len(),
                    self.pos + n <= self.data.len(),
                    self == old(self),
                    buf.len() == old(buf).len(),
                    forall|q: int| 0 <= q < start ==> buf@[q] == old(buf)@[q],
                    forall|q: int|
                        0 <= q < k ==> #[trigger] buf@[start + q] == self.data@[self.pos + q],
                decreases n - k,
            {
                let b = self.data[self.pos + k];
                buf[start + k] = b;
                k += 1;
            }
        }
        proof {
            assert(n <= self.remaining().len());
            assert forall|q: int| 0 <= q < n implies buf@.subrange(start as int, start + n)[q]
                == self.remaining().take(n as int)[q] by {
                assert(buf@[start + q] == self.data@[self.pos + q]);
            }
            assert(buf@.subrange(start as int, start + n) =~= self.remaining().take(n as int));
        }
        self.pos = self.pos + n;
        proof {
            assert(self.remaining() =~= old(self).remaining().skip(n as int));
        }
                Ok(n)
    }
}

/// An in-memory byte sink: it accumulates everything written.
pub struct MemWriter {
    data: Vec<u8>,
}

impl MemWriter {
    /// An empty sink.
    pub fn new() -> (r: MemWriter)
        ensures
            r.written() == Seq::<u8>::empty(),
    {
        MemWriter { data: Vec::new() }
    }

    /// Hands out everything written so far.
    pub fn into_bytes(self) -> (r: Vec<u8>)
        ensures
            r@ == self.written(),
    {
        self.data
    }
}

impl WriteStream for MemWriter {
    closed spec fn written(&self) -> Seq<u8> {
        self.data@
    }

    fn write_all_bytes(&mut self, buf: &Vec<u8>, n: usize) -> (r: Result<(), IoFault>) {
        let mut k: usize = 0;
        while k < n
            invariant
                k <= n,
                n <= buf.len(),
                self.data@ == old(self).data@ + buf@.take(k as int),
            decreases n - k,
        {
            proof {
                assert(buf@.take(k + 1) =~= buf@.take(k as int).push(buf@[k as int]));
            }
            let b = buf[k];
            self.data.push(b);
            k += 1;
        }
        Ok(())
    }
}

} // verus!
