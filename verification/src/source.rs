//! Data-source abstraction: random-access reads shared across threads.

use vstd::prelude::*;

verus! {

/// What can go wrong when a source is read.
#[verifier::external_type_specification]
#[verifier::external_body]
pub struct ExIoError(std::io::Error);

/// How many of `room` bytes can be read at `offset` of `data`.
pub open spec fn available(data: Seq<u8>, offset: int, room: nat) -> nat {
    if offset >= data.len() {
        0
    } else if data.len() - offset < room {
        (data.len() - offset) as nat
    } else {
        room
    }
}

/// A buffer after the first `n` bytes of `data` from `offset` on were read
/// into it: what lies behind them is untouched.
pub open spec fn filled(data: Seq<u8>, offset: int, n: nat, buf: Seq<u8>) -> Seq<u8> {
    data.subrange(offset, offset + n) + buf.skip(n as int)
}

/// What comes after one read of several.
pub enum ReadStep {
    /// Read on: so many bytes are there.
    More(usize),
    /// All is read, or the source has ended.
    Done,
    /// Reading failed.
    Failed(std::io::Error),
}

/// What comes after a read, with `done` of `total` bytes there before it: more
/// reading until all is there or a read gives nothing; the error of a read that
/// fails is passed on.
pub fn read_step(outcome: Result<usize, std::io::Error>, done: usize, total: usize) -> (res: ReadStep)
    requires
        done <= total,
        outcome matches Ok(n) ==> n <= total - done,
    ensures
        res == match outcome {
            Err(e) => ReadStep::Failed(e),
            Ok(n) => if n == 0 || done + n == total {
                ReadStep::Done
            } else {
                ReadStep::More((done + n) as usize)
            },
        },
{
    match outcome {
        Err(e) => ReadStep::Failed(e),
        Ok(n) => {
            if n == 0 || done + n == total {
                ReadStep::Done
            } else {
                ReadStep::More(done + n)
            }
        },
    }
}

/// A seekable data source supporting positioned reads from many threads at
/// once, the access pattern that the stratified sampler relies on.
pub trait Source: Send + Sync {
    /// The bytes of the source, if it is known to hold always the same, and
    /// reading it cannot fail.
    open spec fn bytes(&self) -> Option<Seq<u8>> {
        None
    }

    /// Total length in bytes.
    fn len(&self) -> (res: u64)
        ensures
            self.bytes() matches Some(data) ==> res == data.len(),
    ;

    /// Read up to `buf.len()` bytes starting at `offset`; returns bytes read.
    fn read_at(&self, offset: u64, buf: &mut [u8]) -> (res: Result<usize, std::io::Error>)
        ensures
            final(buf)@.len() == old(buf)@.len(),
            res matches Ok(n) ==> n <= old(buf)@.len(),
            self.bytes() matches Some(data) ==> {
                &&& res matches Ok(n)
                &&& n <= available(data, offset as int, old(buf)@.len())
                &&& offset + n <= u64::MAX
                &&& n == 0 ==> available(data, offset as int, old(buf)@.len()) == 0
                &&& n > 0 ==> final(buf)@ == filled(data, offset as int, n as nat, old(buf)@)
                &&& n == 0 ==> final(buf)@ == old(buf)@
            },
    ;

    /// Whether the source holds nothing.
    fn is_empty(&self) -> (res: bool)
        ensures
            self.bytes() matches Some(data) ==> res == (data.len() == 0),
    {
        self.len() == 0
    }

    /// Read exactly `buf.len()` bytes (or fewer at EOF) starting at `offset`.
    fn read_exact_at(&self, offset: u64, buf: &mut [u8]) -> (res: Result<(), std::io::Error>)
        ensures
            final(buf)@.len() == old(buf)@.len(),
            old(buf)@.len() == 0 ==> res is Ok,
            self.bytes() matches Some(data) ==> {
                let n = available(data, offset as int, old(buf)@.len());
                &&& res is Ok
                &&& n > 0 ==> final(buf)@ == filled(data, offset as int, n, old(buf)@)
                &&& n == 0 ==> final(buf)@ == old(buf)@
            },
    {
        let total: usize = buf.len();
        let mut done: usize = 0;
        while done < total
            invariant
                done <= total,
                total == buf@.len(),
                total == old(buf)@.len(),
                self.bytes() matches Some(data) ==> {
                    &&& offset + done <= u64::MAX
                    &&& done <= available(data, offset as int, total as nat)
                    &&& done > 0 ==> buf@ == filled(data, offset as int, done as nat, old(buf)@)
                    &&& done == 0 ==> buf@ == old(buf)@
                },
            decreases total - done,
        {
            if done as u64 > u64::MAX - offset {
                // No source reaches further.
                return Ok(());
            }
            let (_, rest) = buf.split_at_mut(done);
            let outcome = self.read_at(offset + done as u64, rest);
            match read_step(outcome, done, total) {
                ReadStep::Failed(e) => {
                    return Err(e);
                },
                ReadStep::Done => {
                    return Ok(());
                },
                ReadStep::More(now) => {
                    done = now;
                },
            }
        }
        Ok(())
    }
}

/// Copy what can be read of `data` at `offset` into `buf`.
fn copy_at(data: &[u8], offset: u64, buf: &mut [u8]) -> (res: usize)
    ensures
        final(buf)@.len() == old(buf)@.len(),
        res == available(data@, offset as int, old(buf)@.len()),
        offset + res <= u64::MAX,
        res > 0 ==> final(buf)@ == filled(data@, offset as int, res as nat, old(buf)@),
        res == 0 ==> final(buf)@ == old(buf)@,
{
    let len: usize = data.len();
    if offset >= len as u64 {
        return 0;
    }
    let start: usize = offset as usize;
    let room: usize = buf.len();
    let n: usize = if room < len - start {
        room
    } else {
        len - start
    };
    let mut i: usize = 0;
    while i < n
        invariant
            i <= n,
            start + n <= len,
            len == data@.len(),
            n <= buf@.len(),
            buf@.len() == old(buf)@.len(),
            buf@ =~= data@.subrange(start as int, start + i) + old(buf)@.skip(i as int),
        decreases n - i,
    {
        buf[i] = data[start + i];
        i = i + 1;
    }
    n
}

impl Source for [u8] {
    open spec fn bytes(&self) -> Option<Seq<u8>> {
        Some(self@)
    }

    fn len(&self) -> (res: u64) {
        let data: &[u8] = self;
        <[u8]>::len(data) as u64
    }

    fn read_at(&self, offset: u64, buf: &mut [u8]) -> (res: Result<usize, std::io::Error>)
        ensures
            res == Ok::<usize, std::io::Error>(
                available(self@, offset as int, old(buf)@.len()) as usize,
            ),
    {
        Ok(copy_at(self, offset, buf))
    }
}

impl Source for &[u8] {
    open spec fn bytes(&self) -> Option<Seq<u8>> {
        Some(self@)
    }

    fn len(&self) -> (res: u64) {
        let data: &[u8] = self;
        <[u8]>::len(data) as u64
    }

    fn read_at(&self, offset: u64, buf: &mut [u8]) -> (res: Result<usize, std::io::Error>)
        ensures
            res == Ok::<usize, std::io::Error>(
                available(self@, offset as int, old(buf)@.len()) as usize,
            ),
    {
        Ok(copy_at(self, offset, buf))
    }
}

/// What a read leaves in a buffer: as many bytes as there are in the source
/// behind the offset, up to the buffer's length, each where it belongs, and
/// the rest of the buffer as it was.
pub proof fn lemma_what_is_read(data: Seq<u8>, offset: int, buf: Seq<u8>)
    requires
        0 <= offset,
    ensures
        ({
            let n = available(data, offset, buf.len());
            let after = filled(data, offset, n, buf);
            &&& n <= buf.len()
            &&& n == buf.len() || offset + n >= data.len()
            &&& n > 0 ==> offset + n <= data.len()
            &&& n > 0 ==> after.len() == buf.len()
            &&& n > 0 ==> forall|i: int|
                0 <= i < buf.len() ==> #[trigger] after[i] == if i < n {
                    data[offset + i]
                } else {
                    buf[i]
                }
        }),
{
}

} // verus!
