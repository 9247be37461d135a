//! The reader's counters and the two decisions of one read: how much to ask
//! of the source, and what to hand to the caller once the source has answered.

use crate::model::Progress;
use vstd::prelude::*;

verus! {

/// `std::io::Error`: the error of the length query and of the source's
/// reads. Nothing is claimed of what it holds; it is only handed on.
#[verifier::external_type_specification]
#[verifier::external_body]
pub struct ExIoError(std::io::Error);

/// The byte accounting of one pass over one file. The caller owns the file
/// handle: it asks [`begin_read`](Self::begin_read) how much to read, reads,
/// and hands the outcome to [`end_read`](Self::end_read).
#[derive(Debug)]
pub struct SafeTruncateReader {
    expected_size: u64,
    bytes_read: u64,
}

impl View for SafeTruncateReader {
    type V = Progress;

    closed spec fn view(&self) -> Progress {
        Progress { expected: self.expected_size as nat, emitted: self.bytes_read as nat }
    }
}

impl SafeTruncateReader {
    #[verifier::type_invariant]
    spec fn within_length(&self) -> bool {
        self.bytes_read <= self.expected_size
    }

    /// Makes a reader from the outcome of the query for the file's length.
    /// A failed query is handed back as it came, and no reader is made.
    pub fn new(length: Result<u64, std::io::Error>) -> (made: Result<Self, std::io::Error>)
        ensures
            match length {
                Ok(n) => made is Ok && made->Ok_0@ == Progress::fresh(n as nat),
                Err(e) => made is Err && made->Err_0 == e,
            },
    {
        match length {
            Ok(n) => Ok(SafeTruncateReader { expected_size: n, bytes_read: 0 }),
            Err(e) => Err(e),
        }
    }

    /// The length that the reader was made with.
    pub fn expected_size(&self) -> (n: u64)
        ensures
            n == self@.expected,
            self@.wf(),
    {
        proof {
            use_type_invariant(self);
        }
        self.expected_size
    }

    /// The bytes handed to the caller so far.
    pub fn bytes_read(&self) -> (n: u64)
        ensures
            n == self@.emitted,
            self@.wf(),
    {
        proof {
            use_type_invariant(self);
        }
        self.bytes_read
    }

    /// The buffer's size or the bytes still owed, whichever is less.
    fn want(&self, capacity: usize) -> (want: usize)
        ensures
            want == self@.want(capacity as nat),
    {
        proof {
            use_type_invariant(self);
        }
        let remaining: u64 = self.expected_size - self.bytes_read;
        if capacity as u64 <= remaining {
            capacity
        } else {
            remaining as usize
        }
    }

    /// The first decision of a read into a buffer of `capacity` bytes.
    /// `None`: the expected length has been handed out, the read returns 0
    /// and the source is left alone. `Some(want)`: the source is to be asked
    /// for up to `want` bytes, into the front of the buffer.
    pub fn begin_read(&self, capacity: usize) -> (plan: Option<usize>)
        ensures
            self@.wf(),
            plan is None <==> self@.finished(),
            plan is Some ==> plan->Some_0 == self@.want(capacity as nat),
    {
        proof {
            use_type_invariant(self);
        }
        if self.bytes_read >= self.expected_size {
            None
        } else {
            Some(self.want(capacity))
        }
    }

    /// The second decision of a read: `buf` is the caller's buffer as the
    /// source left it, `outcome` what the source's read returned when asked
    /// for the `want` bytes of [`begin_read`](Self::begin_read).
    ///
    /// A failure is handed back as it came, and neither the count nor the
    /// buffer changes. Bytes that the source delivered pass through as they
    /// are. A source with nothing left, while bytes are still owed, has its
    /// place taken by padding: the first `want` bytes of the buffer are
    /// zeroed and counted as delivered.
    pub fn end_read(&mut self, buf: &mut [u8], outcome: Result<usize, std::io::Error>) -> (count:
        Result<usize, std::io::Error>)
        requires
            outcome is Ok ==> outcome->Ok_0 <= old(self)@.want(old(buf)@.len()),
        ensures
            final(self)@.wf(),
            final(self)@.expected == old(self)@.expected,
            final(self)@.emitted >= old(self)@.emitted,
            final(buf)@.len() == old(buf)@.len(),
            match outcome {
                Ok(got) => {
                    &&& count is Ok
                    &&& count->Ok_0 == old(self)@.count(old(buf)@.len(), got as nat)
                    &&& final(self)@ == old(self)@.advance(old(buf)@.len(), got as nat)
                    &&& final(buf)@ == old(self)@.settled(old(buf)@, got as nat)
                    &&& final(buf)@.subrange(0, count->Ok_0 as int) == old(self)@.output(
                        old(buf)@.len(),
                        old(buf)@.subrange(0, got as int),
                    )
                },
                Err(e) => {
                    &&& count is Err
                    &&& count->Err_0 == e
                    &&& final(self)@ == old(self)@
                    &&& final(buf)@ == old(buf)@
                },
            },
            outcome is Ok ==> (count->Ok_0 == 0 <==> old(buf)@.len() == 0 || old(self)@.finished()),
            old(buf)@.len() == 0 && outcome is Ok ==> {
                &&& count is Ok
                &&& count->Ok_0 == 0
                &&& final(self)@ == old(self)@
                &&& final(buf)@ == old(buf)@
            },
            old(self)@.finished() && outcome is Ok ==> {
                &&& count is Ok
                &&& count->Ok_0 == 0
                &&& final(self)@ == old(self)@
                &&& final(buf)@ == old(buf)@
            },
    {
        proof {
            use_type_invariant(&*self);
        }
        let ghost before = buf@;
        match outcome {
            Err(e) => Err(e),
            Ok(got) => {
                if got > 0 {
                    self.bytes_read = self.bytes_read + got as u64;
                    Ok(got)
                } else {
                    let want: usize = self.want(buf.len());
                    let mut i: usize = 0;
                    while i < want
                        invariant
                            i <= want <= buf@.len(),
                            buf@.len() == before.len(),
                            forall|j: int| 0 <= j < i ==> buf@[j] == 0u8,
                            forall|j: int| i <= j < buf@.len() ==> buf@[j] == before[j],
                        decreases want - i,
                    {
                        buf[i] = 0;
                        i = i + 1;
                    }
                    self.bytes_read = self.bytes_read + want as u64;
                    assert(buf@ =~= old(self)@.settled(before, 0));
                    assert(buf@.subrange(0, want as int) =~= crate::model::zeros(want as nat));
                    Ok(want)
                }
            },
        }
    }
}

} // verus!
