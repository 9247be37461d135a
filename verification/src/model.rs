//! The mathematical model of the reader: two counters, and what one read
//! does to them and to the caller's buffer.

use vstd::prelude::*;

verus! {

/// `n` bytes of padding: the zero byte, `n` times.
pub open spec fn zeros(n: nat) -> Seq<u8> {
    Seq::new(n, |i: int| 0u8)
}

/// How far a reader has come.
pub struct Progress {
    /// The length that was observed when the reader was made.
    pub expected: nat,
    /// The bytes handed to the caller so far.
    pub emitted: nat,
}

impl Progress {
    /// The state of a reader that was just made for a file of `expected` bytes.
    pub open spec fn fresh(expected: nat) -> Progress {
        Progress { expected, emitted: 0 }
    }

    /// The reader never hands out more than the length it was made with.
    pub open spec fn wf(self) -> bool {
        self.emitted <= self.expected
    }

    /// The whole expected length has been handed out.
    pub open spec fn finished(self) -> bool {
        self.emitted >= self.expected
    }

    /// The bytes still owed to the caller.
    pub open spec fn remaining(self) -> nat {
        if self.emitted >= self.expected {
            0
        } else {
            (self.expected - self.emitted) as nat
        }
    }

    /// The most that one read into a buffer of `capacity` bytes may ask of
    /// the source: the buffer's size or what is still owed, whichever is less.
    pub open spec fn want(self, capacity: nat) -> nat {
        if capacity <= self.remaining() {
            capacity
        } else {
            self.remaining()
        }
    }

    /// The bytes that one read hands to the caller when the source has
    /// reported `got` bytes: those `got` bytes, or, when the source had
    /// nothing left, as much padding as was asked of the source.
    pub open spec fn count(self, capacity: nat, got: nat) -> nat {
        if got > 0 {
            got
        } else {
            self.want(capacity)
        }
    }

    /// The state after that read.
    pub open spec fn advance(self, capacity: nat, got: nat) -> Progress {
        Progress { expected: self.expected, emitted: self.emitted + self.count(capacity, got) }
    }

    /// The caller's buffer after that read, where `buf` is the buffer as the
    /// source left it: untouched when the source delivered anything, and
    /// with its first `want` bytes zeroed when the source had nothing left.
    pub open spec fn settled(self, buf: Seq<u8>, got: nat) -> Seq<u8> {
        if got > 0 {
            buf
        } else {
            zeros(self.want(buf.len())) + buf.subrange(self.want(buf.len()) as int, buf.len() as int)
        }
    }

    /// What that read delivers, where `data` is what the source delivered:
    /// the data itself, or the padding that stands in for it.
    pub open spec fn output(self, capacity: nat, data: Seq<u8>) -> Seq<u8> {
        if data.len() > 0 {
            data
        } else {
            zeros(self.want(capacity))
        }
    }
}

} // verus!
