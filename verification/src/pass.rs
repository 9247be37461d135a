//! A whole pass over one file: the reads of the source in the order they
//! were made, what the caller received from them, and what that amounts to
//! for a file that kept its length, grew, or was cut short.

use crate::model::{zeros, Progress};
use vstd::prelude::*;

verus! {

/// One read of the source that succeeded.
pub struct Fetch {
    /// The size of the caller's buffer.
    pub capacity: nat,
    /// The bytes that the source delivered; none when it had nothing left.
    pub data: Seq<u8>,
}

/// No read of the pass was answered with more bytes than it asked for.
pub open spec fn admissible(p: Progress, calls: Seq<Fetch>) -> bool
    decreases calls.len(),
{
    calls.len() == 0 || {
        &&& calls[0].data.len() <= p.want(calls[0].capacity)
        &&& admissible(p.advance(calls[0].capacity, calls[0].data.len()), calls.drop_first())
    }
}

/// The reader's state after the pass.
pub open spec fn state_after(p: Progress, calls: Seq<Fetch>) -> Progress
    decreases calls.len(),
{
    if calls.len() == 0 {
        p
    } else {
        state_after(p.advance(calls[0].capacity, calls[0].data.len()), calls.drop_first())
    }
}

/// Everything the caller received in the pass, in order.
pub open spec fn delivered(p: Progress, calls: Seq<Fetch>) -> Seq<u8>
    decreases calls.len(),
{
    if calls.len() == 0 {
        Seq::empty()
    } else {
        p.output(calls[0].capacity, calls[0].data) + delivered(
            p.advance(calls[0].capacity, calls[0].data.len()),
            calls.drop_first(),
        )
    }
}

/// The bytes that the source itself delivered in the pass.
pub open spec fn taken(calls: Seq<Fetch>) -> nat
    decreases calls.len(),
{
    if calls.len() == 0 {
        0
    } else {
        calls[0].data.len() + taken(calls.drop_first())
    }
}

/// What a file holding `file` answers to a read of up to `want` bytes at
/// offset `pos`: nothing when nothing is asked or the offset is at or past
/// its end, else at least one byte and at most `want` of those at `pos`.
pub open spec fn file_gives(file: Seq<u8>, pos: nat, want: nat, data: Seq<u8>) -> bool {
    if want == 0 || pos >= file.len() {
        data.len() == 0
    } else {
        &&& 1 <= data.len() <= want
        &&& pos + data.len() <= file.len()
        &&& data == file.subrange(pos as int, (pos + data.len()) as int)
    }
}

/// Every read of the pass was answered by a file that held `file`
/// throughout, each read going on at the offset where the last one stopped,
/// the first at `pos`.
pub open spec fn reads_file(file: Seq<u8>, p: Progress, pos: nat, calls: Seq<Fetch>) -> bool
    decreases calls.len(),
{
    calls.len() == 0 || {
        &&& file_gives(file, pos, p.want(calls[0].capacity), calls[0].data)
        &&& reads_file(
            file,
            p.advance(calls[0].capacity, calls[0].data.len()),
            pos + calls[0].data.len(),
            calls.drop_first(),
        )
    }
}

/// What a caller is owed for a file that holds `file` when `expected` bytes
/// were promised: the file's bytes as far as it has them, zeros beyond.
pub open spec fn promised(file: Seq<u8>, expected: nat) -> Seq<u8> {
    Seq::new(
        expected,
        |i: int|
            if i < file.len() {
                file[i]
            } else {
                0u8
            },
    )
}

/// A pass never delivers more than was promised: the count only grows,
/// stays within the expected length, and is the sum of what the reads
/// returned, however much the source had to give.
pub proof fn lemma_pass_bounded(p: Progress, calls: Seq<Fetch>)
    requires
        p.wf(),
        admissible(p, calls),
    ensures
        state_after(p, calls).wf(),
        state_after(p, calls).expected == p.expected,
        state_after(p, calls).emitted == p.emitted + delivered(p, calls).len(),
    decreases calls.len(),
{
    if calls.len() > 0 {
        lemma_pass_bounded(p.advance(calls[0].capacity, calls[0].data.len()), calls.drop_first());
    }
}

/// The source's offset and the reader's count go together: the offset
/// falls behind the count only by padding, and padding is only made once
/// the offset has reached the file's end.
pub open spec fn in_step(file: Seq<u8>, p: Progress, pos: nat) -> bool {
    &&& p.wf()
    &&& pos <= p.emitted
    &&& pos < p.emitted ==> pos >= file.len()
}

/// Reads of one file deliver, from wherever the reader stands, the next
/// stretch of what that file promises: its own bytes as long as it has any,
/// zeros from then on.
pub proof fn lemma_reads_deliver_promised(file: Seq<u8>, p: Progress, pos: nat, calls: Seq<Fetch>)
    requires
        in_step(file, p, pos),
        reads_file(file, p, pos, calls),
    ensures
        admissible(p, calls),
        in_step(file, state_after(p, calls), pos + taken(calls)),
        state_after(p, calls).expected == p.expected,
        state_after(p, calls).emitted >= p.emitted,
        delivered(p, calls) == promised(file, p.expected).subrange(
            p.emitted as int,
            state_after(p, calls).emitted as int,
        ),
    decreases calls.len(),
{
    let whole = promised(file, p.expected);
    if calls.len() == 0 {
        assert(delivered(p, calls) =~= whole.subrange(p.emitted as int, p.emitted as int));
    } else {
        let first = calls[0];
        let next = p.advance(first.capacity, first.data.len());
        let rest = calls.drop_first();
        lemma_reads_deliver_promised(file, next, pos + first.data.len(), rest);
        let end = state_after(p, calls);
        assert(p.output(first.capacity, first.data) =~= whole.subrange(
            p.emitted as int,
            next.emitted as int,
        ));
        assert(delivered(p, calls) =~= whole.subrange(p.emitted as int, end.emitted as int));
    }
}

/// A pass made of two stretches is the first stretch, then the second from
/// the state in which the first left the reader.
pub proof fn lemma_pass_split(p: Progress, head: Seq<Fetch>, tail: Seq<Fetch>)
    ensures
        state_after(p, head + tail) == state_after(state_after(p, head), tail),
        delivered(p, head + tail) == delivered(p, head) + delivered(state_after(p, head), tail),
        taken(head + tail) == taken(head) + taken(tail),
    decreases head.len(),
{
    if head.len() == 0 {
        assert(head + tail =~= tail);
        assert(delivered(p, head) + delivered(p, tail) =~= delivered(p, tail));
    } else {
        let next = p.advance(head[0].capacity, head[0].data.len());
        assert((head + tail).drop_first() =~= head.drop_first() + tail);
        lemma_pass_split(next, head.drop_first(), tail);
        assert(delivered(p, head + tail) =~= delivered(p, head) + delivered(
            state_after(p, head),
            tail,
        ));
    }
}

/// A file that is not modified during the pass comes out as it is: what
/// the caller has received at any moment is the file up to the count, none
/// of it padding, and once the reader has finished it is the whole file.
pub proof fn lemma_unmodified_pass(file: Seq<u8>, calls: Seq<Fetch>)
    requires
        reads_file(file, Progress::fresh(file.len()), 0, calls),
    ensures
        state_after(Progress::fresh(file.len()), calls).emitted <= file.len(),
        state_after(Progress::fresh(file.len()), calls).emitted == taken(calls),
        delivered(Progress::fresh(file.len()), calls) == file.subrange(
            0,
            state_after(Progress::fresh(file.len()), calls).emitted as int,
        ),
        state_after(Progress::fresh(file.len()), calls).finished() ==> delivered(
            Progress::fresh(file.len()),
            calls,
        ) == file,
{
    lemma_reads_deliver_promised(file, Progress::fresh(file.len()), 0, calls);
    assert(promised(file, file.len()) =~= file);
    assert(file.subrange(0, file.len() as int) =~= file);
}

/// A file that has grown since its length was taken is read up to that
/// length and no further: the caller receives its first `expected` bytes,
/// none of it padding, though the file has more to give.
pub proof fn lemma_grown_pass(file: Seq<u8>, expected: nat, calls: Seq<Fetch>)
    requires
        expected <= file.len(),
        reads_file(file, Progress::fresh(expected), 0, calls),
    ensures
        state_after(Progress::fresh(expected), calls).emitted <= expected,
        state_after(Progress::fresh(expected), calls).emitted == taken(calls),
        delivered(Progress::fresh(expected), calls) == file.subrange(
            0,
            state_after(Progress::fresh(expected), calls).emitted as int,
        ),
{
    let start = Progress::fresh(expected);
    let end = state_after(start, calls);
    lemma_reads_deliver_promised(file, start, 0, calls);
    assert(promised(file, expected).subrange(0, end.emitted as int) =~= file.subrange(
        0,
        end.emitted as int,
    ));
}

/// What the caller is owed for a file that held `file` and was cut down
/// to `len` bytes when `read` of them had been read: the bytes already
/// read and those that are left, zeros up to the length it had at first.
pub open spec fn owed_after_cut(file: Seq<u8>, len: nat, read: nat) -> Seq<u8> {
    let kept = if read > len {
        read
    } else {
        len
    };
    file.subrange(0, kept as int) + zeros((file.len() - kept) as nat)
}

/// A file cut down to `len` bytes, before the pass or between two of its
/// reads: the caller still receives as many bytes as the file had at
/// first. They are the file's own as far as it was read before the cut or
/// is still there after it, and zeros from there on. `before` are the reads
/// that the whole file answered, `after` those that the shortened one did.
pub proof fn lemma_cut_pass(file: Seq<u8>, len: nat, before: Seq<Fetch>, after: Seq<Fetch>)
    requires
        len < file.len(),
        reads_file(file, Progress::fresh(file.len()), 0, before),
        reads_file(
            file.subrange(0, len as int),
            state_after(Progress::fresh(file.len()), before),
            taken(before),
            after,
        ),
    ensures
        taken(before) <= file.len(),
        state_after(Progress::fresh(file.len()), before + after).emitted <= file.len(),
        delivered(Progress::fresh(file.len()), before + after) == owed_after_cut(
            file,
            len,
            taken(before),
        ).subrange(0, state_after(Progress::fresh(file.len()), before + after).emitted as int),
        state_after(Progress::fresh(file.len()), before + after).finished() ==> delivered(
            Progress::fresh(file.len()),
            before + after,
        ) == owed_after_cut(file, len, taken(before)),
{
    let start = Progress::fresh(file.len());
    let middle = state_after(start, before);
    let end = state_after(start, before + after);
    let short = file.subrange(0, len as int);
    let owed = owed_after_cut(file, len, taken(before));
    lemma_pass_split(start, before, after);
    lemma_reads_deliver_promised(file, start, 0, before);
    lemma_reads_deliver_promised(short, middle, taken(before), after);
    assert(promised(file, file.len()).subrange(0, middle.emitted as int) =~= owed.subrange(
        0,
        middle.emitted as int,
    ));
    assert(promised(short, file.len()).subrange(middle.emitted as int, end.emitted as int)
        =~= owed.subrange(middle.emitted as int, end.emitted as int));
    assert(delivered(start, before + after) =~= owed.subrange(0, end.emitted as int));
    assert(owed.subrange(0, file.len() as int) =~= owed);
}

/// A file cut down to `len` bytes, before the pass or between two of its
/// reads, no later than the reads have come to offset `len`: the caller
/// still receives as many bytes as the file had at first, the `len` bytes
/// that are left of it and zeros after them.
pub proof fn lemma_truncated_pass(
    file: Seq<u8>,
    len: nat,
    before: Seq<Fetch>,
    after: Seq<Fetch>,
)
    requires
        len < file.len(),
        reads_file(file, Progress::fresh(file.len()), 0, before),
        taken(before) <= len,
        reads_file(
            file.subrange(0, len as int),
            state_after(Progress::fresh(file.len()), before),
            taken(before),
            after,
        ),
    ensures
        state_after(Progress::fresh(file.len()), before + after).emitted <= file.len(),
        delivered(Progress::fresh(file.len()), before + after) == (file.subrange(0, len as int)
            + zeros((file.len() - len) as nat)).subrange(
            0,
            state_after(Progress::fresh(file.len()), before + after).emitted as int,
        ),
        state_after(Progress::fresh(file.len()), before + after).finished() ==> {
            &&& delivered(Progress::fresh(file.len()), before + after).len() == file.len()
            &&& delivered(Progress::fresh(file.len()), before + after).subrange(0, len as int)
                == file.subrange(0, len as int)
            &&& delivered(Progress::fresh(file.len()), before + after).subrange(
                len as int,
                file.len() as int,
            ) == zeros((file.len() - len) as nat)
        },
{
    lemma_cut_pass(file, len, before, after);
    let owed = file.subrange(0, len as int) + zeros((file.len() - len) as nat);
    assert(owed.subrange(0, len as int) =~= file.subrange(0, len as int));
    assert(owed.subrange(len as int, file.len() as int) =~= zeros((file.len() - len) as nat));
}

/// Once the expected length has been handed out the reader is done for
/// good: whatever it is asked from then on, it delivers nothing and its
/// state stays as it is.
pub proof fn lemma_finished_stays(p: Progress, calls: Seq<Fetch>)
    requires
        p.finished(),
        admissible(p, calls),
    ensures
        state_after(p, calls) == p,
        delivered(p, calls) == Seq::<u8>::empty(),
    decreases calls.len(),
{
    if calls.len() > 0 {
        assert(p.advance(calls[0].capacity, calls[0].data.len()) == p);
        lemma_finished_stays(p, calls.drop_first());
        assert(delivered(p, calls) =~= Seq::<u8>::empty());
    }
}

/// Reads into buffers that are not empty get on: each delivers at least
/// one byte until the reader has finished, so a pass of as many reads as
/// bytes are owed has finished.
pub proof fn lemma_pass_finishes(p: Progress, calls: Seq<Fetch>)
    requires
        p.wf(),
        admissible(p, calls),
        forall|i: int| 0 <= i < calls.len() ==> calls[i].capacity > 0,
    ensures
        state_after(p, calls).finished() || state_after(p, calls).emitted >= p.emitted
            + calls.len(),
        calls.len() >= p.remaining() ==> state_after(p, calls).finished(),
    decreases calls.len(),
{
    if calls.len() > 0 {
        let next = p.advance(calls[0].capacity, calls[0].data.len());
        let rest = calls.drop_first();
        assert forall|i: int| 0 <= i < rest.len() implies rest[i].capacity > 0 by {
            assert(rest[i] == calls[i + 1]);
        }
        lemma_pass_finishes(next, rest);
        lemma_pass_bounded(next, rest);
    }
}

} // verus!
