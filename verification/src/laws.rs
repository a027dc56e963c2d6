//! What holds of a decoder over whole calls and over several of them.

use crate::open::Opening;
use crate::packet::{Arrival, SeekedTo};
use crate::state::{DecoderState, Step};
use crate::time::{
    frame_ticks, lemma_frame_timestamp_monotonic, lemma_nearest_bounds,
    lemma_timestamp_frame_inverse, lemma_timestamp_frame_nearest, rate_or_default, timestamp_frame,
    TimeBase,
};
use vstd::arithmetic::div_mod::{
    lemma_basic_div, lemma_div_plus_one, lemma_div_pos_is_pos, lemma_fundamental_div_mod,
};
use vstd::prelude::*;

verus! {

/// `s` without its first `n` elements, or nothing if it does not have that many.
pub open spec fn after<T>(s: Seq<T>, n: nat) -> Seq<T> {
    if n <= s.len() {
        s.subrange(n as int, s.len() as int)
    } else {
        Seq::empty()
    }
}

/// The samples of channel `c` that come with `arrivals`, up to the end of the file.
pub open spec fn stream<T>(arrivals: Seq<Arrival<T>>, c: int) -> Seq<T>
    decreases arrivals.len(),
{
    if arrivals.len() == 0 {
        Seq::empty()
    } else {
        match arrivals[0] {
            Arrival::Decoded { planes, frames } => planes[c] + stream(arrivals.drop_first(), c),
            Arrival::Undecodable => stream(arrivals.drop_first(), c),
            Arrival::End => Seq::empty(),
            Arrival::Failed => Seq::empty(),
        }
    }
}

/// The arrivals are packets with at least one channel beyond `c`, malformed packets and ends of
/// the file.
pub open spec fn carries<T>(arrivals: Seq<Arrival<T>>, c: int) -> bool {
    forall|i: int|
        0 <= i < arrivals.len() ==> {
            &&& (#[trigger] arrivals[i]).valid()
            &&& arrivals[i] !is Failed
            &&& arrivals[i] matches Arrival::Decoded { planes, frames } ==> 0 <= c < planes.len()
        }
}

/// The end of the file is among the arrivals.
pub open spec fn ends<T>(arrivals: Seq<Arrival<T>>) -> bool {
    exists|i: int| 0 <= i < arrivals.len() && #[trigger] arrivals[i] is End
}

/// The samples of channel `c` that are still to be handed out, given what will arrive.
pub open spec fn upcoming<T>(state: DecoderState<T>, arrivals: Seq<Arrival<T>>, c: int) -> Seq<T> {
    let pending = if 0 <= c < state.pending.len() {
        state.pending[c]
    } else {
        Seq::empty()
    };
    pending + after(stream(arrivals, c), state.skip)
}

/// A call of `decode` that is given packet events one by one as long as it wants them: how it
/// ends up, and the arrivals that it has left.
pub open spec fn run<T>(step: Step<T>, arrivals: Seq<Arrival<T>>) -> (Step<T>, Seq<Arrival<T>>)
    decreases arrivals.len(),
{
    if step.next is None || arrivals.len() == 0 {
        (step, arrivals)
    } else {
        run(
            step.state.receive(step.next->0, arrivals[0], step.data),
            arrivals.drop_first(),
        )
    }
}

/// The decoder and its reader are in step with a file whose channel `c` is `file`: what is still
/// to be handed out is just what the file has from the read position on.
pub open spec fn in_step<T>(
    state: DecoderState<T>,
    arrivals: Seq<Arrival<T>>,
    c: int,
    file: Seq<T>,
) -> bool {
    &&& state.valid()
    &&& state.ready > 0 ==> 0 <= c < state.pending.len()
    &&& carries(arrivals, c)
    &&& file.len() == state.num_frames
    &&& state.playhead <= state.num_frames
    &&& state.playhead == state.num_frames || {
        &&& ends(arrivals)
        &&& upcoming(state, arrivals, c) == after(file, state.playhead)
    }
}

/// Where a block that begins with frame `start` ends: after a whole block, or at the end of the
/// file.
pub open spec fn block_end(start: nat, block_size: nat, num_frames: nat) -> nat {
    if start + block_size < num_frames {
        start + block_size
    } else {
        num_frames
    }
}

/// Moving undelivered frames into the block neither loses nor repeats any.
proof fn lemma_fill<T>(
    state: DecoderState<T>,
    filled: nat,
    data: Seq<Seq<T>>,
    arrivals: Seq<Arrival<T>>,
    c: int,
)
    requires
        state.valid(),
        state.ready > 0 ==> 0 <= c < state.pending.len(),
        filled <= state.block_size,
        0 <= c < data.len(),
    ensures
        ({
            let room = state.block_size - filled;
            let n = if state.ready < room { state.ready as int } else { room };
            let step = state.fill(filled, data);
            let all = upcoming(state, arrivals, c);
            &&& step.state.valid()
            &&& step.state.ready == state.ready - n
            &&& step.state.pending.len() == state.pending.len()
            &&& n <= all.len()
            &&& step.data.len() == data.len()
            &&& step.data[c] == data[c] + all.subrange(0, n)
            &&& upcoming(step.state, arrivals, c) == after(all, n as nat)
        }),
{
    let room = state.block_size - filled;
    let n = if state.ready < room { state.ready as int } else { room };
    let step = state.fill(filled, data);
    let all = upcoming(state, arrivals, c);
    let rest = after(stream(arrivals, c), state.skip);
    if c < state.pending.len() {
        let pending = state.pending[c];
        assert(step.state.pending[c] == pending.subrange(n, state.ready as int));
        assert(all.subrange(0, n) =~= pending.subrange(0, n));
        assert(after(all, n as nat) =~= pending.subrange(n, state.ready as int) + rest);
        assert(step.data[c] =~= data[c] + pending.subrange(0, 0 + n));
    } else {
        assert(all =~= rest);
        assert(all.subrange(0, n) =~= Seq::<T>::empty());
        assert(after(all, 0) =~= all);
        assert(step.data[c] =~= data[c]);
        assert(data[c] + Seq::<T>::empty() =~= data[c]);
    }
}

/// Taking in a packet changes nothing in what is still to be handed out.
proof fn lemma_loaded<T>(
    state: DecoderState<T>,
    planes: Seq<Seq<T>>,
    frames: nat,
    arrivals: Seq<Arrival<T>>,
    c: int,
)
    requires
        state.valid(),
        state.ready == 0,
        0 <= c < planes.len(),
        forall|i: int| 0 <= i < planes.len() ==> (#[trigger] planes[i]).len() == frames,
    ensures
        ({
            let loaded = state.loaded(planes, frames);
            &&& loaded.valid()
            &&& loaded.ready > 0 ==> 0 <= c < loaded.pending.len()
            &&& upcoming(loaded, arrivals, c) == after(
                planes[c] + stream(arrivals, c),
                state.skip,
            )
        }),
{
    let loaded = state.loaded(planes, frames);
    let later = stream(arrivals, c);
    assert(planes[c].len() == frames);
    if state.skip < frames {
        assert(loaded.pending[c] == planes[c].subrange(state.skip as int, frames as int));
        assert(after(later, 0) =~= later);
        assert(after(planes[c] + later, state.skip) =~= planes[c].subrange(
            state.skip as int,
            frames as int,
        ) + later);
    } else {
        let skip = (state.skip - frames) as nat;
        assert(after(planes[c] + later, state.skip) =~= after(later, skip));
        if c < state.pending.len() {
            assert(state.pending[c].len() == 0);
            assert(state.pending[c] + after(later, skip) =~= after(later, skip));
        } else {
            assert(Seq::<T>::empty() + after(later, skip) =~= after(later, skip));
        }
    }
}

/// A run from the middle of a call of `decode`: it hands out what is still to be handed out, in
/// order, until the block is full, the file ends or the arrivals run out.
proof fn lemma_run<T>(step: Step<T>, arrivals: Seq<Arrival<T>>, c: int)
    requires
        step.state.valid(),
        step.state.ready == 0,
        step.next matches Some(filled) && filled < step.state.block_size,
        carries(arrivals, c),
        0 <= c < step.data.len(),
    ensures
        ({
            let (end, left) = run(step, arrivals);
            let room = step.state.block_size - step.next->0;
            let all = upcoming(step.state, arrivals, c);
            &&& end.state.valid()
            &&& end.state.ready > 0 ==> 0 <= c < end.state.pending.len()
            &&& end.state.num_frames == step.state.num_frames
            &&& end.state.block_size == step.state.block_size
            &&& carries(left, c)
            &&& end.data.len() == step.data.len()
            &&& if all.len() >= room {
                &&& end.next is None
                &&& end.data[c] == step.data[c] + all.subrange(0, room)
                &&& upcoming(end.state, left, c) == after(all, room as nat)
                &&& end.state.playhead == step.state.next_playhead()
                &&& ends(arrivals) ==> ends(left)
            } else {
                &&& end.data[c] == step.data[c] + all
                &&& ends(arrivals) ==> end.next is None && end.state.playhead
                    == end.state.num_frames
                &&& !ends(arrivals) ==> {
                    &&& end.next == Some((step.next->0 + all.len()) as nat)
                    &&& left.len() == 0
                    &&& upcoming(end.state, left, c).len() == 0
                    &&& end.state.playhead == step.state.playhead
                }
            }
        }),
    decreases arrivals.len(),
{
    let filled = step.next->0;
    let room = step.state.block_size - filled;
    let all = upcoming(step.state, arrivals, c);
    let (end, left) = run(step, arrivals);
    if c < step.state.pending.len() {
        assert(step.state.pending[c].len() == 0);
    }
    if arrivals.len() == 0 {
        assert(all =~= Seq::<T>::empty());
        assert(step.data[c] + all =~= step.data[c]);
    } else {
        let rest = arrivals.drop_first();
        let next = step.state.receive(filled, arrivals[0], step.data);
        assert(carries(rest, c));
        assert(arrivals[0].valid());
        assert(arrivals[0] !is End ==> (ends(arrivals) <==> ends(rest))) by {
            if arrivals[0] !is End && ends(arrivals) {
                let i = choose|i: int| 0 <= i < arrivals.len() && #[trigger] arrivals[i] is End;
                assert(rest[i - 1] is End);
            }
            if ends(rest) {
                let i = choose|i: int| 0 <= i < rest.len() && #[trigger] rest[i] is End;
                assert(arrivals[i + 1] is End);
            }
        }
        match arrivals[0] {
            Arrival::Decoded { planes, frames } => {
                let loaded = step.state.loaded(planes, frames);
                lemma_loaded(step.state, planes, frames, rest, c);
                assert(upcoming(loaded, rest, c) =~= all);
                if step.state.skip < frames {
                    lemma_fill(loaded, filled, step.data, rest, c);
                    if next.next is None {
                        assert(run(next, rest) == (next, rest));
                    } else {
                        lemma_run(next, rest, c);
                        let n = loaded.ready as int;
                        let more = after(all, n as nat);
                        assert(more == upcoming(next.state, rest, c));
                        if all.len() >= room {
                            assert(all.subrange(0, n) + more.subrange(0, room - n)
                                =~= all.subrange(0, room));
                            assert(after(more, (room - n) as nat) =~= after(all, room as nat));
                            assert(step.data[c] + all.subrange(0, n) + more.subrange(0, room - n)
                                =~= step.data[c] + all.subrange(0, room));
                        } else {
                            assert(step.data[c] + all.subrange(0, n) + more =~= step.data[c] + all);
                        }
                    }
                } else {
                    lemma_run(next, rest, c);
                }
            },
            Arrival::Undecodable => {
                lemma_run(next, rest, c);
            },
            Arrival::End => {
                assert(run(next, rest) == (next, rest));
                assert(all =~= Seq::<T>::empty());
                assert(step.data[c] + all =~= step.data[c]);
            },
            Arrival::Failed => {},
        }
    }
}

/// A call of `decode` hands out what comes next, in order and without a gap: a whole block of it,
/// or all of it if the file ends before. What comes after that is left for the next call. As long
/// as neither a block nor the end of the file has arrived the call wants more packets.
pub proof fn lemma_decode_streams<T>(
    state: DecoderState<T>,
    arrivals: Seq<Arrival<T>>,
    c: int,
    data: Seq<Seq<T>>,
)
    requires
        state.valid(),
        state.playhead < state.num_frames,
        state.ready > 0 ==> 0 <= c < state.pending.len(),
        carries(arrivals, c),
        0 <= c < data.len(),
    ensures
        ({
            let (end, left) = run(state.start(data), arrivals);
            let all = upcoming(state, arrivals, c);
            &&& end.state.valid()
            &&& end.state.ready > 0 ==> 0 <= c < end.state.pending.len()
            &&& end.state.num_frames == state.num_frames
            &&& end.state.block_size == state.block_size
            &&& carries(left, c)
            &&& end.data.len() == data.len()
            &&& if all.len() >= state.block_size {
                &&& end.next is None
                &&& end.data[c] == data[c] + all.subrange(0, state.block_size as int)
                &&& upcoming(end.state, left, c) == after(all, state.block_size)
                &&& end.state.playhead == if state.playhead + state.block_size <= usize::MAX {
                    state.playhead + state.block_size
                } else {
                    usize::MAX as nat
                }
                &&& ends(arrivals) ==> ends(left)
            } else {
                &&& end.data[c] == data[c] + all
                &&& ends(arrivals) ==> end.next is None && end.state.playhead == state.num_frames
                &&& !ends(arrivals) ==> {
                    &&& end.next == Some(all.len())
                    &&& left.len() == 0
                    &&& upcoming(end.state, left, c).len() == 0
                    &&& end.state.playhead == state.playhead
                }
            }
        }),
{
    let first = state.start(data);
    let all = upcoming(state, arrivals, c);
    lemma_fill(state, 0, data, arrivals, c);
    if first.next is None {
        assert(run(first, arrivals) == (first, arrivals));
    } else {
        lemma_run(first, arrivals, c);
        let n = state.ready as int;
        let room = state.block_size as int;
        let more = after(all, n as nat);
        assert(more == upcoming(first.state, arrivals, c));
        if all.len() >= room {
            assert(after(more, (room - n) as nat) =~= after(all, room as nat));
            assert(data[c] + all.subrange(0, n) + more.subrange(0, room - n) =~= data[c]
                + all.subrange(0, room));
        } else {
            assert(data[c] + all.subrange(0, n) + more =~= data[c] + all);
        }
    }
}

/// A decoder that is in step with a file fills a block with the frames of the file from the read
/// position on, only as many as are left at the end of the file, moves the read position behind
/// them, and stays in step. At the end of the file it does nothing.
pub proof fn lemma_decode_reads_file<T>(
    state: DecoderState<T>,
    arrivals: Seq<Arrival<T>>,
    c: int,
    file: Seq<T>,
    data: Seq<Seq<T>>,
)
    requires
        in_step(state, arrivals, c, file),
        0 <= c < data.len(),
    ensures
        ({
            let (end, left) = run(state.start(data), arrivals);
            let position = block_end(state.playhead, state.block_size, state.num_frames);
            &&& end.next is None
            &&& end.data.len() == data.len()
            &&& end.data[c] == data[c] + file.subrange(state.playhead as int, position as int)
            &&& end.state.playhead == position
            &&& end.state.num_frames == state.num_frames
            &&& end.state.block_size == state.block_size
            &&& in_step(end.state, left, c, file)
        }),
{
    let (end, left) = run(state.start(data), arrivals);
    let start = state.playhead as int;
    let position = block_end(state.playhead, state.block_size, state.num_frames) as int;
    if state.playhead == state.num_frames {
        assert(file.subrange(start, position) =~= Seq::<T>::empty());
        assert(data[c] + Seq::<T>::empty() =~= data[c]);
    } else {
        let all = after(file, state.playhead);
        lemma_decode_streams(state, arrivals, c, data);
        if all.len() >= state.block_size {
            assert(all.subrange(0, state.block_size as int) =~= file.subrange(start, position));
            assert(after(all, state.block_size) =~= after(file, position as nat));
        } else {
            assert(all =~= file.subrange(start, position));
        }
    }
}

/// Reads blocks into emptied channels, `n` times over: all that channel `c` was given, the decoder
/// and the arrivals that are left.
pub open spec fn read_blocks<T>(
    state: DecoderState<T>,
    arrivals: Seq<Arrival<T>>,
    num_channels: nat,
    c: int,
    n: nat,
) -> (Seq<T>, DecoderState<T>, Seq<Arrival<T>>)
    decreases n,
{
    if n == 0 {
        (Seq::empty(), state, arrivals)
    } else {
        let data = Seq::new(num_channels, |i: int| Seq::<T>::empty());
        let (end, left) = run(state.start(data), arrivals);
        let (more, last, remaining) = read_blocks(end.state, left, num_channels, c, (n - 1) as nat);
        (end.data[c] + more, last, remaining)
    }
}

/// Each call of `decode` picks up where the one before left off: the blocks of any number of calls,
/// put together, are the file from the read position on, without a gap and without repetition.
pub proof fn lemma_blocks_are_consecutive<T>(
    state: DecoderState<T>,
    arrivals: Seq<Arrival<T>>,
    num_channels: nat,
    c: int,
    file: Seq<T>,
    n: nat,
)
    requires
        in_step(state, arrivals, c, file),
        0 <= c < num_channels,
    ensures
        ({
            let (samples, last, left) = read_blocks(state, arrivals, num_channels, c, n);
            let position = block_end(state.playhead, n * state.block_size, state.num_frames);
            &&& samples == file.subrange(state.playhead as int, position as int)
            &&& last.playhead == position
            &&& in_step(last, left, c, file)
        }),
    decreases n,
{
    let start = state.playhead as int;
    if n == 0 {
        assert(n * state.block_size == 0) by (nonlinear_arith)
            requires
                n == 0,
        ;
        assert(file.subrange(start, start) =~= Seq::<T>::empty());
    } else {
        let data = Seq::new(num_channels, |i: int| Seq::<T>::empty());
        let (end, left) = run(state.start(data), arrivals);
        lemma_decode_reads_file(state, arrivals, c, file, data);
        lemma_blocks_are_consecutive(end.state, left, num_channels, c, file, (n - 1) as nat);
        assert(n * state.block_size == state.block_size + (n - 1) * state.block_size)
            by (nonlinear_arith)
            requires
                n > 0,
        ;
        assert((n - 1) * state.block_size >= 0) by (nonlinear_arith)
            requires
                n > 0,
        ;
        let middle = end.state.playhead as int;
        let position = block_end(state.playhead, n * state.block_size, state.num_frames) as int;
        let (more, _, _) = read_blocks(end.state, left, num_channels, c, (n - 1) as nat);
        assert(more == file.subrange(middle, position));
        assert(data[c] + file.subrange(start, middle) + more =~= file.subrange(start, position));
    }
}

/// The number of calls of `decode` after which the read position is at the end of the file.
pub open spec fn calls_left<T>(state: DecoderState<T>) -> nat {
    if state.playhead >= state.num_frames || state.block_size == 0 {
        0
    } else {
        ((state.num_frames - state.playhead + state.block_size - 1) / state.block_size as int) as nat
    }
}

/// Before the end of the file there is a call left.
proof fn lemma_a_call_is_left<T>(state: DecoderState<T>)
    requires
        !state.at_end(),
        state.block_size > 0,
    ensures
        calls_left(state) > 0,
{
    let x = state.num_frames - state.playhead - 1;
    lemma_div_plus_one(x, state.block_size as int);
    lemma_div_pos_is_pos(x, state.block_size as int);
}

/// A whole block takes one of the calls that are left.
proof fn lemma_calls_left<T>(state: DecoderState<T>, next: DecoderState<T>)
    requires
        state.valid(),
        !state.at_end(),
        state.block_size > 0,
        next.playhead == state.next_playhead(),
        next.num_frames == state.num_frames,
        next.block_size == state.block_size,
    ensures
        calls_left(state) == calls_left(next) + 1,
{
    let size = state.block_size as int;
    let x = state.num_frames - state.playhead - 1;
    lemma_div_plus_one(x, size);
    if next.at_end() {
        lemma_basic_div(x, size);
    } else {
        lemma_div_plus_one(x - size, size);
        lemma_div_pos_is_pos(x, size);
    }
}

/// The first `calls` blocks of `size` elements, or all there are.
pub open spec fn blocks_of<T>(s: Seq<T>, calls: nat, size: nat) -> Seq<T> {
    s.subrange(
        0,
        if calls * size < s.len() {
            (calls * size) as int
        } else {
            s.len() as int
        },
    )
}

/// No blocks hold nothing.
proof fn lemma_blocks_of_none<T>(s: Seq<T>, calls: nat, size: nat)
    requires
        calls == 0 || size == 0 || s.len() == 0,
    ensures
        blocks_of(s, calls, size) == Seq::<T>::empty(),
{
    assert(calls == 0 || size == 0 ==> calls * size == 0) by (nonlinear_arith);
    assert(calls * size >= 0) by (nonlinear_arith);
    assert(blocks_of(s, calls, size) =~= Seq::<T>::empty());
}

/// Blocks are one block and then the others.
proof fn lemma_blocks_of_one_more<T>(s: Seq<T>, calls: nat, size: nat)
    requires
        calls > 0,
    ensures
        size <= s.len() ==> blocks_of(s, calls, size) == s.subrange(0, size as int) + blocks_of(
            after(s, size),
            (calls - 1) as nat,
            size,
        ),
        s.len() <= size ==> blocks_of(s, calls, size) == s,
{
    let fewer = (calls - 1) as nat;
    assert(calls * size == size + fewer * size && fewer * size >= 0) by (nonlinear_arith)
        requires
            calls == fewer + 1,
    ;
    if size <= s.len() {
        assert(blocks_of(s, calls, size) =~= s.subrange(0, size as int) + blocks_of(
            after(s, size),
            fewer,
            size,
        ));
    }
    if s.len() <= size {
        assert(blocks_of(s, calls, size) =~= s);
    }
}

/// Each call of `decode` picks up where the one before left off, whatever the length that the file
/// is said to have: the blocks of any number of calls, put together, are the frames that can be
/// decoded, in order, none lost and none repeated, up to the end of the block that reaches that
/// length.
pub proof fn lemma_blocks_up_to_length<T>(
    state: DecoderState<T>,
    arrivals: Seq<Arrival<T>>,
    num_channels: nat,
    c: int,
    n: nat,
)
    requires
        state.valid(),
        state.ready > 0 ==> 0 <= c < state.pending.len(),
        carries(arrivals, c),
        0 <= c < num_channels,
    ensures
        read_blocks(state, arrivals, num_channels, c, n).0 == blocks_of(
            upcoming(state, arrivals, c),
            if n < calls_left(state) {
                n
            } else {
                calls_left(state)
            },
            state.block_size,
        ),
    decreases n,
{
    let all = upcoming(state, arrivals, c);
    let size = state.block_size;
    let calls = if n < calls_left(state) { n } else { calls_left(state) };
    if n == 0 || state.at_end() {
        lemma_blocks_of_none(all, calls, size);
        if state.at_end() {
            lemma_nothing_at_end(state, arrivals, num_channels, c, n);
        }
    } else {
        let data = Seq::new(num_channels, |i: int| Seq::<T>::empty());
        let (end, left) = run(state.start(data), arrivals);
        let (more, _, _) = read_blocks(end.state, left, num_channels, c, (n - 1) as nat);
        let rest = upcoming(end.state, left, c);
        let fewer = if n - 1 < calls_left(end.state) {
            (n - 1) as nat
        } else {
            calls_left(end.state)
        };
        lemma_decode_streams(state, arrivals, c, data);
        lemma_blocks_up_to_length(end.state, left, num_channels, c, (n - 1) as nat);
        assert(more == blocks_of(rest, fewer, size));
        if size == 0 {
            lemma_blocks_of_none(all, calls, size);
            lemma_blocks_of_none(rest, fewer, size);
            assert(data[c] + all.subrange(0, 0) + more =~= Seq::<T>::empty());
        } else if all.len() >= size {
            lemma_calls_left(state, end.state);
            lemma_blocks_of_one_more(all, calls, size);
            assert(data[c] + all.subrange(0, size as int) + more =~= all.subrange(0, size as int)
                + more);
        } else {
            lemma_a_call_is_left(state);
            lemma_blocks_of_one_more(all, calls, size);
            if ends(arrivals) {
                lemma_nothing_at_end(end.state, left, num_channels, c, (n - 1) as nat);
            } else {
                lemma_blocks_of_none(rest, fewer, size);
            }
            assert(data[c] + all + more =~= all);
        }
    }
}

/// As long as no more frames come than the length of the file admits, the blocks of enough calls of
/// `decode`, put together, are all of them.
pub proof fn lemma_blocks_are_upcoming<T>(
    state: DecoderState<T>,
    arrivals: Seq<Arrival<T>>,
    num_channels: nat,
    c: int,
    n: nat,
)
    requires
        state.valid(),
        state.ready > 0 ==> 0 <= c < state.pending.len(),
        carries(arrivals, c),
        state.playhead + upcoming(state, arrivals, c).len() <= state.num_frames,
        0 <= c < num_channels,
    ensures
        read_blocks(state, arrivals, num_channels, c, n).0 == blocks_of(
            upcoming(state, arrivals, c),
            n,
            state.block_size,
        ),
{
    let all = upcoming(state, arrivals, c);
    let size = state.block_size;
    let calls = calls_left(state);
    lemma_blocks_up_to_length(state, arrivals, num_channels, c, n);
    if size == 0 || state.at_end() {
        lemma_blocks_of_none(all, n, size);
        lemma_blocks_of_none(all, if n < calls { n } else { calls }, size);
    } else if n >= calls {
        let x = state.num_frames - state.playhead + size - 1;
        lemma_fundamental_div_mod(x, size as int);
        lemma_div_pos_is_pos(x, size as int);
        assert(size * calls == calls * size && n * size >= calls * size) by (nonlinear_arith)
            requires
                n >= calls,
        ;
    }
}

/// At the end of the file further calls of `decode` give nothing.
proof fn lemma_nothing_at_end<T>(
    state: DecoderState<T>,
    arrivals: Seq<Arrival<T>>,
    num_channels: nat,
    c: int,
    n: nat,
)
    requires
        state.at_end(),
        0 <= c < num_channels,
    ensures
        read_blocks(state, arrivals, num_channels, c, n).0 == Seq::<T>::empty(),
    decreases n,
{
    if n > 0 {
        let data = Seq::new(num_channels, |i: int| Seq::<T>::empty());
        assert(run(state.start(data), arrivals) == (state.start(data), arrivals));
        lemma_nothing_at_end(state, arrivals, num_channels, c, (n - 1) as nat);
    }
}

/// What comes is the file from frame `begin` on. If that lies before the file, as many frames come
/// before it.
pub open spec fn begins_at<T>(s: Seq<T>, file: Seq<T>, begin: int) -> bool {
    if begin >= 0 {
        s == after(file, begin as nat)
    } else {
        -begin <= s.len() && after(s, (-begin) as nat) == file
    }
}

/// Dropping the frames up to a frame of the file leaves the file from that frame on.
proof fn lemma_skip<T>(s: Seq<T>, file: Seq<T>, begin: int, frame: nat)
    requires
        begins_at(s, file, begin),
        begin <= frame <= file.len(),
    ensures
        after(s, (frame - begin) as nat) == after(file, frame),
{
    if begin < 0 {
        let rest = after(s, (-begin) as nat);
        assert(s.len() == file.len() - begin);
        assert(after(s, (frame - begin) as nat) =~= after(rest, frame));
    } else {
        assert(after(s, (frame - begin) as nat) =~= after(file, frame));
    }
}

/// A seek is accurate to the frame, wherever the reader lands before it: if what comes begins with
/// the frame that the timestamps tell, in the file or before its begin, the decoder is in step with
/// the file at the frame that was asked for, and the next block begins with it.
///
/// Timestamps tell that frame exactly if a tick is no longer than a frame, or if the reader is
/// earlier than it was asked to be and its packet begins at a tick. How far the block may be off
/// otherwise is said by `lemma_seek_is_near`.
pub proof fn lemma_seek_is_frame_accurate<T>(
    state: DecoderState<T>,
    frame: nat,
    seeked: SeekedTo,
    arrivals: Seq<Arrival<T>>,
    c: int,
    file: Seq<T>,
    data: Seq<Seq<T>>,
)
    requires
        state.valid(),
        frame < state.num_frames,
        file.len() == state.num_frames,
        carries(arrivals, c),
        ends(arrivals),
        ({
            let first = seeked.first_frame(
                frame,
                rate_or_default(state.sample_rate),
                state.time_base,
            );
            &&& frame - usize::MAX <= first <= frame
            &&& begins_at(stream(arrivals, c), file, first)
        }),
        0 <= c < data.len(),
    ensures
        ({
            let moved = state.sought(frame);
            let sought = moved.landed(moved.frames_before(seeked));
            let (end, left) = run(sought.start(data), arrivals);
            let position = block_end(frame, state.block_size, state.num_frames);
            &&& sought.playhead == frame
            &&& in_step(sought, arrivals, c, file)
            &&& end.next is None
            &&& end.data[c] == data[c] + file.subrange(frame as int, position as int)
        }),
{
    let moved = state.sought(frame);
    let sought = moved.landed(moved.frames_before(seeked));
    let first = seeked.first_frame(frame, rate_or_default(state.sample_rate), state.time_base);
    assert(sought.skip == frame - first);
    lemma_skip(stream(arrivals, c), file, first, frame);
    assert(upcoming(sought, arrivals, c) =~= after(file, frame));
    lemma_decode_reads_file(sought, arrivals, c, file, data);
}

/// `first` is as near to `frame` as timestamps can tell. It is less than a tick off if the reader is
/// just at the timestamp that was asked for, otherwise at most half a tick and half a frame, and
/// not at all where a tick is no longer than a frame.
pub open spec fn near(
    first: nat,
    frame: nat,
    seeked: SeekedTo,
    sample_rate: nat,
    time_base: Option<TimeBase>,
) -> bool {
    match time_base {
        Some(tb) => {
            let rate: nat = if sample_rate == 0 { 1 } else { sample_rate };
            let tick = tb.numer() * rate;
            let off = (first - frame) * tb.denom();
            &&& if seeked.actual_ts == seeked.required_ts {
                -tick < off < tick
            } else {
                -(tick + tb.denom()) <= 2 * off <= tick + tb.denom()
            }
            &&& tick <= tb.denom() ==> first == frame
        },
        None => first == frame,
    }
}

/// If the reader goes on with a packet that begins with `packet_frame`, and all timestamps are
/// those of their frames, rounded to ticks, the frame that comes first is near to the one that was
/// asked for.
pub proof fn lemma_landing_is_near(
    packet_frame: nat,
    frame: nat,
    seeked: SeekedTo,
    sample_rate: nat,
    time_base: Option<TimeBase>,
)
    requires
        time_base matches Some(tb) ==> tb.valid(),
        frame <= usize::MAX,
        seeked.valid(),
        seeked.required_ts == frame_ticks(frame, sample_rate, time_base),
        seeked.actual_ts == frame_ticks(packet_frame, sample_rate, time_base),
    ensures
        near(
            packet_frame + seeked.frames_before(frame, sample_rate, time_base),
            frame,
            seeked,
            sample_rate,
            time_base,
        ),
{
    if let Some(tb) = time_base {
        let rate: nat = if sample_rate == 0 { 1 } else { sample_rate };
        let tick = tb.numer() * rate;
        let d = tb.denom();
        assert(tick > 0) by (nonlinear_arith)
            requires
                tick == tb.numer() * rate,
                tb.numer() > 0,
                rate > 0,
        ;
        let first = packet_frame + seeked.frames_before(frame, sample_rate, time_base);
        let off = (first - frame) * d;
        lemma_nearest_bounds(frame * d, tick);
        lemma_nearest_bounds(packet_frame * d, tick);
        if seeked.actual_ts == seeked.required_ts {
            assert(off == packet_frame * d - frame * d) by (nonlinear_arith)
                requires
                    off == (packet_frame - frame) * d,
            ;
            assert(tick <= d ==> first == frame) by (nonlinear_arith)
                requires
                    off == (first - frame) * d,
                    -tick < off < tick,
            ;
        } else {
            let found = timestamp_frame(seeked.actual_ts as nat, sample_rate, time_base);
            lemma_timestamp_frame_nearest(packet_frame, sample_rate, tb);
            if packet_frame >= frame {
                lemma_frame_timestamp_monotonic(frame, packet_frame, sample_rate, time_base);
            }
            if tick <= d {
                lemma_timestamp_frame_inverse(packet_frame, sample_rate, time_base);
            }
            let miss = (found - packet_frame) * d;
            if found <= frame {
                assert(off == -miss) by (nonlinear_arith)
                    requires
                        off == (packet_frame - found) * d,
                        miss == (found - packet_frame) * d,
                ;
            } else {
                assert(-miss <= off <= 0) by (nonlinear_arith)
                    requires
                        off == (packet_frame - frame) * d,
                        miss == (found - packet_frame) * d,
                        packet_frame <= frame <= found,
                ;
            }
        }
    }
}

/// A call of `decode` gives the first frames of the file from `first` on.
proof fn lemma_decode_from<T>(
    state: DecoderState<T>,
    arrivals: Seq<Arrival<T>>,
    c: int,
    file: Seq<T>,
    first: nat,
    data: Seq<Seq<T>>,
)
    requires
        state.valid(),
        state.playhead < state.num_frames,
        state.ready > 0 ==> 0 <= c < state.pending.len(),
        carries(arrivals, c),
        ends(arrivals),
        upcoming(state, arrivals, c) == after(file, first),
        0 <= c < data.len(),
    ensures
        ({
            let end = run(state.start(data), arrivals).0;
            let position = block_end(first, state.block_size, file.len());
            &&& end.next is None
            &&& first <= file.len() ==> end.data[c] == data[c] + file.subrange(
                first as int,
                position as int,
            )
            &&& first > file.len() ==> end.data[c] == data[c]
        }),
{
    let all = after(file, first);
    lemma_decode_streams(state, arrivals, c, data);
    if first > file.len() {
        assert(data[c] + all =~= data[c]);
        assert(data[c] + all.subrange(0, 0) =~= data[c]);
    } else if all.len() >= state.block_size {
        assert(all.subrange(0, state.block_size as int) =~= file.subrange(
            first as int,
            (first + state.block_size) as int,
        ));
    } else {
        assert(all =~= file.subrange(first as int, file.len() as int));
    }
}

/// A seek is as accurate as timestamps are. If the reader goes on with a packet of which it has told
/// the timestamp, rounded to a tick, the next block begins near to the frame that was asked for.
pub proof fn lemma_seek_is_near<T>(
    state: DecoderState<T>,
    frame: nat,
    seeked: SeekedTo,
    packet_frame: nat,
    arrivals: Seq<Arrival<T>>,
    c: int,
    file: Seq<T>,
    data: Seq<Seq<T>>,
)
    requires
        state.valid(),
        frame < state.num_frames,
        state.time_base matches Some(tb) ==> tb.valid(),
        seeked.valid(),
        seeked.required_ts == frame_ticks(
            frame,
            rate_or_default(state.sample_rate),
            state.time_base,
        ),
        seeked.actual_ts == frame_ticks(
            packet_frame,
            rate_or_default(state.sample_rate),
            state.time_base,
        ),
        carries(arrivals, c),
        ends(arrivals),
        stream(arrivals, c) == after(file, packet_frame),
        0 <= c < data.len(),
    ensures
        ({
            let moved = state.sought(frame);
            let sought = moved.landed(moved.frames_before(seeked));
            let first = packet_frame + moved.frames_before(seeked);
            let end = run(sought.start(data), arrivals).0;
            let position = block_end(first, state.block_size, file.len());
            &&& near(first, frame, seeked, rate_or_default(state.sample_rate), state.time_base)
            &&& upcoming(sought, arrivals, c) == after(file, first)
            &&& end.next is None
            &&& first <= file.len() ==> end.data[c] == data[c] + file.subrange(
                first as int,
                position as int,
            )
            &&& first > file.len() ==> end.data[c] == data[c]
        }),
{
    let moved = state.sought(frame);
    let sought = moved.landed(moved.frames_before(seeked));
    let first = packet_frame + moved.frames_before(seeked);
    lemma_landing_is_near(
        packet_frame,
        frame,
        seeked,
        rate_or_default(state.sample_rate),
        state.time_base,
    );
    assert(after(after(file, packet_frame), sought.skip) =~= after(file, first));
    assert(upcoming(sought, arrivals, c) =~= after(file, first));
    lemma_decode_from(sought, arrivals, c, file, first, data);
}

/// A seek to a frame outside of the file sets the read position to the end of the file, without
/// moving the reader, and there is nothing to decode after that.
pub proof fn lemma_seek_outside_of_file<T>(state: DecoderState<T>, frame: nat, data: Seq<Seq<T>>)
    requires
        frame >= state.num_frames,
    ensures
        state.seek_target(frame) is None,
        state.sought(frame).playhead == state.num_frames,
        state.sought(frame).start(data) == (Step {
            state: state.sought(frame),
            data,
            next: None,
        }),
{
}

/// A malformed packet is passed over: a call of `decode` goes on as if it had not been there.
pub proof fn lemma_undecodable_is_passed_over<T>(step: Step<T>, arrivals: Seq<Arrival<T>>)
    requires
        step.next is Some,
    ensures
        run(step, seq![Arrival::Undecodable] + arrivals) == run(step, arrivals),
{
    let all = seq![Arrival::<T>::Undecodable] + arrivals;
    assert(all.drop_first() =~= arrivals);
    assert(step.state.receive(step.next->0, all[0], step.data) == step);
}

/// A track is read from the frame on at which it has been opened, wherever the reader lands before
/// it: if what comes begins with the frame that the timestamps tell, in the file or before its
/// begin, then once its first packet has been decoded the decoder is in step with the file at the
/// frame, and the first block begins with it. A reader that has not been moved gives the file from
/// its begin.
///
/// How far the block may be off where timestamps do not tell that frame exactly is said by
/// `lemma_opened_near_start_frame`.
pub proof fn lemma_opened_at_start_frame<T>(
    opening: Opening,
    seeked: Option<SeekedTo>,
    planes: Seq<Seq<T>>,
    frames: nat,
    arrivals: Seq<Arrival<T>>,
    c: int,
    file: Seq<T>,
    data: Seq<Seq<T>>,
)
    requires
        opening.start_frame <= opening.num_frames,
        file.len() == opening.num_frames,
        forall|i: int| 0 <= i < planes.len() ==> (#[trigger] planes[i]).len() == frames,
        0 <= c < planes.len(),
        carries(arrivals, c),
        ends(arrivals),
        match seeked {
            Some(seeked) => {
                let first = seeked.first_frame(
                    opening.start_frame as nat,
                    rate_or_default(opening.sample_rate),
                    opening.time_base,
                );
                &&& opening.seek_diff == opening.frames_before(seeked)
                &&& opening.start_frame - usize::MAX <= first <= opening.start_frame
                &&& begins_at(planes[c] + stream(arrivals, c), file, first)
            },
            None => {
                &&& opening.start_frame == 0
                &&& opening.seek_diff == 0
                &&& planes[c] + stream(arrivals, c) == file
            },
        },
        0 <= c < data.len(),
    ensures
        ({
            let opened = opening.waiting::<T>(planes.len()).loaded(planes, frames);
            let (end, left) = run(opened.start(data), arrivals);
            let start = opening.start_frame as nat;
            let position = block_end(start, opening.block_size as nat, opening.num_frames as nat);
            &&& opened.playhead == start
            &&& in_step(opened, arrivals, c, file)
            &&& end.next is None
            &&& end.data[c] == data[c] + file.subrange(start as int, position as int)
        }),
{
    let start = opening.start_frame as nat;
    let waiting = opening.waiting::<T>(planes.len());
    let comes = planes[c] + stream(arrivals, c);
    lemma_loaded(waiting, planes, frames, arrivals, c);
    match seeked {
        Some(seeked) => {
            let first = seeked.first_frame(
                start,
                rate_or_default(opening.sample_rate),
                opening.time_base,
            );
            assert(waiting.skip == start - first);
            lemma_skip(comes, file, first, start);
        },
        None => {
            assert(after(comes, 0) =~= after(file, 0));
        },
    }
    lemma_decode_reads_file(waiting.loaded(planes, frames), arrivals, c, file, data);
}

/// An opening is as accurate as timestamps are. If the reader goes on with a packet of which it has
/// told the timestamp, rounded to a tick, the first block begins near to the frame that was asked
/// for.
pub proof fn lemma_opened_near_start_frame<T>(
    opening: Opening,
    seeked: SeekedTo,
    packet_frame: nat,
    planes: Seq<Seq<T>>,
    frames: nat,
    arrivals: Seq<Arrival<T>>,
    c: int,
    file: Seq<T>,
    data: Seq<Seq<T>>,
)
    requires
        opening.start_frame < opening.num_frames,
        opening.time_base matches Some(tb) ==> tb.valid(),
        seeked.valid(),
        seeked.required_ts == frame_ticks(
            opening.start_frame as nat,
            rate_or_default(opening.sample_rate),
            opening.time_base,
        ),
        seeked.actual_ts == frame_ticks(
            packet_frame,
            rate_or_default(opening.sample_rate),
            opening.time_base,
        ),
        opening.seek_diff == opening.frames_before(seeked),
        forall|i: int| 0 <= i < planes.len() ==> (#[trigger] planes[i]).len() == frames,
        0 <= c < planes.len(),
        carries(arrivals, c),
        ends(arrivals),
        planes[c] + stream(arrivals, c) == after(file, packet_frame),
        0 <= c < data.len(),
    ensures
        ({
            let opened = opening.waiting::<T>(planes.len()).loaded(planes, frames);
            let first = packet_frame + opening.frames_before(seeked);
            let end = run(opened.start(data), arrivals).0;
            let position = block_end(first, opening.block_size as nat, file.len());
            &&& near(
                first,
                opening.start_frame as nat,
                seeked,
                rate_or_default(opening.sample_rate),
                opening.time_base,
            )
            &&& upcoming(opened, arrivals, c) == after(file, first)
            &&& end.next is None
            &&& first <= file.len() ==> end.data[c] == data[c] + file.subrange(
                first as int,
                position as int,
            )
            &&& first > file.len() ==> end.data[c] == data[c]
        }),
{
    let waiting = opening.waiting::<T>(planes.len());
    let first = packet_frame + opening.frames_before(seeked);
    lemma_landing_is_near(
        packet_frame,
        opening.start_frame as nat,
        seeked,
        rate_or_default(opening.sample_rate),
        opening.time_base,
    );
    lemma_loaded(waiting, planes, frames, arrivals, c);
    assert(after(after(file, packet_frame), waiting.skip) =~= after(file, first));
    lemma_decode_from(waiting.loaded(planes, frames), arrivals, c, file, first, data);
}

/// It makes no difference whether a track is opened at a frame, or opened elsewhere and then seeked
/// to that frame: the next block is the same, wherever the two readers have landed before the frame,
/// if what comes begins with the frame that the timestamps tell.
pub proof fn lemma_opening_agrees_with_seeking<T>(
    opening: Opening,
    opened_to: SeekedTo,
    planes: Seq<Seq<T>>,
    frames: nat,
    opened_arrivals: Seq<Arrival<T>>,
    state: DecoderState<T>,
    seeked: SeekedTo,
    seeked_arrivals: Seq<Arrival<T>>,
    c: int,
    file: Seq<T>,
    data: Seq<Seq<T>>,
)
    requires
        // One track, read in blocks of one size.
        state.valid(),
        state.num_frames == opening.num_frames == file.len(),
        state.block_size == opening.block_size,
        state.sample_rate == opening.sample_rate,
        state.time_base == opening.time_base,
        opening.start_frame < opening.num_frames,
        0 <= c < data.len(),
        // The reader of the one that is opened at the frame.
        opening.seek_diff == opening.frames_before(opened_to),
        forall|i: int| 0 <= i < planes.len() ==> (#[trigger] planes[i]).len() == frames,
        0 <= c < planes.len(),
        carries(opened_arrivals, c),
        ends(opened_arrivals),
        ({
            let first = opened_to.first_frame(
                opening.start_frame as nat,
                rate_or_default(opening.sample_rate),
                opening.time_base,
            );
            &&& opening.start_frame - usize::MAX <= first <= opening.start_frame
            &&& begins_at(planes[c] + stream(opened_arrivals, c), file, first)
        }),
        // The reader of the one that is seeked to the frame.
        carries(seeked_arrivals, c),
        ends(seeked_arrivals),
        ({
            let first = seeked.first_frame(
                opening.start_frame as nat,
                rate_or_default(opening.sample_rate),
                opening.time_base,
            );
            &&& opening.start_frame - usize::MAX <= first <= opening.start_frame
            &&& begins_at(stream(seeked_arrivals, c), file, first)
        }),
    ensures
        ({
            let opened = opening.waiting::<T>(planes.len()).loaded(planes, frames);
            let moved = state.sought(opening.start_frame as nat);
            let sought = moved.landed(moved.frames_before(seeked));
            let a = run(opened.start(data), opened_arrivals).0;
            let b = run(sought.start(data), seeked_arrivals).0;
            a.next is None && b.next is None && a.data[c] == b.data[c]
        }),
{
    lemma_opened_at_start_frame(
        opening,
        Some(opened_to),
        planes,
        frames,
        opened_arrivals,
        c,
        file,
        data,
    );
    lemma_seek_is_frame_accurate(
        state,
        opening.start_frame as nat,
        seeked,
        seeked_arrivals,
        c,
        file,
        data,
    );
}

} // verus!
