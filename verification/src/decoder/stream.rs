//! The buffered stream decoder: a fixed-capacity byte buffer with read and
//! write cursors, filled from a byte source and drained by a decoding
//! strategy.

use vstd::prelude::*;

use crate::decoder::Decoder;
use crate::decoder::Error as DecodeError;
use crate::decoder::Outcome;
use crate::decoder::SplitDecoder;

verus! {

/// What one decision step of the decode loop asks of the caller.
pub enum Advance<I> {
    /// More bytes are wanted: room has been made (compacting if the
    /// trailing space was exhausted), and up to the given number of bytes —
    /// the unused trailing space, always positive — may now be appended
    /// with `fill`.
    NeedBytes(usize),
    /// The window held a complete item; its bytes have been retired.
    Item(I),
}

/// Errors of the buffered stream decoder.
#[derive(Debug)]
pub enum Error<E> {
    /// The byte source ended while bytes were still being awaited
    /// mid-decode.
    ConnectionClosed,
    /// The strategy rejected the buffered bytes; the cursors are left
    /// unchanged.
    Decode(E),
    /// A pending item requires more bytes than the configured capacity can
    /// ever hold, even after compaction.
    Overflow,
}

/// A buffered stream decoder: accumulates bytes from a source in a
/// fixed-capacity buffer and repeatedly offers the unconsumed window
/// `[read, write)` to a decoding strategy.
pub struct Stream<D> {
    decoder: D,
    buffer: Vec<u8>,
    read: usize,
    write: usize,
}

impl<D> Stream<D> {
    /// The fixed buffer capacity in bytes.
    pub closed spec fn capacity(&self) -> int {
        self.buffer@.len() as int
    }

    /// Index of the first unconsumed byte.
    pub closed spec fn read_pos(&self) -> int {
        self.read as int
    }

    /// Index one past the last byte received from the source.
    pub closed spec fn write_pos(&self) -> int {
        self.write as int
    }

    /// The buffered, not-yet-consumed bytes: the window `[read, write)`.
    pub closed spec fn window(&self) -> Seq<u8> {
        self.buffer@.subrange(self.read as int, self.write as int)
    }

    /// The decoding strategy, with its current internal state.
    pub closed spec fn strategy(&self) -> D {
        self.decoder
    }

    /// Cursor sanity: `read <= write <= capacity`, with the capacity a
    /// machine size.
    pub open spec fn wf(&self) -> bool {
        0 <= self.read_pos() <= self.write_pos() <= self.capacity() <= usize::MAX
    }

    /// The window is exactly the bytes between the cursors.
    pub proof fn lemma_window_len(&self)
        requires
            self.wf(),
        ensures
            self.window().len() == self.write_pos() - self.read_pos(),
    {
    }

    /// Creates a decoder over an empty buffer of the given capacity.
    pub fn new(decoder: D, size: usize) -> (s: Self)
        ensures
            s.wf(),
            s.capacity() == size,
            s.read_pos() == 0,
            s.write_pos() == 0,
            s.window() == Seq::<u8>::empty(),
            s.strategy() == decoder,
    {
        let s = Stream { decoder, buffer: vec![0u8; size], read: 0, write: 0 };
        proof {
            assert(s.window() =~= Seq::<u8>::empty());
        }
        s
    }

    /// Unused space after the write cursor.
    pub fn tail(&self) -> (r: usize)
        requires
            self.wf(),
        ensures
            r == self.capacity() - self.write_pos(),
    {
        self.buffer.len() - self.write
    }

    /// Total reclaimable space: the unused trailing space plus the
    /// already-consumed prefix that compaction would free.
    pub fn free(&self) -> (r: usize)
        requires
            self.wf(),
        ensures
            r == self.capacity() - self.window().len(),
    {
        let t = self.tail();
        let cap = self.buffer.len();
        assert(t + self.read <= cap);
        t + self.read
    }

    /// Compaction: moves the live window `[read, write)` to the buffer's
    /// start, reclaiming the consumed prefix as trailing space.
    pub fn shift(&mut self)
        requires
            old(self).wf(),
        ensures
            final(self).wf(),
            final(self).capacity() == old(self).capacity(),
            final(self).read_pos() == 0,
            final(self).write_pos() == old(self).window().len(),
            final(self).window() == old(self).window(),
            final(self).strategy() == old(self).strategy(),
    {
        let len = self.write - self.read;
        let mut i: usize = 0;
        while i < len
            invariant
                old(self).wf(),
                len == old(self).write_pos() - old(self).read_pos(),
                self.read == old(self).read,
                self.write == old(self).write,
                self.decoder == old(self).decoder,
                self.buffer@.len() == old(self).buffer@.len(),
                0 <= i <= len,
                forall|j: int|
                    0 <= j < i ==> self.buffer@[j] == old(self).buffer@[old(self).read + j],
                forall|j: int|
                    i <= j < len ==> #[trigger] self.buffer@[old(self).read + j]
                        == old(self).buffer@[old(self).read + j],
            decreases len - i,
        {
            let b = self.buffer[self.read + i];
            self.buffer[i] = b;
            i += 1;
        }
        self.write = len;
        self.read = 0;
        proof {
            assert(self.window() =~= old(self).window());
        }
    }
}

impl<D: Decoder> Stream<D> {
    /// Appends bytes freshly received from the source at the write cursor.
    /// An empty read means the source signaled end-of-stream while an item
    /// was still pending, which is a hard `ConnectionClosed` error; the
    /// cursors are then left untouched and no item is ever fabricated.
    pub fn fill(&mut self, data: &[u8]) -> (r: Result<(), Error<D::Error>>)
        requires
            old(self).wf(),
            data@.len() <= old(self).capacity() - old(self).write_pos(),
        ensures
            final(self).wf(),
            final(self).capacity() == old(self).capacity(),
            final(self).strategy() == old(self).strategy(),
            data@.len() == 0 ==> r == Err::<(), Error<D::Error>>(Error::ConnectionClosed)
                && *final(self) == *old(self),
            data@.len() > 0 ==> r == Ok::<(), Error<D::Error>>(())
                && final(self).read_pos() == old(self).read_pos()
                && final(self).write_pos() == old(self).write_pos() + data@.len()
                && final(self).window() == old(self).window() + data@,
    {
        if data.len() == 0 {
            return Err(Error::ConnectionClosed);
        }
        let total = self.buffer.len();
        let len = data.len();
        let mut i: usize = 0;
        while i < len
            invariant
                old(self).wf(),
                old(self).capacity() == total,
                len == data@.len(),
                len <= old(self).capacity() - old(self).write_pos(),
                self.read == old(self).read,
                self.write == old(self).write,
                self.decoder == old(self).decoder,
                self.buffer@.len() == old(self).buffer@.len(),
                0 <= i <= len,
                forall|j: int|
                    0 <= j < old(self).write_pos() ==> #[trigger] self.buffer@[j]
                        == old(self).buffer@[j],
                forall|j: int|
                    old(self).write_pos() <= j < old(self).write_pos() + i
                        ==> #[trigger] self.buffer@[j] == data@[j - old(self).write_pos()],
            decreases len - i,
        {
            let b = *vstd::slice::slice_index_get(data, i);
            self.buffer[self.write + i] = b;
            i += 1;
        }
        self.write = self.write + len;
        proof {
            assert(self.window() =~= old(self).window() + data@);
        }
        Ok(())
    }

    /// One decision step of the decode loop: offers the window `[read,
    /// write)` to the strategy. If more bytes are needed it makes room —
    /// compacting only when the trailing space is exhausted, and failing
    /// with `Overflow` when no room exists and none can be freed — and asks
    /// the caller to `fill`. Otherwise it decodes: on success the item's
    /// bytes are retired (the only place the read cursor advances); on a
    /// parse failure the cursors are left unchanged.
    pub fn advance(&mut self) -> (r: Result<Advance<D::Item>, Error<D::Error>>)
        requires
            old(self).wf(),
        ensures
            final(self).wf(),
            final(self).capacity() == old(self).capacity(),
            final(self).strategy().outcome(old(self).window()) == old(self).strategy().outcome(
                old(self).window(),
            ),
            old(self).strategy().stateless() ==> final(self).strategy() == old(self).strategy(),
            (match old(self).strategy().outcome(old(self).window()) {
                Outcome::Incomplete(_) => {
                    if old(self).window().len() == old(self).capacity() {
                        r == Err::<Advance<D::Item>, Error<D::Error>>(Error::Overflow)
                            && final(self).read_pos() == old(self).read_pos()
                            && final(self).write_pos() == old(self).write_pos()
                            && final(self).window() == old(self).window()
                    } else {
                        r == Ok::<Advance<D::Item>, Error<D::Error>>(Advance::NeedBytes(
                            (final(self).capacity() - final(self).write_pos()) as usize,
                        ))
                            && final(self).window() == old(self).window()
                            && final(self).read_pos() == (if old(self).write_pos() == old(
                            self,
                        ).capacity() {
                            0int
                        } else {
                            old(self).read_pos()
                        })
                            && final(self).write_pos() == final(self).read_pos() + old(
                            self,
                        ).window().len()
                            && final(self).write_pos() < final(self).capacity()
                    }
                },
                Outcome::Success(v, n) => {
                    r matches Ok(Advance::Item(item)) && item@ == v
                        && final(self).read_pos() == old(self).read_pos() + n
                        && final(self).write_pos() == old(self).write_pos()
                        && final(self).window() == old(self).window().skip(n as int)
                },
                Outcome::Failure(e) => {
                    r == Err::<Advance<D::Item>, Error<D::Error>>(Error::Decode(e))
                        && final(self).read_pos() == old(self).read_pos()
                        && final(self).write_pos() == old(self).write_pos()
                        && final(self).window() == old(self).window()
                },
            }),
    {
        let needed = self.decoder.is_needed(
            vstd::slice::slice_subrange(self.buffer.as_slice(), self.read, self.write),
        );
        if needed {
            if self.free() > 0 {
                if self.tail() == 0 {
                    self.shift();
                }
                proof {
                    assert(self.window() =~= old(self).window());
                }
                Ok(Advance::NeedBytes(self.tail()))
            } else {
                Err(Error::Overflow)
            }
        } else {
            let ghost w = old(self).window();
            match self.decoder.decode(
                vstd::slice::slice_subrange(self.buffer.as_slice(), self.read, self.write),
            ) {
                Ok((item, n)) => {
                    proof {
                        self.decoder.lemma_consumed_within(w);
                    }
                    self.read = self.read + n;
                    proof {
                        assert(self.window() =~= old(self).window().skip(
                            self.read - old(self).read,
                        ));
                    }
                    Ok(Advance::Item(item))
                },
                Err(DecodeError::Custom(e)) => Err(Error::Decode(e)),
                Err(DecodeError::Incomplete(_)) => {
                    proof {
                        assert(false);
                    }
                    vstd::pervasive::unreached()
                },
            }
        }
    }

    /// Decodes the next item, drawing further bytes from `source` starting
    /// at `*cursor` whenever the strategy needs them: the decode loop, run
    /// against an in-memory byte source. For a stateless strategy the
    /// result and the final state are exactly those of `run_decode`.
    pub fn next_item(&mut self, source: &[u8], cursor: &mut usize) -> (r: Result<
        D::Item,
        Error<D::Error>,
    >)
        requires
            old(self).wf(),
            *old(cursor) <= source@.len(),
        ensures
            final(self).wf(),
            final(self).capacity() == old(self).capacity(),
            *old(cursor) <= *final(cursor) <= source@.len(),
            old(self).strategy().stateless() ==> {
                let run = run_decode(
                    old(self).strategy(),
                    old(self).window(),
                    old(self).read_pos(),
                    source@.skip(*old(cursor) as int),
                    old(self).capacity(),
                );
                &&& final(self).strategy() == old(self).strategy()
                &&& *final(cursor) == *old(cursor) + run.used
                &&& final(self).window() == run.window
                &&& (match run.result {
                    Ok(v) => r matches Ok(item) && item@ == v,
                    Err(e) => r == Err::<D::Item, Error<D::Error>>(e),
                })
            },
    {
        let ghost run0 = run_decode(
            old(self).strategy(),
            old(self).window(),
            old(self).read_pos(),
            source@.skip(*old(cursor) as int),
            old(self).capacity(),
        );
        loop
            invariant
                self.wf(),
                self.capacity() == old(self).capacity(),
                *old(cursor) <= *cursor <= source@.len(),
                run0 == run_decode(
                    old(self).strategy(),
                    old(self).window(),
                    old(self).read_pos(),
                    source@.skip(*old(cursor) as int),
                    old(self).capacity(),
                ),
                old(self).strategy().stateless() ==> {
                    let run = run_decode(
                        self.strategy(),
                        self.window(),
                        self.read_pos(),
                        source@.skip(*cursor as int),
                        self.capacity(),
                    );
                    &&& self.strategy() == old(self).strategy()
                    &&& run.result == run0.result
                    &&& run.window == run0.window
                    &&& *cursor + run.used == *old(cursor) + run0.used
                },
            decreases source@.len() - *cursor,
        {
            let ghost pre = *self;
            let ghost pre_cursor = *cursor;
            match self.advance() {
                Ok(Advance::Item(item)) => {
                    proof {
                        if old(self).strategy().stateless() {
                            let run1 = run_decode(
                                pre.strategy(),
                                pre.window(),
                                pre.read_pos(),
                                source@.skip(pre_cursor as int),
                                pre.capacity(),
                            );
                            match pre.strategy().outcome(pre.window()) {
                                Outcome::Success(v, n) => {
                                    assert(run1.used == 0);
                                    assert(run1.result == Ok::<_, Error<D::Error>>(v));
                                    assert(run1.window == pre.window().skip(n as int));
                                },
                                Outcome::Incomplete(h) => {
                                    assert(false);
                                },
                                Outcome::Failure(e) => {
                                    assert(false);
                                },
                            }
                        }
                    }
                    return Ok(item);
                },
                Ok(Advance::NeedBytes(t)) => {
                    let avail = source.len() - *cursor;
                    let k = if t < avail {
                        t
                    } else {
                        avail
                    };
                    let chunk = vstd::slice::slice_subrange(source, *cursor, *cursor + k);
                    proof {
                        if old(self).strategy().stateless() {
                            let rest = source@.skip(pre_cursor as int);
                            let run1 = run_decode(
                                pre.strategy(),
                                pre.window(),
                                pre.read_pos(),
                                rest,
                                pre.capacity(),
                            );
                            assert(pre.strategy().outcome(pre.window()) matches
                                Outcome::Incomplete(_));
                            assert(pre.window().len() != pre.capacity());
                            assert(rest.len() == source@.len() - pre_cursor);
                            assert(pre.capacity() - self.read_pos() - pre.window().len()
                                == t as int);
                            if k > 0 {
                                assert(pre.window() + rest.take(k as int) =~= self.window()
                                    + chunk@);
                                assert(rest.skip(k as int) =~= source@.skip(
                                    pre_cursor as int + k,
                                ));
                            }
                        }
                    }
                    match self.fill(chunk) {
                        Ok(()) => {
                            *cursor = *cursor + k;
                        },
                        Err(e) => {
                            return Err(e);
                        },
                    }
                },
                Err(e) => {
                    proof {
                        if old(self).strategy().stateless() {
                            let run1 = run_decode(
                                pre.strategy(),
                                pre.window(),
                                pre.read_pos(),
                                source@.skip(pre_cursor as int),
                                pre.capacity(),
                            );
                            assert(run1.used == 0);
                            assert(run1.result == Err::<<D::Item as View>::V, _>(e));
                        }
                    }
                    return Err(e);
                },
            }
        }
    }
}

/// Everything one run of the decode loop of a stateless strategy yields: the
/// decoded item's value or the error, the window left behind, and how many
/// source bytes were drawn. One round: if the strategy reports a complete
/// item, its bytes are retired; a rejection leaves the window as it is. If
/// instead more bytes are needed, the loop fails with `Overflow` when the
/// window already fills the whole buffer, compacts when only the trailing
/// space is exhausted, then draws the next bytes — as many as fit in the
/// trailing space — and goes round again; a source with nothing left ends
/// the run with `ConnectionClosed`.
pub struct RunOutcome<V, E> {
    /// The decoded item's abstract value, or the error the loop ends with.
    pub result: Result<V, Error<E>>,
    /// The unconsumed window once the run is over.
    pub window: Seq<u8>,
    /// How many bytes of the source the run drew.
    pub used: int,
}

/// The mathematical account of one `next_item` run of a stateless strategy
/// `d`, starting from window `win` at read position `read`, with `rest` the
/// source bytes not yet drawn and `cap` the buffer capacity.
pub open spec fn run_decode<D: Decoder>(
    d: D,
    win: Seq<u8>,
    read: int,
    rest: Seq<u8>,
    cap: int,
) -> RunOutcome<<D::Item as View>::V, D::Error>
    decreases rest.len(),
{
    match d.outcome(win) {
        Outcome::Success(v, n) => RunOutcome {
            result: Ok(v),
            window: win.skip(n as int),
            used: 0,
        },
        Outcome::Failure(e) => RunOutcome { result: Err(Error::Decode(e)), window: win, used: 0 },
        Outcome::Incomplete(_) => {
            if win.len() == cap {
                RunOutcome { result: Err(Error::Overflow), window: win, used: 0 }
            } else {
                let read1: int = if read + win.len() == cap {
                    0
                } else {
                    read
                };
                let tail1: int = cap - read1 - win.len();
                let k: int = if tail1 < 0 {
                    0
                } else if tail1 <= rest.len() {
                    tail1
                } else {
                    rest.len() as int
                };
                if k == 0 {
                    RunOutcome { result: Err(Error::ConnectionClosed), window: win, used: 0 }
                } else {
                    let sub = run_decode(d, win + rest.take(k), read1, rest.skip(k), cap);
                    RunOutcome { result: sub.result, window: sub.window, used: k + sub.used }
                }
            }
        },
    }
}

/// With the fixed-size split strategy and a chunk that fits the buffer, a
/// run that has at least one whole chunk available — between the window and
/// the source — yields exactly the next chunk.
proof fn lemma_run_split_next<const N: usize>(win: Seq<u8>, read: int, rest: Seq<u8>, cap: int)
    requires
        0 < N <= cap,
        cap <= usize::MAX,
        0 <= read,
        read + win.len() <= cap,
        win.len() + rest.len() >= N,
    ensures
        ({
            let run = run_decode(SplitDecoder::<N>, win, read, rest, cap);
            &&& 0 <= run.used <= rest.len()
            &&& win.len() + run.used >= N
            &&& run.result == Ok::<Seq<u8>, Error<()>>((win + rest).take(N as int))
            &&& run.window == (win + rest.take(run.used)).skip(N as int)
        }),
    decreases rest.len(),
{
    let d = SplitDecoder::<N>;
    if win.len() >= N {
        assert(win.take(N as int) =~= (win + rest).take(N as int));
        assert(win.skip(N as int) =~= (win + rest.take(0)).skip(N as int));
    } else {
        let read1: int = if read + win.len() == cap {
            0
        } else {
            read
        };
        let tail1: int = cap - read1 - win.len();
        let k: int = if tail1 <= rest.len() {
            tail1
        } else {
            rest.len() as int
        };
        let win2 = win + rest.take(k);
        let rest2 = rest.skip(k);
        lemma_run_split_next::<N>(win2, read1, rest2, cap);
        let sub = run_decode(d, win2, read1, rest2, cap);
        assert(win2 + rest2 =~= win + rest);
        assert(win2 + rest2.take(sub.used) =~= win + rest.take(k + sub.used));
    }
}

/// With the fixed-size split strategy and a chunk that fits the buffer, a
/// run left with less than one whole chunk drains the source and ends in
/// `ConnectionClosed`, never in a partial item.
proof fn lemma_run_split_starved<const N: usize>(win: Seq<u8>, read: int, rest: Seq<u8>, cap: int)
    requires
        0 < N <= cap,
        cap <= usize::MAX,
        0 <= read,
        read + win.len() <= cap,
        win.len() + rest.len() < N,
    ensures
        ({
            let run = run_decode(SplitDecoder::<N>, win, read, rest, cap);
            &&& run.used == rest.len()
            &&& run.result == Err::<Seq<u8>, Error<()>>(Error::ConnectionClosed)
            &&& run.window == win + rest
        }),
    decreases rest.len(),
{
    let d = SplitDecoder::<N>;
    if rest.len() == 0 {
        assert(win =~= win + rest);
    } else {
        let read1: int = if read + win.len() == cap {
            0
        } else {
            read
        };
        let tail1: int = cap - read1 - win.len();
        let k: int = if tail1 <= rest.len() {
            tail1
        } else {
            rest.len() as int
        };
        let win2 = win + rest.take(k);
        let rest2 = rest.skip(k);
        lemma_run_split_starved::<N>(win2, read1, rest2, cap);
        assert(win2 + rest2 =~= win + rest);
    }
}

/// With the fixed-size split strategy and a capacity below the chunk size,
/// a run never yields an item: it ends in `Overflow` once the source can
/// fill the whole buffer, and in `ConnectionClosed` when the source runs
/// out first.
proof fn lemma_run_split_overflow<const N: usize>(win: Seq<u8>, read: int, rest: Seq<u8>, cap: int)
    requires
        0 < N,
        cap < N,
        cap <= usize::MAX,
        0 <= read,
        read + win.len() <= cap,
    ensures
        run_decode(SplitDecoder::<N>, win, read, rest, cap).result == (if win.len() + rest.len()
            >= cap {
            Err::<Seq<u8>, Error<()>>(Error::Overflow)
        } else {
            Err::<Seq<u8>, Error<()>>(Error::ConnectionClosed)
        }),
    decreases rest.len(),
{
    if win.len() == cap {
    } else {
        let read1: int = if read + win.len() == cap {
            0
        } else {
            read
        };
        let tail1: int = cap - read1 - win.len();
        let k: int = if tail1 <= rest.len() {
            tail1
        } else {
            rest.len() as int
        };
        if k != 0 {
            lemma_run_split_overflow::<N>(win + rest.take(k), read1, rest.skip(k), cap);
        }
    }
}

/// Decodes an entire in-memory byte stream with the fixed-size split
/// strategy: when one chunk fits the configured capacity, the items are
/// exactly the source's whole `N`-byte chunks, in order, with no loss or
/// duplication, and the run ends with `ConnectionClosed` — trailing bytes
/// short of a chunk are never returned as a partial item. When the capacity
/// is below the chunk size no item is ever produced: the result is
/// `Overflow` (or `ConnectionClosed` when the source ends before the buffer
/// can even fill).
pub fn decode_fixed<const N: usize>(source: &[u8], capacity: usize) -> (r: (
    Vec<Vec<u8>>,
    Error<()>,
))
    requires
        0 < N,
    ensures
        N <= capacity ==> {
            &&& r.0@.len() as int == source@.len() as int / N as int
            &&& (forall|i: int|
                0 <= i < r.0@.len() ==> #[trigger] r.0@[i]@ == source@.subrange(
                    N as int * i,
                    N as int * i + N as int,
                ))
            &&& r.1 == Error::<()>::ConnectionClosed
        },
        capacity < N ==> {
            &&& r.0@.len() == 0
            &&& r.1 == (if source@.len() >= capacity {
                Error::<()>::Overflow
            } else {
                Error::<()>::ConnectionClosed
            })
        },
{
    let mut stream = Stream::new(SplitDecoder::<N>, capacity);
    let mut cursor: usize = 0;
    let mut items: Vec<Vec<u8>> = Vec::new();
    proof {
        assert(items@.len() == 0);
        assert(N as int * 0 == 0);
    }
    if capacity < N {
        proof {
            assert(source@.skip(0) =~= source@);
            lemma_run_split_overflow::<N>(stream.window(), 0, source@, capacity as int);
        }
        match stream.next_item(source, &mut cursor) {
            Ok(_) => {
                proof {
                    assert(false);
                }
                vstd::pervasive::unreached()
            },
            Err(e) => (items, e),
        }
    } else {
        loop
            invariant
                stream.wf(),
                0 < N <= capacity,
                stream.capacity() == capacity,
                stream.strategy() == SplitDecoder::<N>,
                cursor <= source@.len(),
                N as int * items@.len() + stream.window().len() == cursor as int,
                stream.window() == source@.subrange(N as int * items@.len(), cursor as int),
                forall|i: int|
                    0 <= i < items@.len() ==> #[trigger] items@[i]@ == source@.subrange(
                        N as int * i,
                        N as int * i + N as int,
                    ),
            decreases source@.len() - N as int * items@.len(),
        {
            let ghost j = items@.len() as int;
            let ghost win = stream.window();
            let ghost rest = source@.skip(cursor as int);
            let ghost pre_cursor = cursor as int;
            proof {
                assert(win + rest =~= source@.skip(N as int * j));
                if win.len() + rest.len() >= N {
                    lemma_run_split_next::<N>(win, stream.read_pos(), rest, capacity as int);
                    assert((win + rest).take(N as int) =~= source@.subrange(
                        N as int * j,
                        N as int * j + N as int,
                    ));
                } else {
                    lemma_run_split_starved::<N>(win, stream.read_pos(), rest, capacity as int);
                }
            }
            match stream.next_item(source, &mut cursor) {
                Ok(item) => {
                    proof {
                        let used = cursor as int - pre_cursor;
                        assert(N as int * (j + 1) == N as int * j + N as int) by (nonlinear_arith);
                        assert(win + rest.take(used) =~= source@.subrange(
                            N as int * j,
                            cursor as int,
                        ));
                        assert((win + rest.take(used)).skip(N as int) =~= source@.subrange(
                            N as int * (j + 1),
                            cursor as int,
                        ));
                    }
                    items.push(item);
                },
                Err(e) => {
                    proof {
                        assert(win.len() + rest.len() < N);
                        assert(j * (N as int) == N as int * j) by (nonlinear_arith);
                        vstd::arithmetic::div_mod::lemma_fundamental_div_mod_converse(
                            source@.len() as int,
                            N as int,
                            j,
                            source@.len() - N as int * j,
                        );
                    }
                    return (items, e);
                },
            }
        }
    }
}

} // verus!
