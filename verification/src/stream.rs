//! The inner byte streams the adapters transcode between: a pull capability
//! for sources, a push capability for sinks, and in-memory implementations
//! of both. Transient retry signals are modelled with a finite retry budget,
//! so every transfer loop provably terminates.

use vstd::prelude::*;

use crate::codec::DecodeError;

verus! {

/// What a single pull from a source produced.
pub enum PullOutcome {
    /// A non-empty batch of bytes from the front of the stream.
    Data(Vec<u8>),
    /// True end-of-stream: nothing is left and nothing will come.
    End,
    /// A transient interruption; the caller retries transparently.
    Retry,
    /// An unrecoverable upstream failure.
    Fatal,
}

/// What a single push to a sink did.
pub enum PushOutcome {
    /// The sink accepted this many leading bytes of what was offered.
    Accepted(usize),
    /// A transient interruption; the caller retries transparently.
    Retry,
    /// An unrecoverable downstream failure.
    Fatal,
}

/// The errors a transcoding operation can surface. A fatal stream failure
/// is reported as a bare `Source` or `Sink`: the adapters carry no payload
/// for it, so an implementation of the stream traits that has details to
/// report keeps them itself.
#[derive(Clone, Copy, Debug, PartialEq, Eq, Structural)]
pub enum TranscodeError {
    /// The inner source failed fatally.
    Source,
    /// The inner sink failed fatally.
    Sink,
    /// The stream ended before a fixed-size read could be completed.
    UnexpectedEof,
    /// The codec rejected a symbol group.
    Decode(DecodeError),
}

/// A source of bytes that an adapter pulls from.
pub trait ByteSource {
    /// The bytes this source will still deliver, in order.
    spec fn avail(&self) -> Seq<u8>;

    /// How many transient interruptions the source may still signal before
    /// it makes progress; a real stream never retries forever.
    spec fn retry_budget(&self) -> nat;

    /// Pull at most `max` bytes. `Data` hands over a non-empty prefix of
    /// the remaining bytes; `End` is returned only at true end-of-stream.
    /// A fatal failure transfers nothing: the modelled remainder stands.
    fn pull(&mut self, max: usize) -> (r: PullOutcome)
        requires
            max >= 1,
        ensures
            match r {
                PullOutcome::Data(v) => {
                    &&& 1 <= v@.len() <= max
                    &&& v@.len() <= old(self).avail().len()
                    &&& v@ == old(self).avail().take(v@.len() as int)
                    &&& final(self).avail() == old(self).avail().skip(v@.len() as int)
                },
                PullOutcome::End => {
                    &&& old(self).avail().len() == 0
                    &&& final(self).avail() == old(self).avail()
                },
                PullOutcome::Retry => {
                    &&& final(self).avail() == old(self).avail()
                    &&& final(self).retry_budget() < old(self).retry_budget()
                },
                PullOutcome::Fatal => final(self).avail() == old(self).avail(),
            },
    ;
}

/// A sink of bytes that an adapter pushes to.
pub trait ByteSink {
    /// All bytes the sink has accepted so far, in order.
    spec fn accepted(&self) -> Seq<u8>;

    /// How many transient interruptions the sink may still signal before it
    /// makes progress; a real stream never retries forever.
    spec fn retry_budget(&self) -> nat;

    /// Offer `data[from..]`. `Accepted(n)` appends the first `n` of those
    /// bytes, `n >= 1`, to the sink. A fatal failure transfers nothing: the
    /// modelled content stands.
    fn push(&mut self, data: &Vec<u8>, from: usize) -> (r: PushOutcome)
        requires
            from < data.len(),
        ensures
            match r {
                PushOutcome::Accepted(n) => {
                    &&& 1 <= n <= data@.len() - from
                    &&& final(self).accepted() == old(self).accepted() + data@.subrange(
                        from as int,
                        from + n,
                    )
                },
                PushOutcome::Retry => {
                    &&& final(self).accepted() == old(self).accepted()
                    &&& final(self).retry_budget() < old(self).retry_budget()
                },
                PushOutcome::Fatal => final(self).accepted() == old(self).accepted(),
            },
    ;
}

/// An in-memory source: serves a byte vector from front to back.
pub struct MemSource {
    data: Vec<u8>,
    pos: usize,
}

impl MemSource {
    /// Wrap a vector as a source that will deliver exactly its bytes.
    pub fn new(data: Vec<u8>) -> (r: MemSource)
        ensures
            r.avail() == data@,
    {
        MemSource { data, pos: 0 }
    }
}

impl ByteSource for MemSource {
    closed spec fn avail(&self) -> Seq<u8> {
        if self.pos <= self.data.len() {
            self.data@.skip(self.pos as int)
        } else {
            Seq::empty()
        }
    }

    closed spec fn retry_budget(&self) -> nat {
        0
    }

    fn pull(&mut self, max: usize) -> (r: PullOutcome)
        ensures
            !(r is Fatal),
            !(r is Retry),
    {
        if self.pos >= self.data.len() {
            return PullOutcome::End;
        }
        let left = self.data.len() - self.pos;
        let n: usize = if left < max {
            left
        } else {
            max
        };
        let piece = vstd::slice::slice_to_vec(
            vstd::slice::slice_subrange(self.data.as_slice(), self.pos, self.pos + n),
        );
        self.pos = self.pos + n;
        proof {
            assert(piece@ =~= old(self).avail().take(n as int));
            assert(self.avail() =~= old(self).avail().skip(n as int));
        }
        PullOutcome::Data(piece)
    }
}

/// An in-memory source that signals a fixed number of transient
/// interruptions before each batch, the way a stream with interrupted
/// system calls would; adapters must ride them out transparently.
pub struct StutterSource {
    data: Vec<u8>,
    pos: usize,
    gap: usize,
    left: usize,
}

impl StutterSource {
    /// Wrap a vector as a source that asks to be retried `gap` times before
    /// every batch it delivers.
    pub fn new(data: Vec<u8>, gap: usize) -> (r: StutterSource)
        ensures
            r.avail() == data@,
    {
        StutterSource { data, pos: 0, gap, left: gap }
    }
}

impl ByteSource for StutterSource {
    closed spec fn avail(&self) -> Seq<u8> {
        if self.pos <= self.data.len() {
            self.data@.skip(self.pos as int)
        } else {
            Seq::empty()
        }
    }

    closed spec fn retry_budget(&self) -> nat {
        self.left as nat
    }

    fn pull(&mut self, max: usize) -> (r: PullOutcome)
        ensures
            !(r is Fatal),
    {
        if self.left > 0 {
            self.left = self.left - 1;
            return PullOutcome::Retry;
        }
        if self.pos >= self.data.len() {
            return PullOutcome::End;
        }
        let leftover = self.data.len() - self.pos;
        let n: usize = if leftover < max {
            leftover
        } else {
            max
        };
        let piece = vstd::slice::slice_to_vec(
            vstd::slice::slice_subrange(self.data.as_slice(), self.pos, self.pos + n),
        );
        self.pos = self.pos + n;
        self.left = self.gap;
        proof {
            assert(piece@ =~= old(self).avail().take(n as int));
            assert(self.avail() =~= old(self).avail().skip(n as int));
        }
        PullOutcome::Data(piece)
    }
}

/// An in-memory sink: appends everything it is offered to a vector.
pub struct MemSink {
    data: Vec<u8>,
}

impl MemSink {
    /// An empty sink.
    pub fn new() -> (r: MemSink)
        ensures
            r.accepted() == Seq::<u8>::empty(),
    {
        MemSink { data: Vec::new() }
    }

    /// Hand back everything the sink accepted.
    pub fn into_vec(self) -> (r: Vec<u8>)
        ensures
            r@ == self.accepted(),
    {
        self.data
    }
}

impl ByteSink for MemSink {
    closed spec fn accepted(&self) -> Seq<u8> {
        self.data@
    }

    closed spec fn retry_budget(&self) -> nat {
        0
    }

    fn push(&mut self, data: &Vec<u8>, from: usize) -> (r: PushOutcome)
        ensures
            r is Accepted,
    {
        let mut piece = vstd::slice::slice_to_vec(
            vstd::slice::slice_subrange(data.as_slice(), from, data.len()),
        );
        let n = piece.len();
        self.data.append(&mut piece);
        proof {
            assert(self.accepted() =~= old(self).accepted() + data@.subrange(
                from as int,
                from + n,
            ));
        }
        PushOutcome::Accepted(n)
    }
}

/// Two transfer passes into one destination compose: if the first pass
/// wrote `out1[..m - di]` at `di` and held `out1[m - di..]` over, and the
/// second continued at `m` with `out2`, the extension of `out1`, then
/// together they wrote `out[..r - di]` at `di` and held `out[r - di..]`.
#[verifier::rlimit(50)]
pub(crate) proof fn lemma_pass_compose(
    d0: Seq<u8>,
    d1: Seq<u8>,
    d2: Seq<u8>,
    out1: Seq<u8>,
    e2: Seq<u8>,
    di: int,
    m: int,
    r: int,
)
    requires
        0 <= di <= m <= r,
        m <= d0.len(),
        r <= d1.len(),
        d1.len() == d0.len(),
        d2.len() == d1.len(),
        m - di <= out1.len(),
        r - m <= out1.len() - (m - di) + e2.len(),
        d1 == d0.take(di) + out1.take(m - di) + d0.skip(m),
        d2 == d1.take(m) + (out1.skip(m - di) + e2).take(r - m) + d1.skip(r),
    ensures
        r - di <= (out1 + e2).len(),
        (out1.skip(m - di) + e2).skip(r - m) == (out1 + e2).skip(r - di),
        d2 == d0.take(di) + (out1 + e2).take(r - di) + d0.skip(r),
{
    let out2 = out1.skip(m - di) + e2;
    let out = out1 + e2;
    assert(out2.skip(r - m) =~= out.skip(r - di));
    assert(d1.take(m) =~= d0.take(di) + out1.take(m - di));
    assert(d1.skip(r) =~= d0.skip(r)) by {
        assert forall|i: int| 0 <= i < d1.len() - r implies d1.skip(r)[i] == d0.skip(r)[i] by {
            assert(d1[r + i] == d0.skip(m)[r + i - m]);
        }
    }
    assert(d0.take(di) + out1.take(m - di) + out2.take(r - m) =~= d0.take(di) + out.take(
        r - di,
    )) by {
        assert forall|w: int| 0 <= w < r - di implies #[trigger] (out1.take(m - di) + out2.take(
            r - m,
        ))[w] == out.take(r - di)[w] by {
            if w < m - di {
                assert(out1[w] == out[w]);
            } else {
                assert(out2.take(r - m)[w - (m - di)] == out2[w - (m - di)]);
                if w < out1.len() {
                    assert(out2[w - (m - di)] == out1.skip(m - di)[w - (m - di)]);
                    assert(out1.skip(m - di)[w - (m - di)] == out1[w]);
                    assert(out1[w] == out[w]);
                } else {
                    assert(out2[w - (m - di)] == e2[w - out1.len()]);
                    assert(out[w] == e2[w - out1.len()]);
                }
            }
        }
    }
    assert(d2 =~= d0.take(di) + out.take(r - di) + d0.skip(r)) by {
        assert(d2 == d1.take(m) + out2.take(r - m) + d1.skip(r));
        assert(d1.take(m) + out2.take(r - m) =~= d0.take(di) + out1.take(m - di) + out2.take(
            r - m,
        ));
    }
}

/// Copy `src[a..b]` into `dst` in place, starting at `di`.
#[verifier::loop_isolation(false)]
pub(crate) fn copy_into(dst: &mut Vec<u8>, di: usize, src: &Vec<u8>, a: usize, b: usize)
    requires
        a <= b <= src.len(),
        di + (b - a) <= old(dst).len(),
    ensures
        final(dst).len() == old(dst).len(),
        final(dst)@ == old(dst)@.take(di as int) + src@.subrange(a as int, b as int) + old(
            dst,
        )@.skip(di + (b - a)),
{
    let mut j: usize = 0;
    while j < b - a
        invariant
            j <= b - a,
            dst.len() == old(dst).len(),
            forall|i: int| 0 <= i < di ==> #[trigger] dst@[i] == old(dst)@[i],
            forall|i: int| 0 <= i < j ==> #[trigger] dst@[di + i] == src@[a + i],
            forall|i: int| di + j <= i < dst.len() ==> #[trigger] dst@[i] == old(dst)@[i],
        decreases b - a - j,
    {
        let v = src[a + j];
        dst[di + j] = v;
        j = j + 1;
    }
    proof {
        let full = old(dst)@.take(di as int) + src@.subrange(a as int, b as int) + old(dst)@.skip(
            di + (b - a),
        );
        assert forall|i: int| 0 <= i < dst.len() implies dst@[i] == full[i] by {
            if di <= i < di + (b - a) {
                assert(dst@[di + (i - di)] == src@[a + (i - di)]);
            }
        }
        assert(dst@ =~= full);
    }
}

/// Deliver all of `data[from..]` to the sink, retrying transient
/// interruptions and short writes until everything is accepted or the sink
/// fails fatally.
pub fn push_all<K: ByteSink>(sink: &mut K, data: &Vec<u8>, from: usize) -> (r: Result<
    (),
    TranscodeError,
>)
    requires
        from <= data.len(),
    ensures
        from == data.len() ==> r is Ok,
        match r {
            Ok(()) => final(sink).accepted() == old(sink).accepted() + data@.skip(from as int),
            Err(e) => e == TranscodeError::Sink && exists|k: int|
                0 <= k <= data@.len() - from && final(sink).accepted() == old(sink).accepted()
                    + #[trigger] data@.subrange(from as int, from + k),
        },
{
    let mut i: usize = from;
    while i < data.len()
        invariant
            from <= i <= data.len(),
            sink.accepted() == old(sink).accepted() + data@.subrange(from as int, i as int),
        decreases data.len() - i, sink.retry_budget(),
    {
        match sink.push(data, i) {
            PushOutcome::Accepted(n) => {
                proof {
                    assert(data@.subrange(from as int, i as int) + data@.subrange(
                        i as int,
                        i + n,
                    ) =~= data@.subrange(from as int, i + n));
                }
                i = i + n;
            },
            PushOutcome::Retry => {},
            PushOutcome::Fatal => {
                proof {
                    assert(sink.accepted() == old(sink).accepted() + data@.subrange(
                        from as int,
                        from + (i - from),
                    ));
                }
                return Err(TranscodeError::Sink);
            },
        }
    }
    proof {
        assert(data@.subrange(from as int, i as int) =~= data@.skip(from as int));
    }
    Ok(())
}

} // verus!
