//! Encode-on-read: pulls raw bytes from an inner source, encodes them, and
//! serves the Base64 stream to the caller's buffer.

use vstd::prelude::*;

use crate::codec::b64_encode;
use crate::codec::encode_of;
use crate::codec::lemma_encode_append;
use crate::codec::lemma_encode_len;
use crate::stream::copy_into;
use crate::stream::ByteSource;
use crate::stream::PullOutcome;
use crate::stream::TranscodeError;

verus! {

/// Two sequences concatenated split back at the length of the first.
proof fn lemma_split_concat(x: Seq<u8>, y: Seq<u8>, w: int)
    requires
        0 <= w <= x.len(),
    ensures
        (x + y).take(w) == x.take(w),
        (x + y).skip(w) == x.skip(w) + y,
{
    assert((x + y).take(w) =~= x.take(w));
    assert((x + y).skip(w) =~= x.skip(w) + y);
}

/// The bytes a schedule of successive reads delivers from a stream with
/// `p` pending, when the calls hand out `ns[0]`, `ns[1]`, ... bytes in
/// turn: each call delivers the next prefix, as `read`'s contract fixes.
pub open spec fn reads_delivered(p: Seq<u8>, ns: Seq<int>) -> Seq<u8>
    decreases ns.len(),
{
    if ns.len() == 0 {
        Seq::empty()
    } else {
        p.take(ns[0]) + reads_delivered(p.skip(ns[0]), ns.skip(1))
    }
}

/// The total byte count of a schedule of reads.
pub open spec fn reads_total(ns: Seq<int>) -> int
    decreases ns.len(),
{
    if ns.len() == 0 {
        0
    } else {
        ns[0] + reads_total(ns.skip(1))
    }
}

proof fn lemma_reads_total_nonneg(ns: Seq<int>)
    requires
        forall|i: int| 0 <= i < ns.len() ==> 0 <= #[trigger] ns[i],
    ensures
        reads_total(ns) >= 0,
    decreases ns.len(),
{
    if ns.len() > 0 {
        assert forall|i: int| 0 <= i < ns.skip(1).len() implies 0 <= #[trigger] ns.skip(1)[i] by {
            assert(ns.skip(1)[i] == ns[i + 1]);
        }
        lemma_reads_total_nonneg(ns.skip(1));
    }
}

/// Law: any schedule of successive reads delivers the pending stream in
/// order — the concatenation of what the calls hand out is the prefix of
/// length `reads_total(ns)`, however the schedule splits it.
pub proof fn lemma_read_schedule(p: Seq<u8>, ns: Seq<int>)
    requires
        forall|i: int| 0 <= i < ns.len() ==> 0 <= #[trigger] ns[i],
        reads_total(ns) <= p.len(),
    ensures
        reads_delivered(p, ns) == p.take(reads_total(ns)),
    decreases ns.len(),
{
    if ns.len() == 0 {
        assert(reads_delivered(p, ns) =~= p.take(0));
    } else {
        let n0 = ns[0];
        let tail = ns.skip(1);
        assert forall|i: int| 0 <= i < tail.len() implies 0 <= #[trigger] tail[i] by {
            assert(tail[i] == ns[i + 1]);
        }
        lemma_reads_total_nonneg(tail);
        lemma_read_schedule(p.skip(n0), tail);
        crate::codec::lemma_reads_concatenate(p, n0, reads_total(tail));
    }
}

proof fn lemma_reads_total_ones(m: int)
    requires
        m >= 0,
    ensures
        reads_total(Seq::new(m as nat, |i: int| 1int)) == m,
    decreases m,
{
    if m > 0 {
        assert(Seq::new(m as nat, |i: int| 1int).skip(1) =~= Seq::new(
            (m - 1) as nat,
            |i: int| 1int,
        ));
        lemma_reads_total_ones(m - 1);
    }
}

/// Law: a one-byte destination still yields everything. A fresh reader
/// over source bytes `s` has `encode_of(s)` pending, each single-byte read
/// delivers exactly the next pending symbol, and after `4 * ((|s| + 2) / 3)`
/// such reads the whole encoding has been delivered and nothing is pending,
/// so one further read returns zero.
pub proof fn lemma_single_byte_reads_deliver_everything(s: Seq<u8>)
    ensures
        reads_total(Seq::new(encode_of(s).len(), |i: int| 1int)) == 4 * ((s.len() + 2) / 3),
        reads_delivered(encode_of(s), Seq::new(encode_of(s).len(), |i: int| 1int)) == encode_of(s),
        encode_of(s).skip(4 * ((s.len() + 2) / 3) as int).len() == 0,
{
    lemma_encode_len(s);
    let p = encode_of(s);
    let ones = Seq::new(p.len(), |i: int| 1int);
    lemma_reads_total_ones(p.len() as int);
    lemma_read_schedule(p, ones);
    assert(p.take(p.len() as int) =~= p);
}

/// Read any data and encode it to Base64 as it streams.
pub struct ToBase64Reader<S: ByteSource> {
    inner: S,
    buf: Vec<u8>,
    buf_offset: usize,
    buf_length: usize,
    temp: Vec<u8>,
}

impl<S: ByteSource> ToBase64Reader<S> {
    /// The staging window fits the buffer, the compaction rule keeps one
    /// alignment unit of tail room, and the overflow cell holds at most the
    /// spill of one encoded group.
    pub closed spec fn wf(&self) -> bool {
        &&& self.buf.len() >= 4
        &&& self.buf_offset + self.buf_length <= self.buf.len()
        &&& (self.buf_offset == 0 || self.buf_offset + 4 < self.buf.len())
        &&& self.temp.len() <= 3
    }

    /// Raw bytes pulled from the source but not yet encoded.
    pub closed spec fn staged(&self) -> Seq<u8> {
        self.buf@.subrange(self.buf_offset as int, self.buf_offset + self.buf_length)
    }

    /// Encoded bytes produced on an earlier call that did not fit the
    /// caller's buffer then.
    pub closed spec fn held(&self) -> Seq<u8> {
        self.temp@
    }

    /// The bytes the inner source will still deliver.
    pub closed spec fn source_avail(&self) -> Seq<u8> {
        self.inner.avail()
    }

    /// Everything this reader will still produce: the overflow cell, then
    /// the encoding of all bytes not yet transformed.
    pub open spec fn pending(&self) -> Seq<u8> {
        self.held() + encode_of(self.staged() + self.source_avail())
    }

    /// One drain pass delivered `dst[di..r]`: `k` staged bytes were encoded
    /// behind the overflow cell, what fit was written, the rest held over.
    spec fn drained(
        pre: Self,
        dst0: Seq<u8>,
        post: Self,
        dst1: Seq<u8>,
        di: int,
        r: int,
        k: int,
    ) -> bool {
        let out = pre.held() + encode_of(pre.staged().take(k));
        &&& 0 <= k <= pre.staged().len()
        &&& 0 <= di <= r <= dst0.len()
        &&& dst1.len() == dst0.len()
        &&& post.staged() == pre.staged().skip(k)
        &&& post.inner == pre.inner
        &&& r - di <= out.len()
        &&& post.held() == out.skip(r - di)
        &&& dst1 == dst0.take(di) + out.take(r - di) + dst0.skip(r)
    }

    /// A pass that does nothing is a drain pass.
    proof fn lemma_drained_refl(s: Self, d: Seq<u8>, di: int)
        requires
            0 <= di <= d.len(),
        ensures
            Self::drained(s, d, s, d, di, di, 0),
    {
        assert(s.staged().take(0) =~= Seq::<u8>::empty());
        assert(encode_of(Seq::<u8>::empty()) =~= Seq::<u8>::empty());
        let out = s.held() + encode_of(s.staged().take(0));
        assert(out =~= s.held());
        assert(s.staged().skip(0) =~= s.staged());
        assert(out.skip(0) =~= s.held());
        assert(d =~= d.take(di) + out.take(0) + d.skip(di));
    }

    /// Two drain passes in a row form one, provided the first stopped at a
    /// group boundary.
    #[verifier::rlimit(50)]
    proof fn lemma_drained_compose(
        s0: Self,
        d0: Seq<u8>,
        s1: Self,
        d1: Seq<u8>,
        s2: Self,
        d2: Seq<u8>,
        di: int,
        m: int,
        r: int,
        k1: int,
        k2: int,
    )
        requires
            Self::drained(s0, d0, s1, d1, di, m, k1),
            Self::drained(s1, d1, s2, d2, m, r, k2),
            k1 % 3 == 0,
        ensures
            Self::drained(s0, d0, s2, d2, di, r, k1 + k2),
    {
        let st0 = s0.staged();
        let e1 = encode_of(st0.take(k1));
        let out1 = s0.held() + e1;
        let e2 = encode_of(s1.staged().take(k2));
        let out2 = s1.held() + e2;
        let out = s0.held() + encode_of(st0.take(k1 + k2));
        assert(st0.take(k1 + k2) =~= st0.take(k1) + st0.skip(k1).take(k2));
        lemma_encode_append(st0.take(k1), st0.skip(k1).take(k2));
        assert(s1.staged().take(k2) == st0.skip(k1).take(k2));
        assert(out =~= out1 + e2);
        assert(s2.staged() =~= st0.skip(k1 + k2));
        assert(s1.held().len() == out1.len() - (m - di));
        assert(out2 =~= out1.skip(m - di) + e2);
        crate::stream::lemma_pass_compose(d0, d1, d2, out1, e2, di, m, r);
    }

    /// Wrap a source; the staging buffer gets the default capacity.
    pub fn new(inner: S) -> (r: Self)
        ensures
            r.wf(),
            r.pending() == encode_of(inner.avail()),
    {
        Self::new2(inner, 4096)
    }

    /// Wrap a source with an explicit staging capacity; the capacity must
    /// hold at least one alignment unit. The codec is always the standard
    /// alphabet with `=` padding.
    pub fn new2(inner: S, capacity: usize) -> (r: Self)
        requires
            capacity >= 4,
        ensures
            r.wf(),
            r.pending() == encode_of(inner.avail()),
    {
        let r = ToBase64Reader {
            inner,
            buf: vec![0u8; capacity],
            buf_offset: 0,
            buf_length: 0,
            temp: Vec::new(),
        };
        proof {
            assert(r.staged() =~= Seq::<u8>::empty());
            assert(r.staged() + r.source_avail() =~= r.source_avail());
            assert(r.pending() =~= encode_of(inner.avail()));
        }
        r
    }

    /// Consume `distance` staged bytes; when the window nears the tail of
    /// the buffer, compact it to the front with an overlap-safe copy.
    #[verifier::loop_isolation(false)]
    fn buf_left_shift(&mut self, distance: usize)
        requires
            old(self).wf(),
            distance <= old(self).buf_length,
        ensures
            final(self).wf(),
            final(self).buf.len() == old(self).buf.len(),
            final(self).buf_length == old(self).buf_length - distance,
            final(self).staged() == old(self).staged().skip(distance as int),
            final(self).temp == old(self).temp,
            final(self).inner == old(self).inner,
    {
        self.buf_offset = self.buf_offset + distance;
        self.buf_length = self.buf_length - distance;
        if self.buf_offset >= self.buf.len() - 4 {
            let ghost bsnap = self.buf@;
            let ghost w = self.buf@.subrange(
                self.buf_offset as int,
                self.buf_offset + self.buf_length,
            );
            proof {
                assert(w =~= old(self).staged().skip(distance as int));
            }
            let off = self.buf_offset;
            let len = self.buf_length;
            let mut j: usize = 0;
            while j < len
                invariant
                    j <= len,
                    self.buf_offset == off,
                    self.buf_length == len,
                    self.temp == old(self).temp,
                    self.inner == old(self).inner,
                    self.buf.len() == bsnap.len(),
                    forall|i: int| 0 <= i < j ==> #[trigger] self.buf@[i] == w[i],
                    forall|i: int| j <= i < self.buf.len() ==> #[trigger] self.buf@[i] == bsnap[i],
                decreases len - j,
            {
                let v = self.buf[off + j];
                self.buf[j] = v;
                j = j + 1;
            }
            self.buf_offset = 0;
            proof {
                assert(self.staged() =~= w);
            }
        } else {
            proof {
                assert(self.staged() =~= old(self).staged().skip(distance as int));
            }
        }
    }

    /// Serve the overflow cell first, shifting what does not fit down for
    /// the next call.
    fn drain_temp(&mut self, dst: &mut Vec<u8>, di: usize) -> (r: usize)
        requires
            old(self).wf(),
            di <= old(dst).len(),
        ensures
            final(self).wf(),
            Self::drained(*old(self), old(dst)@, *final(self), final(dst)@, di as int, r as int, 0),
            r == di + (if old(self).held().len() <= old(dst).len() - di {
                old(self).held().len() as int
            } else {
                old(dst).len() - di
            }),
            final(self).buf == old(self).buf,
            final(self).buf_offset == old(self).buf_offset,
            final(self).buf_length == old(self).buf_length,
            final(self).inner == old(self).inner,
    {
        let room = dst.len() - di;
        let n: usize = if self.temp.len() < room {
            self.temp.len()
        } else {
            room
        };
        copy_into(dst, di, &self.temp, 0, n);
        let rest = vstd::slice::slice_to_vec(
            vstd::slice::slice_subrange(self.temp.as_slice(), n, self.temp.len()),
        );
        let ghost tempsnap = self.temp@;
        self.temp = rest;
        proof {
            assert(old(self).staged().take(0) =~= Seq::<u8>::empty());
            assert(encode_of(Seq::<u8>::empty()) =~= Seq::<u8>::empty());
            let out = old(self).held() + encode_of(old(self).staged().take(0));
            assert(out =~= tempsnap);
            assert(self.staged() =~= old(self).staged().skip(0));
            assert(self.held() =~= out.skip(n as int));
            assert(tempsnap.subrange(0, n as int) =~= out.take(n as int));
        }
        di + n
    }

    /// Encode one group (up to three staged bytes), deliver what fits of
    /// its four symbols, and stash the spill in the overflow cell.
    fn drain_block(&mut self, dst: &mut Vec<u8>, di: usize) -> (r: usize)
        requires
            old(self).wf(),
            di < old(dst).len(),
            old(self).held().len() == 0,
            old(self).buf_length >= 1,
        ensures
            final(self).wf(),
            Self::drained(
                *old(self),
                old(dst)@,
                *final(self),
                final(dst)@,
                di as int,
                r as int,
                if old(self).buf_length < 3 {
                    old(self).buf_length as int
                } else {
                    3
                },
            ),
            r > di,
            r == old(dst).len() || final(self).held().len() == 0,
            final(self).buf_length == old(self).buf_length - (if old(self).buf_length < 3 {
                old(self).buf_length as int
            } else {
                3
            }),
            final(self).inner == old(self).inner,
    {
        let k: usize = if self.buf_length < 3 {
            self.buf_length
        } else {
            3
        };
        let group = b64_encode(
            vstd::slice::slice_subrange(self.buf.as_slice(), self.buf_offset, self.buf_offset + k),
        );
        proof {
            assert(self.buf@.subrange(self.buf_offset as int, self.buf_offset + k) =~= old(
                self,
            ).staged().take(k as int));
            lemma_encode_len(old(self).staged().take(k as int));
            assert(group@.len() == 4);
        }
        self.buf_left_shift(k);
        let room = dst.len() - di;
        let w: usize = if group.len() < room {
            group.len()
        } else {
            room
        };
        copy_into(dst, di, &group, 0, w);
        self.temp = vstd::slice::slice_to_vec(
            vstd::slice::slice_subrange(group.as_slice(), w, group.len()),
        );
        proof {
            let out = old(self).held() + encode_of(old(self).staged().take(k as int));
            assert(out =~= group@);
            assert(self.held() =~= out.skip(w as int));
            assert(group@.subrange(0, w as int) =~= out.take(w as int));
        }
        di + w
    }

    /// Serve the overflow cell, bulk-encode as many whole groups as both
    /// the staging buffer and the destination allow, then spill at most one
    /// further group through the overflow cell.
    #[verifier::rlimit(50)]
    fn drain(&mut self, dst: &mut Vec<u8>, di: usize) -> (r: usize)
        requires
            old(self).wf(),
            di <= old(dst).len(),
            old(self).buf_length >= 3,
        ensures
            final(self).wf(),
            final(self).inner == old(self).inner,
            di <= r <= old(dst).len(),
            di < old(dst).len() ==> r > di,
            r == old(dst).len() || (final(self).buf_length < 3 && final(self).held().len() == 0),
            exists|k: int|
                #[trigger] Self::drained(
                    *old(self),
                    old(dst)@,
                    *final(self),
                    final(dst)@,
                    di as int,
                    r as int,
                    k,
                ) && k % 3 == 0,
    {
        let ghost s0 = *self;
        let ghost d0 = dst@;
        if di == dst.len() {
            proof {
                Self::lemma_drained_refl(s0, d0, di as int);
            }
            return di;
        }
        let mut pos = di;
        pos = self.drain_temp(dst, pos);
        let ghost s1 = *self;
        let ghost d1 = dst@;
        let ghost m1 = pos as int;
        let ghost mut bulk: int = 0;
        if dst.len() - pos >= 4 {
            // the overflow cell fit entirely: it holds at most 3 bytes
            assert(self.temp@ =~= Seq::<u8>::empty());
            let units_room = ((dst.len() - pos) / 4) * 3;
            let rem = self.buf_length % 3;
            let aligned = self.buf_length - rem;
            let dl: usize = if aligned < units_room {
                aligned
            } else {
                units_room
            };
            assert(dl % 3 == 0 && dl >= 3) by {
                assert(aligned % 3 == 0);
                assert(units_room % 3 == 0) by (nonlinear_arith)
                    requires
                        units_room == ((dst@.len() - pos) / 4) * 3,
                ;
                assert(units_room >= 3);
            }
            let chunk = b64_encode(
                vstd::slice::slice_subrange(
                    self.buf.as_slice(),
                    self.buf_offset,
                    self.buf_offset + dl,
                ),
            );
            proof {
                assert(self.buf@.subrange(self.buf_offset as int, self.buf_offset + dl)
                    =~= s1.staged().take(dl as int));
                lemma_encode_len(s1.staged().take(dl as int));
                // 4 * (dl / 3) symbols fit in the room reserved for them
                assert(chunk@.len() == 4 * ((dl + 2) / 3));
                assert((dl + 2) / 3 == dl / 3) by (nonlinear_arith)
                    requires
                        dl % 3 == 0,
                        dl >= 0,
                ;
                assert(4 * (dl / 3) <= dst@.len() - pos) by (nonlinear_arith)
                    requires
                        dl <= ((dst@.len() - pos) / 4) * 3,
                        dl % 3 == 0,
                        dl >= 0,
                        dst@.len() - pos >= 4,
                ;
            }
            copy_into(dst, pos, &chunk, 0, chunk.len());
            self.buf_left_shift(dl);
            proof {
                bulk = dl as int;
            }
            pos = pos + chunk.len();
            proof {
                let out = s1.held() + encode_of(s1.staged().take(dl as int));
                assert(out =~= chunk@);
                assert(self.held() =~= out.skip(chunk@.len() as int));
                assert(chunk@.subrange(0, chunk@.len() as int) =~= out.take(chunk@.len() as int));
                assert(Self::drained(s1, d1, *self, dst@, m1, pos as int, dl as int));
                Self::lemma_drained_compose(
                    s0,
                    d0,
                    s1,
                    d1,
                    *self,
                    dst@,
                    di as int,
                    m1,
                    pos as int,
                    0,
                    dl as int,
                );
            }
        } else {
            proof {
                Self::lemma_drained_refl(s1, d1, m1);
                Self::lemma_drained_compose(
                    s0,
                    d0,
                    s1,
                    d1,
                    *self,
                    dst@,
                    di as int,
                    m1,
                    pos as int,
                    0,
                    0,
                );
            }
        }
        let ghost s2 = *self;
        let ghost d2 = dst@;
        let ghost m2 = pos as int;
        if pos < dst.len() && self.buf_length >= 3 {
            // the destination still has room: the overflow cell is empty
            assert(self.temp@ =~= Seq::<u8>::empty());
            pos = self.drain_block(dst, pos);
            proof {
                Self::lemma_drained_compose(
                    s0,
                    d0,
                    s2,
                    d2,
                    *self,
                    dst@,
                    di as int,
                    m2,
                    pos as int,
                    bulk,
                    3,
                );
            }
        }
        pos
    }

    /// At end-of-stream: serve the overflow cell, then encode whatever is
    /// staged — a final partial group gets its `=` padding.
    #[verifier::rlimit(50)]
    fn drain_end(&mut self, dst: &mut Vec<u8>, di: usize) -> (r: usize)
        requires
            old(self).wf(),
            di <= old(dst).len(),
            old(self).buf_length < 3,
        ensures
            final(self).wf(),
            final(self).inner == old(self).inner,
            di <= r <= old(dst).len(),
            exists|k: int|
                #[trigger] Self::drained(
                    *old(self),
                    old(dst)@,
                    *final(self),
                    final(dst)@,
                    di as int,
                    r as int,
                    k,
                ) && (k == 0 || k == old(self).staged().len()),
            r == di ==> di == old(dst).len() || (old(self).held().len() == 0 && old(
                self,
            ).staged().len() == 0),
            r < old(dst).len() ==> final(self).held().len() == 0 && final(self).staged().len()
                == 0,
    {
        let ghost s0 = *self;
        let ghost d0 = dst@;
        if di == dst.len() {
            proof {
                Self::lemma_drained_refl(s0, d0, di as int);
            }
            return di;
        }
        let mut pos = di;
        pos = self.drain_temp(dst, pos);
        let ghost s1 = *self;
        let ghost d1 = dst@;
        let ghost m1 = pos as int;
        if pos < dst.len() && self.buf_length >= 1 {
            assert(self.temp@ =~= Seq::<u8>::empty());
            pos = self.drain_block(dst, pos);
            proof {
                Self::lemma_drained_compose(
                    s0,
                    d0,
                    s1,
                    d1,
                    *self,
                    dst@,
                    di as int,
                    m1,
                    pos as int,
                    0,
                    s1.buf_length as int,
                );
                assert(s0.staged().len() == s0.buf_length);
            }
        }
        pos
    }

    /// A drain pass starting at the front of `dst` delivers a prefix of
    /// `pending()` and leaves exactly the rest pending.
    proof fn lemma_read_assemble(
        s1: Self,
        d0: Seq<u8>,
        s2: Self,
        d1: Seq<u8>,
        n: int,
        pend0: Seq<u8>,
    )
        requires
            exists|k: int|
                #[trigger] Self::drained(s1, d0, s2, d1, 0, n, k) && (k % 3 == 0 || (
                s1.staged().skip(k) + s1.inner.avail()).len() == 0),
            pend0 == s1.pending(),
        ensures
            n <= pend0.len(),
            d1 == pend0.take(n) + d0.skip(n),
            s2.pending() == pend0.skip(n),
    {
        let k = choose|k: int|
            #[trigger] Self::drained(s1, d0, s2, d1, 0, n, k) && (k % 3 == 0 || (
            s1.staged().skip(k) + s1.inner.avail()).len() == 0);
        let st = s1.staged();
        let av = s1.inner.avail();
        let out = s1.held() + encode_of(st.take(k));
        assert(st.take(k) + (st.skip(k) + av) =~= st + av);
        if k % 3 == 0 {
            assert(st.take(k).len() % 3 == 0);
            lemma_encode_append(st.take(k), st.skip(k) + av);
        } else {
            // everything was consumed: the leftover region is empty
            assert(st.take(k) =~= st + av);
            assert(st.skip(k) + av =~= Seq::<u8>::empty());
            assert(encode_of(Seq::<u8>::empty()) =~= Seq::<u8>::empty());
        }
        assert(encode_of(st + av) == encode_of(st.take(k)) + encode_of(st.skip(k) + av));
        // pending splits as the drained output plus what is still pending
        assert(pend0 =~= out + encode_of(st.skip(k) + av));
        lemma_split_concat(out, encode_of(st.skip(k) + av), n);
        assert(d1 =~= pend0.take(n) + d0.skip(n)) by {
            assert(d0.take(0) =~= Seq::<u8>::empty());
            assert(out.take(n) == pend0.take(n));
        }
        assert(s2.pending() =~= pend0.skip(n)) by {
            assert(s2.staged() + s2.inner.avail() =~= st.skip(k) + av);
        }
    }

    /// Fill `dst` with encoded bytes. The bytes written are the next prefix
    /// of `pending()`; `Ok(0)` means the destination was empty or the whole
    /// stream has been delivered. Transient interruptions of the source are
    /// retried transparently; its fatal errors are surfaced unchanged.
    #[verifier::loop_isolation(false)]
    #[verifier::rlimit(50)]
    pub fn read(&mut self, dst: &mut Vec<u8>) -> (r: Result<usize, TranscodeError>)
        requires
            old(self).wf(),
        ensures
            final(self).wf(),
            final(dst).len() == old(dst).len(),
            old(self).staged().len() >= 3 ==> r is Ok,
            match r {
                Ok(n) => {
                    &&& n <= old(dst).len()
                    &&& n <= old(self).pending().len()
                    &&& final(dst)@ == old(self).pending().take(n as int) + old(dst)@.skip(n as int)
                    &&& final(self).pending() == old(self).pending().skip(n as int)
                    &&& (n == 0 ==> old(dst).len() == 0 || old(self).pending().len() == 0)
                    &&& (n == old(dst).len() || (final(self).held().len() == 0
                        && final(self).staged().len() < 3))
                },
                Err(e) => {
                    &&& e == TranscodeError::Source
                    &&& final(dst)@ == old(dst)@
                    &&& final(self).pending() == old(self).pending()
                },
            },
    {
        let ghost pend0 = self.pending();
        while self.buf_length < 3
            invariant
                self.wf(),
                dst@ == old(dst)@,
                self.held() == old(self).held(),
                self.staged() + self.inner.avail() == old(self).staged() + old(self).inner.avail(),
                old(self).staged().len() < 3 || self.staged() == old(self).staged(),
            decreases self.inner.avail().len(), self.inner.retry_budget(),
        {
            let start = self.buf_offset + self.buf_length;
            let max = self.buf.len() - start;
            let ghost availpre = self.inner.avail();
            let ghost stagedpre = self.staged();
            match self.inner.pull(max) {
                PullOutcome::Data(v) => {
                    copy_into(&mut self.buf, start, &v, 0, v.len());
                    self.buf_length = self.buf_length + v.len();
                    proof {
                        assert(self.staged() =~= stagedpre + v@);
                        assert(v@ + self.inner.avail() =~= availpre);
                        assert((stagedpre + v@) + self.inner.avail() =~= stagedpre + availpre);
                    }
                },
                PullOutcome::End => {
                    proof {
                        assert(self.staged() + self.inner.avail() =~= self.staged());
                        assert(self.pending() == pend0);
                    }
                    let ghost s1 = *self;
                    let n = self.drain_end(dst, 0);
                    proof {
                        let kk = choose|k: int|
                            #[trigger] Self::drained(s1, old(dst)@, *self, dst@, 0, n as int, k)
                                && (k == 0 || k == s1.staged().len());
                        assert(Self::drained(s1, old(dst)@, *self, dst@, 0, n as int, kk) && (kk % 3
                            == 0 || (s1.staged().skip(kk) + s1.inner.avail()).len() == 0));
                        Self::lemma_read_assemble(s1, old(dst)@, *self, dst@, n as int, pend0);
                        if n == 0 && old(dst).len() > 0 {
                            assert(s1.held().len() == 0 && s1.staged().len() == 0);
                            assert(s1.staged() + s1.inner.avail() =~= Seq::<u8>::empty());
                            assert(encode_of(Seq::<u8>::empty()) =~= Seq::<u8>::empty());
                            assert(pend0.len() == 0);
                        }
                    }
                    return Ok(n);
                },
                PullOutcome::Retry => {},
                PullOutcome::Fatal => {
                    return Err(TranscodeError::Source);
                },
            }
        }
        proof {
            assert(self.pending() == pend0);
        }
        let ghost s1 = *self;
        let n = self.drain(dst, 0);
        proof {
            let kk = choose|k: int|
                #[trigger] Self::drained(s1, old(dst)@, *self, dst@, 0, n as int, k) && k % 3 == 0;
            assert(Self::drained(s1, old(dst)@, *self, dst@, 0, n as int, kk) && (kk % 3 == 0 || (
            s1.staged().skip(kk) + s1.inner.avail()).len() == 0));
            Self::lemma_read_assemble(s1, old(dst)@, *self, dst@, n as int, pend0);
        }
        Ok(n)
    }

    /// Read until end-of-stream: returns the complete encoded rest of the
    /// stream, the overflow cell first.
    #[verifier::loop_isolation(false)]
    pub fn read_to_end(&mut self) -> (r: Result<Vec<u8>, TranscodeError>)
        requires
            old(self).wf(),
        ensures
            final(self).wf(),
            match r {
                Ok(out) => out@ == old(self).pending() && final(self).pending().len() == 0,
                Err(e) => e == TranscodeError::Source && exists|k: int|
                    0 <= k <= old(self).pending().len() && final(self).pending()
                        == #[trigger] old(self).pending().skip(k),
            },
    {
        let mut out: Vec<u8> = Vec::new();
        let mut chunk: Vec<u8> = vec![0u8; 4096];
        let mut done = false;
        while !done
            invariant
                self.wf(),
                chunk.len() == 4096,
                out@ + self.pending() == old(self).pending(),
                done ==> self.pending().len() == 0,
            decreases self.pending().len() + (if done {
                0int
            } else {
                1
            }),
        {
            let ghost pend = self.pending();
            let n = match self.read(&mut chunk) {
                Ok(n) => n,
                Err(e) => {
                    proof {
                        assert(self.pending() =~= old(self).pending().skip(out@.len() as int));
                    }
                    return Err(e);
                },
            };
            if n == 0 {
                done = true;
                proof {
                    assert(pend.skip(0) =~= pend);
                }
            } else {
                let mut piece = vstd::slice::slice_to_vec(
                    vstd::slice::slice_subrange(chunk.as_slice(), 0, n),
                );
                proof {
                    assert(piece@ =~= pend.take(n as int));
                    assert((out@ + pend.take(n as int)) + pend.skip(n as int) =~= out@ + pend);
                }
                out.append(&mut piece);
            }
        }
        proof {
            assert(out@ =~= old(self).pending());
        }
        Ok(out)
    }

    /// Fill all of `dst` with the next encoded bytes, or report that the
    /// stream ends too early to do so.
    #[verifier::loop_isolation(false)]
    pub fn read_exact(&mut self, dst: &mut Vec<u8>) -> (r: Result<(), TranscodeError>)
        requires
            old(self).wf(),
        ensures
            final(self).wf(),
            final(dst).len() == old(dst).len(),
            old(dst).len() == 0 ==> r is Ok,
            match r {
                Ok(()) => {
                    &&& old(self).pending().len() >= old(dst).len()
                    &&& final(dst)@ == old(self).pending().take(old(dst).len() as int)
                    &&& final(self).pending() == old(self).pending().skip(old(dst).len() as int)
                },
                Err(e) => {
                    &&& (e == TranscodeError::Source || e == TranscodeError::UnexpectedEof)
                    &&& (e == TranscodeError::UnexpectedEof ==> old(self).pending().len() < old(
                        dst,
                    ).len())
                },
            },
    {
        let ghost pend0 = self.pending();
        let mut filled: usize = 0;
        while filled < dst.len()
            invariant
                self.wf(),
                filled <= dst.len(),
                dst.len() == old(dst).len(),
                dst@ == pend0.take(filled as int) + old(dst)@.skip(filled as int),
                self.pending() == pend0.skip(filled as int),
                pend0.len() >= filled,
            decreases dst.len() - filled,
        {
            let want = dst.len() - filled;
            let mut scratch: Vec<u8> = vec![0u8; want];
            let ghost dpre = dst@;
            let ghost pendpre = self.pending();
            let n = match self.read(&mut scratch) {
                Ok(n) => n,
                Err(_) => {
                    return Err(TranscodeError::Source);
                },
            };
            if n == 0 {
                proof {
                    assert(pend0.len() == filled + pendpre.len());
                }
                return Err(TranscodeError::UnexpectedEof);
            }
            copy_into(dst, filled, &scratch, 0, n);
            proof {
                crate::codec::lemma_reads_concatenate(pend0, filled as int, n as int);
                assert(scratch@.subrange(0, n as int) =~= pendpre.take(n as int));
                assert(dpre.take(filled as int) =~= pend0.take(filled as int));
                assert(dpre.skip(filled + n) =~= old(dst)@.skip(filled + n));
                assert(dst@ =~= pend0.take(filled + n) + old(dst)@.skip(filled + n));
            }
            filled = filled + n;
        }
        proof {
            assert(dst@ =~= pend0.take(dst@.len() as int) + old(dst)@.skip(dst@.len() as int));
        }
        Ok(())
    }
}

} // verus!

