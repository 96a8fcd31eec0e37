//! Decode-on-read: pulls Base64 symbols from an inner source, decodes them
//! group by group, and serves the raw bytes to the caller's buffer.

use vstd::prelude::*;

use crate::codec::b64_decode;
use crate::codec::canonical;
use crate::codec::cat;
use crate::codec::cat_enc;
use crate::codec::decode_of;
use crate::codec::encode_of;
use crate::codec::lemma_cat_append;
use crate::codec::lemma_cat_enc_prefix;
use crate::codec::lemma_cat_len;
use crate::codec::lemma_chunk_fails_invalid;
use crate::codec::lemma_decode_of_encode_of;
use crate::codec::lemma_encode_len;
use crate::codec::DecodeError;
use crate::stream::copy_into;
use crate::stream::lemma_pass_compose;
use crate::stream::ByteSource;
use crate::stream::PullOutcome;
use crate::stream::TranscodeError;

verus! {

/// One or more reads served `d1[..n]` out of the holdover `h0` followed by
/// the bytes of the decoded segments `segs`, whose encodings were consumed
/// from the front of the symbol stream.
pub open spec fn served(
    h0: Seq<u8>,
    stream0: Seq<u8>,
    h1: Seq<u8>,
    stream1: Seq<u8>,
    d0: Seq<u8>,
    d1: Seq<u8>,
    n: int,
    segs: Seq<Seq<u8>>,
) -> bool {
    &&& stream0 == cat_enc(segs) + stream1
    &&& 0 <= n <= (h0 + cat(segs)).len()
    &&& d1.len() == d0.len()
    &&& d1 == (h0 + cat(segs)).take(n) + d0.skip(n)
    &&& h1 == (h0 + cat(segs)).skip(n)
}

/// Every decoded segment is a whole number of three-byte groups — none
/// carried terminal `=` padding.
pub open spec fn all_whole_groups(segs: Seq<Seq<u8>>) -> bool {
    forall|i: int| 0 <= i < segs.len() ==> (#[trigger] segs[i]).len() % 3 == 0
}

/// Read Base64 symbols and decode them to raw data as they stream.
pub struct FromBase64Reader<S: ByteSource> {
    inner: S,
    buf: Vec<u8>,
    buf_offset: usize,
    buf_length: usize,
    temp: Vec<u8>,
}

impl<S: ByteSource> FromBase64Reader<S> {
    /// The staging window fits the buffer, the compaction rule keeps one
    /// alignment unit of tail room, and the overflow cell holds at most the
    /// spill of one decoded group.
    pub closed spec fn wf(&self) -> bool {
        &&& self.buf.len() >= 4
        &&& self.buf_offset + self.buf_length <= self.buf.len()
        &&& (self.buf_offset == 0 || self.buf_offset + 4 < self.buf.len())
        &&& self.temp.len() <= 2
    }

    /// Symbol bytes pulled from the source but not yet decoded.
    pub closed spec fn staged(&self) -> Seq<u8> {
        self.buf@.subrange(self.buf_offset as int, self.buf_offset + self.buf_length)
    }

    /// Decoded bytes produced on an earlier call that did not fit the
    /// caller's buffer then.
    pub closed spec fn held(&self) -> Seq<u8> {
        self.temp@
    }

    /// The symbol bytes the inner source will still deliver.
    pub closed spec fn source_avail(&self) -> Seq<u8> {
        self.inner.avail()
    }

    /// The symbol stream not yet decoded: staged symbols, then the source.
    pub open spec fn stream(&self) -> Seq<u8> {
        self.staged() + self.source_avail()
    }

    /// How many staged symbols one block step consumes.
    spec fn block_take(l: int) -> int {
        if l < 4 {
            l
        } else {
            4
        }
    }

    /// One drain pass delivered `dst[di..r]`: the encodings of the segments
    /// `segs` were consumed from the staging window, their bytes queued
    /// behind the overflow cell, what fit was written, the rest held over.
    spec fn drained(
        pre: Self,
        dst0: Seq<u8>,
        post: Self,
        dst1: Seq<u8>,
        di: int,
        r: int,
        segs: Seq<Seq<u8>>,
    ) -> bool {
        let out = pre.held() + cat(segs);
        &&& pre.staged() == cat_enc(segs) + post.staged()
        &&& 0 <= di <= r <= dst0.len()
        &&& dst1.len() == dst0.len()
        &&& post.inner == pre.inner
        &&& r - di <= out.len()
        &&& post.held() == out.skip(r - di)
        &&& dst1 == dst0.take(di) + out.take(r - di) + dst0.skip(r)
    }

    /// What a successful drain pass guarantees: some segments were decoded
    /// and delivered, and — as long as none of them was a padded terminal
    /// group — the pass ran to the destination's end or to below one group
    /// of staged symbols.
    spec fn drain_ok(pre: Self, dst0: Seq<u8>, post: Self, dst1: Seq<u8>, di: int, rr: int) -> bool {
        &&& di <= rr <= dst0.len()
        &&& (di < dst0.len() ==> rr > di)
        &&& exists|segs: Seq<Seq<u8>>|
            #[trigger] Self::drained(pre, dst0, post, dst1, di, rr, segs) && (all_whole_groups(
                segs,
            ) ==> rr == dst0.len() || (post.buf_length < 4 && post.held().len() == 0))
    }

    /// What a rejected drain pass guarantees: the stream was not canonical
    /// before and is not after, and the pass up to the rejected group was a
    /// drain pass like any other.
    spec fn drain_err(pre: Self, dst0: Seq<u8>, post: Self, dst1: Seq<u8>, di: int) -> bool {
        &&& (forall|b: Seq<u8>| pre.staged() + pre.inner.avail() != #[trigger] encode_of(b))
        &&& (forall|b: Seq<u8>| post.staged() + post.inner.avail() != #[trigger] encode_of(b))
        &&& exists|rr: int, segs: Seq<Seq<u8>>|
            #[trigger] Self::drained(pre, dst0, post, dst1, di, rr, segs)
    }

    /// A pass that does nothing is a drain pass.
    proof fn lemma_drained_refl(s: Self, d: Seq<u8>, di: int)
        requires
            0 <= di <= d.len(),
        ensures
            Self::drained(s, d, s, d, di, di, Seq::empty()),
    {
        let segs = Seq::<Seq<u8>>::empty();
        let out = s.held() + cat(segs);
        assert(out =~= s.held());
        assert(s.staged() =~= cat_enc(segs) + s.staged());
        assert(out.skip(0) =~= s.held());
        assert(d =~= d.take(di) + out.take(0) + d.skip(di));
    }

    /// Two drain passes in a row form one.
    proof fn lemma_drained_compose(
        s0: Self,
        d0: Seq<u8>,
        s1: Self,
        d1: Seq<u8>,
        s2: Self,
        d2: Seq<u8>,
        di: int,
        m: int,
        r: int,
        segs1: Seq<Seq<u8>>,
        segs2: Seq<Seq<u8>>,
    )
        requires
            Self::drained(s0, d0, s1, d1, di, m, segs1),
            Self::drained(s1, d1, s2, d2, m, r, segs2),
        ensures
            Self::drained(s0, d0, s2, d2, di, r, segs1 + segs2),
    {
        let out1 = s0.held() + cat(segs1);
        let e2 = cat(segs2);
        let out = s0.held() + cat(segs1 + segs2);
        lemma_cat_append(segs1, segs2);
        assert(out =~= out1 + e2);
        assert(s0.staged() =~= cat_enc(segs1 + segs2) + s2.staged());
        assert(s1.held() + cat(segs2) =~= out1.skip(m - di) + e2);
        lemma_pass_compose(d0, d1, d2, out1, e2, di, m, r);
        assert(s2.held() == out.skip(r - di));
        assert(d2 == d0.take(di) + out.take(r - di) + d0.skip(r));
    }

    /// Wrap a source; the staging buffer gets the default capacity.
    pub fn new(inner: S) -> (r: Self)
        ensures
            r.wf(),
            r.held().len() == 0,
            r.stream() == inner.avail(),
    {
        Self::new2(inner, 4096)
    }

    /// Wrap a source with an explicit staging capacity; the capacity must
    /// hold at least one alignment unit. The codec is always the standard
    /// alphabet with `=` padding.
    pub fn new2(inner: S, capacity: usize) -> (r: Self)
        requires
            capacity >= 4,
        ensures
            r.wf(),
            r.held().len() == 0,
            r.stream() == inner.avail(),
    {
        let r = FromBase64Reader {
            inner,
            buf: vec![0u8; capacity],
            buf_offset: 0,
            buf_length: 0,
            temp: Vec::new(),
        };
        proof {
            assert(r.staged() =~= Seq::<u8>::empty());
            assert(r.staged() + r.source_avail() =~= r.source_avail());
        }
        r
    }

    /// Consume `distance` staged bytes; when the window nears the tail of
    /// the buffer, compact it to the front with an overlap-safe copy.
    #[verifier::loop_isolation(false)]
    fn buf_left_shift(&mut self, distance: usize)
        requires
            old(self).wf(),
            distance <= old(self).buf_length,
        ensures
            final(self).wf(),
            final(self).buf.len() == old(self).buf.len(),
            final(self).buf_length == old(self).buf_length - distance,
            final(self).staged() == old(self).staged().skip(distance as int),
            final(self).temp == old(self).temp,
            final(self).inner == old(self).inner,
    {
        self.buf_offset = self.buf_offset + distance;
        self.buf_length = self.buf_length - distance;
        if self.buf_offset >= self.buf.len() - 4 {
            let ghost bsnap = self.buf@;
            let ghost w = self.buf@.subrange(
                self.buf_offset as int,
                self.buf_offset + self.buf_length,
            );
            proof {
                assert(w =~= old(self).staged().skip(distance as int));
            }
            let off = self.buf_offset;
            let len = self.buf_length;
            let mut j: usize = 0;
            while j < len
                invariant
                    j <= len,
                    self.buf_offset == off,
                    self.buf_length == len,
                    self.temp == old(self).temp,
                    self.inner == old(self).inner,
                    self.buf.len() == bsnap.len(),
                    forall|i: int| 0 <= i < j ==> #[trigger] self.buf@[i] == w[i],
                    forall|i: int| j <= i < self.buf.len() ==> #[trigger] self.buf@[i] == bsnap[i],
                decreases len - j,
            {
                let v = self.buf[off + j];
                self.buf[j] = v;
                j = j + 1;
            }
            self.buf_offset = 0;
            proof {
                assert(self.staged() =~= w);
            }
        } else {
            proof {
                assert(self.staged() =~= old(self).staged().skip(distance as int));
            }
        }
    }

    /// Serve the overflow cell first, shifting what does not fit down for
    /// the next call.
    fn drain_temp(&mut self, dst: &mut Vec<u8>, di: usize) -> (r: usize)
        requires
            old(self).wf(),
            di <= old(dst).len(),
        ensures
            final(self).wf(),
            Self::drained(
                *old(self),
                old(dst)@,
                *final(self),
                final(dst)@,
                di as int,
                r as int,
                Seq::empty(),
            ),
            r == di + (if old(self).held().len() <= old(dst).len() - di {
                old(self).held().len() as int
            } else {
                old(dst).len() - di
            }),
            final(self).buf == old(self).buf,
            final(self).buf_offset == old(self).buf_offset,
            final(self).buf_length == old(self).buf_length,
            final(self).inner == old(self).inner,
    {
        let room = dst.len() - di;
        let n: usize = if self.temp.len() < room {
            self.temp.len()
        } else {
            room
        };
        copy_into(dst, di, &self.temp, 0, n);
        let rest = vstd::slice::slice_to_vec(
            vstd::slice::slice_subrange(self.temp.as_slice(), n, self.temp.len()),
        );
        let ghost tempsnap = self.temp@;
        self.temp = rest;
        proof {
            let segs = Seq::<Seq<u8>>::empty();
            let out = old(self).held() + cat(segs);
            assert(out =~= tempsnap);
            assert(old(self).staged() =~= cat_enc(segs) + self.staged());
            assert(self.held() =~= out.skip(n as int));
            assert(tempsnap.subrange(0, n as int) =~= out.take(n as int));
        }
        di + n
    }

    /// Decode one group (up to four staged symbols), deliver what fits of
    /// its bytes, and stash the spill in the overflow cell. A rejected
    /// group changes nothing and surfaces the codec's error.
    #[verifier::rlimit(100)]
    #[verifier::spinoff_prover]
    fn drain_block(&mut self, dst: &mut Vec<u8>, di: usize) -> (r: Result<usize, DecodeError>)
        requires
            old(self).wf(),
            di < old(dst).len(),
            old(self).held().len() == 0,
            old(self).buf_length >= 1,
        ensures
            final(self).wf(),
            match r {
                Ok(rr) => {
                    &&& di < rr <= old(dst).len()
                    &&& exists|segs: Seq<Seq<u8>>|
                        #[trigger] Self::drained(
                            *old(self),
                            old(dst)@,
                            *final(self),
                            final(dst)@,
                            di as int,
                            rr as int,
                            segs,
                        ) && cat_enc(segs).len() == Self::block_take(old(self).buf_length as int)
                            && segs.len() == 1
                    &&& rr == old(dst).len() || final(self).held().len() == 0
                },
                Err(_) => {
                    &&& *final(self) == *old(self)
                    &&& final(dst)@ == old(dst)@
                    &&& forall|u: Seq<u8>|
                        old(self).staged().take(Self::block_take(old(self).buf_length as int))
                            != #[trigger] encode_of(u)
                },
            },
    {
        let k: usize = if self.buf_length < 4 {
            self.buf_length
        } else {
            4
        };
        let group = match b64_decode(
            vstd::slice::slice_subrange(self.buf.as_slice(), self.buf_offset, self.buf_offset + k),
        ) {
            Ok(v) => v,
            Err(e) => {
                proof {
                    assert(self.buf@.subrange(self.buf_offset as int, self.buf_offset + k) =~= old(
                        self,
                    ).staged().take(k as int));
                }
                return Err(e);
            },
        };
        proof {
            assert(self.buf@.subrange(self.buf_offset as int, self.buf_offset + k) =~= old(
                self,
            ).staged().take(k as int));
            lemma_encode_len(group@);
            assert(group@.len() >= 1 && group@.len() <= 3);
        }
        self.buf_left_shift(k);
        let room = dst.len() - di;
        let w: usize = if group.len() < room {
            group.len()
        } else {
            room
        };
        copy_into(dst, di, &group, 0, w);
        self.temp = vstd::slice::slice_to_vec(
            vstd::slice::slice_subrange(group.as_slice(), w, group.len()),
        );
        proof {
            let segs = seq![group@];
            assert(segs.skip(1) =~= Seq::<Seq<u8>>::empty());
            assert(cat_enc(Seq::<Seq<u8>>::empty()) == Seq::<u8>::empty());
            assert(cat(Seq::<Seq<u8>>::empty()) == Seq::<u8>::empty());
            assert(cat_enc(segs) =~= encode_of(group@));
            assert(cat(segs) =~= group@);
            let out = old(self).held() + cat(segs);
            assert(out =~= group@);
            assert(old(self).staged() =~= cat_enc(segs) + self.staged());
            assert(self.held() =~= out.skip(w as int));
            assert(group@.subrange(0, w as int) =~= out.take(w as int));
            assert(Self::drained(
                *old(self),
                old(dst)@,
                *self,
                dst@,
                di as int,
                (di + w) as int,
                segs,
            ));
            assert(cat_enc(segs).len() == Self::block_take(old(self).buf_length as int));
            assert(w < group.len() ==> di + w == old(dst).len());
            assert(exists|segs2: Seq<Seq<u8>>|
                #[trigger] Self::drained(
                    *old(self),
                    old(dst)@,
                    *self,
                    dst@,
                    di as int,
                    (di + w) as int,
                    segs2,
                ) && cat_enc(segs2).len() == Self::block_take(old(self).buf_length as int)
                    && segs2.len() == 1);
        }
        Ok(di + w)
    }

    /// Serve the overflow cell, bulk-decode as many whole groups as both
    /// the staging buffer and the destination allow, then spill at most one
    /// further group through the overflow cell.
    #[verifier::loop_isolation(false)]
    #[verifier::rlimit(100)]
    #[verifier::spinoff_prover]
    fn drain(&mut self, dst: &mut Vec<u8>, di: usize) -> (r: Result<usize, DecodeError>)
        requires
            old(self).wf(),
            di <= old(dst).len(),
            old(self).buf_length >= 4,
        ensures
            final(self).wf(),
            final(self).inner == old(self).inner,
            final(dst).len() == old(dst).len(),
            match r {
                Ok(rr) => Self::drain_ok(
                    *old(self),
                    old(dst)@,
                    *final(self),
                    final(dst)@,
                    di as int,
                    rr as int,
                ),
                Err(_) => Self::drain_err(
                    *old(self),
                    old(dst)@,
                    *final(self),
                    final(dst)@,
                    di as int,
                ),
            },
    {
        let ghost s0 = *self;
        let ghost d0 = dst@;
        if di == dst.len() {
            proof {
                Self::lemma_drained_refl(s0, d0, di as int);
                assert(exists|segs: Seq<Seq<u8>>|
                    #[trigger] Self::drained(s0, d0, *self, dst@, di as int, di as int, segs) && (
                    all_whole_groups(segs) ==> di as int == old(dst).len() || (self.buf_length < 4
                        && self.held().len() == 0)));
                assert(Self::drain_ok(s0, d0, *self, dst@, di as int, di as int));
            }
            return Ok(di);
        }
        let mut pos = di;
        pos = self.drain_temp(dst, pos);
        let ghost s1 = *self;
        let ghost d1 = dst@;
        let ghost m1 = pos as int;
        let ghost mut segsa: Seq<Seq<u8>> = Seq::empty();
        let ghost mut bulk_len: int = 0;
        if dst.len() - pos >= 3 {
            // the overflow cell fit entirely: it holds at most 2 bytes
            assert(self.temp@ =~= Seq::<u8>::empty());
            let room = dst.len() - pos;
            let q = room / 3;
            let rem = self.buf_length % 4;
            let aligned = self.buf_length - rem;
            let dl: usize = if aligned / 4 <= q {
                aligned
            } else {
                q * 4
            };
            assert(dl % 4 == 0 && dl >= 4 && dl <= aligned && dl <= 4 * q) by {
                assert(aligned % 4 == 0);
                assert(aligned == 4 * (aligned / 4) && (aligned / 4 <= q ==> aligned <= 4 * q) && (
                aligned / 4 > q ==> 4 * q < aligned)) by (nonlinear_arith)
                    requires
                        aligned % 4 == 0,
                        aligned >= 0,
                        q >= 0,
                ;
                assert(aligned >= 4);
                assert(q >= 1);
            }
            let ghost c = self.staged().take(dl as int);
            let group = match b64_decode(
                vstd::slice::slice_subrange(
                    self.buf.as_slice(),
                    self.buf_offset,
                    self.buf_offset + dl,
                ),
            ) {
                Ok(v) => v,
                Err(e) => {
                    proof {
                        assert(self.buf@.subrange(self.buf_offset as int, self.buf_offset + dl)
                            =~= c);
                        let stream0 = s0.staged() + s0.inner.avail();
                        assert(c =~= stream0.take(dl as int));
                        assert(stream0 =~= cat_enc(Seq::<Seq<u8>>::empty()) + stream0);
                        lemma_chunk_fails_invalid(stream0, Seq::empty(), stream0, c);
                        assert(self.staged() + self.inner.avail() =~= stream0);
                        assert(Self::drained(s0, d0, *self, dst@, di as int, m1, Seq::empty()));
                        assert(exists|rr: int, segs: Seq<Seq<u8>>|
                            #[trigger] Self::drained(s0, d0, *self, dst@, di as int, rr, segs));
                        assert(Self::drain_err(s0, d0, *self, dst@, di as int));
                    }
                    return Err(e);
                },
            };
            proof {
                assert(self.buf@.subrange(self.buf_offset as int, self.buf_offset + dl) =~= c);
                lemma_encode_len(group@);
                // the decoded bytes of the chunk fit the room reserved
                assert(4 * ((group@.len() + 2) / 3) == dl);
                assert(group@.len() <= room) by (nonlinear_arith)
                    requires
                        4 * ((group@.len() + 2) / 3) == dl,
                        dl <= 4 * (room / 3),
                        room >= 3,
                        group@.len() >= 0,
                ;
            }
            copy_into(dst, pos, &group, 0, group.len());
            self.buf_left_shift(dl);
            proof {
                segsa = seq![group@];
                bulk_len = dl as int;
            }
            pos = pos + group.len();
            proof {
                let segs = seq![group@];
                assert(segs.skip(1) =~= Seq::<Seq<u8>>::empty());
                assert(cat_enc(Seq::<Seq<u8>>::empty()) == Seq::<u8>::empty());
                assert(cat(Seq::<Seq<u8>>::empty()) == Seq::<u8>::empty());
                assert(cat_enc(segs) =~= c);
                assert(cat(segs) =~= group@);
                let out = s1.held() + cat(segs);
                assert(out =~= group@);
                assert(s1.staged() =~= cat_enc(segs) + self.staged());
                assert(self.held() =~= out.skip(group@.len() as int));
                assert(group@.subrange(0, group@.len() as int) =~= out.take(group@.len() as int));
                assert(Self::drained(s1, d1, *self, dst@, m1, pos as int, segs));
                Self::lemma_drained_compose(
                    s0,
                    d0,
                    s1,
                    d1,
                    *self,
                    dst@,
                    di as int,
                    m1,
                    pos as int,
                    Seq::empty(),
                    segs,
                );
                assert(Seq::<Seq<u8>>::empty() + segs =~= segs);
            }
        } else {
            proof {
                Self::lemma_drained_refl(s1, d1, m1);
                Self::lemma_drained_compose(
                    s0,
                    d0,
                    s1,
                    d1,
                    *self,
                    dst@,
                    di as int,
                    m1,
                    pos as int,
                    Seq::empty(),
                    Seq::empty(),
                );
                assert(Seq::<Seq<u8>>::empty() + Seq::<Seq<u8>>::empty() =~= Seq::<
                    Seq<u8>,
                >::empty());
            }
        }
        proof {
            assert(Self::drained(s0, d0, *self, dst@, di as int, pos as int, segsa));
        }
        let ghost s2 = *self;
        let ghost d2 = dst@;
        let ghost m2 = pos as int;
        if pos < dst.len() && self.buf_length >= 4 {
            // the destination still has room: the overflow cell is empty
            assert(self.temp@ =~= Seq::<u8>::empty());
            let rr = match self.drain_block(dst, pos) {
                Ok(rr) => rr,
                Err(e) => {
                    proof {
                        let c2 = s2.staged().take(4);
                        let cur = s2.staged() + s2.inner.avail();
                        assert(c2 =~= cur.take(4));
                        assert(s0.staged() + s0.inner.avail() =~= cat_enc(segsa) + cur);
                        lemma_chunk_fails_invalid(s0.staged() + s0.inner.avail(), segsa, cur, c2);
                        assert(cur =~= cat_enc(Seq::<Seq<u8>>::empty()) + cur);
                        lemma_chunk_fails_invalid(cur, Seq::empty(), cur, c2);
                        assert(self.staged() + self.inner.avail() =~= cur);
                        assert(exists|rr: int, segs: Seq<Seq<u8>>|
                            #[trigger] Self::drained(s0, d0, *self, dst@, di as int, rr, segs));
                        assert(Self::drain_err(s0, d0, *self, dst@, di as int));
                    }
                    return Err(e);
                },
            };
            pos = rr;
            proof {
                let segsb = choose|segs: Seq<Seq<u8>>|
                    #[trigger] Self::drained(s2, d2, *self, dst@, m2, pos as int, segs) && cat_enc(
                        segs,
                    ).len() == Self::block_take(s2.buf_length as int) && segs.len() == 1;
                Self::lemma_drained_compose(
                    s0,
                    d0,
                    s2,
                    d2,
                    *self,
                    dst@,
                    di as int,
                    m2,
                    pos as int,
                    segsa,
                    segsb,
                );
                let segsf = segsa + segsb;
                // completeness: whole groups fill the destination exactly
                if all_whole_groups(segsf) && pos < dst.len() {
                    let v2 = segsb[0];
                    assert(segsf[segsa.len() as int] == v2);
                    assert(v2.len() % 3 == 0);
                    assert(segsb.skip(1) =~= Seq::<Seq<u8>>::empty());
                    assert(cat(segsb) =~= v2);
                    assert(cat_enc(segsb) =~= encode_of(v2));
                    lemma_encode_len(v2);
                    assert(v2.len() == 3) by (nonlinear_arith)
                        requires
                            4 * ((v2.len() + 2) / 3) == 4,
                            v2.len() % 3 == 0,
                            v2.len() >= 0,
                    ;
                    // the room left for the block step was under one group
                    if segsa.len() > 0 {
                        let v1 = segsa[0];
                        assert(segsf[0] == v1);
                        assert(v1.len() % 3 == 0);
                        assert(m2 - m1 == v1.len());
                        assert(s2.buf_length == s1.buf_length - bulk_len);
                        assert(v1.len() == 3 * (bulk_len / 4) && bulk_len % 4 == 0) by (
                        nonlinear_arith)
                            requires
                                4 * ((v1.len() + 2) / 3) == bulk_len,
                                v1.len() % 3 == 0,
                                v1.len() >= 0,
                        ;
                        // the chunk was room-bounded, not staging-bounded
                        assert(bulk_len == 4 * ((d1.len() - m1) / 3)) by {
                            assert(s2.buf_length >= 4);
                        }
                        assert(d1.len() - m2 < 3) by (nonlinear_arith)
                            requires
                                m2 == m1 + 3 * (bulk_len / 4),
                                bulk_len == 4 * ((d1.len() - m1) / 3),
                                bulk_len % 4 == 0,
                                d1.len() - m1 >= 3,
                        ;
                    } else {
                        assert(d1.len() - m2 < 3);
                    }
                    // the block step would have delivered three bytes
                    assert(s2.held().len() == 0);
                    assert(self.held() == (s2.held() + cat(segsb)).skip(pos - m2));
                    assert((s2.held() + cat(segsb)).len() == 3);
                    assert(pos as int == m2 + 3 || self.held().len() > 0);
                    assert(false);
                }
                segsa = segsf;
            }
        }
        proof {
            if pos < dst.len() {
                assert(self.held().len() == 0);
            }
            assert(Self::drained(s0, d0, *self, dst@, di as int, pos as int, segsa));
            assert(all_whole_groups(segsa) ==> pos as int == old(dst).len() || (self.buf_length
                < 4 && self.held().len() == 0));
            assert(exists|segs: Seq<Seq<u8>>|
                #[trigger] Self::drained(s0, d0, *self, dst@, di as int, pos as int, segs) && (
                all_whole_groups(segs) ==> pos as int == old(dst).len() || (self.buf_length < 4
                    && self.held().len() == 0)));
            assert(Self::drain_ok(s0, d0, *self, dst@, di as int, pos as int));
        }
        Ok(pos)
    }

    /// At end-of-stream: serve the overflow cell, then decode the staged
    /// remainder — which, Base64 arriving only in whole four-symbol groups,
    /// is rejected whenever it is not empty.
    #[verifier::loop_isolation(false)]
    #[verifier::rlimit(80)]
    fn drain_end(&mut self, dst: &mut Vec<u8>, di: usize) -> (r: Result<usize, DecodeError>)
        requires
            old(self).wf(),
            di <= old(dst).len(),
            old(self).buf_length < 4,
        ensures
            final(self).wf(),
            final(self).inner == old(self).inner,
            final(dst).len() == old(dst).len(),
            match r {
                Ok(rr) => {
                    &&& di <= rr <= old(dst).len()
                    &&& exists|segs: Seq<Seq<u8>>|
                        #[trigger] Self::drained(
                            *old(self),
                            old(dst)@,
                            *final(self),
                            final(dst)@,
                            di as int,
                            rr as int,
                            segs,
                        )
                    &&& (rr == di ==> di == old(dst).len() || (old(self).held().len() == 0
                        && old(self).staged().len() == 0))
                    &&& (rr < old(dst).len() ==> final(self).held().len() == 0
                        && final(self).staged().len() == 0)
                },
                Err(_) => {
                    &&& forall|b: Seq<u8>| old(self).staged() != #[trigger] encode_of(b)
                    &&& forall|b: Seq<u8>| final(self).staged() != #[trigger] encode_of(b)
                    &&& final(self).inner == old(self).inner
                    &&& exists|rr: int, segs: Seq<Seq<u8>>|
                        #[trigger] Self::drained(
                            *old(self),
                            old(dst)@,
                            *final(self),
                            final(dst)@,
                            di as int,
                            rr,
                            segs,
                        )
                },
            },
    {
        let ghost s0 = *self;
        let ghost d0 = dst@;
        if di == dst.len() {
            proof {
                Self::lemma_drained_refl(s0, d0, di as int);
            }
            return Ok(di);
        }
        let mut pos = di;
        pos = self.drain_temp(dst, pos);
        let ghost s1 = *self;
        let ghost d1 = dst@;
        let ghost m1 = pos as int;
        if pos < dst.len() && self.buf_length >= 1 {
            assert(self.temp@ =~= Seq::<u8>::empty());
            // a canonical stream never leaves a short trailing group, so
            // the codec is bound to reject this one
            match self.drain_block(dst, pos) {
                Ok(rr) => {
                    proof {
                        // a decoded chunk amounts to whole groups, but only
                        // one to three symbols were left
                        let segs = choose|segs: Seq<Seq<u8>>|
                            #[trigger] Self::drained(s1, d1, *self, dst@, m1, rr as int, segs)
                                && cat_enc(segs).len() == Self::block_take(s1.buf_length as int);
                        crate::codec::lemma_cat_enc_aligned(segs);
                        assert(false);
                    }
                    vstd::pervasive::unreached()
                },
                Err(e) => {
                    proof {
                        assert(s1.staged().take(s1.buf_length as int) =~= s0.staged());
                        assert(s1.staged() == s0.staged());
                        assert(Self::drained(s0, d0, *self, dst@, di as int, m1, Seq::empty()));
                        assert(exists|rr: int, segs: Seq<Seq<u8>>|
                            #[trigger] Self::drained(s0, d0, *self, dst@, di as int, rr, segs));
                    }
                    return Err(e);
                },
            }
        }
        proof {
            Self::lemma_drained_refl(s1, d1, m1);
            Self::lemma_drained_compose(
                s0,
                d0,
                s1,
                d1,
                *self,
                dst@,
                di as int,
                m1,
                pos as int,
                Seq::empty(),
                Seq::empty(),
            );
            assert(Seq::<Seq<u8>>::empty() + Seq::<Seq<u8>>::empty() =~= Seq::<Seq<u8>>::empty());
        }
        Ok(pos)
    }

    /// A drain pass starting at the front of `dst` is one served step.
    proof fn lemma_read_assemble(
        s1: Self,
        d0: Seq<u8>,
        s2: Self,
        d1: Seq<u8>,
        n: int,
        segs: Seq<Seq<u8>>,
    )
        requires
            Self::drained(s1, d0, s2, d1, 0, n, segs),
        ensures
            served(s1.held(), s1.stream(), s2.held(), s2.stream(), d0, d1, n, segs),
    {
        assert(s1.stream() =~= cat_enc(segs) + s2.stream());
        assert(d0.take(0) =~= Seq::<u8>::empty());
        assert(d1 =~= (s1.held() + cat(segs)).take(n) + d0.skip(n));
    }

    /// Fill `dst` with decoded bytes: the overflow cell first, then the
    /// bytes of as many whole symbol groups as fit. `Ok(0)` means the
    /// destination was empty or the whole stream has been delivered. A
    /// symbol group the codec rejects fails the call — and a stream that
    /// ends off a group boundary is rejected at end-of-stream. Transient
    /// interruptions of the source are retried transparently.
    #[verifier::loop_isolation(false)]
    #[verifier::rlimit(80)]
    pub fn read(&mut self, dst: &mut Vec<u8>) -> (r: Result<usize, TranscodeError>)
        requires
            old(self).wf(),
        ensures
            final(self).wf(),
            final(dst).len() == old(dst).len(),
            r matches Err(TranscodeError::Source) ==> old(self).staged().len() < 4,
            match r {
                Ok(n) => {
                    &&& n <= old(dst).len()
                    &&& exists|segs: Seq<Seq<u8>>|
                        #[trigger] served(
                            old(self).held(),
                            old(self).stream(),
                            final(self).held(),
                            final(self).stream(),
                            old(dst)@,
                            final(dst)@,
                            n as int,
                            segs,
                        ) && (all_whole_groups(segs) ==> n == old(dst).len()
                            || (final(self).held().len() == 0 && final(self).staged().len() < 4))
                    &&& (n == 0 ==> old(dst).len() == 0 || (old(self).held().len() == 0
                        && old(self).stream().len() == 0))
                },
                Err(e) => match e {
                    TranscodeError::Source => {
                        &&& final(dst)@ == old(dst)@
                        &&& final(self).held() == old(self).held()
                        &&& final(self).stream() == old(self).stream()
                    },
                    TranscodeError::Decode(_) => {
                        // the failing group's symbols stay unconsumed at the
                        // front of the remaining stream, which the codec can
                        // never accept; groups decoded earlier in this call
                        // were delivered just as on success
                        &&& forall|b: Seq<u8>| old(self).stream() != #[trigger] encode_of(b)
                        &&& forall|b: Seq<u8>| final(self).stream() != #[trigger] encode_of(b)
                        &&& exists|n: int, segs: Seq<Seq<u8>>|
                            #[trigger] served(
                                old(self).held(),
                                old(self).stream(),
                                final(self).held(),
                                final(self).stream(),
                                old(dst)@,
                                final(dst)@,
                                n,
                                segs,
                            )
                    },
                    _ => false,
                },
            },
    {
        let ghost h0 = self.held();
        let ghost stream0 = self.stream();
        let mut at_end = false;
        while !at_end && self.buf_length < 4
            invariant
                self.wf(),
                dst@ == old(dst)@,
                self.held() == h0,
                self.staged() + self.inner.avail() == stream0,
                at_end ==> self.inner.avail().len() == 0 && self.buf_length < 4,
                old(self).staged().len() < 4 || self.staged() == old(self).staged(),
            decreases (if at_end {
                0int
            } else {
                1
            }), self.inner.avail().len(), self.inner.retry_budget(),
        {
            let start = self.buf_offset + self.buf_length;
            let max = self.buf.len() - start;
            let ghost availpre = self.inner.avail();
            let ghost stagedpre = self.staged();
            match self.inner.pull(max) {
                PullOutcome::Data(v) => {
                    copy_into(&mut self.buf, start, &v, 0, v.len());
                    self.buf_length = self.buf_length + v.len();
                    proof {
                        assert(self.staged() =~= stagedpre + v@);
                        assert(v@ + self.inner.avail() =~= availpre);
                        assert((stagedpre + v@) + self.inner.avail() =~= stagedpre + availpre);
                    }
                },
                PullOutcome::End => {
                    at_end = true;
                },
                PullOutcome::Retry => {},
                PullOutcome::Fatal => {
                    return Err(TranscodeError::Source);
                },
            }
        }
        let ghost s1 = *self;
        if at_end {
            proof {
                assert(self.staged() + self.inner.avail() =~= self.staged());
                assert(self.staged() == stream0);
            }
            match self.drain_end(dst, 0) {
                Ok(n) => {
                    proof {
                        let segs = choose|segs: Seq<Seq<u8>>|
                            #[trigger] Self::drained(s1, old(dst)@, *self, dst@, 0, n as int, segs);
                        Self::lemma_read_assemble(s1, old(dst)@, *self, dst@, n as int, segs);
                        assert(exists|segs2: Seq<Seq<u8>>|
                            #[trigger] served(
                                h0,
                                stream0,
                                self.held(),
                                self.stream(),
                                old(dst)@,
                                dst@,
                                n as int,
                                segs2,
                            ));
                        if n == 0 && old(dst).len() > 0 {
                            assert(s1.held().len() == 0 && s1.staged().len() == 0);
                            assert(stream0.len() == 0);
                        }
                    }
                    Ok(n)
                },
                Err(e) => {
                    proof {
                        assert forall|b: Seq<u8>| stream0 != #[trigger] encode_of(b) by {
                            assert(s1.staged() != encode_of(b));
                        }
                        assert forall|b: Seq<u8>| self.stream() != #[trigger] encode_of(b) by {
                            assert(self.staged() != encode_of(b));
                            assert(self.stream() =~= self.staged());
                        }
                        let (rr, segs) = choose|rr: int, segs: Seq<Seq<u8>>|
                            #[trigger] Self::drained(s1, old(dst)@, *self, dst@, 0, rr, segs);
                        Self::lemma_read_assemble(s1, old(dst)@, *self, dst@, rr, segs);
                        assert(exists|n: int, segs2: Seq<Seq<u8>>|
                            #[trigger] served(
                                h0,
                                stream0,
                                self.held(),
                                self.stream(),
                                old(dst)@,
                                dst@,
                                n,
                                segs2,
                            ));
                    }
                    Err(TranscodeError::Decode(e))
                },
            }
        } else {
            match self.drain(dst, 0) {
                Ok(n) => {
                    proof {
                        let segs = choose|segs: Seq<Seq<u8>>|
                            #[trigger] Self::drained(s1, old(dst)@, *self, dst@, 0, n as int, segs)
                                && (all_whole_groups(segs) ==> n as int == old(dst).len() || (
                            self.buf_length < 4 && self.held().len() == 0));
                        Self::lemma_read_assemble(s1, old(dst)@, *self, dst@, n as int, segs);
                        assert(self.staged().len() == self.buf_length);
                        assert(exists|segs2: Seq<Seq<u8>>|
                            #[trigger] served(
                                h0,
                                stream0,
                                self.held(),
                                self.stream(),
                                old(dst)@,
                                dst@,
                                n as int,
                                segs2,
                            ) && (all_whole_groups(segs2) ==> n as int == old(dst).len() || (
                            self.held().len() == 0 && self.staged().len() < 4)));
                    }
                    Ok(n)
                },
                Err(e) => {
                    proof {
                        assert forall|b: Seq<u8>| stream0 != #[trigger] encode_of(b) by {
                            assert(s1.staged() + s1.inner.avail() != encode_of(b));
                        }
                        assert forall|b: Seq<u8>| self.stream() != #[trigger] encode_of(b) by {
                            assert(self.staged() + self.inner.avail() != encode_of(b));
                        }
                        let (rr, segs) = choose|rr: int, segs: Seq<Seq<u8>>|
                            #[trigger] Self::drained(s1, old(dst)@, *self, dst@, 0, rr, segs);
                        Self::lemma_read_assemble(s1, old(dst)@, *self, dst@, rr, segs);
                        assert(exists|n: int, segs2: Seq<Seq<u8>>|
                            #[trigger] served(
                                h0,
                                stream0,
                                self.held(),
                                self.stream(),
                                old(dst)@,
                                dst@,
                                n,
                                segs2,
                            ));
                    }
                    Err(TranscodeError::Decode(e))
                },
            }
        }
    }

    /// Read until end-of-stream: the overflow cell, then the bytes whose
    /// group-wise decoding consumed the whole symbol stream. On a canonical
    /// stream this is exactly the decoded payload; a stream the codec
    /// rejects — at the offending group, or at a dangling tail — fails with
    /// a decode error, and a canonical stream never does.
    #[verifier::loop_isolation(false)]
    #[verifier::rlimit(80)]
    pub fn read_to_end(&mut self) -> (r: Result<Vec<u8>, TranscodeError>)
        requires
            old(self).wf(),
        ensures
            final(self).wf(),
            match r {
                Ok(out) => {
                    &&& exists|segs: Seq<Seq<u8>>|
                        #[trigger] cat_enc(segs) == old(self).stream() && out@ == old(self).held()
                            + cat(segs)
                    &&& (canonical(old(self).stream()) ==> out@ == old(self).held() + decode_of(
                        old(self).stream(),
                    ))
                    &&& final(self).held().len() == 0
                    &&& final(self).stream().len() == 0
                },
                Err(e) => match e {
                    TranscodeError::Source => exists|segs: Seq<Seq<u8>>|
                        #[trigger] cat_enc(segs) + final(self).stream() == old(self).stream(),
                    TranscodeError::Decode(_) => {
                        &&& !canonical(old(self).stream())
                        &&& forall|b: Seq<u8>| final(self).stream() != #[trigger] encode_of(b)
                        &&& exists|segs: Seq<Seq<u8>>|
                            #[trigger] cat_enc(segs) + final(self).stream() == old(self).stream()
                    },
                    _ => false,
                },
            },
    {
        let ghost h0 = self.held();
        let ghost stream0 = self.stream();
        let mut out: Vec<u8> = Vec::new();
        let mut chunk: Vec<u8> = vec![0u8; 4096];
        let mut done = false;
        let ghost mut segsall: Seq<Seq<u8>> = Seq::empty();
        proof {
            assert(cat(segsall) == Seq::<u8>::empty());
            assert(cat_enc(segsall) == Seq::<u8>::empty());
            assert(cat_enc(segsall) + self.stream() =~= stream0);
            assert(out@ + self.held() =~= h0 + cat(segsall));
        }
        while !done
            invariant
                self.wf(),
                chunk.len() == 4096,
                cat_enc(segsall) + self.stream() == stream0,
                out@ + self.held() == h0 + cat(segsall),
                done ==> self.held().len() == 0 && self.stream().len() == 0,
            decreases self.held().len() + self.stream().len() + (if done {
                0int
            } else {
                1
            }),
        {
            proof {
                assert(out@ + self.held() == h0 + cat(segsall));
            }
            let ghost hpre = self.held();
            let ghost streampre = self.stream();
            let ghost chunkpre = chunk@;
            let ghost outpre = out@;
            let n = match self.read(&mut chunk) {
                Ok(n) => n,
                Err(e) => {
                    proof {
                        if e == TranscodeError::Source {
                            assert(cat_enc(segsall) + self.stream() == stream0);
                            assert(exists|segs: Seq<Seq<u8>>|
                                #[trigger] cat_enc(segs) + self.stream() == stream0);
                        }
                        if e matches TranscodeError::Decode(_) {
                            assert forall|b: Seq<u8>| stream0 != #[trigger] encode_of(b) by {
                                if stream0 == encode_of(b) {
                                    lemma_cat_enc_prefix(b, segsall, streampre);
                                    assert(streampre == encode_of(
                                        b.skip(cat(segsall).len() as int),
                                    ));
                                }
                            }
                            let (nd, segsd) = choose|nd: int, segsd: Seq<Seq<u8>>|
                                #[trigger] served(
                                    hpre,
                                    streampre,
                                    self.held(),
                                    self.stream(),
                                    chunkpre,
                                    chunk@,
                                    nd,
                                    segsd,
                                );
                            lemma_cat_append(segsall, segsd);
                            assert(cat_enc(segsall + segsd) + self.stream() =~= stream0);
                        }
                    }
                    return Err(e);
                },
            };
            let ghost segsd = choose|segs: Seq<Seq<u8>>|
                #[trigger] served(
                    hpre,
                    streampre,
                    self.held(),
                    self.stream(),
                    chunkpre,
                    chunk@,
                    n as int,
                    segs,
                );
            proof {
                lemma_cat_append(segsall, segsd);
                lemma_cat_len(segsd);
                assert(cat_enc(segsall + segsd) + self.stream() =~= stream0);
            }
            if n == 0 {
                done = true;
                proof {
                    assert((hpre + cat(segsd)).skip(0) =~= hpre + cat(segsd));
                    assert(out@ + self.held() =~= h0 + cat(segsall + segsd));
                }
            } else {
                let mut piece = vstd::slice::slice_to_vec(
                    vstd::slice::slice_subrange(chunk.as_slice(), 0, n),
                );
                proof {
                    assert(piece@ =~= (hpre + cat(segsd)).take(n as int));
                    assert((out@ + (hpre + cat(segsd)).take(n as int)) + (hpre + cat(
                        segsd,
                    )).skip(n as int) =~= out@ + (hpre + cat(segsd)));
                    assert(out@ == outpre);
                    assert(outpre + hpre == h0 + cat(segsall));
                    assert(cat(segsall + segsd) == cat(segsall) + cat(segsd));
                    vstd::seq_lib::lemma_concat_associative(out@, hpre, cat(segsd));
                    vstd::seq_lib::lemma_concat_associative(h0, cat(segsall), cat(segsd));
                    assert(out@ + (hpre + cat(segsd)) =~= h0 + cat(segsall + segsd));
                }
                out.append(&mut piece);
            }
            proof {
                segsall = segsall + segsd;
            }
        }
        proof {
            assert(cat_enc(segsall) =~= stream0);
            assert(out@ =~= h0 + cat(segsall));
            if canonical(stream0) {
                let b = choose|b: Seq<u8>| stream0 == #[trigger] encode_of(b);
                lemma_cat_enc_prefix(b, segsall, Seq::empty());
                assert(encode_of(b) =~= cat_enc(segsall) + Seq::<u8>::empty());
                lemma_encode_len(b.skip(cat(segsall).len() as int));
                assert(b.skip(cat(segsall).len() as int).len() == 0);
                assert(cat(segsall) =~= b);
                lemma_decode_of_encode_of(b);
            }
        }
        Ok(out)
    }

    /// Fill all of `dst` with the next decoded bytes, or report that the
    /// stream ends too early to do so.
    #[verifier::loop_isolation(false)]
    #[verifier::rlimit(80)]
    pub fn read_exact(&mut self, dst: &mut Vec<u8>) -> (r: Result<(), TranscodeError>)
        requires
            old(self).wf(),
        ensures
            final(self).wf(),
            final(dst).len() == old(dst).len(),
            old(dst).len() == 0 ==> r is Ok,
            match r {
                Ok(()) => exists|segs: Seq<Seq<u8>>|
                    #[trigger] served(
                        old(self).held(),
                        old(self).stream(),
                        final(self).held(),
                        final(self).stream(),
                        old(dst)@,
                        final(dst)@,
                        old(dst).len() as int,
                        segs,
                    ),
                Err(e) => match e {
                    TranscodeError::Source => true,
                    TranscodeError::UnexpectedEof => exists|segs: Seq<Seq<u8>>|
                        #[trigger] cat_enc(segs) == old(self).stream() && (old(self).held() + cat(
                            segs,
                        )).len() < old(dst).len(),
                    TranscodeError::Decode(_) => {
                        // the destination holds a prefix of the decoded
                        // bytes; the rejected group stays at the front of
                        // the remaining stream
                        &&& !canonical(old(self).stream())
                        &&& forall|b: Seq<u8>| final(self).stream() != #[trigger] encode_of(b)
                        &&& exists|n: int, segs: Seq<Seq<u8>>|
                            {
                                &&& old(self).stream() == cat_enc(segs) + final(self).stream()
                                &&& 0 <= n <= old(dst).len()
                                &&& n <= (old(self).held() + cat(segs)).len()
                                &&& final(dst)@ == #[trigger] (old(self).held() + cat(segs)).take(
                                    n,
                                ) + old(dst)@.skip(n)
                            }
                    },
                    _ => false,
                },
            },
    {
        let ghost h0 = self.held();
        let ghost stream0 = self.stream();
        let mut filled: usize = 0;
        let ghost mut segsall: Seq<Seq<u8>> = Seq::empty();
        proof {
            assert(cat(segsall) == Seq::<u8>::empty());
            assert(cat_enc(segsall) == Seq::<u8>::empty());
            assert(cat_enc(segsall) + self.stream() =~= stream0);
            assert(h0 + cat(segsall) =~= h0);
            assert(self.held() =~= (h0 + cat(segsall)).skip(0));
            assert(dst@ =~= (h0 + cat(segsall)).take(0) + old(dst)@.skip(0));
        }
        while filled < dst.len()
            invariant
                self.wf(),
                filled <= dst.len(),
                dst.len() == old(dst).len(),
                cat_enc(segsall) + self.stream() == stream0,
                filled <= (h0 + cat(segsall)).len(),
                dst@ == (h0 + cat(segsall)).take(filled as int) + old(dst)@.skip(filled as int),
                self.held() == (h0 + cat(segsall)).skip(filled as int),
            decreases dst.len() - filled,
        {
            let want = dst.len() - filled;
            let mut scratch: Vec<u8> = vec![0u8; want];
            let ghost dpre = dst@;
            let ghost hpre = self.held();
            let ghost streampre = self.stream();
            let ghost scratchpre = scratch@;
            let n = match self.read(&mut scratch) {
                Ok(n) => n,
                Err(e) => {
                    match e {
                        TranscodeError::Source => {
                            return Err(TranscodeError::Source);
                        },
                        TranscodeError::Decode(de) => {
                            proof {
                                assert forall|b: Seq<u8>| stream0 != #[trigger] encode_of(b) by {
                                    if stream0 == encode_of(b) {
                                        lemma_cat_enc_prefix(b, segsall, streampre);
                                        assert(streampre == encode_of(
                                            b.skip(cat(segsall).len() as int),
                                        ));
                                    }
                                }
                                let (nd, segsd) = choose|nd: int, segsd: Seq<Seq<u8>>|
                                    #[trigger] served(
                                        hpre,
                                        streampre,
                                        self.held(),
                                        self.stream(),
                                        scratchpre,
                                        scratch@,
                                        nd,
                                        segsd,
                                    );
                                lemma_cat_append(segsall, segsd);
                                let segs = segsall + segsd;
                                assert(cat_enc(segs) + self.stream() =~= stream0);
                                assert(h0 + cat(segs) =~= (h0 + cat(segsall)) + cat(segsd));
                                assert((h0 + cat(segs)).take(filled as int) =~= (h0 + cat(
                                    segsall,
                                )).take(filled as int));
                                assert(dst@ == (h0 + cat(segs)).take(filled as int)
                                    + old(dst)@.skip(filled as int));
                                assert(exists|n2: int, segs2: Seq<Seq<u8>>|
                                    {
                                        &&& stream0 == cat_enc(segs2) + self.stream()
                                        &&& 0 <= n2 <= old(dst).len()
                                        &&& n2 <= (h0 + cat(segs2)).len()
                                        &&& dst@ == #[trigger] (h0 + cat(segs2)).take(n2)
                                            + old(dst)@.skip(n2)
                                    });
                            }
                            return Err(TranscodeError::Decode(de));
                        },
                        _ => {
                            return vstd::pervasive::unreached();
                        },
                    }
                },
            };
            if n == 0 {
                proof {
                    let (nd, segsd) = choose|nd: int, segsd: Seq<Seq<u8>>|
                        #[trigger] served(
                            hpre,
                            streampre,
                            self.held(),
                            self.stream(),
                            scratchpre,
                            scratch@,
                            nd,
                            segsd,
                        );
                    // the destination still had room, so nothing was left
                    // pending before this read
                    assert(hpre.len() == 0 && streampre.len() == 0);
                    assert(cat_enc(segsall) + streampre =~= cat_enc(segsall));
                    assert(cat_enc(segsall) == stream0);
                    assert(hpre == (h0 + cat(segsall)).skip(filled as int));
                    assert((h0 + cat(segsall)).len() == filled);
                    assert(exists|segs: Seq<Seq<u8>>|
                        #[trigger] cat_enc(segs) == stream0 && (h0 + cat(segs)).len() < old(
                            dst,
                        ).len());
                }
                return Err(TranscodeError::UnexpectedEof);
            }
            let ghost segsd = choose|segs: Seq<Seq<u8>>|
                #[trigger] served(
                    hpre,
                    streampre,
                    self.held(),
                    self.stream(),
                    scratchpre,
                    scratch@,
                    n as int,
                    segs,
                );
            copy_into(dst, filled, &scratch, 0, n);
            proof {
                lemma_cat_append(segsall, segsd);
                assert(cat_enc(segsall + segsd) + self.stream() =~= stream0);
                let w0 = h0 + cat(segsall);
                let w1 = h0 + cat(segsall + segsd);
                assert(w1 =~= w0 + cat(segsd));
                assert(hpre + cat(segsd) =~= w1.skip(filled as int)) by {
                    assert(w0.skip(filled as int) + cat(segsd) =~= (w0 + cat(segsd)).skip(
                        filled as int,
                    ));
                }
                crate::codec::lemma_reads_concatenate(w1, filled as int, n as int);
                assert(scratch@.subrange(0, n as int) =~= (hpre + cat(segsd)).take(n as int));
                assert(w1.skip(filled as int).take(n as int) =~= w1.subrange(
                    filled as int,
                    filled + n,
                ));
                assert(dpre.take(filled as int) =~= w1.take(filled as int)) by {
                    assert(w0.take(filled as int) =~= w1.take(filled as int));
                }
                assert(dpre.skip(filled + n) =~= old(dst)@.skip(filled + n));
                assert(dst@ =~= w1.take(filled + n) + old(dst)@.skip(filled + n)) by {
                    assert(w1.take(filled as int) + w1.subrange(filled as int, filled + n)
                        =~= w1.take(filled + n));
                }
                assert(self.held() =~= w1.skip(filled + n)) by {
                    assert((hpre + cat(segsd)).skip(n as int) =~= w1.skip(filled as int).skip(
                        n as int,
                    ));
                }
                segsall = segsall + segsd;
            }
            filled = filled + n;
        }
        proof {
            assert(dst@ =~= (h0 + cat(segsall)).take(old(dst).len() as int) + old(dst)@.skip(
                old(dst).len() as int,
            ));
            assert(served(
                h0,
                stream0,
                self.held(),
                self.stream(),
                old(dst)@,
                dst@,
                old(dst).len() as int,
                segsall,
            ));
            assert(exists|segs: Seq<Seq<u8>>|
                #[trigger] served(
                    h0,
                    stream0,
                    self.held(),
                    self.stream(),
                    old(dst)@,
                    dst@,
                    old(dst).len() as int,
                    segs,
                ));
        }
        Ok(())
    }
}

} // verus!
