//! Encode-on-write: accepts raw bytes pushed by the caller, encodes whole
//! groups eagerly, and delivers the Base64 stream to an inner sink. A final
//! partial group is held over until `flush` emits it with its padding.

use vstd::prelude::*;

use crate::codec::b64_encode;
use crate::codec::encode_of;
use crate::codec::lemma_encode_append;
use crate::stream::push_all;
use crate::stream::ByteSink;
use crate::stream::TranscodeError;

verus! {

/// The bytes one `write` of `x` sends to the sink when `h` is held over:
/// the encoding of every whole group of their concatenation.
pub open spec fn writer_emit(h: Seq<u8>, x: Seq<u8>) -> Seq<u8> {
    encode_of((h + x).take((h + x).len() - ((h + x).len() % 3)))
}

/// The holdover such a `write` leaves behind: the trailing partial group.
pub open spec fn writer_hold(h: Seq<u8>, x: Seq<u8>) -> Seq<u8> {
    (h + x).skip((h + x).len() - ((h + x).len() % 3))
}

/// Law: chunked-write equivalence — writing a payload in two pieces sends
/// the same bytes to the sink, and leaves the same holdover, as writing it
/// whole.
pub proof fn lemma_write_chunks(h: Seq<u8>, a: Seq<u8>, b: Seq<u8>)
    ensures
        writer_hold(writer_hold(h, a), b) == writer_hold(h, a + b),
        writer_emit(h, a) + writer_emit(writer_hold(h, a), b) == writer_emit(h, a + b),
{
    let t1 = h + a;
    let al1 = t1.len() - t1.len() % 3;
    let hold1 = t1.skip(al1);
    let t = h + (a + b);
    let al = t.len() - t.len() % 3;
    let t2 = hold1 + b;
    assert(t2 =~= t.skip(al1));
    assert(t2.len() == t.len() - al1);
    assert(al1 % 3 == 0);
    assert(t2.len() % 3 == t.len() % 3) by (nonlinear_arith)
        requires
            al1 % 3 == 0,
            t2.len() == t.len() - al1,
            t.len() >= al1 >= 0,
    ;
    let al2 = t2.len() - t2.len() % 3;
    assert(al2 == al - al1);
    assert(writer_hold(hold1, b) =~= t.skip(al));
    assert(writer_hold(h, a + b) == t.skip(al));
    assert(t2.take(al2) =~= t.subrange(al1, al));
    assert(t.take(al1) =~= t1.take(al1));
    lemma_encode_append(t.take(al1), t.subrange(al1, al));
    assert(t.take(al1) + t.subrange(al1, al) =~= t.take(al));
    assert(writer_emit(h, a) + writer_emit(hold1, b) == encode_of(t.take(al)));
}

/// A prefix of one group-aligned chunk's encoding, behind the encodings of
/// the chunks before it, is a prefix of the encoding of the whole aligned
/// part of `total`.
proof fn lemma_emit_prefix(total: Seq<u8>, c: int, l: int, kp: int)
    requires
        0 <= c,
        0 <= l,
        c % 3 == 0,
        l % 3 == 0,
        c + l <= total.len(),
        0 <= kp <= encode_of(total.subrange(c, c + l)).len(),
    ensures
        ({
            let emit = encode_of(total.take(total.len() - (total.len() % 3)));
            encode_of(total.take(c)).len() + kp <= emit.len() && emit.take(
                encode_of(total.take(c)).len() + kp,
            ) == encode_of(total.take(c)) + encode_of(total.subrange(c, c + l)).subrange(0, kp)
        }),
{
    let al = total.len() - (total.len() % 3);
    assert(c + l <= al) by (nonlinear_arith)
        requires
            (c + l) % 3 == 0,
            c + l <= total.len(),
            al == total.len() - (total.len() % 3),
    ;
    lemma_encode_append(total.take(c), total.subrange(c, al));
    assert(total.take(c) + total.subrange(c, al) =~= total.take(al));
    lemma_encode_append(total.subrange(c, c + l), total.subrange(c + l, al));
    assert(total.subrange(c, c + l) + total.subrange(c + l, al) =~= total.subrange(c, al));
    assert(encode_of(total.take(al)) == encode_of(total.take(c)) + (encode_of(
        total.subrange(c, c + l),
    ) + encode_of(total.subrange(c + l, al))));
    assert(encode_of(total.take(al)).take(encode_of(total.take(c)).len() + kp) =~= encode_of(
        total.take(c),
    ) + encode_of(total.subrange(c, c + l)).subrange(0, kp));
}

/// Write raw data; it reaches the inner sink encoded to Base64.
pub struct ToBase64Writer<K: ByteSink> {
    inner: K,
    buf: Vec<u8>,
    capacity: usize,
}

impl<K: ByteSink> ToBase64Writer<K> {
    /// The holdover never exceeds one raw group; the chunking capacity
    /// holds at least one alignment unit.
    pub closed spec fn wf(&self) -> bool {
        &&& self.buf.len() <= 3
        &&& self.capacity >= 4
    }

    /// Raw bytes accepted but not yet encoded: the trailing partial group.
    pub closed spec fn held(&self) -> Seq<u8> {
        self.buf@
    }

    /// Everything the inner sink has accepted.
    pub closed spec fn sink_accepted(&self) -> Seq<u8> {
        self.inner.accepted()
    }

    /// Hand back the inner sink, dropping the holdover: callers flush
    /// first, as discarding a writer without flushing loses the last
    /// partial group by design.
    pub fn into_inner(self) -> (r: K)
        ensures
            r.accepted() == self.sink_accepted(),
    {
        self.inner
    }

    /// Wrap a sink; encoded output is pushed in chunks of the default size.
    pub fn new(inner: K) -> (r: Self)
        ensures
            r.wf(),
            r.held().len() == 0,
            r.sink_accepted() == inner.accepted(),
    {
        Self::new2(inner, 4096)
    }

    /// Wrap a sink with an explicit chunking capacity; the capacity must
    /// hold at least one alignment unit. The codec is always the standard
    /// alphabet with `=` padding.
    pub fn new2(inner: K, capacity: usize) -> (r: Self)
        requires
            capacity >= 4,
        ensures
            r.wf(),
            r.held().len() == 0,
            r.sink_accepted() == inner.accepted(),
    {
        ToBase64Writer { inner, buf: Vec::new(), capacity }
    }

    /// Accept all of `src`: complete and emit the held-over group first,
    /// then encode and push whole groups chunk by chunk; the trailing one
    /// or two bytes are held over for the next call or the final `flush`.
    #[verifier::loop_isolation(false)]
    #[verifier::rlimit(100)]
    #[verifier::spinoff_prover]
    pub fn write(&mut self, src: &Vec<u8>) -> (r: Result<usize, TranscodeError>)
        requires
            old(self).wf(),
        ensures
            final(self).wf(),
            old(self).held().len() + src@.len() < 3 ==> r is Ok,
            match r {
                Ok(n) => {
                    &&& n == src.len()
                    &&& final(self).sink_accepted() == old(self).sink_accepted() + writer_emit(
                        old(self).held(),
                        src@,
                    )
                    &&& final(self).held() == writer_hold(old(self).held(), src@)
                },
                Err(e) => {
                    &&& e == TranscodeError::Sink
                    &&& exists|k: int|
                        0 <= k <= writer_emit(old(self).held(), src@).len()
                            && final(self).sink_accepted() == old(self).sink_accepted()
                            + #[trigger] writer_emit(old(self).held(), src@).take(k)
                },
            },
    {
        let ghost h0 = self.held();
        let ghost sink0 = self.sink_accepted();
        let ghost total = h0 + src@;
        let ghost al = total.len() - (total.len() % 3);
        let mut i: usize = 0;
        if self.buf.len() > 0 {
            let missing = 3 - self.buf.len();
            let d: usize = if missing < src.len() {
                missing
            } else {
                src.len()
            };
            let mut j: usize = 0;
            while j < d
                invariant
                    j <= d,
                    self.buf@ == h0 + src@.subrange(0, j as int),
                    self.inner == old(self).inner,
                    self.capacity == old(self).capacity,
                decreases d - j,
            {
                let v = src[j];
                self.buf.push(v);
                proof {
                    assert(self.buf@ =~= h0 + src@.subrange(0, j + 1));
                }
                j = j + 1;
            }
            i = d;
            if self.buf.len() == 3 {
                proof {
                    assert(self.buf@ =~= total.take(3));
                }
                let g = b64_encode(self.buf.as_slice());
                match push_all(&mut self.inner, &g, 0) {
                    Ok(()) => {},
                    Err(e) => {
                        proof {
                            let kp = choose|k: int|
                                0 <= k <= g@.len() && self.sink_accepted() == sink0
                                    + #[trigger] g@.subrange(0, k);
                            assert(total.take(0) =~= Seq::<u8>::empty());
                            assert(encode_of(Seq::<u8>::empty()) =~= Seq::<u8>::empty());
                            assert(g@ == encode_of(total.subrange(0, 3))) by {
                                assert(total.subrange(0, 3) =~= total.take(3));
                            }
                            lemma_emit_prefix(total, 0, 3, kp);
                            assert(self.sink_accepted() =~= sink0 + writer_emit(h0, src@).take(
                                kp,
                            ));
                            assert(exists|k: int|
                                0 <= k <= writer_emit(h0, src@).len() && self.sink_accepted()
                                    == sink0 + #[trigger] writer_emit(h0, src@).take(k));
                        }
                        return Err(e);
                    },
                }
                self.buf = Vec::new();
                proof {
                    assert(g@.skip(0) =~= g@);
                    assert(h0 + src@.subrange(0, d as int) =~= total.take(h0.len() + d));
                    assert(self.sink_accepted() =~= sink0 + encode_of(total.take(h0.len() + d)));
                }
            } else {
                // the whole input was absorbed into the holdover
                proof {
                    assert(d == src@.len());
                    assert(self.buf@ =~= total);
                    assert(total.len() < 3);
                    assert(total.take(0) =~= Seq::<u8>::empty());
                    assert(encode_of(Seq::<u8>::empty()) =~= Seq::<u8>::empty());
                    assert(writer_emit(h0, src@) =~= Seq::<u8>::empty());
                    assert(sink0 + writer_emit(h0, src@) =~= sink0);
                    assert(writer_hold(h0, src@) =~= total);
                }
                return Ok(src.len());
            }
        }
        // here the holdover is empty and everything consumed so far is
        // group-aligned and already encoded into the sink
        let ghost c1 = h0.len() + i;
        let ghost sinkmid = self.sink_accepted();
        proof {
            if i == 0 && h0.len() == 0 {
                assert(total.take(0) =~= Seq::<u8>::empty());
                assert(encode_of(Seq::<u8>::empty()) =~= Seq::<u8>::empty());
                assert(sinkmid =~= sink0 + encode_of(total.take(c1)));
            }
        }
        match self.write_groups(src, i) {
            Ok(()) => {
                proof {
                    let rest = src@.skip(i as int);
                    let ral = rest.len() - (rest.len() % 3);
                    assert(total.len() % 3 == rest.len() % 3) by (nonlinear_arith)
                        requires
                            c1 % 3 == 0,
                            rest.len() == total.len() - c1,
                            total.len() >= c1 >= 0,
                    ;
                    assert(al == c1 + ral);
                    assert(total.skip(c1) =~= rest);
                    assert(total.take(al) =~= total.take(c1) + rest.take(ral));
                    lemma_encode_append(total.take(c1), rest.take(ral));
                    assert(self.sink_accepted() =~= sink0 + writer_emit(h0, src@));
                    assert(self.held() =~= writer_hold(h0, src@));
                }
                Ok(src.len())
            },
            Err(e) => {
                proof {
                    let rest = src@.skip(i as int);
                    let ral = rest.len() - (rest.len() % 3);
                    assert(total.len() % 3 == rest.len() % 3) by (nonlinear_arith)
                        requires
                            c1 % 3 == 0,
                            rest.len() == total.len() - c1,
                            total.len() >= c1 >= 0,
                    ;
                    assert(al == c1 + ral);
                    assert(total.skip(c1) =~= rest);
                    assert(total.take(al) =~= total.take(c1) + rest.take(ral));
                    lemma_encode_append(total.take(c1), rest.take(ral));
                    let ec = encode_of(total.take(c1));
                    let kg = choose|k: int|
                        0 <= k <= encode_of(rest.take(ral)).len() && self.sink_accepted()
                            == sinkmid + #[trigger] encode_of(rest.take(ral)).take(k);
                    assert(writer_emit(h0, src@).take(ec.len() + kg) =~= ec + encode_of(
                        rest.take(ral),
                    ).take(kg));
                    assert(self.sink_accepted() =~= sink0 + writer_emit(h0, src@).take(
                        ec.len() + kg,
                    ));
                    assert(exists|k: int|
                        0 <= k <= writer_emit(h0, src@).len() && self.sink_accepted() == sink0
                            + #[trigger] writer_emit(h0, src@).take(k));
                }
                Err(e)
            },
        }
    }

    /// Encode and deliver the whole groups of `src[start..]`, chunk by
    /// chunk; the trailing partial group becomes the new holdover.
    #[verifier::loop_isolation(false)]
    #[verifier::rlimit(100)]
    #[verifier::spinoff_prover]
    fn write_groups(&mut self, src: &Vec<u8>, start: usize) -> (r: Result<(), TranscodeError>)
        requires
            old(self).wf(),
            old(self).held().len() == 0,
            start <= src.len(),
        ensures
            final(self).wf(),
            src@.len() - start < 3 ==> r is Ok,
            match r {
                Ok(()) => {
                    let rest = src@.skip(start as int);
                    let ral = rest.len() - (rest.len() % 3);
                    &&& final(self).sink_accepted() == old(self).sink_accepted() + encode_of(
                        rest.take(ral),
                    )
                    &&& final(self).held() == rest.skip(ral)
                },
                Err(e) => {
                    let rest = src@.skip(start as int);
                    let ral = rest.len() - (rest.len() % 3);
                    &&& e == TranscodeError::Sink
                    &&& exists|k: int|
                        0 <= k <= encode_of(rest.take(ral)).len() && final(self).sink_accepted()
                            == old(self).sink_accepted() + #[trigger] encode_of(
                            rest.take(ral),
                        ).take(k)
                },
            },
    {
        let ghost rest = src@.skip(start as int);
        let ghost ral = rest.len() - (rest.len() % 3);
        let ghost sink0 = self.sink_accepted();
        let mut i: usize = start;
        proof {
            assert(rest.take(0) =~= Seq::<u8>::empty());
            assert(encode_of(Seq::<u8>::empty()) =~= Seq::<u8>::empty());
            assert(sink0 + encode_of(rest.take(0)) =~= sink0);
        }
        while src.len() - i >= 3
            invariant
                self.wf(),
                self.buf@.len() == 0,
                start <= i <= src.len(),
                (i - start) % 3 == 0,
                self.capacity == old(self).capacity,
                self.sink_accepted() == sink0 + encode_of(rest.take(i - start)),
            decreases src.len() - i,
        {
            let ghost c = i - start;
            let rem = (src.len() - i) % 3;
            let mut chunk_len = (src.len() - i) - rem;
            let chunk_max = (self.capacity / 4) * 3;
            if chunk_len > chunk_max {
                chunk_len = chunk_max;
            }
            assert(chunk_len % 3 == 0 && chunk_len >= 3) by {
                assert(chunk_max % 3 == 0) by (nonlinear_arith)
                    requires
                        chunk_max == (self.capacity / 4) * 3,
                ;
                assert(chunk_max >= 3);
            }
            let g = b64_encode(vstd::slice::slice_subrange(src.as_slice(), i, i + chunk_len));
            match push_all(&mut self.inner, &g, 0) {
                Ok(()) => {},
                Err(e) => {
                    proof {
                        let ec = encode_of(rest.take(c));
                        assert(g@ == encode_of(rest.subrange(c, c + chunk_len))) by {
                            assert(src@.subrange(i as int, i + chunk_len) =~= rest.subrange(
                                c,
                                c + chunk_len,
                            ));
                        }
                        let kp = choose|k: int|
                            0 <= k <= g@.len() && self.sink_accepted() == (sink0 + ec)
                                + #[trigger] g@.subrange(0, k);
                        lemma_emit_prefix(rest, c, chunk_len as int, kp);
                        assert(self.sink_accepted() =~= sink0 + encode_of(rest.take(ral)).take(
                            ec.len() + kp,
                        ));
                        assert(exists|k: int|
                            0 <= k <= encode_of(rest.take(ral)).len() && self.sink_accepted()
                                == sink0 + #[trigger] encode_of(rest.take(ral)).take(k));
                    }
                    return Err(e);
                },
            }
            proof {
                assert(g@.skip(0) =~= g@);
                assert(rest.take(c) + src@.subrange(i as int, i + chunk_len) =~= rest.take(
                    c + chunk_len,
                ));
                lemma_encode_append(rest.take(c), src@.subrange(i as int, i + chunk_len));
            }
            i = i + chunk_len;
        }
        self.buf = vstd::slice::slice_to_vec(
            vstd::slice::slice_subrange(src.as_slice(), i, src.len()),
        );
        proof {
            let c = i - start;
            assert(rest.len() - c < 3);
            assert(rest.len() % 3 == rest.len() - c) by (nonlinear_arith)
                requires
                    c % 3 == 0,
                    0 <= rest.len() - c < 3,
            ;
            assert(rest.take(c) =~= rest.take(ral));
            assert(self.buf@ =~= rest.skip(ral));
        }
        Ok(())
    }

    /// Emit the held-over partial group, padded, and clear the holdover.
    /// With nothing held over — in particular on a repeated flush — this
    /// writes nothing and succeeds.
    pub fn flush(&mut self) -> (r: Result<(), TranscodeError>)
        requires
            old(self).wf(),
        ensures
            final(self).wf(),
            old(self).held().len() == 0 ==> r == Ok::<(), TranscodeError>(()) && *final(self)
                == *old(self),
            match r {
                Ok(()) => {
                    &&& final(self).sink_accepted() == old(self).sink_accepted() + encode_of(
                        old(self).held(),
                    )
                    &&& final(self).held().len() == 0
                },
                Err(e) => {
                    &&& e == TranscodeError::Sink
                    &&& final(self).held() == old(self).held()
                    &&& exists|k: int|
                        0 <= k <= encode_of(old(self).held()).len() && final(self).sink_accepted()
                            == old(self).sink_accepted() + #[trigger] encode_of(
                            old(self).held(),
                        ).take(k)
                },
            },
    {
        if self.buf.len() > 0 {
            let ghost sink0 = self.sink_accepted();
            let g = b64_encode(self.buf.as_slice());
            match push_all(&mut self.inner, &g, 0) {
                Ok(()) => {},
                Err(e) => {
                    proof {
                        let kp = choose|k: int|
                            0 <= k <= g@.len() && self.sink_accepted() == sink0
                                + #[trigger] g@.subrange(0, k);
                        assert(g@.subrange(0, kp) =~= encode_of(old(self).held()).take(kp));
                        assert(exists|k: int|
                            0 <= k <= encode_of(old(self).held()).len() && self.sink_accepted()
                                == sink0 + #[trigger] encode_of(old(self).held()).take(k));
                    }
                    return Err(e);
                },
            }
            self.buf = Vec::new();
            proof {
                assert(g@.skip(0) =~= g@);
            }
        } else {
            proof {
                assert(encode_of(Seq::<u8>::empty()) =~= Seq::<u8>::empty());
                assert(old(self).sink_accepted() + encode_of(old(self).held()) =~= old(
                    self,
                ).sink_accepted());
            }
        }
        Ok(())
    }
}

} // verus!
