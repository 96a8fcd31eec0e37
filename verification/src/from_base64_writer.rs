//! Decode-on-write: accepts Base64 symbols pushed by the caller, decodes
//! whole four-symbol groups eagerly, and delivers the raw bytes to an inner
//! sink. Up to three trailing symbols are held over between calls; `flush`
//! rejects a holdover that is not a whole group, since canonical Base64
//! arrives only in whole groups.

use vstd::prelude::*;

use crate::codec::b64_decode;
use crate::codec::canonical;
use crate::codec::cat;
use crate::codec::cat_enc;
use crate::codec::decode_of;
use crate::codec::encode_of;
use crate::codec::lemma_cat_enc_prefix;
use crate::codec::lemma_cat_append;
use crate::codec::lemma_cat_enc_step;
use crate::codec::lemma_chunk_fails_invalid;
use crate::codec::lemma_decode_of_encode_of;
use crate::codec::lemma_encode_len;
use crate::codec::lemma_prefix_of_encoding;
use crate::stream::push_all;
use crate::stream::ByteSink;
use crate::stream::TranscodeError;

verus! {

/// The group-aligned part of the holdover `h` followed by new input `x`:
/// what one `write` of `x` decodes and sends on.
pub open spec fn dec_writer_aligned(h: Seq<u8>, x: Seq<u8>) -> Seq<u8> {
    (h + x).take((h + x).len() - ((h + x).len() % 4))
}

/// The holdover such a `write` leaves behind: the trailing partial group.
pub open spec fn dec_writer_hold(h: Seq<u8>, x: Seq<u8>) -> Seq<u8> {
    (h + x).skip((h + x).len() - ((h + x).len() % 4))
}

/// Law: chunked-write equivalence for the holdover — writing a payload in
/// two pieces leaves the same holdover as writing it whole.
pub proof fn lemma_decode_writer_hold_chunks(h: Seq<u8>, a: Seq<u8>, b: Seq<u8>)
    ensures
        dec_writer_hold(dec_writer_hold(h, a), b) == dec_writer_hold(h, a + b),
{
    let t1 = h + a;
    let al1 = t1.len() - t1.len() % 4;
    let hold1 = t1.skip(al1);
    let t = h + (a + b);
    let t2 = hold1 + b;
    assert(t2 =~= t.skip(al1));
    assert(t2.len() % 4 == t.len() % 4) by (nonlinear_arith)
        requires
            al1 % 4 == 0,
            t2.len() == t.len() - al1,
            t.len() >= al1 >= 0,
    ;
    let al = t.len() - t.len() % 4;
    let al2 = t2.len() - t2.len() % 4;
    assert(al2 == al - al1);
    assert(dec_writer_hold(hold1, b) =~= t.skip(al));
}

/// Law: chunked-write equivalence for the output — on a canonical stream,
/// writing a payload in two pieces sends the same decoded bytes to the sink
/// as writing it whole.
pub proof fn lemma_decode_writer_emit_chunks(h: Seq<u8>, a: Seq<u8>, b: Seq<u8>)
    requires
        canonical(dec_writer_aligned(h, a + b)),
    ensures
        canonical(dec_writer_aligned(h, a)),
        canonical(dec_writer_aligned(dec_writer_hold(h, a), b)),
        decode_of(dec_writer_aligned(h, a)) + decode_of(
            dec_writer_aligned(dec_writer_hold(h, a), b),
        ) == decode_of(dec_writer_aligned(h, a + b)),
{
    let t = h + (a + b);
    let al = t.len() - t.len() % 4;
    let b0 = choose|b0: Seq<u8>| dec_writer_aligned(h, a + b) == #[trigger] encode_of(b0);
    lemma_encode_len(b0);
    assert(encode_of(b0).len() == al);
    let t1 = h + a;
    let al1 = t1.len() - t1.len() % 4;
    let hold1 = t1.skip(al1);
    let t2 = hold1 + b;
    assert(t2 =~= t.skip(al1));
    assert(t2.len() % 4 == t.len() % 4) by (nonlinear_arith)
        requires
            al1 % 4 == 0,
            t2.len() == t.len() - al1,
            t.len() >= al1 >= 0,
    ;
    let al2 = t2.len() - t2.len() % 4;
    assert(al2 == al - al1);
    assert(al1 <= al) by (nonlinear_arith)
        requires
            al1 % 4 == 0,
            al % 4 == 0,
            al1 <= t.len(),
            al == t.len() - t.len() % 4,
            0 <= t.len() % 4 < 4,
    ;
    let a1 = dec_writer_aligned(h, a);
    let a2 = dec_writer_aligned(hold1, b);
    assert(a1 =~= encode_of(b0).take(al1));
    assert(a2 =~= encode_of(b0).skip(al1));
    assert(encode_of(b0).take(al1) + encode_of(b0).skip(al1) =~= encode_of(b0));
    lemma_prefix_of_encoding(b0, encode_of(b0).take(al1), encode_of(b0).skip(al1));
    if al1 == al {
        // the first write already consumed every whole group
        assert(a2.len() == 0);
        assert(a2 =~= encode_of(Seq::<u8>::empty()));
        lemma_decode_of_encode_of(Seq::<u8>::empty());
        if encode_of(b0).skip(al1).len() == 0 {
            assert(a1 =~= encode_of(b0));
            lemma_decode_of_encode_of(b0);
            assert(decode_of(a1) + decode_of(a2) =~= b0);
        }
        lemma_decode_of_encode_of(b0);
    } else {
        let k = al1 / 4;
        assert(a1 == encode_of(b0.take(3 * k)));
        assert(a2 == encode_of(b0.skip(3 * k)));
        lemma_decode_of_encode_of(b0.take(3 * k));
        lemma_decode_of_encode_of(b0.skip(3 * k));
        lemma_decode_of_encode_of(b0);
        assert(b0.take(3 * k) + b0.skip(3 * k) =~= b0);
    }
}

/// A segment list that consumed the whole aligned part decodes it exactly
/// when that part is canonical.
proof fn lemma_aligned_consumed(h0: Seq<u8>, x: Seq<u8>, segsall: Seq<Seq<u8>>)
    requires
        cat_enc(segsall) == dec_writer_aligned(h0, x),
    ensures
        canonical(dec_writer_aligned(h0, x)) ==> cat(segsall) == decode_of(
            dec_writer_aligned(h0, x),
        ),
{
    let aligned = dec_writer_aligned(h0, x);
    if canonical(aligned) {
        let b0 = choose|b0: Seq<u8>| aligned == #[trigger] encode_of(b0);
        lemma_cat_enc_prefix(b0, segsall, Seq::empty());
        assert(encode_of(b0) =~= cat_enc(segsall) + Seq::<u8>::empty());
        lemma_encode_len(b0.skip(cat(segsall).len() as int));
        assert(b0.skip(cat(segsall).len() as int).len() == 0);
        assert(cat(segsall) =~= b0);
        lemma_decode_of_encode_of(b0);
    }
}

/// Write Base64 symbols; they reach the inner sink decoded to raw bytes.
pub struct FromBase64Writer<K: ByteSink> {
    inner: K,
    buf: Vec<u8>,
    capacity: usize,
}

impl<K: ByteSink> FromBase64Writer<K> {
    /// The holdover never exceeds one symbol group; the chunking capacity
    /// holds at least one alignment unit.
    pub closed spec fn wf(&self) -> bool {
        &&& self.buf.len() <= 4
        &&& self.capacity >= 4
    }

    /// Symbols accepted but not yet decoded: the trailing partial group.
    pub closed spec fn held(&self) -> Seq<u8> {
        self.buf@
    }

    /// Everything the inner sink has accepted.
    pub closed spec fn sink_accepted(&self) -> Seq<u8> {
        self.inner.accepted()
    }

    /// Hand back the inner sink, dropping the holdover: callers flush
    /// first, as discarding a writer without flushing loses the last
    /// partial group by design.
    pub fn into_inner(self) -> (r: K)
        ensures
            r.accepted() == self.sink_accepted(),
    {
        self.inner
    }

    /// Wrap a sink; decoded output is pushed in chunks of the default size.
    pub fn new(inner: K) -> (r: Self)
        ensures
            r.wf(),
            r.held().len() == 0,
            r.sink_accepted() == inner.accepted(),
    {
        Self::new2(inner, 4096)
    }

    /// Wrap a sink with an explicit chunking capacity; the capacity must
    /// hold at least one alignment unit. The codec is always the standard
    /// alphabet with `=` padding.
    pub fn new2(inner: K, capacity: usize) -> (r: Self)
        requires
            capacity >= 4,
        ensures
            r.wf(),
            r.held().len() == 0,
            r.sink_accepted() == inner.accepted(),
    {
        FromBase64Writer { inner, buf: Vec::new(), capacity }
    }

    /// Accept all of `src`: complete and decode the held-over group first,
    /// then decode and push whole groups chunk by chunk; the trailing one
    /// to three symbols are held over for the next call. A group the codec
    /// rejects fails the call; raw bytes of groups decoded earlier in the
    /// same call stay with the sink.
    #[verifier::loop_isolation(false)]
    #[verifier::rlimit(60)]
    pub fn write(&mut self, src: &Vec<u8>) -> (r: Result<usize, TranscodeError>)
        requires
            old(self).wf(),
        ensures
            final(self).wf(),
            old(self).held().len() + src@.len() < 4 ==> r is Ok,
            match r {
                Ok(n) => {
                    &&& n == src.len()
                    &&& exists|segs: Seq<Seq<u8>>|
                        #[trigger] cat_enc(segs) == dec_writer_aligned(old(self).held(), src@)
                            && final(self).sink_accepted() == old(self).sink_accepted() + cat(segs)
                    &&& (canonical(dec_writer_aligned(old(self).held(), src@))
                        ==> final(self).sink_accepted() == old(self).sink_accepted() + decode_of(
                        dec_writer_aligned(old(self).held(), src@),
                    ))
                    &&& final(self).held() == dec_writer_hold(old(self).held(), src@)
                },
                Err(e) => match e {
                    TranscodeError::Sink => exists|segs: Seq<Seq<u8>>, k: int|
                        {
                            &&& cat_enc(segs).len() <= (old(self).held() + src@).len()
                            &&& cat_enc(segs) == (old(self).held() + src@).take(
                                cat_enc(segs).len() as int,
                            )
                            &&& cat_enc(segs).len() % 4 == 0
                            &&& 0 <= k <= cat(segs).len()
                            &&& final(self).sink_accepted() == old(self).sink_accepted()
                                + #[trigger] cat(segs).take(k)
                        },
                    TranscodeError::Decode(_) => !canonical(
                        dec_writer_aligned(old(self).held(), src@),
                    ),
                    _ => false,
                },
            },
    {
        let ghost h0 = self.held();
        let ghost sink0 = self.sink_accepted();
        let ghost total = h0 + src@;
        let ghost al = total.len() - (total.len() % 4);
        let ghost aligned = total.take(al);
        let mut i: usize = 0;
        let ghost mut segsall: Seq<Seq<u8>> = Seq::empty();
        if self.buf.len() > 0 {
            let missing = 4 - self.buf.len();
            let d: usize = if missing < src.len() {
                missing
            } else {
                src.len()
            };
            let mut j: usize = 0;
            while j < d
                invariant
                    j <= d,
                    self.buf@ == h0 + src@.subrange(0, j as int),
                    self.inner == old(self).inner,
                    self.capacity == old(self).capacity,
                decreases d - j,
            {
                let v = src[j];
                self.buf.push(v);
                proof {
                    assert(self.buf@ =~= h0 + src@.subrange(0, j + 1));
                }
                j = j + 1;
            }
            i = d;
            if self.buf.len() == 4 {
                let group = match b64_decode(self.buf.as_slice()) {
                    Ok(v) => v,
                    Err(e) => {
                        proof {
                            assert(self.buf@ =~= total.take(4));
                            assert(al >= 4);
                            assert(total.take(4) =~= aligned.take(4));
                            assert(aligned =~= cat_enc(Seq::<Seq<u8>>::empty()) + aligned);
                            lemma_chunk_fails_invalid(
                                aligned,
                                Seq::empty(),
                                aligned,
                                aligned.take(4),
                            );
                        }
                        return Err(TranscodeError::Decode(e));
                    },
                };
                proof {
                    lemma_encode_len(group@);
                    assert(self.buf@ =~= total.take(4));
                }
                match push_all(&mut self.inner, &group, 0) {
                    Ok(()) => {},
                    Err(e) => {
                        proof {
                            let segs1 = seq![group@];
                            assert(segs1.skip(1) =~= Seq::<Seq<u8>>::empty());
                            assert(cat_enc(Seq::<Seq<u8>>::empty()) == Seq::<u8>::empty());
                            assert(cat(Seq::<Seq<u8>>::empty()) == Seq::<u8>::empty());
                            assert(cat_enc(segs1) =~= encode_of(group@));
                            assert(cat(segs1) =~= group@);
                            assert(cat_enc(segs1) == total.take(cat_enc(segs1).len() as int));
                            let kp = choose|k: int|
                                0 <= k <= group@.len() && self.sink_accepted() == sink0
                                    + #[trigger] group@.subrange(0, k);
                            assert(cat(segs1).take(kp) =~= group@.subrange(0, kp));
                            assert(exists|segs: Seq<Seq<u8>>, k: int|
                                {
                                    &&& cat_enc(segs).len() <= (h0 + src@).len()
                                    &&& cat_enc(segs) == (h0 + src@).take(
                                        cat_enc(segs).len() as int,
                                    )
                                    &&& cat_enc(segs).len() % 4 == 0
                                    &&& 0 <= k <= cat(segs).len()
                                    &&& self.sink_accepted() == sink0 + #[trigger] cat(segs).take(
                                        k,
                                    )
                                });
                        }
                        return Err(e);
                    },
                }
                self.buf = Vec::new();
                proof {
                    assert(group@.skip(0) =~= group@);
                    assert(cat_enc(segsall) =~= total.take(0));
                    assert(encode_of(group@) =~= total.subrange(0, 4));
                    lemma_cat_enc_step(total, 0, segsall, group@);
                    segsall = segsall + seq![group@];
                    assert(h0.len() + d == 4);
                    assert(self.sink_accepted() =~= sink0 + cat(segsall));
                }
            } else {
                // the whole input was absorbed into the holdover
                proof {
                    assert(d == src@.len());
                    assert(self.buf@ =~= total);
                    assert(total.len() < 4);
                    assert(al == 0);
                    assert(aligned =~= Seq::<u8>::empty());
                    assert(cat_enc(Seq::<Seq<u8>>::empty()) == Seq::<u8>::empty());
                    assert(cat(Seq::<Seq<u8>>::empty()) == Seq::<u8>::empty());
                    assert(cat_enc(Seq::<Seq<u8>>::empty()) =~= aligned);
                    assert(sink0 + cat(Seq::<Seq<u8>>::empty()) =~= sink0);
                    assert(dec_writer_hold(h0, src@) =~= total);
                    if canonical(aligned) {
                        let b0 = choose|b0: Seq<u8>| aligned == #[trigger] encode_of(b0);
                        lemma_encode_len(b0);
                        assert(b0.len() == 0);
                        lemma_decode_of_encode_of(b0);
                        assert(sink0 + decode_of(aligned) =~= sink0);
                    }
                }
                return Ok(src.len());
            }
        }
        // here the holdover is empty and everything consumed so far is
        // group-aligned, decoded, and delivered to the sink
        let ghost c1 = h0.len() + i;
        let ghost sinkmid = self.sink_accepted();
        proof {
            if segsall.len() == 0 {
                assert(cat_enc(segsall) == Seq::<u8>::empty());
                assert(cat(segsall) == Seq::<u8>::empty());
                assert(cat_enc(segsall) =~= total.take(c1));
                assert(sinkmid =~= sink0 + cat(segsall));
            }
        }
        match self.write_groups(src, i) {
            Ok(()) => {
                proof {
                    let rest = src@.skip(i as int);
                    let ral = rest.len() - (rest.len() % 4);
                    let segs2 = choose|segs: Seq<Seq<u8>>|
                        #[trigger] cat_enc(segs) == rest.take(ral) && self.sink_accepted()
                            == sinkmid + cat(segs);
                    assert(total.len() % 4 == rest.len() % 4) by (nonlinear_arith)
                        requires
                            c1 % 4 == 0,
                            rest.len() == total.len() - c1,
                            total.len() >= c1 >= 0,
                    ;
                    assert(al == c1 + ral);
                    assert(total.skip(c1) =~= rest);
                    assert(total.take(al) =~= total.take(c1) + rest.take(ral));
                    lemma_cat_append(segsall, segs2);
                    assert(cat_enc(segsall + segs2) =~= total.take(al));
                    vstd::seq_lib::lemma_concat_associative(sink0, cat(segsall), cat(segs2));
                    assert(self.sink_accepted() =~= sink0 + cat(segsall + segs2));
                    assert(self.held() =~= dec_writer_hold(h0, src@));
                    assert(cat_enc(segsall + segs2) == dec_writer_aligned(h0, src@));
                    lemma_aligned_consumed(h0, src@, segsall + segs2);
                    assert(exists|segs: Seq<Seq<u8>>|
                        #[trigger] cat_enc(segs) == dec_writer_aligned(h0, src@)
                            && self.sink_accepted() == sink0 + cat(segs));
                }
                Ok(src.len())
            },
            Err(e) => {
                proof {
                    if e matches TranscodeError::Decode(_) {
                        let rest = src@.skip(i as int);
                        let ral = rest.len() - (rest.len() % 4);
                        assert(total.len() % 4 == rest.len() % 4) by (nonlinear_arith)
                            requires
                                c1 % 4 == 0,
                                rest.len() == total.len() - c1,
                                total.len() >= c1 >= 0,
                        ;
                        assert(total.skip(c1) =~= rest);
                        assert(aligned =~= cat_enc(segsall) + rest.take(ral));
                        crate::codec::lemma_rest_invalid(aligned, segsall, rest.take(ral));
                    }
                    if e == TranscodeError::Sink {
                        let (segsg, kg) = choose|segsg: Seq<Seq<u8>>, kg: int|
                            {
                                &&& cat_enc(segsg).len() <= src@.skip(i as int).len()
                                &&& cat_enc(segsg) == src@.skip(i as int).take(
                                    #[trigger] cat_enc(segsg).len() as int,
                                )
                                &&& cat_enc(segsg).len() % 4 == 0
                                &&& 0 <= kg <= cat(segsg).len()
                                &&& self.sink_accepted() == sinkmid + #[trigger] cat(segsg).take(
                                    kg,
                                )
                            };
                        let segsw = segsall + segsg;
                        lemma_cat_append(segsall, segsg);
                        assert(total.skip(c1) =~= src@.skip(i as int));
                        assert(cat_enc(segsw) =~= total.take(c1 + cat_enc(segsg).len()));
                        assert(cat_enc(segsw).len() == c1 + cat_enc(segsg).len());
                        assert(cat(segsw).take(cat(segsall).len() + kg) =~= cat(segsall) + cat(
                            segsg,
                        ).take(kg));
                        assert(self.sink_accepted() =~= sink0 + cat(segsw).take(
                            cat(segsall).len() + kg,
                        ));
                        assert(exists|segs: Seq<Seq<u8>>, k: int|
                            {
                                &&& cat_enc(segs).len() <= (h0 + src@).len()
                                &&& cat_enc(segs) == (h0 + src@).take(cat_enc(segs).len() as int)
                                &&& cat_enc(segs).len() % 4 == 0
                                &&& 0 <= k <= cat(segs).len()
                                &&& self.sink_accepted() == sink0 + #[trigger] cat(segs).take(k)
                            });
                    }
                }
                Err(e)
            },
        }
    }

    /// Decode and deliver the whole groups of `src[start..]`, chunk by
    /// chunk; the trailing partial group becomes the new holdover.
    #[verifier::loop_isolation(false)]
    #[verifier::rlimit(100)]
    #[verifier::spinoff_prover]
    fn write_groups(&mut self, src: &Vec<u8>, start: usize) -> (r: Result<(), TranscodeError>)
        requires
            old(self).wf(),
            old(self).held().len() == 0,
            start <= src.len(),
        ensures
            final(self).wf(),
            src@.len() - start < 4 ==> r is Ok,
            match r {
                Ok(()) => {
                    let rest = src@.skip(start as int);
                    let ral = rest.len() - (rest.len() % 4);
                    &&& exists|segs: Seq<Seq<u8>>|
                        #[trigger] cat_enc(segs) == rest.take(ral) && final(self).sink_accepted()
                            == old(self).sink_accepted() + cat(segs)
                    &&& final(self).held() == rest.skip(ral)
                },
                Err(e) => match e {
                    TranscodeError::Sink => exists|segs: Seq<Seq<u8>>, k: int|
                        {
                            &&& cat_enc(segs).len() <= src@.skip(start as int).len()
                            &&& cat_enc(segs) == src@.skip(start as int).take(
                                cat_enc(segs).len() as int,
                            )
                            &&& cat_enc(segs).len() % 4 == 0
                            &&& 0 <= k <= cat(segs).len()
                            &&& final(self).sink_accepted() == old(self).sink_accepted()
                                + #[trigger] cat(segs).take(k)
                        },
                    TranscodeError::Decode(_) => {
                        let rest = src@.skip(start as int);
                        let ral = rest.len() - (rest.len() % 4);
                        forall|b: Seq<u8>| rest.take(ral) != #[trigger] encode_of(b)
                    },
                    _ => false,
                },
            },
    {
        let ghost rest = src@.skip(start as int);
        let ghost ral = rest.len() - (rest.len() % 4);
        let ghost sink0 = self.sink_accepted();
        let mut i: usize = start;
        let ghost mut segsall: Seq<Seq<u8>> = Seq::empty();
        proof {
            assert(cat_enc(segsall) == Seq::<u8>::empty());
            assert(cat(segsall) == Seq::<u8>::empty());
            assert(cat_enc(segsall) =~= rest.take(0));
            assert(sink0 + cat(segsall) =~= sink0);
        }
        while src.len() - i >= 4
            invariant
                self.wf(),
                self.buf@.len() == 0,
                start <= i <= src.len(),
                (i - start) % 4 == 0,
                self.capacity == old(self).capacity,
                cat_enc(segsall) == rest.take(i - start),
                self.sink_accepted() == sink0 + cat(segsall),
            decreases src.len() - i,
        {
            let ghost c = i - start;
            let rem = (src.len() - i) % 4;
            let rest_aligned = (src.len() - i) - rem;
            let q = self.capacity / 3;
            let chunk_len: usize = if rest_aligned / 4 <= q {
                rest_aligned
            } else {
                proof {
                    assert(4 * q < rest_aligned) by (nonlinear_arith)
                        requires
                            q < rest_aligned / 4,
                            rest_aligned >= 0,
                            q >= 0,
                    ;
                }
                q * 4
            };
            assert(chunk_len % 4 == 0 && chunk_len >= 4) by {
                assert(rest_aligned % 4 == 0);
                assert(4 * q % 4 == 0 && (q >= 1 ==> 4 * q >= 4)) by (nonlinear_arith)
                    requires
                        q >= 0,
                ;
                assert(q >= 1);
            }
            let group = match b64_decode(
                vstd::slice::slice_subrange(src.as_slice(), i, i + chunk_len),
            ) {
                Ok(v) => v,
                Err(e) => {
                    proof {
                        let ch = src@.subrange(i as int, i + chunk_len);
                        assert(ch =~= rest.take(ral).skip(c).take(chunk_len as int));
                        assert(rest.take(ral) =~= cat_enc(segsall) + rest.take(ral).skip(c));
                        lemma_chunk_fails_invalid(
                            rest.take(ral),
                            segsall,
                            rest.take(ral).skip(c),
                            ch,
                        );
                    }
                    return Err(TranscodeError::Decode(e));
                },
            };
            proof {
                lemma_encode_len(group@);
                assert(encode_of(group@) =~= rest.subrange(c, c + chunk_len));
                lemma_cat_enc_step(rest, c, segsall, group@);
            }
            match push_all(&mut self.inner, &group, 0) {
                Ok(()) => {},
                Err(e) => {
                    proof {
                        let segs2 = segsall + seq![group@];
                        let kp = choose|k: int|
                            0 <= k <= group@.len() && self.sink_accepted() == (sink0 + cat(
                                segsall,
                            )) + #[trigger] group@.subrange(0, k);
                        assert(cat(segs2).take(cat(segsall).len() + kp) =~= cat(segsall)
                            + group@.subrange(0, kp));
                        assert(self.sink_accepted() =~= sink0 + cat(segs2).take(
                            cat(segsall).len() + kp,
                        ));
                        assert(cat_enc(segs2).len() == c + chunk_len);
                        assert(exists|segs: Seq<Seq<u8>>, k: int|
                            {
                                &&& cat_enc(segs).len() <= src@.skip(start as int).len()
                                &&& cat_enc(segs) == src@.skip(start as int).take(
                                    cat_enc(segs).len() as int,
                                )
                                &&& cat_enc(segs).len() % 4 == 0
                                &&& 0 <= k <= cat(segs).len()
                                &&& self.sink_accepted() == old(self).sink_accepted()
                                    + #[trigger] cat(segs).take(k)
                            });
                    }
                    return Err(e);
                },
            }
            proof {
                assert(group@.skip(0) =~= group@);
                vstd::seq_lib::lemma_concat_associative(sink0, cat(segsall), group@);
                segsall = segsall + seq![group@];
                assert(self.sink_accepted() =~= sink0 + cat(segsall));
            }
            i = i + chunk_len;
        }
        self.buf = vstd::slice::slice_to_vec(
            vstd::slice::slice_subrange(src.as_slice(), i, src.len()),
        );
        proof {
            let c = i - start;
            assert(rest.len() - c < 4);
            assert(rest.len() % 4 == rest.len() - c) by (nonlinear_arith)
                requires
                    c % 4 == 0,
                    0 <= rest.len() - c < 4,
            ;
            assert(c == ral);
            assert(self.buf@ =~= rest.skip(ral));
            assert(exists|segs: Seq<Seq<u8>>|
                #[trigger] cat_enc(segs) == rest.take(ral) && self.sink_accepted() == old(
                    self,
                ).sink_accepted() + cat(segs));
        }
        Ok(())
    }

    /// Decode and deliver the held-over group, then clear the holdover.
    /// With nothing held over — in particular on a repeated flush — this
    /// writes nothing and succeeds; a holdover that is not a whole group
    /// is rejected, as a canonical stream never leaves one behind.
    #[verifier::rlimit(50)]
    pub fn flush(&mut self) -> (r: Result<(), TranscodeError>)
        requires
            old(self).wf(),
        ensures
            final(self).wf(),
            old(self).held().len() == 0 ==> r == Ok::<(), TranscodeError>(()) && *final(self)
                == *old(self),
            r matches Err(TranscodeError::Sink) ==> canonical(old(self).held()),
            match r {
                Ok(()) => {
                    &&& canonical(old(self).held())
                    &&& final(self).sink_accepted() == old(self).sink_accepted() + decode_of(
                        old(self).held(),
                    )
                    &&& final(self).held().len() == 0
                },
                Err(e) => match e {
                    TranscodeError::Sink => {
                        &&& final(self).held() == old(self).held()
                        &&& exists|k: int|
                            0 <= k <= decode_of(old(self).held()).len()
                                && final(self).sink_accepted() == old(self).sink_accepted()
                                + #[trigger] decode_of(old(self).held()).take(k)
                    },
                    TranscodeError::Decode(_) => !canonical(old(self).held()) && *final(self)
                        == *old(self),
                    _ => false,
                },
            },
    {
        if self.buf.len() > 0 {
            let group = match b64_decode(self.buf.as_slice()) {
                Ok(v) => v,
                Err(e) => {
                    return Err(TranscodeError::Decode(e));
                },
            };
            proof {
                assert(canonical(old(self).held()));
            }
            proof {
                lemma_decode_of_encode_of(group@);
                assert(decode_of(old(self).held()) == group@);
            }
            let ghost sink0 = self.sink_accepted();
            match push_all(&mut self.inner, &group, 0) {
                Ok(()) => {},
                Err(e) => {
                    proof {
                        let kp = choose|k: int|
                            0 <= k <= group@.len() && self.sink_accepted() == sink0
                                + #[trigger] group@.subrange(0, k);
                        assert(group@.subrange(0, kp) =~= decode_of(old(self).held()).take(kp));
                        assert(exists|k: int|
                            0 <= k <= decode_of(old(self).held()).len() && self.sink_accepted()
                                == sink0 + #[trigger] decode_of(old(self).held()).take(k));
                    }
                    return Err(e);
                },
            }
            proof {
                assert(group@.skip(0) =~= group@);
            }
            self.buf = Vec::new();
        } else {
            proof {
                assert(self.held() =~= encode_of(Seq::<u8>::empty()));
                lemma_decode_of_encode_of(Seq::<u8>::empty());
                assert(old(self).sink_accepted() + decode_of(old(self).held()) =~= old(
                    self,
                ).sink_accepted());
            }
        }
        Ok(())
    }
}

} // verus!