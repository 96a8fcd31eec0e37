//! The Base64 transform itself: a mathematical model of the standard
//! (RFC 4648) encoding with `=` padding, the lemmas that the stream adapters
//! build on, and the two trusted entry points into the `base64` crate.

use vstd::prelude::*;

use base64::Engine;

verus! {

/// The padding byte `'='` that completes a final partial group.
pub const PAD: u8 = 61;

/// The symbol of the standard alphabet for a 6-bit value.
pub open spec fn b64_char(v: u8) -> u8 {
    if v < 26 {
        (v + 65) as u8  // 'A'..='Z'
    } else if v < 52 {
        (v + 71) as u8  // 'a'..='z'
    } else if v < 62 {
        (v - 4) as u8  // '0'..='9'
    } else if v == 62 {
        43u8  // '+'
    } else {
        47u8  // '/'
    }
}

/// First symbol of a group: top six bits of the first byte.
pub open spec fn enc0(b0: u8) -> u8 {
    b64_char(b0 >> 2)
}

/// Second symbol: low two bits of the first byte, top four of the second.
pub open spec fn enc1(b0: u8, b1: u8) -> u8 {
    b64_char(((b0 & 0x03) << 4) | (b1 >> 4))
}

/// Third symbol: low four bits of the second byte, top two of the third.
pub open spec fn enc2(b1: u8, b2: u8) -> u8 {
    b64_char(((b1 & 0x0f) << 2) | (b2 >> 6))
}

/// Fourth symbol: low six bits of the third byte.
pub open spec fn enc3(b2: u8) -> u8 {
    b64_char(b2 & 0x3f)
}

/// The canonical Base64 encoding of a byte sequence: whole groups of three
/// bytes become four alphabet symbols, and a final partial group of one or
/// two bytes becomes a four-symbol group completed with `=` padding.
pub open spec fn encode_of(raw: Seq<u8>) -> Seq<u8>
    decreases raw.len(),
{
    if raw.len() == 0 {
        Seq::empty()
    } else if raw.len() == 1 {
        seq![enc0(raw[0]), enc1(raw[0], 0), PAD, PAD]
    } else if raw.len() == 2 {
        seq![enc0(raw[0]), enc1(raw[0], raw[1]), enc2(raw[1], 0), PAD]
    } else {
        seq![enc0(raw[0]), enc1(raw[0], raw[1]), enc2(raw[1], raw[2]), enc3(raw[2])]
            + encode_of(raw.skip(3))
    }
}

/// A symbol sequence is canonical when it is the encoding of some byte
/// sequence: correct alphabet, correct `=` padding, zero trailing bits.
pub open spec fn canonical(sym: Seq<u8>) -> bool {
    exists|b: Seq<u8>| sym == #[trigger] encode_of(b)
}

/// The byte sequence that a canonical symbol sequence encodes. Meaningful
/// only when `canonical(sym)` holds; unique by `lemma_encode_injective`.
pub open spec fn decode_of(sym: Seq<u8>) -> Seq<u8> {
    choose|b: Seq<u8>| sym == #[trigger] encode_of(b)
}

/// Why a symbol stream was rejected, mirroring the reasons the `base64`
/// crate distinguishes.
#[derive(Clone, Copy, Debug, PartialEq, Eq, Structural)]
pub enum DecodeError {
    /// A byte outside the alphabet (or misplaced padding), with its position.
    InvalidByte(usize, u8),
    /// A length that no canonical symbol stream can have.
    InvalidLength(usize),
    /// A final symbol carrying nonzero unused trailing bits: its position,
    /// the symbol, and the 6-bit value it stands for.
    InvalidLastSymbol(usize, u8, u8),
    /// Padding missing or malformed at the end of the stream.
    InvalidPadding,
}

/// Alphabet symbols are never the padding byte.
pub proof fn lemma_b64_char_not_pad(v: u8)
    requires
        v < 64,
    ensures
        b64_char(v) != PAD,
{
}

/// The alphabet maps distinct 6-bit values to distinct symbols.
pub proof fn lemma_b64_char_injective(u: u8, v: u8)
    requires
        u < 64,
        v < 64,
        b64_char(u) == b64_char(v),
    ensures
        u == v,
{
}

/// The length of an encoding: four symbols for every started group of three.
pub proof fn lemma_encode_len(raw: Seq<u8>)
    ensures
        encode_of(raw).len() == 4 * ((raw.len() + 2) / 3),
    decreases raw.len(),
{
    if raw.len() >= 3 {
        lemma_encode_len(raw.skip(3));
    }
}

/// Encoding distributes over concatenation at group boundaries.
pub proof fn lemma_encode_append(a: Seq<u8>, b: Seq<u8>)
    requires
        a.len() % 3 == 0,
    ensures
        encode_of(a + b) == encode_of(a) + encode_of(b),
    decreases a.len(),
{
    if a.len() == 0 {
        assert(a + b =~= b);
        assert(encode_of(a) + encode_of(b) =~= encode_of(b));
    } else {
        let ab = a + b;
        assert(ab.skip(3) =~= a.skip(3) + b);
        lemma_encode_append(a.skip(3), b);
        assert(encode_of(a + b) =~= encode_of(a) + encode_of(b));
    }
}

/// The four 6-bit values of a group are all below 64.
proof fn lemma_enc_vals_bounded(b0: u8, b1: u8, b2: u8)
    ensures
        (b0 >> 2) < 64,
        (((b0 & 0x03) << 4) | (b1 >> 4)) < 64,
        (((b1 & 0x0f) << 2) | (b2 >> 6)) < 64,
        (b2 & 0x3f) < 64,
{
    assert((b0 >> 2) < 64 && (((b0 & 0x03) << 4) | (b1 >> 4)) < 64 && (((b1 & 0x0f) << 2) | (b2
        >> 6)) < 64 && (b2 & 0x3f) < 64) by (bit_vector);
}

/// Three bytes are recovered exactly from the four 6-bit values of a group.
proof fn lemma_block_bytes_from_vals(a0: u8, a1: u8, a2: u8, b0: u8, b1: u8, b2: u8)
    requires
        a0 >> 2 == b0 >> 2,
        ((a0 & 0x03) << 4) | (a1 >> 4) == ((b0 & 0x03) << 4) | (b1 >> 4),
        ((a1 & 0x0f) << 2) | (a2 >> 6) == ((b1 & 0x0f) << 2) | (b2 >> 6),
        a2 & 0x3f == b2 & 0x3f,
    ensures
        a0 == b0,
        a1 == b1,
        a2 == b2,
{
    assert((a0 >> 2 == b0 >> 2 && ((a0 & 0x03) << 4) | (a1 >> 4) == ((b0 & 0x03) << 4) | (b1 >> 4)
        && ((a1 & 0x0f) << 2) | (a2 >> 6) == ((b1 & 0x0f) << 2) | (b2 >> 6) && a2 & 0x3f == b2
        & 0x3f) ==> (a0 == b0 && a1 == b1 && a2 == b2)) by (bit_vector);
}

/// One byte is recovered exactly from the two 6-bit values of a padded
/// one-byte tail group.
proof fn lemma_tail1_bytes_from_vals(a0: u8, b0: u8)
    requires
        a0 >> 2 == b0 >> 2,
        ((a0 & 0x03) << 4) | (0u8 >> 4) == ((b0 & 0x03) << 4) | (0u8 >> 4),
    ensures
        a0 == b0,
{
    assert((a0 >> 2 == b0 >> 2 && ((a0 & 0x03) << 4) | (0u8 >> 4) == ((b0 & 0x03) << 4) | (0u8
        >> 4)) ==> a0 == b0) by (bit_vector);
}

/// Two bytes are recovered exactly from the three 6-bit values of a padded
/// two-byte tail group.
proof fn lemma_tail2_bytes_from_vals(a0: u8, a1: u8, b0: u8, b1: u8)
    requires
        a0 >> 2 == b0 >> 2,
        ((a0 & 0x03) << 4) | (a1 >> 4) == ((b0 & 0x03) << 4) | (b1 >> 4),
        ((a1 & 0x0f) << 2) | (0u8 >> 6) == ((b1 & 0x0f) << 2) | (0u8 >> 6),
    ensures
        a0 == b0,
        a1 == b1,
{
    assert((a0 >> 2 == b0 >> 2 && ((a0 & 0x03) << 4) | (a1 >> 4) == ((b0 & 0x03) << 4) | (b1 >> 4)
        && ((a1 & 0x0f) << 2) | (0u8 >> 6) == ((b1 & 0x0f) << 2) | (0u8 >> 6)) ==> (a0 == b0 && a1
        == b1)) by (bit_vector);
}

/// The symbols a whole leading group contributes to an encoding.
proof fn lemma_encode_first_group(r: Seq<u8>)
    requires
        r.len() >= 3,
    ensures
        encode_of(r).len() >= 4,
        encode_of(r)[0] == enc0(r[0]),
        encode_of(r)[1] == enc1(r[0], r[1]),
        encode_of(r)[2] == enc2(r[1], r[2]),
        encode_of(r)[3] == enc3(r[2]),
        encode_of(r).skip(4) == encode_of(r.skip(3)),
{
    lemma_encode_len(r);
    assert(encode_of(r).skip(4) =~= encode_of(r.skip(3)));
}

/// The symbols a final partial group contributes: padding completes it.
proof fn lemma_encode_tail_shape(r: Seq<u8>)
    requires
        1 <= r.len() <= 2,
    ensures
        encode_of(r).len() == 4,
        encode_of(r)[0] == enc0(r[0]),
        r.len() == 1 ==> encode_of(r)[1] == enc1(r[0], 0) && encode_of(r)[2] == PAD && encode_of(
            r,
        )[3] == PAD,
        r.len() == 2 ==> encode_of(r)[1] == enc1(r[0], r[1]) && encode_of(r)[2] == enc2(r[1], 0)
            && encode_of(r)[3] == PAD,
{
}

/// A group-aligned byte sequence whose encoding starts a longer encoding is
/// a prefix of the longer sequence, and the leftover symbols are exactly
/// the encoding of the leftover bytes.
pub proof fn lemma_encode_prefix(a: Seq<u8>, s: Seq<u8>, b: Seq<u8>)
    requires
        a.len() % 3 == 0,
        encode_of(a) + s == encode_of(b),
    ensures
        a.len() <= b.len(),
        a == b.take(a.len() as int),
        s == encode_of(b.skip(a.len() as int)),
    decreases a.len(),
{
    lemma_encode_len(a);
    lemma_encode_len(b);
    if a.len() == 0 {
        assert(a =~= b.take(0));
        assert(b.skip(0) =~= b);
        assert(encode_of(a) + s =~= s);
    } else {
        let ea = encode_of(a);
        let eb = encode_of(b);
        assert(a.len() >= 3);
        lemma_encode_first_group(a);
        assert(forall|i: int| 0 <= i < 4 ==> #[trigger] eb[i] == ea[i]);
        lemma_enc_vals_bounded(a[0], a[1], a[2]);
        if b.len() == 1 {
            lemma_encode_tail_shape(b);
            lemma_b64_char_not_pad(((a[1] & 0x0f) << 2) | (a[2] >> 6));
            assert(false);
        } else if b.len() == 2 {
            lemma_encode_tail_shape(b);
            lemma_b64_char_not_pad(a[2] & 0x3f);
            assert(false);
        } else {
            lemma_encode_first_group(b);
            lemma_enc_vals_bounded(b[0], b[1], b[2]);
            lemma_b64_char_injective(a[0] >> 2, b[0] >> 2);
            lemma_b64_char_injective(
                ((a[0] & 0x03) << 4) | (a[1] >> 4),
                ((b[0] & 0x03) << 4) | (b[1] >> 4),
            );
            lemma_b64_char_injective(
                ((a[1] & 0x0f) << 2) | (a[2] >> 6),
                ((b[1] & 0x0f) << 2) | (b[2] >> 6),
            );
            lemma_b64_char_injective(a[2] & 0x3f, b[2] & 0x3f);
            lemma_block_bytes_from_vals(a[0], a[1], a[2], b[0], b[1], b[2]);
            assert(encode_of(a.skip(3)) + s =~= (ea + s).skip(4));
            lemma_encode_prefix(a.skip(3), s, b.skip(3));
            assert forall|i: int| 0 <= i < a.len() implies a[i] == b[i] by {
                if i >= 3 {
                    assert(a[i] == a.skip(3)[i - 3]);
                    assert(b.skip(3).take(a.len() - 3)[i - 3] == b.skip(3)[i - 3]);
                    assert(b.skip(3)[i - 3] == b[i]);
                }
            }
            assert(a =~= b.take(a.len() as int));
            assert(b.skip(3).skip(a.len() - 3) =~= b.skip(a.len() as int));
        }
    }
}

/// Distinct byte sequences have distinct encodings.
pub proof fn lemma_encode_injective(a: Seq<u8>, b: Seq<u8>)
    requires
        encode_of(a) == encode_of(b),
    ensures
        a == b,
    decreases a.len(),
{
    lemma_encode_len(a);
    lemma_encode_len(b);
    let ea = encode_of(a);
    let eb = encode_of(b);
    if a.len() == 0 {
        assert(a =~= b);
    } else if a.len() <= 2 || b.len() <= 2 {
        assert(ea.len() == 4 || eb.len() == 4);
        assert(a.len() <= 3 && b.len() <= 3);
        if a.len() <= 2 {
            lemma_encode_tail_shape(a);
        } else {
            lemma_encode_first_group(a);
        }
        if b.len() <= 2 {
            lemma_encode_tail_shape(b);
        } else {
            lemma_encode_first_group(b);
        }
        if a.len() >= 1 && a.len() <= 2 && b.len() >= 1 && b.len() <= 2 {
            lemma_enc_vals_bounded(a[0], if a.len() == 2 { a[1] } else { 0 }, 0);
            lemma_enc_vals_bounded(b[0], if b.len() == 2 { b[1] } else { 0 }, 0);
            if a.len() == 1 && b.len() == 1 {
                lemma_b64_char_injective(a[0] >> 2, b[0] >> 2);
                lemma_b64_char_injective(
                    ((a[0] & 0x03) << 4) | (0u8 >> 4),
                    ((b[0] & 0x03) << 4) | (0u8 >> 4),
                );
                lemma_tail1_bytes_from_vals(a[0], b[0]);
                assert(a =~= b);
            } else if a.len() == 2 && b.len() == 2 {
                lemma_b64_char_injective(a[0] >> 2, b[0] >> 2);
                lemma_b64_char_injective(
                    ((a[0] & 0x03) << 4) | (a[1] >> 4),
                    ((b[0] & 0x03) << 4) | (b[1] >> 4),
                );
                lemma_b64_char_injective(
                    ((a[1] & 0x0f) << 2) | (0u8 >> 6),
                    ((b[1] & 0x0f) << 2) | (0u8 >> 6),
                );
                lemma_tail2_bytes_from_vals(a[0], a[1], b[0], b[1]);
                assert(a =~= b);
            } else if a.len() == 1 {
                // eb[2] is an alphabet symbol, ea[2] is padding
                lemma_b64_char_not_pad(((b[1] & 0x0f) << 2) | (0u8 >> 6));
                assert(false);
            } else {
                lemma_b64_char_not_pad(((a[1] & 0x0f) << 2) | (0u8 >> 6));
                assert(false);
            }
        } else if a.len() == 3 {
            // b.len() is 1 or 2: the encoding of b ends in padding, that of a
            // ends in an alphabet symbol
            lemma_enc_vals_bounded(a[0], a[1], a[2]);
            if b.len() == 1 {
                lemma_b64_char_not_pad(((a[1] & 0x0f) << 2) | (a[2] >> 6));
            } else {
                lemma_b64_char_not_pad(a[2] & 0x3f);
            }
            assert(false);
        } else {
            // a.len() is 1 or 2, b.len() == 3: symmetric
            lemma_enc_vals_bounded(b[0], b[1], b[2]);
            if a.len() == 1 {
                lemma_b64_char_not_pad(((b[1] & 0x0f) << 2) | (b[2] >> 6));
            } else {
                lemma_b64_char_not_pad(b[2] & 0x3f);
            }
            assert(false);
        }
    } else {
        // both at least 3: equal first group, then induction
        lemma_encode_first_group(a);
        lemma_encode_first_group(b);
        lemma_enc_vals_bounded(a[0], a[1], a[2]);
        lemma_enc_vals_bounded(b[0], b[1], b[2]);
        lemma_b64_char_injective(a[0] >> 2, b[0] >> 2);
        lemma_b64_char_injective(
            ((a[0] & 0x03) << 4) | (a[1] >> 4),
            ((b[0] & 0x03) << 4) | (b[1] >> 4),
        );
        lemma_b64_char_injective(
            ((a[1] & 0x0f) << 2) | (a[2] >> 6),
            ((b[1] & 0x0f) << 2) | (b[2] >> 6),
        );
        lemma_b64_char_injective(a[2] & 0x3f, b[2] & 0x3f);
        lemma_block_bytes_from_vals(a[0], a[1], a[2], b[0], b[1], b[2]);
        assert(ea.skip(4) == eb.skip(4));
        lemma_encode_injective(a.skip(3), b.skip(3));
        assert forall|i: int| 0 <= i < a.len() implies a[i] == b[i] by {
            if i >= 3 {
                assert(a[i] == a.skip(3)[i - 3]);
                assert(b[i] == b.skip(3)[i - 3]);
            }
        }
        assert(a.len() == b.len());
        assert(a =~= b);
    }
}

/// Law: decoding inverts encoding. Every encoding is canonical, and decoding
/// it returns exactly the bytes that were encoded.
pub proof fn lemma_decode_of_encode_of(b: Seq<u8>)
    ensures
        canonical(encode_of(b)),
        decode_of(encode_of(b)) == b,
{
    assert(encode_of(b) == encode_of(b));
    let b2 = decode_of(encode_of(b));
    assert(encode_of(b) == encode_of(b2));
    lemma_encode_injective(b2, b);
}

/// Splitting a byte sequence at a group boundary splits its encoding at the
/// matching symbol boundary.
pub proof fn lemma_encode_take_skip(b: Seq<u8>, k: int)
    requires
        0 <= k,
        3 * k <= b.len(),
    ensures
        encode_of(b.take(3 * k)) == encode_of(b).take(4 * k),
        encode_of(b.skip(3 * k)) == encode_of(b).skip(4 * k),
{
    let hd = b.take(3 * k);
    let tl = b.skip(3 * k);
    assert(hd.len() % 3 == 0) by (nonlinear_arith)
        requires
            hd.len() == 3 * k,
            k >= 0,
    ;
    assert(hd + tl =~= b);
    lemma_encode_append(hd, tl);
    lemma_encode_len(hd);
    assert(hd.len() + 2 == 3 * k + 2);
    assert((3 * k + 2) / 3 == k) by (nonlinear_arith)
        requires
            k >= 0,
    ;
    assert(encode_of(hd).len() == 4 * k);
    assert(encode_of(b).take(4 * k) =~= encode_of(hd));
    assert(encode_of(b).skip(4 * k) =~= encode_of(tl));
}

/// A symbol-group-aligned split of a canonical stream splits it into two
/// canonical streams, encoding a matching split of the encoded bytes.
pub proof fn lemma_prefix_of_encoding(b: Seq<u8>, c: Seq<u8>, rest: Seq<u8>)
    requires
        encode_of(b) == c + rest,
        c.len() % 4 == 0,
    ensures
        canonical(c),
        canonical(rest),
        rest.len() == 0 ==> c == encode_of(b),
        rest.len() > 0 ==> 3 * (c.len() as int / 4) <= b.len() && c == encode_of(
            b.take(3 * (c.len() as int / 4)),
        ) && rest == encode_of(b.skip(3 * (c.len() as int / 4))),
{
    lemma_encode_len(b);
    if rest.len() == 0 {
        assert(c =~= encode_of(b));
        assert(rest =~= encode_of(Seq::<u8>::empty()));
    } else {
        let k = c.len() as int / 4;
        assert(c.len() == 4 * k);
        let n = b.len() as int;
        // 4k < encode_of(b).len() == 4*((n+2)/3), so k < (n+2)/3, so 3k <= n-1
        assert(4 * k < 4 * ((n + 2) / 3));
        assert(3 * k <= n - 1) by (nonlinear_arith)
            requires
                k < (n + 2) / 3,
                n >= 0,
                k >= 0,
        ;
        lemma_encode_take_skip(b, k);
        assert(c =~= encode_of(b).take(4 * k));
        assert(rest =~= encode_of(b).skip(4 * k));
    }
}

/// The concatenation of a sequence of byte-sequence segments.
pub open spec fn cat(segs: Seq<Seq<u8>>) -> Seq<u8>
    decreases segs.len(),
{
    if segs.len() == 0 {
        Seq::empty()
    } else {
        segs[0] + cat(segs.skip(1))
    }
}

/// The concatenation of the encodings of a sequence of segments: what a
/// group-wise decoder consumed when it produced those segments.
pub open spec fn cat_enc(segs: Seq<Seq<u8>>) -> Seq<u8>
    decreases segs.len(),
{
    if segs.len() == 0 {
        Seq::empty()
    } else {
        encode_of(segs[0]) + cat_enc(segs.skip(1))
    }
}

/// Concatenating segment lists concatenates both views.
pub proof fn lemma_cat_append(s1: Seq<Seq<u8>>, s2: Seq<Seq<u8>>)
    ensures
        cat(s1 + s2) == cat(s1) + cat(s2),
        cat_enc(s1 + s2) == cat_enc(s1) + cat_enc(s2),
    decreases s1.len(),
{
    if s1.len() == 0 {
        assert(s1 + s2 =~= s2);
        assert(cat(s1) + cat(s2) =~= cat(s2));
        assert(cat_enc(s1) + cat_enc(s2) =~= cat_enc(s2));
    } else {
        assert((s1 + s2).skip(1) =~= s1.skip(1) + s2);
        lemma_cat_append(s1.skip(1), s2);
        assert(cat(s1 + s2) =~= cat(s1) + cat(s2));
        assert(cat_enc(s1 + s2) =~= cat_enc(s1) + cat_enc(s2));
    }
}

/// A decoder never produces more bytes than it consumed symbols.
pub proof fn lemma_cat_len(segs: Seq<Seq<u8>>)
    ensures
        cat(segs).len() <= cat_enc(segs).len(),
    decreases segs.len(),
{
    if segs.len() > 0 {
        lemma_encode_len(segs[0]);
        lemma_cat_len(segs.skip(1));
    }
}

/// What a group-wise decoder consumes always amounts to whole groups.
pub proof fn lemma_cat_enc_aligned(segs: Seq<Seq<u8>>)
    ensures
        cat_enc(segs).len() % 4 == 0,
    decreases segs.len(),
{
    if segs.len() > 0 {
        lemma_encode_len(segs[0]);
        lemma_cat_enc_aligned(segs.skip(1));
    }
}

/// What a group-wise decoder consumed from a canonical stream is a prefix
/// of it, its segments concatenate to the encoded bytes up to there, and
/// the leftover stream is canonical in turn.
pub proof fn lemma_cat_enc_prefix(b: Seq<u8>, segs: Seq<Seq<u8>>, rest: Seq<u8>)
    requires
        encode_of(b) == cat_enc(segs) + rest,
    ensures
        cat(segs).len() <= b.len(),
        cat(segs) == b.take(cat(segs).len() as int),
        rest == encode_of(b.skip(cat(segs).len() as int)),
    decreases segs.len(),
{
    if segs.len() == 0 {
        assert(cat(segs) =~= b.take(0));
        assert(cat_enc(segs) + rest =~= rest);
        assert(b.skip(0) =~= b);
    } else {
        let v0 = segs[0];
        let tail = cat_enc(segs.skip(1)) + rest;
        assert(encode_of(b) =~= encode_of(v0) + tail);
        lemma_encode_len(v0);
        lemma_prefix_of_encoding(b, encode_of(v0), tail);
        if tail.len() == 0 {
            lemma_encode_injective(v0, b);
            assert(cat_enc(segs.skip(1)).len() == 0 && rest.len() == 0);
            assert(encode_of(Seq::<u8>::empty()) =~= Seq::<u8>::empty());
            lemma_cat_enc_prefix(Seq::<u8>::empty(), segs.skip(1), rest);
            assert(cat(segs.skip(1)) =~= Seq::<u8>::empty());
            assert(cat(segs) =~= b);
            assert(cat(segs) =~= b.take(cat(segs).len() as int));
            assert(rest =~= encode_of(b.skip(cat(segs).len() as int)));
        } else {
            let k = encode_of(v0).len() as int / 4;
            assert(encode_of(v0).len() % 4 == 0) by {
                lemma_encode_len(v0);
            }
            assert(encode_of(v0) == encode_of(b.take(3 * k)));
            lemma_encode_injective(v0, b.take(3 * k));
            let b1 = b.skip(3 * k);
            lemma_cat_enc_prefix(b1, segs.skip(1), rest);
            assert(v0.len() == 3 * k);
            assert(cat(segs) =~= v0 + cat(segs.skip(1)));
            assert(cat(segs) =~= b.take(cat(segs).len() as int)) by {
                assert(cat(segs.skip(1)) == b1.take(cat(segs.skip(1)).len() as int));
                assert forall|i: int| 0 <= i < cat(segs).len() implies (v0 + cat(segs.skip(1)))[i]
                    == b.take(cat(segs).len() as int)[i] by {
                    if i >= 3 * k {
                        assert(cat(segs.skip(1))[i - 3 * k] == b1.take(
                            cat(segs.skip(1)).len() as int,
                        )[i - 3 * k]);
                        assert(b1[i - 3 * k] == b[i]);
                    }
                }
            }
            assert(b1.skip(cat(segs.skip(1)).len() as int) =~= b.skip(cat(segs).len() as int));
        }
    }
}

/// A group-wise decoder that rejects a group-aligned chunk at the front of
/// its remaining stream has not been fed a canonical stream.
pub proof fn lemma_chunk_fails_invalid(
    stream0: Seq<u8>,
    segs: Seq<Seq<u8>>,
    cur: Seq<u8>,
    c: Seq<u8>,
)
    requires
        stream0 == cat_enc(segs) + cur,
        c == cur.take(c.len() as int),
        c.len() <= cur.len(),
        c.len() % 4 == 0,
        forall|u: Seq<u8>| c != #[trigger] encode_of(u),
    ensures
        forall|b: Seq<u8>| stream0 != #[trigger] encode_of(b),
{
    assert forall|b: Seq<u8>| stream0 != #[trigger] encode_of(b) by {
        if stream0 == encode_of(b) {
            lemma_cat_enc_prefix(b, segs, cur);
            let b1 = b.skip(cat(segs).len() as int);
            assert(cur == encode_of(b1));
            assert(encode_of(b1) =~= c + cur.skip(c.len() as int));
            lemma_prefix_of_encoding(b1, c, cur.skip(c.len() as int));
            let u = choose|u: Seq<u8>| c == #[trigger] encode_of(u);
            assert(c == encode_of(u));
            assert(false);
        }
    }
}

/// One more decoded group extends what a group-wise decoder has consumed
/// from the front of a stream.
pub proof fn lemma_cat_enc_step(total: Seq<u8>, c: int, segs: Seq<Seq<u8>>, v: Seq<u8>)
    requires
        0 <= c,
        c + encode_of(v).len() <= total.len(),
        cat_enc(segs) == total.take(c),
        encode_of(v) == total.subrange(c, c + encode_of(v).len()),
    ensures
        cat_enc(segs + seq![v]) == total.take(c + encode_of(v).len()),
        cat(segs + seq![v]) == cat(segs) + v,
    decreases 0int,
{
    lemma_cat_append(segs, seq![v]);
    assert(seq![v].skip(1) =~= Seq::<Seq<u8>>::empty());
    assert(cat_enc(Seq::<Seq<u8>>::empty()) == Seq::<u8>::empty());
    assert(cat(Seq::<Seq<u8>>::empty()) == Seq::<u8>::empty());
    assert(cat_enc(seq![v]) =~= encode_of(v));
    assert(cat(seq![v]) =~= v);
    assert(total.take(c) + total.subrange(c, c + encode_of(v).len()) =~= total.take(
        c + encode_of(v).len(),
    ));
}

/// If what remains after group-wise decoding is not canonical, the whole
/// stream was not canonical either.
pub proof fn lemma_rest_invalid(stream0: Seq<u8>, segs: Seq<Seq<u8>>, cur: Seq<u8>)
    requires
        stream0 == cat_enc(segs) + cur,
        forall|b: Seq<u8>| cur != #[trigger] encode_of(b),
    ensures
        forall|b: Seq<u8>| stream0 != #[trigger] encode_of(b),
{
    assert forall|b: Seq<u8>| stream0 != #[trigger] encode_of(b) by {
        if stream0 == encode_of(b) {
            lemma_cat_enc_prefix(b, segs, cur);
            assert(cur == encode_of(b.skip(cat(segs).len() as int)));
        }
    }
}

/// Law: delivering a stream through successive bounded reads is independent
/// of the destination sizes — the bytes of two consecutive reads of `a` and
/// then `b` bytes concatenate to the bytes of one read of `a + b`, and leave
/// the same stream pending.
pub proof fn lemma_reads_concatenate(p: Seq<u8>, a: int, b: int)
    requires
        0 <= a,
        0 <= b,
        a + b <= p.len(),
    ensures
        p.take(a) + p.skip(a).take(b) == p.take(a + b),
        p.skip(a).skip(b) == p.skip(a + b),
{
    assert(p.take(a) + p.skip(a).take(b) =~= p.take(a + b));
    assert(p.skip(a).skip(b) =~= p.skip(a + b));
}

/// Relies on `Engine::encode` of the `base64` crate's `STANDARD` engine:
/// the standard alphabet with canonical `=` padding, as `encode_of` states.
#[verifier::external_body]
pub(crate) fn b64_encode(raw: &[u8]) -> (r: Vec<u8>)
    ensures
        r@ == encode_of(raw@),
{
    base64::engine::general_purpose::STANDARD.encode(raw).into_bytes()
}

/// Relies on `Engine::decode` of the `base64` crate's `STANDARD` engine: it
/// succeeds exactly on canonical streams (standard alphabet, required `=`
/// padding, zero trailing bits) and returns the bytes they encode.
#[verifier::external_body]
pub(crate) fn b64_decode(sym: &[u8]) -> (r: Result<Vec<u8>, DecodeError>)
    ensures
        match r {
            Ok(v) => sym@ == encode_of(v@),
            Err(_) => forall|b: Seq<u8>| sym@ != #[trigger] encode_of(b),
        },
{
    match base64::engine::general_purpose::STANDARD.decode(sym) {
        Ok(v) => Ok(v),
        Err(base64::DecodeError::InvalidByte(i, byte)) => Err(DecodeError::InvalidByte(i, byte)),
        Err(base64::DecodeError::InvalidLength(l)) => Err(DecodeError::InvalidLength(l)),
        Err(base64::DecodeError::InvalidLastSymbol { offset, symbol, symbol_value }) => Err(
            DecodeError::InvalidLastSymbol(offset, symbol, symbol_value),
        ),
        Err(base64::DecodeError::InvalidPadding) => Err(DecodeError::InvalidPadding),
    }
}

} // verus!
