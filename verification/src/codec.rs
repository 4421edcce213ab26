//! A deterministic byte codec for vector clocks.
//!
//! A clock is written as its dots in ascending actor order, each dot as
//! two little-endian `u64` words (actor, then counter). Equal clocks
//! therefore produce bit-identical encodings, and decoding checks the
//! canonical form, so `from_binary(to_binary(v))` gives back exactly
//! `v`. Malformed input is reported as a [`DecodeError`], never a
//! panic.

use vstd::prelude::*;

use crate::dot::Dot;
use crate::vclock::{positive, sorted, VClock};

verus! {

/// Why a byte string failed to decode.
#[derive(Clone, Copy, Debug, PartialEq, Eq, Structural)]
pub enum DecodeError {
    /// The input length is not a whole number of 16-byte dots.
    Truncated,
    /// A dot carried counter 0, which a clock never stores.
    ZeroCounter,
    /// Actors were not in strictly ascending order.
    OutOfOrder,
}

/// The eight little-endian bytes of `x`.
pub open spec fn u64_le(x: u64) -> Seq<u8> {
    seq![
        (x & 0xff) as u8,
        ((x >> 8) & 0xff) as u8,
        ((x >> 16) & 0xff) as u8,
        ((x >> 24) & 0xff) as u8,
        ((x >> 32) & 0xff) as u8,
        ((x >> 40) & 0xff) as u8,
        ((x >> 48) & 0xff) as u8,
        ((x >> 56) & 0xff) as u8,
    ]
}

/// The `u64` read from eight little-endian bytes.
pub open spec fn u64_from(b: Seq<u8>) -> u64
    recommends
        b.len() == 8,
{
    ((b[0] as u64) | ((b[1] as u64) << 8) | ((b[2] as u64) << 16) | ((b[3] as u64) << 24) | (
    (b[4] as u64) << 32) | ((b[5] as u64) << 40) | ((b[6] as u64) << 48) | ((b[7] as u64) << 56))
}

/// The encoding of a sequence of dots: 16 bytes each, in order.
pub open spec fn encode_dots(s: Seq<Dot>) -> Seq<u8>
    decreases s.len(),
{
    if s.len() == 0 {
        Seq::empty()
    } else {
        u64_le(s[0].actor) + u64_le(s[0].counter) + encode_dots(s.drop_first())
    }
}

/// The canonical encoding of a clock.
pub open spec fn spec_encode(v: VClock) -> Seq<u8> {
    encode_dots(v@)
}

/// The dots a byte string decodes to, or the error it is rejected
/// with. Scans left to right: length, then the dot's counter, then the
/// order against the following dot.
pub open spec fn spec_decode(b: Seq<u8>) -> Result<Seq<Dot>, DecodeError>
    decreases b.len(),
{
    if b.len() == 0 {
        Ok(Seq::empty())
    } else if b.len() < 16 {
        Err(DecodeError::Truncated)
    } else {
        let d = Dot {
            actor: u64_from(b.subrange(0, 8)),
            counter: u64_from(b.subrange(8, 16)),
        };
        if d.counter == 0 {
            Err(DecodeError::ZeroCounter)
        } else if b.len() >= 32 && u64_from(b.subrange(16, 24)) <= d.actor {
            Err(DecodeError::OutOfOrder)
        } else {
            match spec_decode(b.skip(16)) {
                Err(e) => Err(e),
                Ok(rest) => Ok(seq![d] + rest),
            }
        }
    }
}

proof fn lemma_u64_roundtrip(x: u64)
    ensures
        u64_from(u64_le(x)) == x,
{
    assert((((x & 0xff) as u8) as u64) | ((((x >> 8) & 0xff) as u8) as u64) << 8 | ((((x >> 16)
        & 0xff) as u8) as u64) << 16 | ((((x >> 24) & 0xff) as u8) as u64) << 24 | ((((x >> 32)
        & 0xff) as u8) as u64) << 32 | ((((x >> 40) & 0xff) as u8) as u64) << 40 | ((((x >> 48)
        & 0xff) as u8) as u64) << 48 | ((((x >> 56) & 0xff) as u8) as u64) << 56 == x)
        by (bit_vector);
}

proof fn lemma_encode_len(s: Seq<Dot>)
    ensures
        encode_dots(s).len() == 16 * s.len(),
    decreases s.len(),
{
    if s.len() > 0 {
        lemma_encode_len(s.drop_first());
    }
}

proof fn lemma_encode_push(s: Seq<Dot>, d: Dot)
    ensures
        encode_dots(s.push(d)) == encode_dots(s) + u64_le(d.actor) + u64_le(d.counter),
    decreases s.len(),
{
    if s.len() == 0 {
        assert(s.push(d)[0] == d);
        assert(s.push(d).drop_first() =~= Seq::<Dot>::empty());
        assert(encode_dots(Seq::<Dot>::empty()) == Seq::<u8>::empty());
        assert(encode_dots(s.push(d)) == u64_le(d.actor) + u64_le(d.counter) + Seq::<u8>::empty());
        assert(encode_dots(s) == Seq::<u8>::empty());
        assert(encode_dots(s.push(d)) =~= encode_dots(s) + u64_le(d.actor) + u64_le(d.counter));
    } else {
        assert(s.push(d).drop_first() =~= s.drop_first().push(d));
        lemma_encode_push(s.drop_first(), d);
        assert(s.push(d)[0] == s[0]);
        assert(encode_dots(s.push(d)) == u64_le(s[0].actor) + u64_le(s[0].counter) + (encode_dots(
            s.drop_first(),
        ) + u64_le(d.actor) + u64_le(d.counter)));
        assert(encode_dots(s.push(d)) =~= encode_dots(s) + u64_le(d.actor) + u64_le(d.counter));
    }
}

fn push_u64(out: &mut Vec<u8>, x: u64)
    ensures
        final(out)@ == old(out)@ + u64_le(x),
{
    assert(x & 0xff < 256 && (x >> 8) & 0xff < 256 && (x >> 16) & 0xff < 256 && (x >> 24) & 0xff
        < 256 && (x >> 32) & 0xff < 256 && (x >> 40) & 0xff < 256 && (x >> 48) & 0xff < 256 && (x
        >> 56) & 0xff < 256) by (bit_vector);
    out.push((x & 0xff) as u8);
    out.push(((x >> 8) & 0xff) as u8);
    out.push(((x >> 16) & 0xff) as u8);
    out.push(((x >> 24) & 0xff) as u8);
    out.push(((x >> 32) & 0xff) as u8);
    out.push(((x >> 40) & 0xff) as u8);
    out.push(((x >> 48) & 0xff) as u8);
    out.push(((x >> 56) & 0xff) as u8);
    proof {
        assert(out@ =~= old(out)@ + u64_le(x));
    }
}

fn read_u64(b: &Vec<u8>, off: usize) -> (r: u64)
    requires
        off + 8 <= b@.len(),
    ensures
        r == u64_from(b@.subrange(off as int, off as int + 8)),
{
    let l = b.len();
    let r = (b[off] as u64) | ((b[off + 1] as u64) << 8) | ((b[off + 2] as u64) << 16) | ((b[off
        + 3] as u64) << 24) | ((b[off + 4] as u64) << 32) | ((b[off + 5] as u64) << 40) | ((b[off
        + 6] as u64) << 48) | ((b[off + 7] as u64) << 56);
    proof {
        let s = b@.subrange(off as int, off as int + 8);
        assert(s[0] == b@[off as int] && s[1] == b@[off as int + 1] && s[2] == b@[off as int + 2]
            && s[3] == b@[off as int + 3] && s[4] == b@[off as int + 4] && s[5] == b@[off as int
            + 5] && s[6] == b@[off as int + 6] && s[7] == b@[off as int + 7]);
    }
    r
}

/// Encode a clock to bytes: its dots in ascending actor order, each as
/// two little-endian `u64` words. Deterministic: equal clocks give
/// bit-identical bytes.
pub fn to_binary(clock: &VClock) -> (r: Vec<u8>)
    requires
        clock.wf(),
    ensures
        r@ == spec_encode(*clock),
{
    let dots = clock.iter();
    let mut out: Vec<u8> = Vec::new();
    let n = dots.len();
    let mut i: usize = 0;
    while i < n
        invariant
            i <= n,
            n == dots@.len(),
            dots@ == clock@,
            out@ == encode_dots(clock@.take(i as int)),
        decreases n - i,
    {
        let d = dots[i];
        push_u64(&mut out, d.actor);
        push_u64(&mut out, d.counter);
        proof {
            assert(clock@.take(i as int + 1) =~= clock@.take(i as int).push(d));
            lemma_encode_push(clock@.take(i as int), d);
        }
        i += 1;
    }
    proof {
        assert(clock@.take(n as int) =~= clock@);
    }
    out
}

/// Decode a clock from bytes, checking the canonical form: whole
/// 16-byte dots, no zero counters, actors strictly ascending. Returns
/// exactly what [`spec_decode`] says, an error on every malformed
/// input.
pub fn from_binary(encoded: Vec<u8>) -> (r: Result<VClock, DecodeError>)
    ensures
        match r {
            Ok(c) => c.wf() && spec_decode(encoded@) == Ok::<Seq<Dot>, DecodeError>(c@),
            Err(e) => spec_decode(encoded@) == Err::<Seq<Dot>, DecodeError>(e),
        },
{
    let n = encoded.len();
    let mut dots: Vec<Dot> = Vec::new();
    let mut i: usize = 0;
    proof {
        assert(encoded@.skip(0) =~= encoded@);
        if let Ok(rest) = spec_decode(encoded@) {
            assert(Seq::<Dot>::empty() + rest =~= rest);
        }
    }
    while i < n
        invariant
            i <= n,
            n == encoded@.len(),
            sorted(dots@),
            positive(dots@),
            spec_decode(encoded@) == match spec_decode(encoded@.skip(i as int)) {
                Err(e) => Err::<Seq<Dot>, DecodeError>(e),
                Ok(rest) => Ok::<Seq<Dot>, DecodeError>(dots@ + rest),
            },
            dots@.len() > 0 && n - i >= 16 ==> u64_from(
                encoded@.subrange(i as int, i as int + 8),
            ) > dots@.last().actor,
        decreases n - i,
    {
        let ghost rem = encoded@.skip(i as int);
        proof {
            assert(forall|k: int| 0 <= k < rem.len() ==> rem[k] == encoded@[i + k]);
        }
        if n - i < 16 {
            proof {
                assert(rem.len() == n - i);
            }
            return Err(DecodeError::Truncated);
        }
        let actor = read_u64(&encoded, i);
        let counter = read_u64(&encoded, i + 8);
        proof {
            assert(rem.subrange(0, 8) =~= encoded@.subrange(i as int, i as int + 8));
            assert(rem.subrange(8, 16) =~= encoded@.subrange(i as int + 8, i as int + 16));
        }
        if counter == 0 {
            return Err(DecodeError::ZeroCounter);
        }
        if n - i >= 32 {
            let next_actor = read_u64(&encoded, i + 16);
            proof {
                assert(rem.subrange(16, 24) =~= encoded@.subrange(i as int + 16, i as int + 24));
            }
            if next_actor <= actor {
                return Err(DecodeError::OutOfOrder);
            }
        }
        let d = Dot::new(actor, counter);
        let ghost dots0 = dots@;
        dots.push(d);
        proof {
            assert(rem.skip(16) =~= encoded@.skip(i as int + 16));
            assert forall|x: int, y: int| 0 <= x < y < dots@.len() implies dots@[x].actor
                < dots@[y].actor by {
                if y == dots@.len() - 1 {
                    assert(dots@[x] == dots0[x]);
                    if x < dots0.len() - 1 {
                        assert(dots0[x].actor < dots0[dots0.len() - 1].actor);
                    }
                }
            }
            assert(spec_decode(rem) == match spec_decode(rem.skip(16)) {
                Err(e) => Err::<Seq<Dot>, DecodeError>(e),
                Ok(rest) => Ok::<Seq<Dot>, DecodeError>(seq![d] + rest),
            });
            if let Ok(rest) = spec_decode(encoded@.skip(i as int + 16)) {
                assert(dots@ + rest =~= dots0 + (seq![d] + rest));
            }
        }
        i += 16;
    }
    proof {
        assert(encoded@.skip(n as int) =~= Seq::<u8>::empty());
        assert(spec_decode(encoded@.skip(n as int)) == Ok::<Seq<Dot>, DecodeError>(
            Seq::<Dot>::empty(),
        ));
        assert(dots@ + Seq::<Dot>::empty() =~= dots@);
    }
    Ok(VClock::from_entries(dots))
}

proof fn lemma_decode_encode(s: Seq<Dot>)
    requires
        sorted(s),
        positive(s),
    ensures
        spec_decode(encode_dots(s)) == Ok::<Seq<Dot>, DecodeError>(s),
    decreases s.len(),
{
    if s.len() == 0 {
        assert(encode_dots(s).len() == 0);
        assert(spec_decode(encode_dots(s)) == Ok::<Seq<Dot>, DecodeError>(Seq::<Dot>::empty()));
        assert(s =~= Seq::<Dot>::empty());
    } else {
        let b = encode_dots(s);
        let t = s.drop_first();
        lemma_encode_len(s);
        lemma_encode_len(t);
        assert(forall|k: int| 0 <= k < t.len() ==> t[k] == s[k + 1]);
        assert(sorted(t) && positive(t));
        assert(b == u64_le(s[0].actor) + u64_le(s[0].counter) + encode_dots(t));
        assert(b.len() == 16 + 16 * t.len());
        assert(b.subrange(0, 8) =~= u64_le(s[0].actor));
        assert(b.subrange(8, 16) =~= u64_le(s[0].counter));
        lemma_u64_roundtrip(s[0].actor);
        lemma_u64_roundtrip(s[0].counter);
        assert(b.skip(16) =~= encode_dots(t));
        if b.len() >= 32 {
            assert(t.len() >= 1);
            assert(encode_dots(t) == u64_le(t[0].actor) + u64_le(t[0].counter) + encode_dots(
                t.drop_first(),
            ));
            assert(b.subrange(16, 24) =~= u64_le(t[0].actor));
            lemma_u64_roundtrip(t[0].actor);
            assert(t[0].actor > s[0].actor);
        }
        lemma_decode_encode(t);
        assert(seq![s[0]] + t =~= s);
    }
}

/// Round trip: decoding the encoding of any well-formed clock yields
/// exactly that clock's dots, with no error.
pub proof fn lemma_round_trip(v: VClock)
    requires
        v.wf(),
    ensures
        spec_decode(spec_encode(v)) == Ok::<Seq<Dot>, DecodeError>(v@),
{
    lemma_decode_encode(v@);
}

} // verus!
