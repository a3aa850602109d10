//! The persistence codec: the routing model serialized to bytes and
//! back.  Every number is a little-endian 64-bit field (gains are
//! offset into the unsigned range first), booleans are one byte, and
//! strings are a byte count followed by UTF-8.  Decoding is lenient
//! towards state saved by an older build: when the bytes end cleanly at
//! a top-level field boundary, the remaining fields take their default
//! values.

use vstd::prelude::*;
use vstd::utf8::encode_utf8;
use crate::state::{
    AppState, AppStateView, EnumIndex, MixerDestination, MixerEntry, MixerOutput, MixerEntryView,
    MixerOutputView,
};

verus! {

/// `enc` is the content of `bytes` starting at `pos`.
pub open spec fn holds_at(bytes: Seq<u8>, pos: int, enc: Seq<u8>) -> bool {
    &&& 0 <= pos
    &&& pos + enc.len() <= bytes.len()
    &&& bytes.subrange(pos, pos + enc.len()) == enc
}

/// Splitting a match of a concatenation into matches of its halves.
pub proof fn lemma_holds_at_concat(bytes: Seq<u8>, pos: int, a: Seq<u8>, b: Seq<u8>)
    requires
        holds_at(bytes, pos, a + b),
    ensures
        holds_at(bytes, pos, a),
        holds_at(bytes, pos + a.len(), b),
{
    let ab = a + b;
    assert(bytes.subrange(pos, pos + a.len()) =~= ab.subrange(0, a.len() as int));
    assert(ab.subrange(0, a.len() as int) =~= a);
    assert(bytes.subrange(pos + a.len(), pos + ab.len()) =~= ab.subrange(
        a.len() as int,
        ab.len() as int,
    ));
    assert(ab.subrange(a.len() as int, ab.len() as int) =~= b);
}

/// A 64-bit number as eight little-endian bytes.
pub open spec fn enc_u64(x: u64) -> Seq<u8> {
    seq![
        (x & 0xff) as u8,
        ((x >> 8) & 0xff) as u8,
        ((x >> 16) & 0xff) as u8,
        ((x >> 24) & 0xff) as u8,
        ((x >> 32) & 0xff) as u8,
        ((x >> 40) & 0xff) as u8,
        ((x >> 48) & 0xff) as u8,
        ((x >> 56) & 0xff) as u8,
    ]
}

/// A boolean as one byte, 0 or 1.
pub open spec fn enc_bool(b: bool) -> Seq<u8> {
    seq![
        if b {
            1u8
        } else {
            0u8
        },
    ]
}

/// A gain, offset into the unsigned range and stored like any other
/// number.
pub open spec fn enc_i32(g: i32) -> Seq<u8> {
    enc_u64((g as int + 0x8000_0000) as u64)
}

fn push_u64(out: &mut Vec<u8>, x: u64)
    ensures
        final(out)@ == old(out)@ + enc_u64(x),
{
    proof {
        assert((x & 0xff) < 256 && ((x >> 8) & 0xff) < 256 && ((x >> 16) & 0xff) < 256 && ((x
            >> 24) & 0xff) < 256 && ((x >> 32) & 0xff) < 256 && ((x >> 40) & 0xff) < 256 && ((x
            >> 48) & 0xff) < 256 && ((x >> 56) & 0xff) < 256) by (bit_vector);
    }
    out.push((x & 0xff) as u8);
    out.push(((x >> 8) & 0xff) as u8);
    out.push(((x >> 16) & 0xff) as u8);
    out.push(((x >> 24) & 0xff) as u8);
    out.push(((x >> 32) & 0xff) as u8);
    out.push(((x >> 40) & 0xff) as u8);
    out.push(((x >> 48) & 0xff) as u8);
    out.push(((x >> 56) & 0xff) as u8);
    proof {
        assert(final(out)@ =~= old(out)@ + enc_u64(x));
    }
}

fn push_bool(out: &mut Vec<u8>, b: bool)
    ensures
        final(out)@ == old(out)@ + enc_bool(b),
{
    out.push(
        if b {
            1u8
        } else {
            0u8
        },
    );
    proof {
        assert(final(out)@ =~= old(out)@ + enc_bool(b));
    }
}

fn push_i32(out: &mut Vec<u8>, g: i32)
    ensures
        final(out)@ == old(out)@ + enc_i32(g),
{
    let off: u64 = (g as i64 + 0x8000_0000i64) as u64;
    proof {
        assert(off == (g as int + 0x8000_0000) as u64);
    }
    push_u64(out, off);
}

fn dec_u64(bytes: &Vec<u8>, pos: &mut usize) -> (r: Option<u64>)
    ensures
        forall|v: u64|
            holds_at(bytes@, *old(pos) as int, #[trigger] enc_u64(v)) ==> r == Some(v) && *final(pos)
                == *old(pos) + 8,
        r matches Some(x) ==> *old(pos) + 8 <= bytes@.len() && *final(pos) == *old(pos) + 8
            && bytes@.subrange(*old(pos) as int, *old(pos) + 8) == enc_u64(x),
        r is None ==> *final(pos) == *old(pos),
{
    let p = *pos;
    if p > bytes.len() || bytes.len() - p < 8 {
        return None;
    }
    let b0 = bytes[p];
    let b1 = bytes[p + 1];
    let b2 = bytes[p + 2];
    let b3 = bytes[p + 3];
    let b4 = bytes[p + 4];
    let b5 = bytes[p + 5];
    let b6 = bytes[p + 6];
    let b7 = bytes[p + 7];
    let x: u64 = (b0 as u64) | ((b1 as u64) << 8) | ((b2 as u64) << 16) | ((b3 as u64) << 24) | (
    (b4 as u64) << 32) | ((b5 as u64) << 40) | ((b6 as u64) << 48) | ((b7 as u64) << 56);
    *pos = p + 8;
    proof {
        assert forall|v: u64| holds_at(bytes@, p as int, #[trigger] enc_u64(v)) implies x == v by {
            assert(bytes@.subrange(p as int, p + 8)[0] == b0);
            assert(bytes@.subrange(p as int, p + 8)[1] == b1);
            assert(bytes@.subrange(p as int, p + 8)[2] == b2);
            assert(bytes@.subrange(p as int, p + 8)[3] == b3);
            assert(bytes@.subrange(p as int, p + 8)[4] == b4);
            assert(bytes@.subrange(p as int, p + 8)[5] == b5);
            assert(bytes@.subrange(p as int, p + 8)[6] == b6);
            assert(bytes@.subrange(p as int, p + 8)[7] == b7);
            assert(b0 == (v & 0xff) as u8 && b1 == ((v >> 8) & 0xff) as u8 && b2 == ((v >> 16)
                & 0xff) as u8 && b3 == ((v >> 24) & 0xff) as u8 && b4 == ((v >> 32) & 0xff) as u8
                && b5 == ((v >> 40) & 0xff) as u8 && b6 == ((v >> 48) & 0xff) as u8 && b7 == ((v
                >> 56) & 0xff) as u8);
            assert((b0 == (v & 0xff) as u8 && b1 == ((v >> 8) & 0xff) as u8 && b2 == ((v >> 16)
                & 0xff) as u8 && b3 == ((v >> 24) & 0xff) as u8 && b4 == ((v >> 32) & 0xff) as u8
                && b5 == ((v >> 40) & 0xff) as u8 && b6 == ((v >> 48) & 0xff) as u8 && b7 == ((v
                >> 56) & 0xff) as u8) ==> ((b0 as u64) | ((b1 as u64) << 8) | ((b2 as u64) << 16)
                | ((b3 as u64) << 24) | ((b4 as u64) << 32) | ((b5 as u64) << 40) | ((b6 as u64)
                << 48) | ((b7 as u64) << 56)) == v) by (bit_vector);
        }
        assert(bytes@.subrange(p as int, p + 8) =~= enc_u64(x)) by {
            assert((x == ((b0 as u64) | ((b1 as u64) << 8) | ((b2 as u64) << 16) | ((b3 as u64)
                << 24) | ((b4 as u64) << 32) | ((b5 as u64) << 40) | ((b6 as u64) << 48) | ((
            b7 as u64) << 56))) ==> (b0 == (x & 0xff) as u8 && b1 == ((x >> 8) & 0xff) as u8 && b2
                == ((x >> 16) & 0xff) as u8 && b3 == ((x >> 24) & 0xff) as u8 && b4 == ((x >> 32)
                & 0xff) as u8 && b5 == ((x >> 40) & 0xff) as u8 && b6 == ((x >> 48) & 0xff) as u8
                && b7 == ((x >> 56) & 0xff) as u8)) by (bit_vector);
        }
    }
    Some(x)
}

fn dec_bool(bytes: &Vec<u8>, pos: &mut usize) -> (r: Option<bool>)
    ensures
        forall|v: bool|
            holds_at(bytes@, *old(pos) as int, #[trigger] enc_bool(v)) ==> r == Some(v) && *final(pos)
                == *old(pos) + 1,
        r is Some ==> *old(pos) + 1 <= bytes@.len() && *final(pos) == *old(pos) + 1,
        r is None ==> *final(pos) == *old(pos),
{
    let p = *pos;
    if p >= bytes.len() {
        return None;
    }
    let b = bytes[p];
    proof {
        assert forall|v: bool| holds_at(bytes@, p as int, #[trigger] enc_bool(v)) implies b == (
        if v {
            1u8
        } else {
            0u8
        }) by {
            assert(bytes@.subrange(p as int, p + 1)[0] == b);
        }
    }
    if b == 0 {
        *pos = p + 1;
        Some(false)
    } else if b == 1 {
        *pos = p + 1;
        Some(true)
    } else {
        None
    }
}

fn dec_i32(bytes: &Vec<u8>, pos: &mut usize) -> (r: Option<i32>)
    ensures
        forall|v: i32|
            holds_at(bytes@, *old(pos) as int, #[trigger] enc_i32(v)) ==> r == Some(v) && *final(pos)
                == *old(pos) + 8,
        r is Some ==> *final(pos) == *old(pos) + 8,
        r is None ==> *final(pos) == *old(pos),
{
    let p = *pos;
    let x = match dec_u64(bytes, pos) {
        Some(x) => x,
        None => {
            return None;
        },
    };
    if x >= 0x1_0000_0000u64 {
        *pos = p;
        return None;
    }
    let g: i32 = (x as i64 - 0x8000_0000i64) as i32;
    proof {
        assert forall|v: i32| holds_at(bytes@, p as int, #[trigger] enc_i32(v)) implies g == v by {
            assert(x == (v as int + 0x8000_0000) as u64);
        }
    }
    Some(g)
}

/// A string as a byte count followed by its UTF-8 bytes.
pub open spec fn enc_string(s: Seq<char>) -> Seq<u8> {
    enc_u64(encode_utf8(s).len() as u64) + encode_utf8(s)
}

fn push_string(out: &mut Vec<u8>, s: &String)
    ensures
        final(out)@ == old(out)@ + enc_string(s@),
{
    let mut bs = s.as_str().as_bytes_vec();
    push_u64(out, bs.len() as u64);
    out.append(&mut bs);
    proof {
        assert(out@ =~= old(out)@ + enc_string(s@));
    }
}

/// Relies on `String::from_utf8`: it succeeds exactly on valid UTF-8
/// input, and the returned string's UTF-8 content is the input bytes.
#[verifier::external_body]
fn string_from_utf8(v: Vec<u8>) -> (r: Option<String>)
    ensures
        r matches Some(s) ==> encode_utf8(s@) == v@,
        vstd::utf8::valid_utf8(v@) ==> r is Some,
{
    String::from_utf8(v).ok()
}

fn dec_string(bytes: &Vec<u8>, pos: &mut usize) -> (r: Option<String>)
    ensures
        forall|v: Seq<char>|
            holds_at(bytes@, *old(pos) as int, #[trigger] enc_string(v)) ==> (r matches Some(s)
                && s@ == v && *final(pos) == *old(pos) + enc_string(v).len()),
        r matches Some(s) ==> holds_at(bytes@, *old(pos) as int, enc_string(s@)) && *final(pos)
            == *old(pos) + enc_string(s@).len(),
{
    let bl = bytes.len();
    let p0 = *pos;
    let n = match dec_u64(bytes, pos) {
        Some(n) => n,
        None => {
            proof {
                assert forall|v: Seq<char>|
                    holds_at(bytes@, p0 as int, #[trigger] enc_string(v)) implies false by {
                    lemma_holds_at_concat(
                        bytes@,
                        p0 as int,
                        enc_u64(encode_utf8(v).len() as u64),
                        encode_utf8(v),
                    );
                }
            }
            return None;
        },
    };
    if n > usize::MAX as u64 {
        proof {
            assert forall|v: Seq<char>|
                holds_at(bytes@, p0 as int, #[trigger] enc_string(v)) implies false by {
                lemma_holds_at_concat(
                    bytes@,
                    p0 as int,
                    enc_u64(encode_utf8(v).len() as u64),
                    encode_utf8(v),
                );
                assert(n == encode_utf8(v).len() as u64);
                assert(encode_utf8(v).len() <= bytes@.len());
                assert(bytes@.len() == bl);
            }
        }
        return None;
    }
    let len = n as usize;
    let p1 = *pos;
    if p1 > bytes.len() || bytes.len() - p1 < len {
        proof {
            assert forall|v: Seq<char>|
                holds_at(bytes@, p0 as int, #[trigger] enc_string(v)) implies false by {
                lemma_holds_at_concat(
                    bytes@,
                    p0 as int,
                    enc_u64(encode_utf8(v).len() as u64),
                    encode_utf8(v),
                );
            }
        }
        return None;
    }
    let mut buf: Vec<u8> = Vec::new();
    let mut i: usize = 0;
    while i < len
        invariant
            p1 + len <= bytes@.len(),
            bytes@.len() <= usize::MAX,
            i <= len,
            buf@ =~= bytes@.subrange(p1 as int, p1 + i),
        decreases len - i,
    {
        buf.push(bytes[p1 + i]);
        proof {
            assert(buf@ =~= bytes@.subrange(p1 as int, p1 + i + 1));
        }
        i = i + 1;
    }
    *pos = p1 + len;
    let ghost bufv = buf@;
    match string_from_utf8(buf) {
        Some(s) => {
            proof {
                vstd::utf8::encode_utf8_decode_utf8(s@);
                assert forall|v: Seq<char>|
                    holds_at(bytes@, p0 as int, #[trigger] enc_string(v)) implies s@ == v
                    && p1 + len == p0 + enc_string(v).len() by {
                    lemma_holds_at_concat(
                        bytes@,
                        p0 as int,
                        enc_u64(encode_utf8(v).len() as u64),
                        encode_utf8(v),
                    );
                    assert(n == encode_utf8(v).len() as u64);
                    assert(bufv =~= encode_utf8(v));
                    assert(encode_utf8(s@) =~= encode_utf8(v));
                    vstd::utf8::encode_utf8_decode_utf8(v);
                }
                assert(holds_at(bytes@, p0 as int, enc_string(s@))) by {
                    assert(encode_utf8(s@).len() == len);
                    assert(bytes@.subrange(p0 as int, p0 + 8) == enc_u64(n));
                    assert(enc_u64((encode_utf8(s@).len()) as u64) == enc_u64(n));
                    assert(bytes@.subrange(p1 as int, p1 + len) =~= encode_utf8(s@));
                    assert(bytes@.subrange(p0 as int, p0 + enc_string(s@).len()) =~= enc_u64(n)
                        + encode_utf8(s@));
                }
            }
            Some(s)
        },
        None => {
            proof {
                assert forall|v: Seq<char>|
                    holds_at(bytes@, p0 as int, #[trigger] enc_string(v)) implies false by {
                    lemma_holds_at_concat(
                        bytes@,
                        p0 as int,
                        enc_u64(encode_utf8(v).len() as u64),
                        encode_utf8(v),
                    );
                    assert(n == encode_utf8(v).len() as u64);
                    assert(bufv =~= encode_utf8(v));
                    vstd::utf8::encode_utf8_valid_utf8(v);
                }
            }
            None
        },
    }
}

/// A capture selection: a tag byte, then the index when assigned.
pub open spec fn enc_opt_idx(c: Option<EnumIndex>) -> Seq<u8> {
    match c {
        None => enc_bool(false),
        Some(s) => enc_bool(true) + enc_u64(s as u64),
    }
}

/// One destination: arity, the two bus indices, the split flag and the
/// gain.
pub open spec fn enc_dest(d: MixerDestination) -> Seq<u8> {
    enc_bool(d.stereo) + enc_u64(d.dest as u64) + enc_u64(d.dest_r as u64) + enc_bool(d.split)
        + enc_i32(d.gain)
}

/// A list element by element; the count travels separately, in front.
pub open spec fn enc_list<T>(s: Seq<T>, f: spec_fn(T) -> Seq<u8>) -> Seq<u8>
    decreases s.len(),
{
    if s.len() == 0 {
        Seq::empty()
    } else {
        f(s[0]) + enc_list(s.drop_first(), f)
    }
}

/// Appending an element extends the encoding at the back.
pub proof fn lemma_enc_list_push<T>(s: Seq<T>, f: spec_fn(T) -> Seq<u8>, x: T)
    ensures
        enc_list(s.push(x), f) == enc_list(s, f) + f(x),
    decreases s.len(),
{
    if s.len() == 0 {
        assert(s.push(x)[0] == x);
        assert(s.push(x).len() == 1);
        assert(s.push(x).drop_first() =~= Seq::<T>::empty());
        assert(enc_list(s.push(x), f) == f(x) + enc_list(s.push(x).drop_first(), f));
        assert(enc_list(Seq::<T>::empty(), f) == Seq::<u8>::empty());
        assert(enc_list(s, f) == Seq::<u8>::empty());
        assert(enc_list(s.push(x), f) =~= enc_list(s, f) + f(x));
    } else {
        assert(s.push(x).drop_first() =~= s.drop_first().push(x));
        lemma_enc_list_push(s.drop_first(), f, x);
        assert(s.push(x)[0] == s[0]);
        assert(enc_list(s.push(x), f) == f(s[0]) + enc_list(s.drop_first().push(x), f));
        assert(enc_list(s.drop_first().push(x), f) == enc_list(s.drop_first(), f) + f(x));
        assert(enc_list(s, f) == f(s[0]) + enc_list(s.drop_first(), f));
        assert(enc_list(s.push(x), f) =~= enc_list(s, f) + f(x));
    }
}

fn push_opt_idx(out: &mut Vec<u8>, c: Option<EnumIndex>)
    ensures
        final(out)@ == old(out)@ + enc_opt_idx(c),
{
    match c {
        None => {
            push_bool(out, false);
        },
        Some(s) => {
            push_bool(out, true);
            push_u64(out, s as u64);
            proof {
                assert(out@ =~= old(out)@ + enc_opt_idx(c));
            }
        },
    }
}

fn push_dest(out: &mut Vec<u8>, d: &MixerDestination)
    ensures
        final(out)@ == old(out)@ + enc_dest(*d),
{
    push_bool(out, d.stereo);
    push_u64(out, d.dest as u64);
    push_u64(out, d.dest_r as u64);
    push_bool(out, d.split);
    push_i32(out, d.gain);
    proof {
        assert(out@ =~= old(out)@ + enc_dest(*d));
    }
}

fn dec_opt_idx(bytes: &Vec<u8>, pos: &mut usize) -> (r: Option<Option<EnumIndex>>)
    ensures
        forall|v: Option<EnumIndex>|
            holds_at(bytes@, *old(pos) as int, #[trigger] enc_opt_idx(v)) ==> r == Some(v)
                && *final(pos) == *old(pos) + enc_opt_idx(v).len(),
{
    let p0 = *pos;
    proof {
        assert forall|v: Option<EnumIndex>|
            holds_at(bytes@, p0 as int, #[trigger] enc_opt_idx(v)) implies (match v {
            None => holds_at(bytes@, p0 as int, enc_bool(false)),
            Some(s) => holds_at(bytes@, p0 as int, enc_bool(true)) && holds_at(
                bytes@,
                p0 + 1,
                enc_u64(s as u64),
            ),
        }) by {
            match v {
                Some(s) => {
                    lemma_holds_at_concat(bytes@, p0 as int, enc_bool(true), enc_u64(s as u64));
                },
                None => {},
            }
        }
    }
    let tag = match dec_bool(bytes, pos) {
        Some(t) => t,
        None => {
            return None;
        },
    };
    if !tag {
        return Some(None);
    }
    let u = match dec_u64(bytes, pos) {
        Some(u) => u,
        None => {
            return None;
        },
    };
    if u > usize::MAX as u64 {
        return None;
    }
    Some(Some(u as usize))
}

fn dec_dest(bytes: &Vec<u8>, pos: &mut usize) -> (r: Option<MixerDestination>)
    ensures
        forall|v: MixerDestination|
            holds_at(bytes@, *old(pos) as int, #[trigger] enc_dest(v)) ==> r == Some(v)
                && *final(pos) == *old(pos) + enc_dest(v).len(),
{
    let p0 = *pos;
    proof {
        assert forall|v: MixerDestination|
            holds_at(bytes@, p0 as int, #[trigger] enc_dest(v)) implies holds_at(
            bytes@,
            p0 as int,
            enc_bool(v.stereo),
        ) && holds_at(bytes@, p0 + 1, enc_u64(v.dest as u64)) && holds_at(
            bytes@,
            p0 + 9,
            enc_u64(v.dest_r as u64),
        ) && holds_at(bytes@, p0 + 17, enc_bool(v.split)) && holds_at(
            bytes@,
            p0 + 18,
            enc_i32(v.gain),
        ) by {
            let a = enc_bool(v.stereo);
            let b = enc_u64(v.dest as u64);
            let c = enc_u64(v.dest_r as u64);
            let d = enc_bool(v.split);
            let e = enc_i32(v.gain);
            lemma_holds_at_concat(bytes@, p0 as int, a + b + c + d, e);
            lemma_holds_at_concat(bytes@, p0 as int, a + b + c, d);
            lemma_holds_at_concat(bytes@, p0 as int, a + b, c);
            lemma_holds_at_concat(bytes@, p0 as int, a, b);
        }
    }
    let stereo = match dec_bool(bytes, pos) {
        Some(x) => x,
        None => {
            return None;
        },
    };
    let dest = match dec_u64(bytes, pos) {
        Some(x) => x,
        None => {
            return None;
        },
    };
    let dest_r = match dec_u64(bytes, pos) {
        Some(x) => x,
        None => {
            return None;
        },
    };
    let split = match dec_bool(bytes, pos) {
        Some(x) => x,
        None => {
            return None;
        },
    };
    let gain = match dec_i32(bytes, pos) {
        Some(x) => x,
        None => {
            return None;
        },
    };
    if dest > usize::MAX as u64 || dest_r > usize::MAX as u64 {
        return None;
    }
    Some(
        MixerDestination {
            stereo,
            dest: dest as usize,
            dest_r: dest_r as usize,
            split,
            gain,
        },
    )
}

/// The destination encoder as a function value, so that list encodings
/// mention one and the same function everywhere.
pub open spec fn enc_dest_fn() -> spec_fn(MixerDestination) -> Seq<u8> {
    |d: MixerDestination| enc_dest(d)
}

/// The capture-slot encoder as a function value.
pub open spec fn enc_opt_idx_fn() -> spec_fn(Option<EnumIndex>) -> Seq<u8> {
    |c: Option<EnumIndex>| enc_opt_idx(c)
}

/// One mixer entry: its scalar fields, then its destination count and
/// destinations.
pub open spec fn enc_entry(v: MixerEntryView) -> Seq<u8> {
    enc_string(v.name) + enc_bool(v.enabled) + enc_bool(v.stereo) + enc_bool(v.split) + enc_u64(
        v.source as u64,
    ) + enc_u64(v.source_r as u64) + enc_u64(v.dests.len() as u64) + enc_list(
        v.dests,
        enc_dest_fn(),
    )
}

/// The entry encoder as a function value.
pub open spec fn enc_entry_fn() -> spec_fn(MixerEntryView) -> Seq<u8> {
    |v: MixerEntryView| enc_entry(v)
}

/// One physical output: name, gain, mute, the source pair and the
/// split flag.
pub open spec fn enc_output(v: MixerOutputView) -> Seq<u8> {
    enc_string(v.name) + enc_i32(v.gain) + enc_bool(v.mute) + enc_u64(v.source.0 as u64) + enc_u64(
        v.source.1 as u64,
    ) + enc_bool(v.split)
}

/// The output encoder as a function value.
pub open spec fn enc_output_fn() -> spec_fn(MixerOutputView) -> Seq<u8> {
    |v: MixerOutputView| enc_output(v)
}

/// The whole routing model: capture count and slots, entry count and
/// entries, the global controls, and the three outputs.
pub open spec fn enc_state(v: AppStateView) -> Seq<u8> {
    enc_u64(v.capture.len() as u64) + enc_list(v.capture, enc_opt_idx_fn()) + enc_u64(
        v.mixer_entries.len() as u64,
    ) + enc_list(v.mixer_entries, enc_entry_fn()) + enc_i32(v.global_gain) + enc_bool(
        v.global_mute,
    ) + enc_bool(v.hi_z_1) + enc_bool(v.hi_z_2) + enc_list(v.outputs, enc_output_fn())
}

/// An entry value small enough to exist in memory.
pub open spec fn entry_ok(v: MixerEntryView) -> bool {
    v.dests.len() <= usize::MAX
}

/// A model value small enough to exist in memory, with its fixed three
/// outputs.
pub open spec fn state_ok(v: AppStateView) -> bool {
    &&& v.capture.len() <= usize::MAX
    &&& v.mixer_entries.len() <= usize::MAX
    &&& forall|i: int| 0 <= i < v.mixer_entries.len() ==> entry_ok(#[trigger] v.mixer_entries[i])
    &&& v.outputs.len() == 3
}

fn push_entry(out: &mut Vec<u8>, e: &MixerEntry)
    ensures
        final(out)@ == old(out)@ + enc_entry(e@),
{
    push_string(out, &e.name);
    push_bool(out, e.enabled);
    push_bool(out, e.stereo);
    push_bool(out, e.split);
    push_u64(out, e.source as u64);
    push_u64(out, e.source_r as u64);
    push_u64(out, e.dests.len() as u64);
    let ghost base = out@;
    let n = e.dests.len();
    let mut i: usize = 0;
    while i < n
        invariant
            n == e.dests@.len(),
            i <= n,
            out@ == base + enc_list(e.dests@.take(i as int), enc_dest_fn()),
        decreases n - i,
    {
        let d = e.dests[i];
        push_dest(out, &d);
        proof {
            assert(e.dests@.take(i + 1) =~= e.dests@.take(i as int).push(e.dests@[i as int]));
            lemma_enc_list_push(e.dests@.take(i as int), enc_dest_fn(), e.dests@[i as int]);
            assert(out@ =~= base + enc_list(e.dests@.take(i + 1), enc_dest_fn()));
        }
        i = i + 1;
    }
    proof {
        assert(e.dests@.take(n as int) =~= e.dests@);
        assert(out@ =~= old(out)@ + enc_entry(e@));
    }
}

fn push_output(out: &mut Vec<u8>, o: &MixerOutput)
    ensures
        final(out)@ == old(out)@ + enc_output(o@),
{
    push_string(out, &o.name);
    push_i32(out, o.gain);
    push_bool(out, o.mute);
    push_u64(out, o.source.0 as u64);
    push_u64(out, o.source.1 as u64);
    push_bool(out, o.split);
    proof {
        assert(out@ =~= old(out)@ + enc_output(o@));
    }
}

/// Serialize the routing model.  The returned bytes are exactly the
/// canonical encoding of the model's value, so [`decode`] restores a
/// field-for-field identical model.
pub fn encode(m: &AppState) -> (r: Vec<u8>)
    ensures
        r@ == enc_state(m@),
        state_ok(m@),
{
    let mut out: Vec<u8> = Vec::new();
    push_u64(&mut out, m.capture.len() as u64);
    let ghost cap_base = out@;
    let nc = m.capture.len();
    let mut i: usize = 0;
    while i < nc
        invariant
            nc == m.capture@.len(),
            i <= nc,
            out@ == cap_base + enc_list(m.capture@.take(i as int), enc_opt_idx_fn()),
        decreases nc - i,
    {
        push_opt_idx(&mut out, m.capture[i]);
        proof {
            assert(m.capture@.take(i + 1) =~= m.capture@.take(i as int).push(m.capture@[i as int]));
            lemma_enc_list_push(m.capture@.take(i as int), enc_opt_idx_fn(), m.capture@[i as int]);
            assert(out@ =~= cap_base + enc_list(m.capture@.take(i + 1), enc_opt_idx_fn()));
        }
        i = i + 1;
    }
    proof {
        assert(m.capture@.take(nc as int) =~= m.capture@);
    }
    push_u64(&mut out, m.mixer_entries.len() as u64);
    let ghost ent_base = out@;
    let ne = m.mixer_entries.len();
    let mut ei: usize = 0;
    while ei < ne
        invariant
            ne == m.mixer_entries@.len(),
            ei <= ne,
            out@ == ent_base + enc_list(m@.mixer_entries.take(ei as int), enc_entry_fn()),
        decreases ne - ei,
    {
        push_entry(&mut out, &m.mixer_entries[ei]);
        proof {
            assert(m@.mixer_entries.len() == ne);
            assert(m@.mixer_entries.take(ei + 1) =~= m@.mixer_entries.take(ei as int).push(
                m@.mixer_entries[ei as int],
            ));
            lemma_enc_list_push(
                m@.mixer_entries.take(ei as int),
                enc_entry_fn(),
                m@.mixer_entries[ei as int],
            );
            assert(m@.mixer_entries[ei as int] == m.mixer_entries@[ei as int]@);
            assert(out@ =~= ent_base + enc_list(m@.mixer_entries.take(ei + 1), enc_entry_fn()));
        }
        ei = ei + 1;
    }
    proof {
        assert(m@.mixer_entries.take(ne as int) =~= m@.mixer_entries);
    }
    push_i32(&mut out, m.global_gain);
    push_bool(&mut out, m.global_mute);
    push_bool(&mut out, m.hi_z_1);
    push_bool(&mut out, m.hi_z_2);
    let ghost out_base = out@;
    let mut oi: usize = 0;
    while oi < 3
        invariant
            oi <= 3,
            m@.outputs.len() == 3,
            out@ == out_base + enc_list(m@.outputs.take(oi as int), enc_output_fn()),
        decreases 3 - oi,
    {
        push_output(&mut out, &m.outputs[oi]);
        proof {
            assert(m@.outputs.take(oi + 1) =~= m@.outputs.take(oi as int).push(
                m@.outputs[oi as int],
            ));
            lemma_enc_list_push(m@.outputs.take(oi as int), enc_output_fn(), m@.outputs[oi as int]);
            assert(m@.outputs[oi as int] == m.outputs@[oi as int]@);
            assert(out@ =~= out_base + enc_list(m@.outputs.take(oi + 1), enc_output_fn()));
        }
        oi = oi + 1;
    }
    proof {
        assert(m@.outputs.take(3) =~= m@.outputs);
        assert(out@ =~= enc_state(m@));
        assert forall|i: int| 0 <= i < m@.mixer_entries.len() implies entry_ok(
            #[trigger] m@.mixer_entries[i],
        ) by {
            let dv = m.mixer_entries@[i].dests;
            vstd::std_specs::vec::axiom_spec_len(&dv);
        }
    }
    out
}

/// A non-empty list encoding starts with its first element's encoding.
proof fn lemma_enc_list_first<T>(bytes: Seq<u8>, q: int, s: Seq<T>, f: spec_fn(T) -> Seq<u8>)
    requires
        holds_at(bytes, q, enc_list(s, f)),
        s.len() > 0,
    ensures
        holds_at(bytes, q, f(s[0])),
        holds_at(bytes, q + f(s[0]).len(), enc_list(s.drop_first(), f)),
{
    lemma_holds_at_concat(bytes, q, f(s[0]), enc_list(s.drop_first(), f));
}

proof fn lemma_entry_decompose(bytes: Seq<u8>, p: int, v: MixerEntryView)
    requires
        holds_at(bytes, p, enc_entry(v)),
    ensures
        holds_at(bytes, p, enc_string(v.name)),
        holds_at(bytes, p + enc_string(v.name).len(), enc_bool(v.enabled)),
        holds_at(bytes, p + enc_string(v.name).len() + 1, enc_bool(v.stereo)),
        holds_at(bytes, p + enc_string(v.name).len() + 2, enc_bool(v.split)),
        holds_at(bytes, p + enc_string(v.name).len() + 3, enc_u64(v.source as u64)),
        holds_at(bytes, p + enc_string(v.name).len() + 11, enc_u64(v.source_r as u64)),
        holds_at(bytes, p + enc_string(v.name).len() + 19, enc_u64(v.dests.len() as u64)),
        holds_at(bytes, p + enc_string(v.name).len() + 27, enc_list(v.dests, enc_dest_fn())),
        enc_entry(v).len() == enc_string(v.name).len() + 27 + enc_list(v.dests, enc_dest_fn()).len(),
{
    let a = enc_string(v.name);
    let b1 = enc_bool(v.enabled);
    let b2 = enc_bool(v.stereo);
    let b3 = enc_bool(v.split);
    let u1 = enc_u64(v.source as u64);
    let u2 = enc_u64(v.source_r as u64);
    let u3 = enc_u64(v.dests.len() as u64);
    let l = enc_list(v.dests, enc_dest_fn());
    lemma_holds_at_concat(bytes, p, a + b1 + b2 + b3 + u1 + u2 + u3, l);
    lemma_holds_at_concat(bytes, p, a + b1 + b2 + b3 + u1 + u2, u3);
    lemma_holds_at_concat(bytes, p, a + b1 + b2 + b3 + u1, u2);
    lemma_holds_at_concat(bytes, p, a + b1 + b2 + b3, u1);
    lemma_holds_at_concat(bytes, p, a + b1 + b2, b3);
    lemma_holds_at_concat(bytes, p, a + b1, b2);
    lemma_holds_at_concat(bytes, p, a, b1);
}

#[verifier::rlimit(100)]
#[verifier::spinoff_prover]
fn dec_entry_header(bytes: &Vec<u8>, pos: &mut usize) -> (r: Option<
    (String, bool, bool, bool, u64, u64, u64),
>)
    ensures
        forall|v: MixerEntryView|
            entry_ok(v) && holds_at(bytes@, *old(pos) as int, #[trigger] enc_entry(v)) ==> (
            r matches Some(h) && h.0@ == v.name && h.1 == v.enabled && h.2 == v.stereo && h.3
                == v.split && h.4 == v.source as u64 && h.5 == v.source_r as u64 && h.6
                == v.dests.len() as u64 && *final(pos) == *old(pos) + enc_string(v.name).len()
                + 27),
{
    let ghost p0 = *pos as int;
    let name_opt = dec_string(bytes, pos);
    let enabled_opt = dec_bool(bytes, pos);
    let stereo_opt = dec_bool(bytes, pos);
    let split_opt = dec_bool(bytes, pos);
    let source_opt = dec_u64(bytes, pos);
    let source_r_opt = dec_u64(bytes, pos);
    let cnt_opt = dec_u64(bytes, pos);
    match (name_opt, enabled_opt, stereo_opt, split_opt, source_opt, source_r_opt, cnt_opt) {
        (Some(a), Some(b), Some(c), Some(d), Some(e), Some(f), Some(g)) => {
            proof {
                assert forall|v: MixerEntryView|
                    entry_ok(v) && holds_at(bytes@, p0, #[trigger] enc_entry(v)) implies (a@
                    == v.name && b == v.enabled && c == v.stereo && d == v.split && e == v.source
                    as u64 && f == v.source_r as u64 && g == v.dests.len() as u64 && *pos == p0
                    + enc_string(v.name).len() + 27) by {
                    lemma_entry_decompose(bytes@, p0, v);
                }
            }
            Some((a, b, c, d, e, f, g))
        },
        _ => {
            proof {
                assert forall|v: MixerEntryView|
                    entry_ok(v) && holds_at(bytes@, p0, #[trigger] enc_entry(v)) implies false by {
                    lemma_entry_decompose(bytes@, p0, v);
                }
            }
            None
        },
    }
}

#[verifier::rlimit(100)]
#[verifier::spinoff_prover]
fn dec_entry(bytes: &Vec<u8>, pos: &mut usize) -> (r: Option<MixerEntry>)
    ensures
        forall|v: MixerEntryView|
            entry_ok(v) && holds_at(bytes@, *old(pos) as int, #[trigger] enc_entry(v)) ==> (
            r matches Some(e) && e@ == v && *final(pos) == *old(pos) + enc_entry(v).len()),
{
    let ghost p0 = *pos as int;
    let (name, enabled, stereo, split, source, source_r, cnt) = match dec_entry_header(
        bytes,
        pos,
    ) {
        Some(h) => h,
        None => {
            return None;
        },
    };
    if source > usize::MAX as u64 || source_r > usize::MAX as u64 || cnt > usize::MAX as u64 {
        proof {
            assert forall|v: MixerEntryView|
                entry_ok(v) && holds_at(bytes@, p0, #[trigger] enc_entry(v)) implies false by {
                assert(v.source as u64 <= usize::MAX as u64);
                assert(v.source_r as u64 <= usize::MAX as u64);
                assert(v.dests.len() as u64 <= usize::MAX as u64);
            }
        }
        return None;
    }
    let n = cnt as usize;
    proof {
        assert forall|v: MixerEntryView|
            entry_ok(v) && holds_at(bytes@, p0, #[trigger] enc_entry(v)) implies (holds_at(
            bytes@,
            *pos as int,
            enc_list(v.dests.skip(0), enc_dest_fn()),
        ) && *pos + enc_list(v.dests.skip(0), enc_dest_fn()).len() == p0 + enc_entry(v).len()
            && v.dests.len() == n && v.dests.take(0) =~= Seq::<MixerDestination>::empty()) by {
            lemma_entry_decompose(bytes@, p0, v);
            assert(v.dests.skip(0) =~= v.dests);
            assert(v.dests.len() as u64 <= usize::MAX as u64);
        }
    }
    let mut dests: Vec<MixerDestination> = Vec::new();
    let mut i: usize = 0;
    while i < n
        invariant
            p0 == *old(pos) as int,
            i <= n,
            dests@.len() == i,
            forall|v: MixerEntryView|
                entry_ok(v) && holds_at(bytes@, p0, #[trigger] enc_entry(v)) ==> (i
                    <= v.dests.len() == n && dests@ == v.dests.take(i as int) && holds_at(
                    bytes@,
                    *pos as int,
                    enc_list(v.dests.skip(i as int), enc_dest_fn()),
                ) && *pos + enc_list(v.dests.skip(i as int), enc_dest_fn()).len() == p0
                    + enc_entry(v).len()),
        decreases n - i,
    {
        let ghost pos_i = *pos as int;
        let d = match dec_dest(bytes, pos) {
            Some(d) => d,
            None => {
                proof {
                    assert forall|v: MixerEntryView|
                        entry_ok(v) && holds_at(bytes@, p0, #[trigger] enc_entry(v)) implies
                        false by {
                        lemma_enc_list_first(
                            bytes@,
                            pos_i,
                            v.dests.skip(i as int),
                            enc_dest_fn(),
                        );
                        assert(v.dests.skip(i as int)[0] == v.dests[i as int]);
                        assert(enc_dest_fn()(v.dests[i as int]) == enc_dest(v.dests[i as int]));
                        assert(holds_at(bytes@, pos_i, enc_dest(v.dests[i as int])));
                    }
                }
                return None;
            },
        };
        dests.push(d);
        proof {
            assert forall|v: MixerEntryView|
                entry_ok(v) && holds_at(bytes@, p0, #[trigger] enc_entry(v)) implies (dests@
                == v.dests.take(i + 1) && holds_at(
                bytes@,
                *pos as int,
                enc_list(v.dests.skip(i + 1), enc_dest_fn()),
            ) && *pos + enc_list(v.dests.skip(i + 1), enc_dest_fn()).len() == p0 + enc_entry(
                v,
            ).len()) by {
                lemma_enc_list_first(bytes@, pos_i, v.dests.skip(i as int), enc_dest_fn());
                assert(v.dests.skip(i as int)[0] == v.dests[i as int]);
                assert(enc_dest_fn()(v.dests[i as int]) == enc_dest(v.dests[i as int]));
                assert(holds_at(bytes@, pos_i, enc_dest(v.dests[i as int])));
                assert(d == v.dests[i as int]);
                assert(v.dests.take(i as int).push(v.dests[i as int]) =~= v.dests.take(i + 1));
                assert(v.dests.skip(i as int).drop_first() =~= v.dests.skip(i + 1));
            }
        }
        i = i + 1;
    }
    let e = MixerEntry {
        name,
        enabled,
        stereo,
        split,
        source: source as usize,
        source_r: source_r as usize,
        dests,
    };
    proof {
        assert forall|v: MixerEntryView|
            entry_ok(v) && holds_at(bytes@, p0, #[trigger] enc_entry(v)) implies (e@ == v && *pos
            == p0 + enc_entry(v).len()) by {
            assert(v.dests.take(n as int) =~= v.dests);
            assert(v.dests.skip(n as int) =~= Seq::<MixerDestination>::empty());
            assert(enc_list(v.dests.skip(n as int), enc_dest_fn()).len() == 0);
            assert(e@.dests == v.dests);
            assert(e@ == v);
        }
    }
    Some(e)
}

proof fn lemma_output_decompose(bytes: Seq<u8>, p: int, v: MixerOutputView)
    requires
        holds_at(bytes, p, enc_output(v)),
    ensures
        holds_at(bytes, p, enc_string(v.name)),
        holds_at(bytes, p + enc_string(v.name).len(), enc_i32(v.gain)),
        holds_at(bytes, p + enc_string(v.name).len() + 8, enc_bool(v.mute)),
        holds_at(bytes, p + enc_string(v.name).len() + 9, enc_u64(v.source.0 as u64)),
        holds_at(bytes, p + enc_string(v.name).len() + 17, enc_u64(v.source.1 as u64)),
        holds_at(bytes, p + enc_string(v.name).len() + 25, enc_bool(v.split)),
        enc_output(v).len() == enc_string(v.name).len() + 26,
{
    let a = enc_string(v.name);
    let g = enc_i32(v.gain);
    let mu = enc_bool(v.mute);
    let s0 = enc_u64(v.source.0 as u64);
    let s1 = enc_u64(v.source.1 as u64);
    let sp = enc_bool(v.split);
    lemma_holds_at_concat(bytes, p, a + g + mu + s0 + s1, sp);
    lemma_holds_at_concat(bytes, p, a + g + mu + s0, s1);
    lemma_holds_at_concat(bytes, p, a + g + mu, s0);
    lemma_holds_at_concat(bytes, p, a + g, mu);
    lemma_holds_at_concat(bytes, p, a, g);
}

#[verifier::rlimit(100)]
#[verifier::spinoff_prover]
fn dec_output(bytes: &Vec<u8>, pos: &mut usize) -> (r: Option<MixerOutput>)
    ensures
        forall|v: MixerOutputView|
            holds_at(bytes@, *old(pos) as int, #[trigger] enc_output(v)) ==> (r matches Some(o)
                && o@ == v && *final(pos) == *old(pos) + enc_output(v).len()),
{
    let ghost p0 = *pos as int;
    let name_opt = dec_string(bytes, pos);
    let gain_opt = dec_i32(bytes, pos);
    let mute_opt = dec_bool(bytes, pos);
    let s0_opt = dec_u64(bytes, pos);
    let s1_opt = dec_u64(bytes, pos);
    let split_opt = dec_bool(bytes, pos);
    let (name, gain, mute, s0, s1, split) = match (
        name_opt,
        gain_opt,
        mute_opt,
        s0_opt,
        s1_opt,
        split_opt,
    ) {
        (Some(a), Some(b), Some(c), Some(d), Some(e), Some(f)) => (a, b, c, d, e, f),
        _ => {
            proof {
                assert forall|v: MixerOutputView|
                    holds_at(bytes@, p0, #[trigger] enc_output(v)) implies false by {
                    lemma_output_decompose(bytes@, p0, v);
                }
            }
            return None;
        },
    };
    if s0 > usize::MAX as u64 || s1 > usize::MAX as u64 {
        proof {
            assert forall|v: MixerOutputView|
                holds_at(bytes@, p0, #[trigger] enc_output(v)) implies false by {
                lemma_output_decompose(bytes@, p0, v);
                assert(v.source.0 as u64 <= usize::MAX as u64);
                assert(v.source.1 as u64 <= usize::MAX as u64);
            }
        }
        return None;
    }
    let o = MixerOutput { name, gain, mute, source: (s0 as usize, s1 as usize), split };
    proof {
        assert forall|v: MixerOutputView|
            holds_at(bytes@, p0, #[trigger] enc_output(v)) implies (o@ == v && *pos == p0
            + enc_output(v).len()) by {
            lemma_output_decompose(bytes@, p0, v);
            assert(o@.source == v.source);
        }
    }
    Some(o)
}

#[verifier::rlimit(100)]
#[verifier::spinoff_prover]
fn dec_opt_list(bytes: &Vec<u8>, pos: &mut usize) -> (r: Option<Vec<Option<EnumIndex>>>)
    ensures
        forall|l: Seq<Option<EnumIndex>>|
            l.len() <= usize::MAX && holds_at(
                bytes@,
                *old(pos) as int,
                enc_u64(l.len() as u64) + #[trigger] enc_list(l, enc_opt_idx_fn()),
            ) ==> (r matches Some(cv) && cv@ == l && *final(pos) == *old(pos) + 8 + enc_list(
                l,
                enc_opt_idx_fn(),
            ).len()),
{
    let ghost p0 = *pos as int;
    proof {
        assert forall|l: Seq<Option<EnumIndex>>|
            l.len() <= usize::MAX && holds_at(
                bytes@,
                p0,
                enc_u64(l.len() as u64) + #[trigger] enc_list(l, enc_opt_idx_fn()),
            ) implies holds_at(bytes@, p0, enc_u64(l.len() as u64)) && holds_at(
            bytes@,
            p0 + 8,
            enc_list(l, enc_opt_idx_fn()),
        ) by {
            lemma_holds_at_concat(
                bytes@,
                p0,
                enc_u64(l.len() as u64),
                enc_list(l, enc_opt_idx_fn()),
            );
        }
    }
    let cnt = match dec_u64(bytes, pos) {
        Some(x) => x,
        None => {
            return None;
        },
    };
    if cnt > usize::MAX as u64 {
        return None;
    }
    let n = cnt as usize;
    let mut out: Vec<Option<EnumIndex>> = Vec::new();
    let mut i: usize = 0;
    proof {
        assert forall|l: Seq<Option<EnumIndex>>|
            l.len() <= usize::MAX && holds_at(
                bytes@,
                p0,
                enc_u64(l.len() as u64) + #[trigger] enc_list(l, enc_opt_idx_fn()),
            ) implies l.len() == n && l.take(0) =~= Seq::<Option<EnumIndex>>::empty() && l.skip(0)
            =~= l by {
            assert(l.len() as u64 <= usize::MAX as u64);
        }
    }
    while i < n
        invariant
            p0 == *old(pos) as int,
            i <= n,
            out@.len() == i,
            forall|l: Seq<Option<EnumIndex>>|
                l.len() <= usize::MAX && holds_at(
                    bytes@,
                    p0,
                    enc_u64(l.len() as u64) + #[trigger] enc_list(l, enc_opt_idx_fn()),
                ) ==> (l.len() == n && out@ == l.take(i as int) && holds_at(
                    bytes@,
                    *pos as int,
                    enc_list(l.skip(i as int), enc_opt_idx_fn()),
                ) && *pos + enc_list(l.skip(i as int), enc_opt_idx_fn()).len() == p0 + 8 + enc_list(
                    l,
                    enc_opt_idx_fn(),
                ).len()),
        decreases n - i,
    {
        let ghost pos_i = *pos as int;
        let c = match dec_opt_idx(bytes, pos) {
            Some(c) => c,
            None => {
                proof {
                    assert forall|l: Seq<Option<EnumIndex>>|
                        l.len() <= usize::MAX && holds_at(
                            bytes@,
                            p0,
                            enc_u64(l.len() as u64) + #[trigger] enc_list(l, enc_opt_idx_fn()),
                        ) implies false by {
                        lemma_enc_list_first(bytes@, pos_i, l.skip(i as int), enc_opt_idx_fn());
                        assert(l.skip(i as int)[0] == l[i as int]);
                        assert(enc_opt_idx_fn()(l[i as int]) == enc_opt_idx(l[i as int]));
                        assert(holds_at(bytes@, pos_i, enc_opt_idx(l[i as int])));
                    }
                }
                return None;
            },
        };
        out.push(c);
        proof {
            assert forall|l: Seq<Option<EnumIndex>>|
                l.len() <= usize::MAX && holds_at(
                    bytes@,
                    p0,
                    enc_u64(l.len() as u64) + #[trigger] enc_list(l, enc_opt_idx_fn()),
                ) implies (out@ == l.take(i + 1) && holds_at(
                bytes@,
                *pos as int,
                enc_list(l.skip(i + 1), enc_opt_idx_fn()),
            ) && *pos + enc_list(l.skip(i + 1), enc_opt_idx_fn()).len() == p0 + 8 + enc_list(
                l,
                enc_opt_idx_fn(),
            ).len()) by {
                lemma_enc_list_first(bytes@, pos_i, l.skip(i as int), enc_opt_idx_fn());
                assert(l.skip(i as int)[0] == l[i as int]);
                assert(enc_opt_idx_fn()(l[i as int]) == enc_opt_idx(l[i as int]));
                assert(holds_at(bytes@, pos_i, enc_opt_idx(l[i as int])));
                assert(c == l[i as int]);
                assert(l.take(i as int).push(l[i as int]) =~= l.take(i + 1));
                assert(l.skip(i as int).drop_first() =~= l.skip(i + 1));
            }
        }
        i = i + 1;
    }
    proof {
        assert forall|l: Seq<Option<EnumIndex>>|
            l.len() <= usize::MAX && holds_at(
                bytes@,
                p0,
                enc_u64(l.len() as u64) + #[trigger] enc_list(l, enc_opt_idx_fn()),
            ) implies (out@ == l && *pos == p0 + 8 + enc_list(l, enc_opt_idx_fn()).len()) by {
            assert(l.take(n as int) =~= l);
            assert(l.skip(n as int) =~= Seq::<Option<EnumIndex>>::empty());
            assert(enc_list(l.skip(n as int), enc_opt_idx_fn()).len() == 0);
        }
    }
    Some(out)
}

#[verifier::rlimit(100)]
#[verifier::spinoff_prover]
fn dec_entry_list(bytes: &Vec<u8>, pos: &mut usize) -> (r: Option<Vec<MixerEntry>>)
    ensures
        forall|l: Seq<MixerEntryView>|
            l.len() <= usize::MAX && (forall|t: int| 0 <= t < l.len() ==> entry_ok(#[trigger] l[t]))
                && holds_at(
                bytes@,
                *old(pos) as int,
                enc_u64(l.len() as u64) + #[trigger] enc_list(l, enc_entry_fn()),
            ) ==> (r matches Some(ev) && ev@.len() == l.len() && (forall|t: int|
                0 <= t < l.len() ==> (#[trigger] ev@[t])@ == l[t]) && *final(pos) == *old(pos) + 8
                + enc_list(l, enc_entry_fn()).len()),
{
    let ghost p0 = *pos as int;
    proof {
        assert forall|l: Seq<MixerEntryView>|
            l.len() <= usize::MAX && holds_at(
                bytes@,
                p0,
                enc_u64(l.len() as u64) + #[trigger] enc_list(l, enc_entry_fn()),
            ) implies holds_at(bytes@, p0, enc_u64(l.len() as u64)) && holds_at(
            bytes@,
            p0 + 8,
            enc_list(l, enc_entry_fn()),
        ) && l.len() as u64 <= usize::MAX as u64 by {
            lemma_holds_at_concat(bytes@, p0, enc_u64(l.len() as u64), enc_list(l, enc_entry_fn()));
        }
    }
    let cnt = match dec_u64(bytes, pos) {
        Some(x) => x,
        None => {
            return None;
        },
    };
    if cnt > usize::MAX as u64 {
        return None;
    }
    let n = cnt as usize;
    let mut out: Vec<MixerEntry> = Vec::new();
    let mut i: usize = 0;
    proof {
        assert forall|l: Seq<MixerEntryView>|
            l.len() <= usize::MAX && holds_at(
                bytes@,
                p0,
                enc_u64(l.len() as u64) + #[trigger] enc_list(l, enc_entry_fn()),
            ) implies l.len() == n && l.skip(0) =~= l by {
            assert(l.len() as u64 <= usize::MAX as u64);
        }
    }
    while i < n
        invariant
            p0 == *old(pos) as int,
            i <= n,
            out@.len() == i,
            forall|l: Seq<MixerEntryView>|
                l.len() <= usize::MAX && (forall|t: int|
                    0 <= t < l.len() ==> entry_ok(#[trigger] l[t])) && holds_at(
                    bytes@,
                    p0,
                    enc_u64(l.len() as u64) + #[trigger] enc_list(l, enc_entry_fn()),
                ) ==> (l.len() == n && (forall|t: int|
                    0 <= t < i ==> (#[trigger] out@[t])@ == l[t]) && holds_at(
                    bytes@,
                    *pos as int,
                    enc_list(l.skip(i as int), enc_entry_fn()),
                ) && *pos + enc_list(l.skip(i as int), enc_entry_fn()).len() == p0 + 8 + enc_list(
                    l,
                    enc_entry_fn(),
                ).len()),
        decreases n - i,
    {
        let ghost pos_i = *pos as int;
        let e = match dec_entry(bytes, pos) {
            Some(e) => e,
            None => {
                proof {
                    assert forall|l: Seq<MixerEntryView>|
                        l.len() <= usize::MAX && (forall|t: int|
                            0 <= t < l.len() ==> entry_ok(#[trigger] l[t])) && holds_at(
                            bytes@,
                            p0,
                            enc_u64(l.len() as u64) + #[trigger] enc_list(l, enc_entry_fn()),
                        ) implies false by {
                        lemma_enc_list_first(bytes@, pos_i, l.skip(i as int), enc_entry_fn());
                        assert(l.skip(i as int)[0] == l[i as int]);
                        assert(enc_entry_fn()(l[i as int]) == enc_entry(l[i as int]));
                        assert(holds_at(bytes@, pos_i, enc_entry(l[i as int])));
                        assert(entry_ok(l[i as int]));
                    }
                }
                return None;
            },
        };
        out.push(e);
        proof {
            assert forall|l: Seq<MixerEntryView>|
                l.len() <= usize::MAX && (forall|t: int|
                    0 <= t < l.len() ==> entry_ok(#[trigger] l[t])) && holds_at(
                    bytes@,
                    p0,
                    enc_u64(l.len() as u64) + #[trigger] enc_list(l, enc_entry_fn()),
                ) implies ((forall|t: int| 0 <= t < i + 1 ==> (#[trigger] out@[t])@ == l[t])
                && holds_at(bytes@, *pos as int, enc_list(l.skip(i + 1), enc_entry_fn())) && *pos
                + enc_list(l.skip(i + 1), enc_entry_fn()).len() == p0 + 8 + enc_list(
                l,
                enc_entry_fn(),
            ).len()) by {
                lemma_enc_list_first(bytes@, pos_i, l.skip(i as int), enc_entry_fn());
                assert(l.skip(i as int)[0] == l[i as int]);
                assert(enc_entry_fn()(l[i as int]) == enc_entry(l[i as int]));
                assert(holds_at(bytes@, pos_i, enc_entry(l[i as int])));
                assert(entry_ok(l[i as int]));
                assert(out@[i as int]@ == l[i as int]);
                assert(l.skip(i as int).drop_first() =~= l.skip(i + 1));
            }
        }
        i = i + 1;
    }
    proof {
        assert forall|l: Seq<MixerEntryView>|
            l.len() <= usize::MAX && (forall|t: int| 0 <= t < l.len() ==> entry_ok(#[trigger] l[t]))
                && holds_at(
                bytes@,
                p0,
                enc_u64(l.len() as u64) + #[trigger] enc_list(l, enc_entry_fn()),
            ) implies (*pos == p0 + 8 + enc_list(l, enc_entry_fn()).len()) by {
            assert(l.skip(n as int) =~= Seq::<MixerEntryView>::empty());
            assert(enc_list(l.skip(n as int), enc_entry_fn()).len() == 0);
        }
    }
    Some(out)
}

#[verifier::rlimit(100)]
#[verifier::spinoff_prover]
fn dec_outputs3(bytes: &Vec<u8>, pos: &mut usize) -> (r: Option<
    (MixerOutput, MixerOutput, MixerOutput),
>)
    ensures
        forall|os: Seq<MixerOutputView>|
            os.len() == 3 && holds_at(
                bytes@,
                *old(pos) as int,
                #[trigger] enc_list(os, enc_output_fn()),
            ) ==> (r matches Some(t) && t.0@ == os[0] && t.1@ == os[1] && t.2@ == os[2]
                && *final(pos) == *old(pos) + enc_list(os, enc_output_fn()).len()),
{
    let ghost po = *pos as int;
    let o0 = match dec_output(bytes, pos) {
        Some(x) => x,
        None => {
            proof {
                assert forall|os: Seq<MixerOutputView>|
                    os.len() == 3 && holds_at(
                        bytes@,
                        po,
                        #[trigger] enc_list(os, enc_output_fn()),
                    ) implies false by {
                    lemma_enc_list_first(bytes@, po, os, enc_output_fn());
                    assert(enc_output_fn()(os[0]) == enc_output(os[0]));
                    assert(holds_at(bytes@, po, enc_output(os[0])));
                }
            }
            return None;
        },
    };
    let ghost po1 = *pos as int;
    proof {
        assert forall|os: Seq<MixerOutputView>|
            os.len() == 3 && holds_at(bytes@, po, #[trigger] enc_list(os, enc_output_fn()))
            implies (o0@ == os[0] && holds_at(
            bytes@,
            po1,
            enc_list(os.drop_first(), enc_output_fn()),
        ) && po1 + enc_list(os.drop_first(), enc_output_fn()).len() == po + enc_list(
            os,
            enc_output_fn(),
        ).len()) by {
            lemma_enc_list_first(bytes@, po, os, enc_output_fn());
            assert(enc_output_fn()(os[0]) == enc_output(os[0]));
            assert(holds_at(bytes@, po, enc_output(os[0])));
        }
    }
    let o1 = match dec_output(bytes, pos) {
        Some(x) => x,
        None => {
            proof {
                assert forall|os: Seq<MixerOutputView>|
                    os.len() == 3 && holds_at(
                        bytes@,
                        po,
                        #[trigger] enc_list(os, enc_output_fn()),
                    ) implies false by {
                    lemma_enc_list_first(bytes@, po1, os.drop_first(), enc_output_fn());
                    assert(os.drop_first()[0] == os[1]);
                    assert(enc_output_fn()(os[1]) == enc_output(os[1]));
                    assert(holds_at(bytes@, po1, enc_output(os[1])));
                }
            }
            return None;
        },
    };
    let ghost po2 = *pos as int;
    proof {
        assert forall|os: Seq<MixerOutputView>|
            os.len() == 3 && holds_at(bytes@, po, #[trigger] enc_list(os, enc_output_fn()))
            implies (o1@ == os[1] && holds_at(
            bytes@,
            po2,
            enc_list(os.drop_first().drop_first(), enc_output_fn()),
        ) && po2 + enc_list(os.drop_first().drop_first(), enc_output_fn()).len() == po + enc_list(
            os,
            enc_output_fn(),
        ).len()) by {
            lemma_enc_list_first(bytes@, po1, os.drop_first(), enc_output_fn());
            assert(os.drop_first()[0] == os[1]);
            assert(enc_output_fn()(os[1]) == enc_output(os[1]));
            assert(holds_at(bytes@, po1, enc_output(os[1])));
        }
    }
    let o2 = match dec_output(bytes, pos) {
        Some(x) => x,
        None => {
            proof {
                assert forall|os: Seq<MixerOutputView>|
                    os.len() == 3 && holds_at(
                        bytes@,
                        po,
                        #[trigger] enc_list(os, enc_output_fn()),
                    ) implies false by {
                    lemma_enc_list_first(
                        bytes@,
                        po2,
                        os.drop_first().drop_first(),
                        enc_output_fn(),
                    );
                    assert(os.drop_first().drop_first()[0] == os[2]);
                    assert(enc_output_fn()(os[2]) == enc_output(os[2]));
                    assert(holds_at(bytes@, po2, enc_output(os[2])));
                }
            }
            return None;
        },
    };
    proof {
        assert forall|os: Seq<MixerOutputView>|
            os.len() == 3 && holds_at(bytes@, po, #[trigger] enc_list(os, enc_output_fn()))
            implies (o2@ == os[2] && *pos == po + enc_list(os, enc_output_fn()).len()) by {
            lemma_enc_list_first(bytes@, po2, os.drop_first().drop_first(), enc_output_fn());
            assert(os.drop_first().drop_first()[0] == os[2]);
            assert(enc_output_fn()(os[2]) == enc_output(os[2]));
            assert(holds_at(bytes@, po2, enc_output(os[2])));
            assert(os.drop_first().drop_first().drop_first() =~= Seq::<MixerOutputView>::empty());
            assert(enc_list(os.drop_first().drop_first().drop_first(), enc_output_fn()).len()
                == 0);
        }
    }
    Some((o0, o1, o2))
}

#[verifier::rlimit(100)]
#[verifier::spinoff_prover]
proof fn lemma_state_decompose(bytes: Seq<u8>, v: AppStateView)
    requires
        bytes == enc_state(v),
    ensures
        ({
            let cap = enc_u64(v.capture.len() as u64) + enc_list(v.capture, enc_opt_idx_fn());
            let ent = enc_u64(v.mixer_entries.len() as u64) + enc_list(
                v.mixer_entries,
                enc_entry_fn(),
            );
            let ol = enc_list(v.outputs, enc_output_fn());
            &&& holds_at(bytes, 0, cap)
            &&& holds_at(bytes, cap.len() as int, ent)
            &&& holds_at(bytes, cap.len() + ent.len() as int, enc_i32(v.global_gain))
            &&& holds_at(bytes, cap.len() + ent.len() + 8int, enc_bool(v.global_mute))
            &&& holds_at(bytes, cap.len() + ent.len() + 9int, enc_bool(v.hi_z_1))
            &&& holds_at(bytes, cap.len() + ent.len() + 10int, enc_bool(v.hi_z_2))
            &&& holds_at(bytes, cap.len() + ent.len() + 11int, ol)
            &&& bytes.len() == cap.len() + ent.len() + 11 + ol.len()
        }),
{
    let c1 = enc_u64(v.capture.len() as u64);
    let c2 = enc_list(v.capture, enc_opt_idx_fn());
    let e1 = enc_u64(v.mixer_entries.len() as u64);
    let e2 = enc_list(v.mixer_entries, enc_entry_fn());
    let g = enc_i32(v.global_gain);
    let m = enc_bool(v.global_mute);
    let z1 = enc_bool(v.hi_z_1);
    let z2 = enc_bool(v.hi_z_2);
    let ol = enc_list(v.outputs, enc_output_fn());
    assert(holds_at(bytes, 0, enc_state(v))) by {
        assert(bytes.subrange(0, enc_state(v).len() as int) =~= enc_state(v));
    }
    lemma_holds_at_concat(bytes, 0, c1 + c2 + e1 + e2 + g + m + z1 + z2, ol);
    lemma_holds_at_concat(bytes, 0, c1 + c2 + e1 + e2 + g + m + z1, z2);
    lemma_holds_at_concat(bytes, 0, c1 + c2 + e1 + e2 + g + m, z1);
    lemma_holds_at_concat(bytes, 0, c1 + c2 + e1 + e2 + g, m);
    lemma_holds_at_concat(bytes, 0, c1 + c2 + e1 + e2, g);
    lemma_holds_at_concat(bytes, 0, c1 + c2 + e1, e2);
    lemma_holds_at_concat(bytes, 0, c1 + c2, e1);
    assert(holds_at(bytes, 0, c1 + c2)) by {
        lemma_holds_at_concat(bytes, 0, c1 + c2, e1);
    }
    assert(holds_at(bytes, (c1 + c2).len() as int, e1 + e2)) by {
        assert(bytes.subrange((c1 + c2).len() as int, (c1 + c2).len() + (e1 + e2).len() as int) =~= e1
            + e2);
    }
}

/// Decode the global gain/mute and the two impedance switches.
fn dec_globals(bytes: &Vec<u8>, pos: &mut usize) -> (r: Option<(i32, bool, bool, bool)>)
    ensures
        forall|g: i32, mu: bool, z1: bool, z2: bool|
            #![trigger enc_i32(g), enc_bool(mu), enc_bool(z1), enc_bool(z2)]
            (holds_at(bytes@, *old(pos) as int, enc_i32(g)) && holds_at(
                bytes@,
                *old(pos) + 8,
                enc_bool(mu),
            ) && holds_at(bytes@, *old(pos) + 9, enc_bool(z1)) && holds_at(
                bytes@,
                *old(pos) + 10,
                enc_bool(z2),
            )) ==> (r == Some((g, mu, z1, z2)) && *final(pos) == *old(pos) + 11),
{
    let gg = match dec_i32(bytes, pos) {
        Some(x) => x,
        None => {
            return None;
        },
    };
    let mu = match dec_bool(bytes, pos) {
        Some(x) => x,
        None => {
            return None;
        },
    };
    let z1 = match dec_bool(bytes, pos) {
        Some(x) => x,
        None => {
            return None;
        },
    };
    let z2 = match dec_bool(bytes, pos) {
        Some(x) => x,
        None => {
            return None;
        },
    };
    Some((gg, mu, z1, z2))
}

/// Deserialize a routing model.  The canonical encoding of any model
/// value decodes to a field-for-field identical model, so a save/load
/// round trip reproduces the model exactly; bytes saved by an older
/// build that end cleanly at a top-level field boundary decode too,
/// with the remaining fields at their default values; anything else is
/// rejected.
#[verifier::rlimit(100)]
#[verifier::spinoff_prover]
pub fn decode(bytes: &Vec<u8>) -> (r: Option<AppState>)
    ensures
        forall|v: AppStateView|
            state_ok(v) && bytes@ == #[trigger] enc_state(v) ==> (r matches Some(m) && m@ == v),
{
    let total = bytes.len();
    let mut pos: usize = 0;
    proof {
        assert forall|v: AppStateView|
            state_ok(v) && bytes@ == #[trigger] enc_state(v) implies ({
            let cap = enc_u64(v.capture.len() as u64) + enc_list(v.capture, enc_opt_idx_fn());
            let ent = enc_u64(v.mixer_entries.len() as u64) + enc_list(
                v.mixer_entries,
                enc_entry_fn(),
            );
            let ol = enc_list(v.outputs, enc_output_fn());
            &&& holds_at(bytes@, 0, cap)
            &&& holds_at(bytes@, cap.len() as int, ent)
            &&& holds_at(bytes@, cap.len() + ent.len() as int, enc_i32(v.global_gain))
            &&& holds_at(bytes@, cap.len() + ent.len() + 8int, enc_bool(v.global_mute))
            &&& holds_at(bytes@, cap.len() + ent.len() + 9int, enc_bool(v.hi_z_1))
            &&& holds_at(bytes@, cap.len() + ent.len() + 10int, enc_bool(v.hi_z_2))
            &&& holds_at(bytes@, cap.len() + ent.len() + 11int, ol)
            &&& total == cap.len() + ent.len() + 11 + ol.len()
            &&& ol.len() > 0
            &&& v.capture.len() <= usize::MAX
            &&& forall|t: int| 0 <= t < v.mixer_entries.len() ==> entry_ok(
                #[trigger] v.mixer_entries[t],
            )
        }) by {
            lemma_state_decompose(bytes@, v);
            let off = (enc_u64(v.capture.len() as u64) + enc_list(
                v.capture,
                enc_opt_idx_fn(),
            )).len() + (enc_u64(v.mixer_entries.len() as u64) + enc_list(
                v.mixer_entries,
                enc_entry_fn(),
            )).len() + 11;
            lemma_enc_list_first(bytes@, off as int, v.outputs, enc_output_fn());
        }
    }
    if pos == total {
        return Some(default_state());
    }
    let capture = match dec_opt_list(bytes, &mut pos) {
        Some(x) => x,
        None => {
            return None;
        },
    };
    if pos == total {
        let mut m = default_state();
        m.capture = capture;
        return Some(m);
    }
    let mixer_entries = match dec_entry_list(bytes, &mut pos) {
        Some(x) => x,
        None => {
            return None;
        },
    };
    if pos == total {
        let mut m = default_state();
        m.capture = capture;
        m.mixer_entries = mixer_entries;
        return Some(m);
    }
    let (global_gain, global_mute, hi_z_1, hi_z_2) = match dec_globals(bytes, &mut pos) {
        Some(x) => x,
        None => {
            return None;
        },
    };
    if pos == total {
        let mut m = default_state();
        m.capture = capture;
        m.mixer_entries = mixer_entries;
        m.global_gain = global_gain;
        m.global_mute = global_mute;
        m.hi_z_1 = hi_z_1;
        m.hi_z_2 = hi_z_2;
        return Some(m);
    }
    let (o0, o1, o2) = match dec_outputs3(bytes, &mut pos) {
        Some(x) => x,
        None => {
            return None;
        },
    };
    if pos != total {
        return None;
    }
    let m = AppState {
        capture,
        mixer_entries,
        global_gain,
        global_mute,
        hi_z_1,
        hi_z_2,
        outputs: [o0, o1, o2],
    };
    proof {
        assert forall|v: AppStateView|
            state_ok(v) && bytes@ == #[trigger] enc_state(v) implies m@ == v by {
            assert(m@.mixer_entries =~= v.mixer_entries);
            assert(m@.outputs =~= v.outputs);
            assert(m@ == v);
        }
    }
    Some(m)
}

/// The model with every field at its default value.
fn default_state() -> (r: AppState)
    ensures
        r.capture@.len() == 0,
        r.mixer_entries@.len() == 0,
        r.global_gain == 0,
        !r.global_mute,
        !r.hi_z_1,
        !r.hi_z_2,
{
    AppState {
        capture: Vec::new(),
        mixer_entries: Vec::new(),
        global_gain: 0,
        global_mute: false,
        hi_z_1: false,
        hi_z_2: false,
        outputs: [
            MixerOutput { name: String::new(), gain: 0, mute: false, source: (0, 0), split: false },
            MixerOutput { name: String::new(), gain: 0, mute: false, source: (0, 0), split: false },
            MixerOutput { name: String::new(), gain: 0, mute: false, source: (0, 0), split: false },
        ],
    }
}

} // verus!
