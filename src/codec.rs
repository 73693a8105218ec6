//! The binary wire encoding of frames: little-endian integers, a 32-bit
//! variant tag (0 for a keyframe, 1 for a deltaframe), then version,
//! timestamp and a payload sequence prefixed with its 64-bit length. A
//! keyframe's payload is its 64-bit words; a deltaframe's is its changes, each
//! a 64-bit index and one byte, 0 or 1.

use crate::frame::{Frame, FrameModel};
use vstd::prelude::*;

verus! {

/// The eight little-endian bytes of `x`.
pub open spec fn le_bytes(x: u64) -> Seq<u8> {
    Seq::new(8, |i: int| ((x >> ((8 * i) as u64)) & 0xffu64) as u8)
}

/// The byte that encodes a bit.
pub open spec fn bool_byte(b: bool) -> u8 {
    if b {
        1u8
    } else {
        0u8
    }
}

/// The encoding of a keyframe's words, one after another.
pub open spec fn words_bytes(s: Seq<u64>) -> Seq<u8>
    decreases s.len(),
{
    if s.len() == 0 {
        Seq::empty()
    } else {
        words_bytes(s.drop_last()) + le_bytes(s.last())
    }
}

/// The encoding of one change: its index, then its bit.
pub open spec fn change_bytes(c: (usize, bool)) -> Seq<u8> {
    le_bytes(c.0 as u64).push(bool_byte(c.1))
}

/// The encoding of a deltaframe's changes, one after another.
pub open spec fn changes_bytes(s: Seq<(usize, bool)>) -> Seq<u8>
    decreases s.len(),
{
    if s.len() == 0 {
        Seq::empty()
    } else {
        changes_bytes(s.drop_last()) + change_bytes(s.last())
    }
}

/// The 28 bytes before a frame's payload elements.
pub open spec fn header_bytes(tag: u8, version: usize, timestamp: u64, count: nat) -> Seq<u8> {
    seq![tag, 0u8, 0u8, 0u8] + le_bytes(version as u64) + le_bytes(timestamp) + le_bytes(
        count as u64,
    )
}

/// The encoding of a frame.
pub open spec fn spec_encode(f: FrameModel) -> Seq<u8> {
    match f {
        FrameModel::Key { version, timestamp, data } => header_bytes(
            0,
            version,
            timestamp,
            data.len(),
        ) + words_bytes(data),
        FrameModel::Delta { version, timestamp, changes } => header_bytes(
            1,
            version,
            timestamp,
            changes.len(),
        ) + changes_bytes(changes),
    }
}

/// Whether a frame's payload has a length that the encoding can carry.
pub open spec fn encodable(f: FrameModel) -> bool {
    match f {
        FrameModel::Key { data, .. } => data.len() <= usize::MAX,
        FrameModel::Delta { changes, .. } => changes.len() <= usize::MAX,
    }
}

proof fn lemma_le_bytes_of_parts(b0: u8, b1: u8, b2: u8, b3: u8, b4: u8, b5: u8, b6: u8, b7: u8, x: u64)
    requires
        x == (b0 as u64) | ((b1 as u64) << 8u64) | ((b2 as u64) << 16u64) | ((b3 as u64) << 24u64)
            | ((b4 as u64) << 32u64) | ((b5 as u64) << 40u64) | ((b6 as u64) << 48u64) | ((
        b7 as u64) << 56u64),
    ensures
        le_bytes(x) == seq![b0, b1, b2, b3, b4, b5, b6, b7],
{
    assert(((x >> 0u64) & 0xffu64) as u8 == b0) by (bit_vector)
        requires
            x == (b0 as u64) | ((b1 as u64) << 8u64) | ((b2 as u64) << 16u64) | ((b3 as u64)
                << 24u64) | ((b4 as u64) << 32u64) | ((b5 as u64) << 40u64) | ((b6 as u64)
                << 48u64) | ((b7 as u64) << 56u64),
    ;
    assert(((x >> 8u64) & 0xffu64) as u8 == b1) by (bit_vector)
        requires
            x == (b0 as u64) | ((b1 as u64) << 8u64) | ((b2 as u64) << 16u64) | ((b3 as u64)
                << 24u64) | ((b4 as u64) << 32u64) | ((b5 as u64) << 40u64) | ((b6 as u64)
                << 48u64) | ((b7 as u64) << 56u64),
    ;
    assert(((x >> 16u64) & 0xffu64) as u8 == b2) by (bit_vector)
        requires
            x == (b0 as u64) | ((b1 as u64) << 8u64) | ((b2 as u64) << 16u64) | ((b3 as u64)
                << 24u64) | ((b4 as u64) << 32u64) | ((b5 as u64) << 40u64) | ((b6 as u64)
                << 48u64) | ((b7 as u64) << 56u64),
    ;
    assert(((x >> 24u64) & 0xffu64) as u8 == b3) by (bit_vector)
        requires
            x == (b0 as u64) | ((b1 as u64) << 8u64) | ((b2 as u64) << 16u64) | ((b3 as u64)
                << 24u64) | ((b4 as u64) << 32u64) | ((b5 as u64) << 40u64) | ((b6 as u64)
                << 48u64) | ((b7 as u64) << 56u64),
    ;
    assert(((x >> 32u64) & 0xffu64) as u8 == b4) by (bit_vector)
        requires
            x == (b0 as u64) | ((b1 as u64) << 8u64) | ((b2 as u64) << 16u64) | ((b3 as u64)
                << 24u64) | ((b4 as u64) << 32u64) | ((b5 as u64) << 40u64) | ((b6 as u64)
                << 48u64) | ((b7 as u64) << 56u64),
    ;
    assert(((x >> 40u64) & 0xffu64) as u8 == b5) by (bit_vector)
        requires
            x == (b0 as u64) | ((b1 as u64) << 8u64) | ((b2 as u64) << 16u64) | ((b3 as u64)
                << 24u64) | ((b4 as u64) << 32u64) | ((b5 as u64) << 40u64) | ((b6 as u64)
                << 48u64) | ((b7 as u64) << 56u64),
    ;
    assert(((x >> 48u64) & 0xffu64) as u8 == b6) by (bit_vector)
        requires
            x == (b0 as u64) | ((b1 as u64) << 8u64) | ((b2 as u64) << 16u64) | ((b3 as u64)
                << 24u64) | ((b4 as u64) << 32u64) | ((b5 as u64) << 40u64) | ((b6 as u64)
                << 48u64) | ((b7 as u64) << 56u64),
    ;
    assert(((x >> 56u64) & 0xffu64) as u8 == b7) by (bit_vector)
        requires
            x == (b0 as u64) | ((b1 as u64) << 8u64) | ((b2 as u64) << 16u64) | ((b3 as u64)
                << 24u64) | ((b4 as u64) << 32u64) | ((b5 as u64) << 40u64) | ((b6 as u64)
                << 48u64) | ((b7 as u64) << 56u64),
    ;
    assert(le_bytes(x) =~= seq![b0, b1, b2, b3, b4, b5, b6, b7]);
}

/// Two integers with the same bytes are equal.
pub proof fn lemma_le_bytes_injective(x: u64, y: u64)
    requires
        le_bytes(x) == le_bytes(y),
    ensures
        x == y,
{
    assert(le_bytes(x)[0] == le_bytes(y)[0]);
    assert(le_bytes(x)[0] == ((x >> 0u64) & 0xffu64) as u8);
    assert(le_bytes(y)[0] == ((y >> 0u64) & 0xffu64) as u8);
    assert(le_bytes(x)[1] == le_bytes(y)[1]);
    assert(le_bytes(x)[1] == ((x >> 8u64) & 0xffu64) as u8);
    assert(le_bytes(y)[1] == ((y >> 8u64) & 0xffu64) as u8);
    assert(le_bytes(x)[2] == le_bytes(y)[2]);
    assert(le_bytes(x)[2] == ((x >> 16u64) & 0xffu64) as u8);
    assert(le_bytes(y)[2] == ((y >> 16u64) & 0xffu64) as u8);
    assert(le_bytes(x)[3] == le_bytes(y)[3]);
    assert(le_bytes(x)[3] == ((x >> 24u64) & 0xffu64) as u8);
    assert(le_bytes(y)[3] == ((y >> 24u64) & 0xffu64) as u8);
    assert(le_bytes(x)[4] == le_bytes(y)[4]);
    assert(le_bytes(x)[4] == ((x >> 32u64) & 0xffu64) as u8);
    assert(le_bytes(y)[4] == ((y >> 32u64) & 0xffu64) as u8);
    assert(le_bytes(x)[5] == le_bytes(y)[5]);
    assert(le_bytes(x)[5] == ((x >> 40u64) & 0xffu64) as u8);
    assert(le_bytes(y)[5] == ((y >> 40u64) & 0xffu64) as u8);
    assert(le_bytes(x)[6] == le_bytes(y)[6]);
    assert(le_bytes(x)[6] == ((x >> 48u64) & 0xffu64) as u8);
    assert(le_bytes(y)[6] == ((y >> 48u64) & 0xffu64) as u8);
    assert(le_bytes(x)[7] == le_bytes(y)[7]);
    assert(le_bytes(x)[7] == ((x >> 56u64) & 0xffu64) as u8);
    assert(le_bytes(y)[7] == ((y >> 56u64) & 0xffu64) as u8);
    assert(x == y) by (bit_vector)
        requires
            ((x >> 0u64) & 0xffu64) as u8 == ((y >> 0u64) & 0xffu64) as u8,
            ((x >> 8u64) & 0xffu64) as u8 == ((y >> 8u64) & 0xffu64) as u8,
            ((x >> 16u64) & 0xffu64) as u8 == ((y >> 16u64) & 0xffu64) as u8,
            ((x >> 24u64) & 0xffu64) as u8 == ((y >> 24u64) & 0xffu64) as u8,
            ((x >> 32u64) & 0xffu64) as u8 == ((y >> 32u64) & 0xffu64) as u8,
            ((x >> 40u64) & 0xffu64) as u8 == ((y >> 40u64) & 0xffu64) as u8,
            ((x >> 48u64) & 0xffu64) as u8 == ((y >> 48u64) & 0xffu64) as u8,
            ((x >> 56u64) & 0xffu64) as u8 == ((y >> 56u64) & 0xffu64) as u8,
    ;
}

/// Appends the eight little-endian bytes of `x`.
fn write_u64(out: &mut Vec<u8>, x: u64)
    ensures
        final(out)@ == old(out)@ + le_bytes(x),
{
    let ghost start = out@;
    let mut i: u64 = 0;
    while i < 8
        invariant
            i <= 8,
            out@ == start + le_bytes(x).take(i as int),
        decreases 8 - i,
    {
        out.push(((x >> (8 * i)) & 0xff) as u8);
        proof {
            assert(le_bytes(x).take(i + 1) =~= le_bytes(x).take(i as int).push(
                ((x >> ((8 * i) as u64)) & 0xffu64) as u8,
            ));
        }
        i += 1;
    }
    assert(le_bytes(x).take(8) =~= le_bytes(x));
}

/// The integer whose little-endian bytes stand at `pos`.
fn read_u64(bytes: &Vec<u8>, pos: usize) -> (r: u64)
    requires
        pos + 8 <= bytes@.len(),
    ensures
        le_bytes(r) == bytes@.subrange(pos as int, pos + 8),
{
    let len = bytes.len();
    assert(pos + 8 <= len);
    let b0 = bytes[pos];
    let b1 = bytes[pos + 1];
    let b2 = bytes[pos + 2];
    let b3 = bytes[pos + 3];
    let b4 = bytes[pos + 4];
    let b5 = bytes[pos + 5];
    let b6 = bytes[pos + 6];
    let b7 = bytes[pos + 7];
    let r = (b0 as u64) | ((b1 as u64) << 8u64) | ((b2 as u64) << 16u64) | ((b3 as u64) << 24u64)
        | ((b4 as u64) << 32u64) | ((b5 as u64) << 40u64) | ((b6 as u64) << 48u64) | ((b7 as u64)
        << 56u64);
    proof {
        lemma_le_bytes_of_parts(b0, b1, b2, b3, b4, b5, b6, b7, r);
        assert(bytes@.subrange(pos as int, pos + 8) =~= seq![b0, b1, b2, b3, b4, b5, b6, b7]);
    }
    r
}

proof fn lemma_words_bytes_len(s: Seq<u64>)
    ensures
        words_bytes(s).len() == 8 * s.len(),
    decreases s.len(),
{
    if s.len() > 0 {
        lemma_words_bytes_len(s.drop_last());
    }
}

proof fn lemma_changes_bytes_len(s: Seq<(usize, bool)>)
    ensures
        changes_bytes(s).len() == 9 * s.len(),
    decreases s.len(),
{
    if s.len() > 0 {
        lemma_changes_bytes_len(s.drop_last());
    }
}

proof fn lemma_words_bytes_injective(s: Seq<u64>, t: Seq<u64>)
    requires
        s.len() == t.len(),
        words_bytes(s) == words_bytes(t),
    ensures
        s == t,
    decreases s.len(),
{
    if s.len() > 0 {
        let (a, b) = (s.drop_last(), t.drop_last());
        lemma_words_bytes_len(a);
        lemma_words_bytes_len(b);
        let n: int = 8 * a.len() as int;
        assert(words_bytes(a) =~= words_bytes(s).subrange(0, n));
        assert(words_bytes(b) =~= words_bytes(t).subrange(0, n));
        assert(le_bytes(s.last()) =~= words_bytes(s).subrange(n, n + 8));
        assert(le_bytes(t.last()) =~= words_bytes(t).subrange(n, n + 8));
        lemma_words_bytes_injective(a, b);
        lemma_le_bytes_injective(s.last(), t.last());
        assert(s =~= a.push(s.last()));
        assert(t =~= b.push(t.last()));
    }
}

proof fn lemma_changes_bytes_injective(s: Seq<(usize, bool)>, t: Seq<(usize, bool)>)
    requires
        s.len() == t.len(),
        changes_bytes(s) == changes_bytes(t),
    ensures
        s == t,
    decreases s.len(),
{
    if s.len() > 0 {
        let (a, b) = (s.drop_last(), t.drop_last());
        lemma_changes_bytes_len(a);
        lemma_changes_bytes_len(b);
        let n: int = 9 * a.len() as int;
        assert(changes_bytes(a) =~= changes_bytes(s).subrange(0, n));
        assert(changes_bytes(b) =~= changes_bytes(t).subrange(0, n));
        assert(le_bytes(s.last().0 as u64) =~= changes_bytes(s).subrange(n, n + 8));
        assert(le_bytes(t.last().0 as u64) =~= changes_bytes(t).subrange(n, n + 8));
        assert(changes_bytes(s)[n + 8] == bool_byte(s.last().1));
        assert(changes_bytes(t)[n + 8] == bool_byte(t.last().1));
        lemma_changes_bytes_injective(a, b);
        lemma_le_bytes_injective(s.last().0 as u64, t.last().0 as u64);
        assert(s =~= a.push(s.last()));
        assert(t =~= b.push(t.last()));
    }
}

proof fn lemma_changes_bytes_at(s: Seq<(usize, bool)>, k: int)
    requires
        0 <= k < s.len(),
    ensures
        changes_bytes(s).subrange(9 * k, 9 * k + 9) == change_bytes(s[k]),
    decreases s.len(),
{
    let a = s.drop_last();
    lemma_changes_bytes_len(a);
    if k < s.len() - 1 {
        lemma_changes_bytes_at(a, k);
        assert(changes_bytes(s).subrange(9 * k, 9 * k + 9) =~= changes_bytes(a).subrange(
            9 * k,
            9 * k + 9,
        ));
    } else {
        assert(changes_bytes(s).subrange(9 * k, 9 * k + 9) =~= change_bytes(s[k]));
    }
}

/// The layout of an encoded frame: the tag, then version, timestamp and
/// payload length at fixed offsets, then the payload.
proof fn lemma_encoding_layout(f: FrameModel)
    ensures
        ({
            let e = spec_encode(f);
            &&& e.len() >= 28
            &&& e[0] == (if f is Key {
                0u8
            } else {
                1u8
            })
            &&& e[1] == 0 && e[2] == 0 && e[3] == 0
            &&& e.subrange(4, 12) == le_bytes(f.version() as u64)
            &&& e.subrange(12, 20) == le_bytes(f.timestamp())
            &&& f is Key ==> e.subrange(20, 28) == le_bytes(f->Key_data.len() as u64)
            &&& f is Key ==> e.len() == 28 + 8 * f->Key_data.len()
            &&& f is Key ==> e.subrange(28, e.len() as int) == words_bytes(f->Key_data)
            &&& f is Delta ==> e.subrange(20, 28) == le_bytes(f->Delta_changes.len() as u64)
            &&& f is Delta ==> e.len() == 28 + 9 * f->Delta_changes.len()
            &&& f is Delta ==> e.subrange(28, e.len() as int) == changes_bytes(f->Delta_changes)
        }),
{
    let e = spec_encode(f);
    match f {
        FrameModel::Key { version, timestamp, data } => {
            lemma_words_bytes_len(data);
            let h = header_bytes(0, version, timestamp, data.len());
            assert(e.subrange(4, 12) =~= le_bytes(version as u64));
            assert(e.subrange(12, 20) =~= le_bytes(timestamp));
            assert(e.subrange(20, 28) =~= le_bytes(data.len() as u64));
            assert(e.subrange(28, e.len() as int) =~= words_bytes(data));
        },
        FrameModel::Delta { version, timestamp, changes } => {
            lemma_changes_bytes_len(changes);
            assert(e.subrange(4, 12) =~= le_bytes(version as u64));
            assert(e.subrange(12, 20) =~= le_bytes(timestamp));
            assert(e.subrange(20, 28) =~= le_bytes(changes.len() as u64));
            assert(e.subrange(28, e.len() as int) =~= changes_bytes(changes));
        },
    }
}

/// Encoding loses nothing: two frames with the same encoding are the same
/// frame. So decoding the encoding of a frame gives that frame back.
pub proof fn lemma_round_trip(f: FrameModel, g: FrameModel)
    requires
        encodable(f),
        encodable(g),
        spec_encode(f) == spec_encode(g),
    ensures
        f == g,
{
    lemma_encoding_layout(f);
    lemma_encoding_layout(g);
    let e = spec_encode(f);
    lemma_le_bytes_injective(f.version() as u64, g.version() as u64);
    lemma_le_bytes_injective(f.timestamp(), g.timestamp());
    match (f, g) {
        (FrameModel::Key { data: a, .. }, FrameModel::Key { data: b, .. }) => {
            lemma_le_bytes_injective(a.len() as u64, b.len() as u64);
            lemma_words_bytes_injective(a, b);
        },
        (FrameModel::Delta { changes: a, .. }, FrameModel::Delta { changes: b, .. }) => {
            lemma_le_bytes_injective(a.len() as u64, b.len() as u64);
            lemma_changes_bytes_injective(a, b);
        },
        _ => {
            assert(e[0] == spec_encode(g)[0]);
        },
    }
}

/// The wire encoding of `frame`.
pub fn encode(frame: &Frame) -> (r: Vec<u8>)
    ensures
        r@ == spec_encode(frame@),
{
    let mut out: Vec<u8> = Vec::new();
    match frame {
        Frame::IFrame { version, timestamp, data } => {
            out.push(0);
            out.push(0);
            out.push(0);
            out.push(0);
            write_u64(&mut out, *version as u64);
            write_u64(&mut out, *timestamp);
            write_u64(&mut out, data.len() as u64);
            let ghost head = out@;
            assert(head =~= header_bytes(0, *version, *timestamp, data@.len()));
            let mut k: usize = 0;
            while k < data.len()
                invariant
                    k <= data@.len(),
                    out@ == head + words_bytes(data@.take(k as int)),
                decreases data@.len() - k,
            {
                write_u64(&mut out, data[k]);
                proof {
                    assert(data@.take(k + 1).drop_last() =~= data@.take(k as int));
                    assert(head + words_bytes(data@.take(k + 1)) =~= head + words_bytes(
                        data@.take(k as int),
                    ) + le_bytes(data@[k as int]));
                }
                k += 1;
            }
            assert(data@.take(k as int) =~= data@);
        },
        Frame::PFrame { version, timestamp, changes } => {
            out.push(1);
            out.push(0);
            out.push(0);
            out.push(0);
            write_u64(&mut out, *version as u64);
            write_u64(&mut out, *timestamp);
            write_u64(&mut out, changes.len() as u64);
            let ghost head = out@;
            assert(head =~= header_bytes(1, *version, *timestamp, changes@.len()));
            let mut k: usize = 0;
            while k < changes.len()
                invariant
                    k <= changes@.len(),
                    out@ == head + changes_bytes(changes@.take(k as int)),
                decreases changes@.len() - k,
            {
                let (index, bit) = changes[k];
                write_u64(&mut out, index as u64);
                out.push(if bit {
                    1u8
                } else {
                    0u8
                });
                proof {
                    assert(changes@.take(k + 1).drop_last() =~= changes@.take(k as int));
                    assert(head + changes_bytes(changes@.take(k + 1)) =~= head + changes_bytes(
                        changes@.take(k as int),
                    ) + change_bytes(changes@[k as int]));
                }
                k += 1;
            }
            assert(changes@.take(k as int) =~= changes@);
        },
    }
    out
}

/// The frame whose encoding is `bytes`, if there is one.
pub fn decode(bytes: &Vec<u8>) -> (r: Option<Frame>)
    ensures
        r matches Some(g) ==> spec_encode(g@) == bytes@,
        forall|f: FrameModel|
            encodable(f) && #[trigger] spec_encode(f) == bytes@ ==> (r matches Some(g) && g@ == f),
{
    let n = bytes.len();
    if n < 28 {
        proof {
            assert forall|f: FrameModel| encodable(f) && #[trigger] spec_encode(f) == bytes@ implies false by {
                lemma_encoding_layout(f);
            }
        }
        return None;
    }
    let tag = bytes[0];
    if tag > 1 || bytes[1] != 0 || bytes[2] != 0 || bytes[3] != 0 {
        proof {
            assert forall|f: FrameModel| encodable(f) && #[trigger] spec_encode(f) == bytes@ implies false by {
                lemma_encoding_layout(f);
            }
        }
        return None;
    }
    let version = read_u64(bytes, 4);
    if version > usize::MAX as u64 {
        proof {
            assert forall|f: FrameModel| encodable(f) && #[trigger] spec_encode(f) == bytes@ implies false by {
                lemma_encoding_layout(f);
                lemma_le_bytes_injective(version, f.version() as u64);
            }
        }
        return None;
    }
    let timestamp = read_u64(bytes, 12);
    let count = read_u64(bytes, 20);
    let rest = n - 28;
    if tag == 0 {
        if rest % 8 != 0 || (rest / 8) as u64 != count {
            proof {
                assert forall|f: FrameModel| encodable(f) && #[trigger] spec_encode(f) == bytes@ implies false by {
                    lemma_encoding_layout(f);
                    let c = f->Key_data.len();
                    lemma_le_bytes_injective(count, c as u64);
                    assert((8 * c) % 8 == 0 && (8 * c) / 8 == c) by (nonlinear_arith);
                }
            }
            return None;
        }
        let m = rest / 8;
        let mut data: Vec<u64> = Vec::new();
        let mut k: usize = 0;
        while k < m
            invariant
                n == bytes@.len(),
                rest == n - 28,
                m == rest / 8,
                rest % 8 == 0,
                k <= m,
                data@.len() == k,
                bytes@.subrange(28, 28 + 8 * k) == words_bytes(data@),
            decreases m - k,
        {
            assert(28 + 8 * k + 8 <= n) by (nonlinear_arith)
                requires
                    k < m,
                    m == rest / 8,
                    rest % 8 == 0,
                    rest == n - 28,
            ;
            let w = read_u64(bytes, 28 + 8 * k);
            let ghost prev = data@;
            data.push(w);
            proof {
                assert(data@.drop_last() =~= prev);
                assert(bytes@.subrange(28, 28 + 8 * (k + 1)) =~= bytes@.subrange(28, 28 + 8 * k)
                    + bytes@.subrange(28 + 8 * k, 28 + 8 * k + 8));
            }
            k += 1;
        }
        let frame = Frame::IFrame { version: version as usize, timestamp, data };
        proof {
            assert(8 * m == rest) by (nonlinear_arith)
                requires
                    m == rest / 8,
                    rest % 8 == 0,
            ;
            assert(bytes@ =~= bytes@.subrange(0, 4) + bytes@.subrange(4, 12) + bytes@.subrange(12, 20)
                + bytes@.subrange(20, 28) + bytes@.subrange(28, n as int));
            assert(bytes@.subrange(0, 4) =~= seq![0u8, 0u8, 0u8, 0u8]);
            assert(spec_encode(frame@) =~= bytes@);
            assert forall|f: FrameModel| encodable(f) && #[trigger] spec_encode(f) == bytes@ implies frame@ == f by {
                lemma_round_trip(frame@, f);
            }
        }
        Some(frame)
    } else {
        if rest % 9 != 0 || (rest / 9) as u64 != count {
            proof {
                assert forall|f: FrameModel| encodable(f) && #[trigger] spec_encode(f) == bytes@ implies false by {
                    lemma_encoding_layout(f);
                    let c = f->Delta_changes.len();
                    lemma_le_bytes_injective(count, c as u64);
                    assert((9 * c) % 9 == 0 && (9 * c) / 9 == c) by (nonlinear_arith);
                }
            }
            return None;
        }
        let m = rest / 9;
        proof {
            assert forall|f: FrameModel| encodable(f) && #[trigger] spec_encode(f) == bytes@ implies f is Delta
                && f->Delta_changes.len() == m by {
                lemma_encoding_layout(f);
                if f is Delta {
                    let c = f->Delta_changes.len();
                    lemma_le_bytes_injective(count, c as u64);
                    assert((9 * c) / 9 == c) by (nonlinear_arith);
                }
            }
        }
        let mut changes: Vec<(usize, bool)> = Vec::new();
        let mut k: usize = 0;
        while k < m
            invariant
                n == bytes@.len(),
                rest == n - 28,
                m == rest / 9,
                rest % 9 == 0,
                count == m,
                tag == 1,
                k <= m,
                changes@.len() == k,
                bytes@.subrange(28, 28 + 9 * k) == changes_bytes(changes@),
                forall|f: FrameModel|
                    encodable(f) && #[trigger] spec_encode(f) == bytes@ ==> f is Delta
                        && f->Delta_changes.len() == m,
            decreases m - k,
        {
            assert(28 + 9 * k + 9 <= n) by (nonlinear_arith)
                requires
                    k < m,
                    m == rest / 9,
                    rest % 9 == 0,
                    rest == n - 28,
            ;
            let pos = 28 + 9 * k;
            let index = read_u64(bytes, pos);
            let b = bytes[pos + 8];
            if index > usize::MAX as u64 || b > 1 {
                proof {
                    assert forall|f: FrameModel| encodable(f) && #[trigger] spec_encode(f) == bytes@ implies false by {
                        lemma_encoding_layout(f);
                        let cs = f->Delta_changes;
                        lemma_changes_bytes_at(cs, k as int);
                        let body = bytes@.subrange(28, n as int);
                        assert(body == changes_bytes(cs));
                        assert(bytes@.subrange(pos as int, pos + 9) =~= body.subrange(
                            9 * k,
                            9 * k + 9,
                        ));
                        assert(b == bytes@.subrange(pos as int, pos + 9)[8]);
                        assert(b == bool_byte(cs[k as int].1));
                        assert(bytes@.subrange(pos as int, pos + 8) =~= le_bytes(cs[k as int].0 as u64));
                        lemma_le_bytes_injective(index, cs[k as int].0 as u64);
                    }
                }
                return None;
            }
            let c = (index as usize, b == 1);
            let ghost prev = changes@;
            changes.push(c);
            proof {
                assert(changes@.drop_last() =~= prev);
                assert(le_bytes(index) == bytes@.subrange(pos as int, pos + 8));
                assert(bytes@.subrange(28, 28 + 9 * (k + 1)) =~= bytes@.subrange(28, 28 + 9 * k)
                    + change_bytes(c));
            }
            k += 1;
        }
        let frame = Frame::PFrame { version: version as usize, timestamp, changes };
        proof {
            assert(9 * m == rest) by (nonlinear_arith)
                requires
                    m == rest / 9,
                    rest % 9 == 0,
            ;
            assert(bytes@ =~= bytes@.subrange(0, 4) + bytes@.subrange(4, 12) + bytes@.subrange(12, 20)
                + bytes@.subrange(20, 28) + bytes@.subrange(28, n as int));
            assert(bytes@.subrange(0, 4) =~= seq![1u8, 0u8, 0u8, 0u8]);
            assert(spec_encode(frame@) =~= bytes@);
            assert forall|f: FrameModel| encodable(f) && #[trigger] spec_encode(f) == bytes@ implies frame@ == f by {
                lemma_round_trip(frame@, f);
            }
        }
        Some(frame)
    }
}

} // verus!
