//! What the framing functions promise together: frames read back as they
//! were written, bytes re-read from frames are the bytes that were read, and
//! the frames found in a stream do not depend on how the stream was cut into
//! reads.
use crate::tcp::protocol::{
    be_u16, be_u32, chunk_frames, decodable, decode, encode_block, encode_frames, encode_string,
    frame_at, lemma_split_chunks_shape, next_chunk_len, split_chunks, takes_frame, u16_be, u32_be,
    window, FrameView, CHUNK_LEN, HEADER_LEN,
};
use vstd::prelude::*;

verus! {

/// Reading two bytes written by `u16_be` gives the number back.
pub proof fn law_u16_round_trip(x: u16)
    ensures
        be_u16(u16_be(x)[0], u16_be(x)[1]) == x,
{
}

/// Reading four bytes written by `u32_be` gives the number back.
pub proof fn law_u32_round_trip(x: u32)
    ensures
        be_u32(u32_be(x)[0], u32_be(x)[1], u32_be(x)[2], u32_be(x)[3]) == x,
{
}

/// Writing two bytes read by `be_u16` gives the bytes back.
pub proof fn law_u16_bytes_round_trip(hi: u8, lo: u8)
    ensures
        u16_be(be_u16(hi, lo)) == seq![hi, lo],
{
    assert(u16_be(be_u16(hi, lo)) =~= seq![hi, lo]);
}

/// Writing four bytes read by `be_u32` gives the bytes back.
pub proof fn law_u32_bytes_round_trip(b0: u8, b1: u8, b2: u8, b3: u8)
    ensures
        u32_be(be_u32(b0, b1, b2, b3)) == seq![b0, b1, b2, b3],
{
    let x = be_u32(b0, b1, b2, b3);
    assert((x / 0x100_0000) as u8 == b0) by (bit_vector)
        requires
            x == (b0 * 0x100_0000 + b1 * 0x1_0000 + b2 * 0x100 + b3) as u32,
    ;
    assert(((x / 0x1_0000) % 256) as u8 == b1) by (bit_vector)
        requires
            x == (b0 * 0x100_0000 + b1 * 0x1_0000 + b2 * 0x100 + b3) as u32,
    ;
    assert(((x / 0x100) % 256) as u8 == b2) by (bit_vector)
        requires
            x == (b0 * 0x100_0000 + b1 * 0x1_0000 + b2 * 0x100 + b3) as u32,
    ;
    assert((x % 256) as u8 == b3) by (bit_vector)
        requires
            x == (b0 * 0x100_0000 + b1 * 0x1_0000 + b2 * 0x100 + b3) as u32,
    ;
    assert(u32_be(x) =~= seq![b0, b1, b2, b3]);
}

/// A frame whose size fits its size byte is read back whole from the front
/// of a stream, and reading goes on right after it.
pub proof fn law_block_read_back(msg: Seq<u8>, id: u16, flags: u8, addr: u32, port: u16, rest: Seq<u8>)
    requires
        msg.len() + HEADER_LEN < 256,
    ensures
        decode(encode_block(msg, id, flags, addr, port) + rest) == (
            seq![(msg, id, flags, addr, port)] + decode(rest).0,
            (msg.len() + HEADER_LEN) as nat + decode(rest).1,
        ),
{
    let b = encode_block(msg, id, flags, addr, port) + rest;
    let size = msg.len() + HEADER_LEN;
    assert(b[0] == size);
    assert(takes_frame(b));
    law_u16_round_trip(id);
    law_u32_round_trip(addr);
    law_u16_round_trip(port);
    assert(b.subrange(HEADER_LEN as int, size as int) =~= msg);
    assert(frame_at(b) == (msg, id, flags, addr, port));
    assert(b.skip(size as int) =~= rest);
    assert(decode(b).0 =~= seq![(msg, id, flags, addr, port)] + decode(rest).0);
}

/// Frames written one after the other, none of them with more than
/// `256 - HEADER_LEN - 1` payload bytes, are read back in order, and reading
/// goes on right after them.
pub proof fn law_frames_read_back(fs: Seq<FrameView>, rest: Seq<u8>)
    requires
        forall|i: int| 0 <= i < fs.len() ==> #[trigger] fs[i].0.len() + HEADER_LEN < 256,
    ensures
        decode(encode_frames(fs) + rest) == (fs + decode(rest).0, encode_frames(fs).len()
            + decode(rest).1),
    decreases fs.len(),
{
    if fs.len() == 0 {
        assert(encode_frames(fs) =~= Seq::<u8>::empty());
        assert(encode_frames(fs) + rest =~= rest);
        assert(fs + decode(rest).0 =~= decode(rest).0);
    } else {
        let f = fs[0];
        let tail = fs.drop_first();
        assert forall|i: int| 0 <= i < tail.len() implies #[trigger] tail[i].0.len() + HEADER_LEN
            < 256 by {
            assert(tail[i] == fs[i + 1]);
        }
        law_frames_read_back(tail, rest);
        let m = fs.map_values(|f: FrameView| encode_block(f.0, f.1, f.2, f.3, f.4));
        assert(m.drop_first() =~= tail.map_values(
            |f: FrameView| encode_block(f.0, f.1, f.2, f.3, f.4),
        ));
        assert(encode_frames(fs) == encode_block(f.0, f.1, f.2, f.3, f.4) + encode_frames(tail));
        assert(encode_frames(fs) + rest =~= encode_block(f.0, f.1, f.2, f.3, f.4) + (
        encode_frames(tail) + rest));
        law_block_read_back(f.0, f.1, f.2, f.3, f.4, encode_frames(tail) + rest);
        assert(fs =~= seq![f] + tail);
        assert(decode(encode_frames(fs) + rest).0 =~= fs + decode(rest).0);
    }
}

proof fn lemma_frame_rewrite(s: Seq<u8>)
    requires
        takes_frame(s),
    ensures
        encode_block(frame_at(s).0, frame_at(s).1, frame_at(s).2, frame_at(s).3, frame_at(s).4)
            == s.take(s[0] as int),
{
    let f = frame_at(s);
    law_u16_bytes_round_trip(s[1], s[2]);
    law_u32_bytes_round_trip(s[4], s[5], s[6], s[7]);
    law_u16_bytes_round_trip(s[8], s[9]);
    assert(((f.0.len() + HEADER_LEN) % 256) as u8 == s[0]);
    let e = encode_block(f.0, f.1, f.2, f.3, f.4);
    assert(e.len() == s[0]);
    assert forall|i: int| 0 <= i < e.len() implies e[i] == s[i] by {
        if i < 10 {
            assert(u16_be(f.1) == seq![s[1], s[2]]);
            assert(u32_be(f.3) == seq![s[4], s[5], s[6], s[7]]);
            assert(u16_be(f.4) == seq![s[8], s[9]]);
        }
    }
    assert(e =~= s.take(s[0] as int));
}

proof fn lemma_encode_frames_cons(f: FrameView, fs: Seq<FrameView>)
    ensures
        encode_frames(seq![f] + fs) == encode_block(f.0, f.1, f.2, f.3, f.4) + encode_frames(fs),
{
    let all = seq![f] + fs;
    let m = all.map_values(|f: FrameView| encode_block(f.0, f.1, f.2, f.3, f.4));
    assert(m.drop_first() =~= fs.map_values(|f: FrameView| encode_block(f.0, f.1, f.2, f.3, f.4)));
    assert(m[0] == encode_block(f.0, f.1, f.2, f.3, f.4));
}

/// The frames that are read from a stream, written again, give back the bytes
/// that were read.
pub proof fn law_read_frames_rewrite(s: Seq<u8>)
    ensures
        encode_frames(decode(s).0) == s.take(decode(s).1 as int),
    decreases s.len(),
{
    if takes_frame(s) {
        let size = s[0] as int;
        let tail = s.skip(size);
        let n = decode(tail).1;
        law_read_frames_rewrite(tail);
        law_remainder_starts_no_frame(tail);
        lemma_frame_rewrite(s);
        let f = frame_at(s);
        assert(decode(s).0 == seq![f] + decode(tail).0);
        lemma_encode_frames_cons(f, decode(tail).0);
        assert(s.take(size) + tail.take(n as int) =~= s.take(size + n));
    } else {
        assert(encode_frames(decode(s).0) =~= s.take(0));
    }
}

/// What is left after the frames read from a stream starts no whole frame.
pub proof fn law_remainder_starts_no_frame(s: Seq<u8>)
    ensures
        decode(s).1 <= s.len(),
        !takes_frame(s.skip(decode(s).1 as int)),
        decode(s.skip(decode(s).1 as int)) == (Seq::<FrameView>::empty(), 0nat),
    decreases s.len(),
{
    if takes_frame(s) {
        let size = s[0] as int;
        let tail = s.skip(size);
        law_remainder_starts_no_frame(tail);
        assert(s.skip(decode(s).1 as int) =~= tail.skip(decode(tail).1 as int));
    } else {
        assert(s.skip(0) =~= s);
    }
}

/// Reading a stream in two parts, carrying what the first read leaves over
/// into the second, finds the same frames as reading it in one go.
pub proof fn law_split_reads(a: Seq<u8>, b: Seq<u8>)
    ensures
        ({
            let first = decode(a);
            let second = decode(a.skip(first.1 as int) + b);
            decode(a + b) == (first.0 + second.0, first.1 + second.1)
        }),
    decreases a.len(),
{
    if takes_frame(a) {
        let size = a[0] as int;
        let tail = a.skip(size);
        law_split_reads(tail, b);
        law_remainder_starts_no_frame(tail);
        let ab = a + b;
        assert(ab[0] == a[0]);
        assert(takes_frame(ab));
        assert(ab.subrange(HEADER_LEN as int, size) =~= a.subrange(HEADER_LEN as int, size));
        assert(frame_at(ab) == frame_at(a));
        assert(ab.skip(size) =~= tail + b);
        assert(decode(a).1 == size + decode(tail).1);
        assert(a.skip(decode(a).1 as int) =~= tail.skip(decode(tail).1 as int));
        let second = decode(a.skip(decode(a).1 as int) + b);
        assert(decode(ab).0 =~= decode(a).0 + second.0);
    } else {
        assert(a.skip(0) =~= a);
        assert(decode(a).0 + decode(a + b).0 =~= decode(a + b).0);
    }
}

proof fn lemma_split_chunks_flatten(d: Seq<u8>)
    ensures
        split_chunks(d).flatten() == d,
    decreases d.len(),
{
    if d.len() > 0 {
        let k = next_chunk_len(d);
        lemma_split_chunks_flatten(d.skip(k));
        let c = split_chunks(d);
        assert(c.drop_first() =~= split_chunks(d.skip(k)));
        assert(c.flatten() =~= d);
    }
}

/// The frames that `code_string` builds for `d` are read back as its chunks,
/// each with the header fields it was sent with; the chunks put together are
/// `d`, and nothing is left over.
pub proof fn law_code_string_read_back(d: Seq<u8>, id: u16, flags: u8, addr: u32, port: u16)
    ensures
        decode(encode_string(d, id, flags, addr, port).flatten()) == (
            chunk_frames(d, id, flags, addr, port),
            encode_string(d, id, flags, addr, port).flatten().len(),
        ),
        split_chunks(d).flatten() == d,
{
    let fs = chunk_frames(d, id, flags, addr, port);
    lemma_split_chunks_shape(d);
    lemma_split_chunks_flatten(d);
    assert(fs.map_values(|f: FrameView| encode_block(f.0, f.1, f.2, f.3, f.4))
        =~= encode_string(d, id, flags, addr, port));
    assert forall|i: int| 0 <= i < fs.len() implies #[trigger] fs[i].0.len() + HEADER_LEN < 256 by {
        assert(fs[i].0 == split_chunks(d)[i]);
    }
    law_frames_read_back(fs, Seq::empty());
    assert(encode_frames(fs) + Seq::<u8>::empty() =~= encode_frames(fs));
    assert(fs + Seq::<FrameView>::empty() =~= fs);
}

/// A stream of frames written by the library, none of them with more than
/// `256 - HEADER_LEN - 1` payload bytes, can be handed to `decode_string`.
pub proof fn law_written_frames_decodable(fs: Seq<FrameView>)
    requires
        forall|i: int| 0 <= i < fs.len() ==> #[trigger] fs[i].0.len() + HEADER_LEN < 256,
    ensures
        decodable(encode_frames(fs), encode_frames(fs).len() as int),
    decreases fs.len(),
{
    let e = encode_frames(fs);
    assert(window(e, e.len() as int) =~= e);
    if fs.len() > 0 {
        let f = fs[0];
        let tail = fs.drop_first();
        assert forall|i: int| 0 <= i < tail.len() implies #[trigger] tail[i].0.len() + HEADER_LEN
            < 256 by {
            assert(tail[i] == fs[i + 1]);
        }
        law_written_frames_decodable(tail);
        assert(window(encode_frames(tail), encode_frames(tail).len() as int) =~= encode_frames(tail));
        let m = fs.map_values(|f: FrameView| encode_block(f.0, f.1, f.2, f.3, f.4));
        assert(m.drop_first() =~= tail.map_values(
            |f: FrameView| encode_block(f.0, f.1, f.2, f.3, f.4),
        ));
        let b = encode_block(f.0, f.1, f.2, f.3, f.4);
        assert(e == b + encode_frames(tail));
        assert(e[0] == b[0]);
        assert(e.skip(b.len() as int) =~= encode_frames(tail));
    }
}

/// A reader limited to `l` bytes looks at exactly the first `l` bytes of the
/// data when there are that many, and at all of them otherwise; in particular
/// a frame that ends exactly at the limit is within what it reads.
pub proof fn law_window_is_prefix(s: Seq<u8>, l: int)
    ensures
        0 <= l <= s.len() ==> window(s, l) == s.take(l),
        l > s.len() ==> window(s, l) == s,
{
    assert(l > s.len() ==> window(s, l) =~= s);
}

/// Chunk `i` of `d` is the bytes of `d` from `CHUNK_LEN * i` up to
/// `CHUNK_LEN * i + CHUNK_LEN`, or to the end of `d` for the last chunk: every
/// chunk but the last is full.
pub proof fn law_chunk_positions(d: Seq<u8>)
    ensures
        forall|i: int|
            0 <= i < split_chunks(d).len() ==> #[trigger] split_chunks(d)[i] == d.subrange(
                CHUNK_LEN * i,
                if CHUNK_LEN * i + CHUNK_LEN < d.len() { CHUNK_LEN * i + CHUNK_LEN } else { d.len() as int },
            ),
    decreases d.len(),
{
    if d.len() > 0 {
        let k = next_chunk_len(d);
        let r = d.skip(k);
        law_chunk_positions(r);
        lemma_split_chunks_shape(d);
        lemma_split_chunks_shape(r);
        assert forall|i: int| 0 <= i < split_chunks(d).len() implies #[trigger] split_chunks(d)[i]
            == d.subrange(
            CHUNK_LEN * i,
            if CHUNK_LEN * i + CHUNK_LEN < d.len() { CHUNK_LEN * i + CHUNK_LEN } else { d.len() as int },
        ) by {
            if i == 0 {
                assert(d.take(k) =~= d.subrange(
                    0,
                    if CHUNK_LEN < d.len() { CHUNK_LEN as int } else { d.len() as int },
                ));
            } else {
                assert(split_chunks(d)[i] == split_chunks(r)[i - 1]);
                assert(r.len() > 0);
                assert(k == CHUNK_LEN);
                let hi = if CHUNK_LEN * i + CHUNK_LEN < d.len() { CHUNK_LEN * i + CHUNK_LEN } else { d.len() as int };
                let rhi = if CHUNK_LEN * (i - 1) + CHUNK_LEN < r.len() { CHUNK_LEN * (i - 1) + CHUNK_LEN } else { r.len() as int };
                assert(CHUNK_LEN * i < d.len());
                assert(rhi + k == hi);
                assert(r.subrange(CHUNK_LEN * (i - 1), rhi) =~= d.subrange(CHUNK_LEN * i, hi));
            }
        }
    }
}

} // verus!
