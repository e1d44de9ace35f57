//! The wire format of the tunnel.
//!
//! | field | size   | msg id  | flags  | addr    | port    | msg        |
//! |-------|--------|---------|--------|---------|---------|------------|
//! | bytes | 1      | 2       | 1      | 4       | 2       | rest       |
//!
//! `size` is the length of the whole frame, header included, kept modulo 256;
//! the integers are big-endian.
use vstd::prelude::*;

verus! {

/// Bytes taken by the header of a frame: size, message id, flags, address, port.
pub const HEADER_LEN: usize = 10;

/// Largest payload that `code_string` puts into one frame.
pub const CHUNK_LEN: usize = 200;

/// The two big-endian bytes of `x`.
pub open spec fn u16_be(x: u16) -> Seq<u8> {
    seq![(x / 256) as u8, (x % 256) as u8]
}

/// The four big-endian bytes of `x`.
pub open spec fn u32_be(x: u32) -> Seq<u8> {
    seq![
        (x / 0x100_0000) as u8,
        ((x / 0x1_0000) % 256) as u8,
        ((x / 0x100) % 256) as u8,
        (x % 256) as u8,
    ]
}

/// The value of two big-endian bytes.
pub open spec fn be_u16(hi: u8, lo: u8) -> u16 {
    (hi * 256 + lo) as u16
}

/// The value of four big-endian bytes.
pub open spec fn be_u32(b0: u8, b1: u8, b2: u8, b3: u8) -> u32 {
    (b0 * 0x100_0000 + b1 * 0x1_0000 + b2 * 0x100 + b3) as u32
}

/// The frame that carries `msg` with the given header fields.
pub open spec fn encode_block(msg: Seq<u8>, id: u16, flags: u8, addr: u32, port: u16) -> Seq<u8> {
    seq![((msg.len() + HEADER_LEN) % 256) as u8] + u16_be(id) + seq![flags] + u32_be(addr)
        + u16_be(port) + msg
}

/// How many bytes of `d` go into the next chunk.
pub open spec fn next_chunk_len(d: Seq<u8>) -> int {
    if d.len() < CHUNK_LEN { d.len() as int } else { CHUNK_LEN as int }
}

/// `d` cut, front to back, into chunks of `CHUNK_LEN` bytes; the last one
/// takes what is left.
pub open spec fn split_chunks(d: Seq<u8>) -> Seq<Seq<u8>>
    decreases d.len(),
{
    if d.len() == 0 {
        Seq::empty()
    } else {
        seq![d.take(next_chunk_len(d))] + split_chunks(d.skip(next_chunk_len(d)))
    }
}

/// The frames that carry `d`, one per chunk, all with the same header fields.
pub open spec fn encode_string(d: Seq<u8>, id: u16, flags: u8, addr: u32, port: u16) -> Seq<
    Seq<u8>,
> {
    split_chunks(d).map_values(|c: Seq<u8>| encode_block(c, id, flags, addr, port))
}

/// A decoded frame as the contracts see it: payload, message id, flags,
/// address, port.
pub type FrameView = (Seq<u8>, u16, u8, u32, u16);

/// The fields of the frame that `s` starts with (size at `s[0]`).
pub open spec fn frame_at(s: Seq<u8>) -> FrameView {
    (
        s.subrange(HEADER_LEN as int, s[0] as int),
        be_u16(s[1], s[2]),
        s[3],
        be_u32(s[4], s[5], s[6], s[7]),
        be_u16(s[8], s[9]),
    )
}

/// The frames that carry `fs`, one after the other.
pub open spec fn encode_frames(fs: Seq<FrameView>) -> Seq<u8> {
    fs.map_values(|f: FrameView| encode_block(f.0, f.1, f.2, f.3, f.4)).flatten()
}

/// The frames that `code_string` builds for `d`, as `decode` reads them back.
pub open spec fn chunk_frames(d: Seq<u8>, id: u16, flags: u8, addr: u32, port: u16) -> Seq<
    FrameView,
> {
    split_chunks(d).map_values(|c: Seq<u8>| (c, id, flags, addr, port))
}

/// `s` starts with a whole frame whose size covers at least its header.
pub open spec fn takes_frame(s: Seq<u8>) -> bool {
    s.len() > 0 && HEADER_LEN <= s[0] && s[0] <= s.len()
}

/// The frames read from the front of `s`, and the number of bytes they take.
/// Reading stops at the first byte that does not start a whole frame.
pub open spec fn decode(s: Seq<u8>) -> (Seq<FrameView>, nat)
    decreases s.len(),
{
    if takes_frame(s) {
        let rest = decode(s.skip(s[0] as int));
        (seq![frame_at(s)] + rest.0, s[0] as nat + rest.1)
    } else {
        (Seq::empty(), 0)
    }
}

/// Every frame that the walk over `s` reaches, and that fits, declares a size
/// of at least the header length.
pub open spec fn well_sized(s: Seq<u8>) -> bool
    decreases s.len(),
{
    if s.len() > 0 && 0 < s[0] && s[0] <= s.len() {
        HEADER_LEN <= s[0] && well_sized(s.skip(s[0] as int))
    } else {
        true
    }
}

/// The bytes of `s` that a reader limited to `limit` bytes looks at.
pub open spec fn window(s: Seq<u8>, limit: int) -> Seq<u8> {
    s.take(if limit < s.len() { limit } else { s.len() as int })
}

/// `decode_string(data, data_len)` completes: no frame it reaches declares a
/// size below the header length, and where `data_len` goes past the end of
/// `data`, the walk stops on a byte of `data` that announces no frame within
/// `data_len`.
pub open spec fn decodable(s: Seq<u8>, limit: int) -> bool {
    let t = window(s, limit);
    let end = decode(t).1;
    &&& well_sized(t)
    &&& limit > s.len() ==> end < s.len() && (s[end as int] == 0 || s[end as int] + end > limit)
}

/// Appends the low byte of `buf_len`, the size field of a frame.
pub fn get_buf_len(buf: &mut Vec<u8>, buf_len: usize)
    ensures
        final(buf)@ == old(buf)@.push((buf_len % 256) as u8),
{
    assert(buf_len & 255 == buf_len % 256) by (bit_vector);
    buf.push((buf_len & 255) as u8);
}

/// Appends `msg_id` as two big-endian bytes.
pub fn get_msg_id(buf: &mut Vec<u8>, msg_id: u16)
    ensures
        final(buf)@ == old(buf)@ + u16_be(msg_id),
{
    assert((msg_id >> 8) & 255 == msg_id / 256) by (bit_vector);
    assert(msg_id & 255 == msg_id % 256) by (bit_vector);
    buf.push(((msg_id >> 8) & 255) as u8);
    buf.push((msg_id & 255) as u8);
    assert(buf@ =~= old(buf)@ + u16_be(msg_id));
}

/// Appends `addr` as four big-endian bytes.
pub fn get_addr(buf: &mut Vec<u8>, addr: u32)
    ensures
        final(buf)@ == old(buf)@ + u32_be(addr),
{
    assert((addr >> 24) & 255 == addr / 0x100_0000) by (bit_vector);
    assert((addr >> 16) & 255 == (addr / 0x1_0000) % 256) by (bit_vector);
    assert((addr >> 8) & 255 == (addr / 0x100) % 256) by (bit_vector);
    assert(addr & 255 == addr % 256) by (bit_vector);
    buf.push(((addr >> 24) & 255) as u8);
    buf.push(((addr >> 16) & 255) as u8);
    buf.push(((addr >> 8) & 255) as u8);
    buf.push((addr & 255) as u8);
    assert(buf@ =~= old(buf)@ + u32_be(addr));
}

/// Appends `port` as two big-endian bytes.
pub fn get_port(buf: &mut Vec<u8>, port: u16)
    ensures
        final(buf)@ == old(buf)@ + u16_be(port),
{
    assert((port >> 8) & 255 == port / 256) by (bit_vector);
    assert(port & 255 == port % 256) by (bit_vector);
    buf.push(((port >> 8) & 255) as u8);
    buf.push((port & 255) as u8);
    assert(buf@ =~= old(buf)@ + u16_be(port));
}

/// Builds the frame that carries the first `msg_len` bytes of `msg`.
pub fn code_block(msg: &[u8], msg_len: usize, msg_id: u16, flags: u8, addr: u32, port: u16) -> (buf:
    Vec<u8>)
    requires
        msg_len <= msg.len(),
        msg_len <= usize::MAX - HEADER_LEN,
    ensures
        buf@ == encode_block(msg@.take(msg_len as int), msg_id, flags, addr, port),
{
    let mut buf = Vec::new();

    let buf_len = msg_len + HEADER_LEN;
    get_buf_len(&mut buf, buf_len);
    get_msg_id(&mut buf, msg_id);
    buf.push(flags);
    get_addr(&mut buf, addr);
    get_port(&mut buf, port);
    let ghost header = buf@;
    assert(header =~= seq![(buf_len % 256) as u8] + u16_be(msg_id) + seq![flags] + u32_be(addr)
        + u16_be(port));

    for i in 0..msg_len
        invariant
            msg_len <= msg.len(),
            buf@ == header + msg@.take(i as int),
    {
        buf.push(msg[i]);
        assert(msg@.take(i + 1) =~= msg@.take(i as int).push(msg@[i as int]));
        assert(buf@ =~= header + msg@.take(i + 1));
    }
    assert(buf@ =~= encode_block(msg@.take(msg_len as int), msg_id, flags, addr, port));
    buf
}


/// `split_chunks(d)` has one chunk per started `CHUNK_LEN` bytes, each of
/// them non-empty and at most `CHUNK_LEN` long.
pub proof fn lemma_split_chunks_shape(d: Seq<u8>)
    ensures
        split_chunks(d).len() == (d.len() + CHUNK_LEN - 1) / CHUNK_LEN as int,
        forall|i: int|
            0 <= i < split_chunks(d).len() ==> 0 < #[trigger] split_chunks(d)[i].len() <= CHUNK_LEN,
    decreases d.len(),
{
    if d.len() > 0 {
        let k = next_chunk_len(d);
        lemma_split_chunks_shape(d.skip(k));
        let rest = split_chunks(d.skip(k));
        assert forall|i: int| 0 <= i < split_chunks(d).len() implies 0
            < #[trigger] split_chunks(d)[i].len() <= CHUNK_LEN by {
            if i > 0 {
                assert(split_chunks(d)[i] == rest[i - 1]);
            }
        }
    }
}

proof fn lemma_be_u16(hi: u8, lo: u8)
    ensures
        ((hi as u16) << 8) as int + lo as int <= u16::MAX,
        (((hi as u16) << 8) + lo as u16) as u16 == be_u16(hi, lo),
{
    assert(((hi as u16) << 8) as int + lo as int <= u16::MAX) by (bit_vector);
    assert((((hi as u16) << 8) + lo as u16) as u16 == (hi * 256 + lo) as u16) by (bit_vector);
}

proof fn lemma_be_u32(b0: u8, b1: u8, b2: u8, b3: u8)
    ensures
        ((b0 as u32) << 24) as int + ((b1 as u32) << 16) as int <= u32::MAX,
        ((b0 as u32) << 24) as int + ((b1 as u32) << 16) as int + ((b2 as u32) << 8) as int
            <= u32::MAX,
        ((b0 as u32) << 24) as int + ((b1 as u32) << 16) as int + ((b2 as u32) << 8) as int
            + b3 as int <= u32::MAX,
        ((b0 as u32) << 24) as int + ((b1 as u32) << 16) as int + ((b2 as u32) << 8) as int
            + b3 as int == be_u32(b0, b1, b2, b3) as int,
{
    assert(((b0 as u32) << 24) as int + ((b1 as u32) << 16) as int + ((b2 as u32) << 8) as int
        + b3 as int <= u32::MAX) by (bit_vector);
    assert(((b0 as u32) << 24) as int + ((b1 as u32) << 16) as int + ((b2 as u32) << 8) as int
        + b3 as int == (b0 * 0x100_0000 + b1 * 0x1_0000 + b2 * 0x100 + b3) as u32) by (bit_vector);
}

/// Whether `decode_string(data, data_len)` completes on these bytes (see
/// `decodable`); a caller tests it before handing bytes from the network over.
pub fn decode_accepts(data: &[u8], data_len: usize) -> (ok: bool)
    ensures
        ok == decodable(data@, data_len as int),
{
    let ghost s = data@;
    let ghost t = window(s, data_len as int);
    let mut shift: usize = 0;
    assert(t.skip(0) =~= t);
    loop
        invariant
            shift <= t.len(),
            t == window(s, data_len as int),
            s == data@,
            well_sized(t) == well_sized(t.skip(shift as int)),
            decode(t).1 == shift + decode(t.skip(shift as int)).1,
        decreases t.len() - shift,
    {
        let ghost u = t.skip(shift as int);
        if shift >= data_len {
            assert(u.len() == 0);
            return true;
        }
        if shift >= data.len() {
            assert(u.len() == 0);
            return false;
        }
        assert(u[0] == s[shift as int]);
        let size = data[shift];
        if size == 0 {
            return true;
        }
        if size as usize > data_len - shift {
            return true;
        }
        if size < 10 {
            return false;
        }
        if size as usize > data.len() - shift {
            return false;
        }
        assert(takes_frame(u));
        assert(u.skip(size as int) =~= t.skip(shift + size));
        shift = shift + size as usize;
    }
}

/// Reads the frames at the front of the first `data_len` bytes of `data`:
/// the payload and header fields of each, and the number of bytes they take.
pub fn decode_string(data: &[u8], data_len: usize) -> (res: (
    Vec<(Vec<u8>, u16, u8, u32, u16)>,
    usize,
))
    requires
        decodable(data@, data_len as int),
    ensures
        res.0.deep_view() == decode(window(data@, data_len as int)).0,
        res.1 == decode(window(data@, data_len as int)).1,
        data_len <= data.len() ==> res.0.deep_view() == decode(data@.take(data_len as int)).0
            && res.1 == decode(data@.take(data_len as int)).1,
{
    let ghost s = data@;
    let ghost t = window(s, data_len as int);
    let mut res: Vec<(Vec<u8>, u16, u8, u32, u16)> = Vec::new();
    let mut shift: usize = 0;
    assert(t.skip(0) =~= t);
    loop
        invariant
            shift <= t.len(),
            t == window(s, data_len as int),
            s == data@,
            decodable(s, data_len as int),
            well_sized(t.skip(shift as int)),
            decode(t).1 == shift + decode(t.skip(shift as int)).1,
            decode(t).0 == res.deep_view() + decode(t.skip(shift as int)).0,
        ensures
            decode(t.skip(shift as int)).0.len() == 0,
            decode(t.skip(shift as int)).1 == 0,
        decreases t.len() - shift,
    {
        let ghost u = t.skip(shift as int);
        if shift >= data_len {
            assert(u.len() == 0);
            break;
        }
        assert(shift < s.len()) by {
            if decode(u).1 > 0 {
                assert(u.len() > 0);
            }
        }
        assert(u[0] == s[shift as int]);
        let size = data[shift] as usize;
        if size > 0 && size <= data_len - shift {
            assert(takes_frame(u));
            let ghost frame = frame_at(u);
            assert forall|k: int| 0 <= k < size implies u[k] == s[shift + k] by {}

            let mut id = (data[shift + 1] as u16) << 8;
            proof { lemma_be_u16(data[shift + 1], data[shift + 2]); }
            id += data[shift + 2] as u16;

            let flags = data[shift + 3] as u8;

            proof { lemma_be_u32(data[shift + 4], data[shift + 5], data[shift + 6], data[shift + 7]); }
            let mut addr = (data[shift + 4] as u32) << 24;
            addr += (data[shift + 5] as u32) << 16;
            addr += (data[shift + 6] as u32) << 8;
            addr += data[shift + 7] as u32;

            let mut port = (data[shift + 8] as u16) << 8;
            proof { lemma_be_u16(data[shift + 8], data[shift + 9]); }
            port += data[shift + 9] as u16;

            let mut msg = Vec::new();
            for i in 0..(size - 10)
                invariant
                    s == data@,
                    shift + size <= data.len(),
                    size >= 10,
                    msg@ == s.subrange(shift + 10, shift + 10 + i),
            {
                msg.push(data[shift + i + 10]);
                assert(msg@ =~= s.subrange(shift + 10, shift + 10 + i + 1));
            }
            assert(msg@ =~= frame.0);

            assert(msg.deep_view() =~= msg@);
            assert(id == frame.1 && flags == frame.2 && addr == frame.3 && port == frame.4);
            let ghost old_res = res.deep_view();
            res.push((msg, id, flags, addr, port));
            assert(res.deep_view() =~= old_res.push(frame));
            assert(u.skip(size as int) =~= t.skip(shift + size));
            shift += size;
            assert(decode(t).0 =~= res.deep_view() + decode(t.skip(shift as int)).0);
        } else {
            break;
        }
    }
    assert(decode(t).0 =~= res.deep_view());
    assert(data_len <= data.len() ==> t == data@.take(data_len as int));
    (res, shift)
}

/// Cuts the first `data_len` bytes of `data` into chunks of `CHUNK_LEN` bytes
/// and builds one frame per chunk, each with the given header fields.
pub fn code_string(data: &[u8], data_len: usize, id_connection: u16, flags: u8, addr: u32, port: u16) -> (res:
    Vec<Vec<u8>>)
    requires
        data_len <= data.len(),
    ensures
        res.deep_view() == encode_string(data@.take(data_len as int), id_connection, flags, addr, port),
        res.len() == (data_len + CHUNK_LEN - 1) / CHUNK_LEN as int,
        forall|i: int| 0 <= i < res.len() ==> HEADER_LEN < #[trigger] res[i].len() <= HEADER_LEN + CHUNK_LEN,
        forall|i: int|
            0 <= i < res.len() ==> #[trigger] res[i]@ == encode_block(
                data@.subrange(
                    CHUNK_LEN * i,
                    if CHUNK_LEN * i + CHUNK_LEN < data_len { CHUNK_LEN * i + CHUNK_LEN } else { data_len as int },
                ),
                id_connection,
                flags,
                addr,
                port,
            ),
{
    let ghost s = data@.take(data_len as int);
    let ghost all = encode_string(s, id_connection, flags, addr, port);
    let mut res: Vec<Vec<u8>> = Vec::new();
    let mut pos: usize = 0;
    assert(s.skip(0) =~= s);
    while pos < data_len
        invariant
            data_len <= data.len(),
            s == data@.take(data_len as int),
            all == encode_string(s, id_connection, flags, addr, port),
            pos <= data_len,
            all == res.deep_view() + encode_string(s.skip(pos as int), id_connection, flags, addr, port),
        decreases data_len - pos,
    {
        let ghost start = pos;
        let ghost rest = s.skip(start as int);
        let mut msg_byte: Vec<u8> = Vec::new();
        let mut msg_len: usize = 0;
        while msg_len < CHUNK_LEN && pos < data_len
            invariant
                data_len <= data.len(),
                s == data@.take(data_len as int),
                start <= pos <= data_len,
                msg_len == pos - start,
                msg_len <= CHUNK_LEN,
                msg_byte@ == s.subrange(start as int, pos as int),
            decreases data_len - pos,
        {
            msg_byte.push(data[pos]);
            msg_len += 1;
            pos += 1;
            assert(msg_byte@ =~= s.subrange(start as int, pos as int));
        }
        let frame = code_block(msg_byte.as_slice(), msg_len, id_connection, flags, addr, port);
        proof {
            let k = next_chunk_len(rest);
            assert(msg_len == k);
            assert(msg_byte@.take(msg_len as int) =~= rest.take(k));
            assert(rest.skip(k) =~= s.skip(pos as int));
            assert(split_chunks(rest) == seq![rest.take(k)] + split_chunks(s.skip(pos as int)));
            assert(encode_string(rest, id_connection, flags, addr, port) =~= seq![frame@]
                + encode_string(s.skip(pos as int), id_connection, flags, addr, port));
            assert(frame.deep_view() =~= frame@);
        }
        let ghost old_res = res.deep_view();
        res.push(frame);
        assert(res.deep_view() =~= old_res.push(frame@));
        assert(all =~= res.deep_view() + encode_string(s.skip(pos as int), id_connection, flags, addr, port));
    }
    proof {
        assert(s.skip(pos as int).len() == 0);
        assert(all =~= res.deep_view());
        lemma_split_chunks_shape(s);
        crate::tcp::laws::law_chunk_positions(s);
        assert forall|i: int| 0 <= i < res.len() implies #[trigger] res[i]@ == encode_block(
            data@.subrange(
                CHUNK_LEN * i,
                if CHUNK_LEN * i + CHUNK_LEN < data_len { CHUNK_LEN * i + CHUNK_LEN } else { data_len as int },
            ),
            id_connection,
            flags,
            addr,
            port,
        ) by {
            assert(res.deep_view()[i] == res[i]@);
            assert(all[i] == encode_block(split_chunks(s)[i], id_connection, flags, addr, port));
            let hi = if CHUNK_LEN * i + CHUNK_LEN < data_len { CHUNK_LEN * i + CHUNK_LEN } else { data_len as int };
            assert(split_chunks(s)[i] == s.subrange(CHUNK_LEN * i, hi));
            assert(s.subrange(CHUNK_LEN * i, hi) =~= data@.subrange(CHUNK_LEN * i, hi));
        }
        assert forall|i: int| 0 <= i < res.len() implies HEADER_LEN < #[trigger] res[i].len() <= HEADER_LEN
            + CHUNK_LEN by {
            assert(res.deep_view()[i] == res[i]@);
            assert(all[i] == encode_block(split_chunks(s)[i], id_connection, flags, addr, port));
        }
    }
    res
}

} // verus!
