//! The decisions that the two ends of the tunnel take on each read from a
//! socket. The sockets, threads and connection tables live with the caller,
//! which performs the step that these functions choose.
use crate::tcp::protocol::{
    code_block, code_string, decode, decode_accepts, decode_string, encode_block, encode_string,
    takes_frame, window, well_sized, FrameView, HEADER_LEN,
};
use vstd::prelude::*;

pub mod tcp;

verus! {

/// Flag of a frame that tells the client that the server lost the connection
/// to the destination.
pub const CONNECTION_FAIL: u8 = 1;

/// Whether a frame with these flags closes its connection.
pub open spec fn closes(flags: u8) -> bool {
    flags & CONNECTION_FAIL != 0
}

/// The local end of the tunnel.
pub struct Client {}

impl Client {
    pub fn new() -> Client {
        Client {  }
    }
}

/// The remote end of the tunnel.
pub struct Server {}

impl Server {
    pub fn new() -> Server {
        Server {  }
    }
}

/// Bytes received from the other end of the tunnel that do not yet form a
/// whole frame.
pub struct FrameBuffer {
    remain: Vec<u8>,
}

impl View for FrameBuffer {
    type V = Seq<u8>;

    closed spec fn view(&self) -> Seq<u8> {
        self.remain@
    }
}

impl FrameBuffer {
    pub fn new() -> (b: FrameBuffer)
        ensures
            b@ == Seq::<u8>::empty(),
    {
        FrameBuffer { remain: Vec::new() }
    }

    /// Whether `feed(buf, ct)` can take these bytes: no frame that the pending
    /// bytes followed by the first `ct` bytes of `buf` hold declares a size
    /// below the header length.
    pub fn accepts(&self, buf: &[u8], ct: usize) -> (ok: bool)
        requires
            ct <= buf.len(),
        ensures
            ok == well_sized(self@ + buf@.take(ct as int)),
    {
        let ext_buf = self.joined(buf, ct);
        let ok = decode_accepts(ext_buf.as_slice(), ext_buf.len());
        proof {
            lemma_whole_window(ext_buf@);
        }
        ok
    }

    /// The pending bytes followed by the first `ct` bytes of `buf`.
    fn joined(&self, buf: &[u8], ct: usize) -> (ext_buf: Vec<u8>)
        requires
            ct <= buf.len(),
        ensures
            ext_buf@ == self@ + buf@.take(ct as int),
    {
        let mut ext_buf: Vec<u8> = Vec::new();
        let mut i: usize = 0;
        while i < self.remain.len()
            invariant
                i <= self.remain.len(),
                ext_buf@ == self.remain@.take(i as int),
            decreases self.remain.len() - i,
        {
            ext_buf.push(self.remain[i]);
            i += 1;
            assert(ext_buf@ =~= self.remain@.take(i as int));
        }
        assert(self.remain@.take(i as int) =~= self.remain@);
        let ghost head = ext_buf@;
        for i in 0..ct
            invariant
                ct <= buf.len(),
                ext_buf@ == head + buf@.take(i as int),
        {
            ext_buf.push(buf[i]);
            assert(ext_buf@ =~= head + buf@.take(i + 1));
        }
        ext_buf
    }

    /// Appends the first `ct` bytes of `buf` to the pending bytes, takes the
    /// whole frames off their front and keeps the rest pending.
    pub fn feed(&mut self, buf: &[u8], ct: usize) -> (frames: Vec<(Vec<u8>, u16, u8, u32, u16)>)
        requires
            ct <= buf.len(),
            well_sized(old(self)@ + buf@.take(ct as int)),
        ensures
            frames.deep_view() == decode(old(self)@ + buf@.take(ct as int)).0,
            final(self)@ == (old(self)@ + buf@.take(ct as int)).skip(
                decode(old(self)@ + buf@.take(ct as int)).1 as int,
            ),
            !takes_frame(final(self)@),
    {
        let ext_buf = self.joined(buf, ct);
        proof {
            lemma_whole_window(ext_buf@);
            crate::tcp::laws::law_remainder_starts_no_frame(ext_buf@);
        }
        let (messages, rd) = decode_string(ext_buf.as_slice(), ext_buf.len());
        let mut remain: Vec<u8> = Vec::new();
        if rd != ext_buf.len() {
            for i in rd..ext_buf.len()
                invariant
                    rd <= ext_buf.len(),
                    remain@ == ext_buf@.subrange(rd as int, i as int),
            {
                remain.push(ext_buf[i]);
                assert(remain@ =~= ext_buf@.subrange(rd as int, i + 1));
            }
        }
        assert(remain@ =~= ext_buf@.skip(rd as int));
        self.remain = remain;
        messages
    }
}

/// What the client does with a frame that came from the server.
pub enum ClientAction {
    /// Write the payload to the application connection with this id.
    Deliver(u16, Vec<u8>),
    /// Shut down and forget the application connection with this id.
    Close(u16),
}

/// `action` is what the client does with frame `f`.
pub open spec fn client_action_for(action: ClientAction, f: FrameView) -> bool {
    if closes(f.2) {
        action matches ClientAction::Close(id) && id == f.1
    } else {
        action matches ClientAction::Deliver(id, payload) && id == f.1 && payload@ == f.0
    }
}

/// The client's action for a frame from the server: close the connection when
/// the frame carries `CONNECTION_FAIL`, else deliver the payload.
pub fn client_action(msg: (Vec<u8>, u16, u8, u32, u16)) -> (action: ClientAction)
    ensures
        client_action_for(action, msg.deep_view()),
{
    let flags = msg.2;
    if flags & CONNECTION_FAIL != 0 {
        ClientAction::Close(msg.1)
    } else {
        assert(msg.0.deep_view() =~= msg.0@);
        ClientAction::Deliver(msg.1, msg.0)
    }
}

/// What the client does after a read from an application connection.
pub enum AppStep {
    /// The application closed the connection: stop reading it.
    Finish,
    /// Send these frames to the server.
    Forward(Vec<Vec<u8>>),
    /// The read failed: forget the connection and stop reading it.
    Forget,
}

/// The client's step after reading from the application connection
/// `id_connection`, whose original destination is `addr`:`port`. `read` is
/// the number of bytes read into `buf`, `None` when the read failed.
pub fn app_read_step(read: Option<usize>, buf: &[u8], id_connection: u16, addr: u32, port: u16) -> (step:
    AppStep)
    requires
        read matches Some(ct) ==> ct <= buf.len(),
    ensures
        (match read {
            None => step is Forget,
            Some(ct) => if ct == 0 {
                step is Finish
            } else {
                step matches AppStep::Forward(frames) && frames.deep_view() == encode_string(
                    buf@.take(ct as int),
                    id_connection,
                    0,
                    addr,
                    port,
                )
            },
        }),
{
    match read {
        Some(ct) => {
            if ct == 0 {
                AppStep::Finish
            } else {
                AppStep::Forward(code_string(buf, ct, id_connection, 0, addr, port))
            }
        },
        None => AppStep::Forget,
    }
}

/// What the client does after a read from its connection to the server.
pub enum ServerLinkStep {
    /// The server closed the connection: shut down the local listener.
    Shutdown,
    /// The read failed: stop reading.
    Stop,
    /// Carry out these actions, in order.
    Dispatch(Vec<ClientAction>),
}

/// The client's step after reading from its connection to the server: `read`
/// is the number of bytes read into `buf`, `None` when the read failed. The
/// frames completed by the read are taken off `pending`.
pub fn server_link_step(pending: &mut FrameBuffer, read: Option<usize>, buf: &[u8]) -> (step:
    ServerLinkStep)
    requires
        read matches Some(ct) ==> ct <= buf.len() && (ct > 0 ==> well_sized(
            old(pending)@ + buf@.take(ct as int),
        )),
    ensures
        (match read {
            None => step is Stop && final(pending)@ == old(pending)@,
            Some(ct) => if ct == 0 {
                step is Shutdown && final(pending)@ == old(pending)@
            } else {
                let s = old(pending)@ + buf@.take(ct as int);
                &&& step matches ServerLinkStep::Dispatch(actions) && actions.len() == decode(
                    s,
                ).0.len() && forall|i: int|
                    0 <= i < actions.len() ==> client_action_for(
                        #[trigger] actions[i],
                        decode(s).0[i],
                    )
                &&& final(pending)@ == s.skip(decode(s).1 as int)
            },
        }),
{
    match read {
        Some(ct) => {
            if ct == 0 {
                return ServerLinkStep::Shutdown;
            }
            let ghost s = pending@ + buf@.take(ct as int);
            let messages = pending.feed(buf, ct);
            let mut actions: Vec<ClientAction> = Vec::new();
            let mut rest = messages;
            let ghost frames = rest.deep_view();
            let mut i: usize = 0;
            let n = rest.len();
            assert(rest.deep_view() =~= frames.skip(0));
            assert(rest.deep_view().len() == rest.len());
            while i < n
                invariant
                    n == frames.len(),
                    i <= n,
                    rest.deep_view() == frames.skip(i as int),
                    rest.len() == n - i,
                    actions.len() == i,
                    forall|j: int| 0 <= j < i ==> client_action_for(#[trigger] actions[j], frames[j]),
                decreases n - i,
            {
                let ghost old_rest = rest@;
                let ghost old_deep = rest.deep_view();
                assert(old_deep[0] == old_rest[0].deep_view());
                let msg = rest.remove(0);
                assert(msg.deep_view() == frames[i as int]);
                assert forall|j: int| 0 <= j < rest.len() implies rest.deep_view()[j] == frames.skip(
                    i + 1,
                )[j] by {
                    assert(rest@[j] == old_rest[j + 1]);
                    assert(old_deep[j + 1] == old_rest[j + 1].deep_view());
                }
                assert(rest.deep_view() =~= frames.skip(i + 1));
                actions.push(client_action(msg));
                i += 1;
            }
            ServerLinkStep::Dispatch(actions)
        },
        None => ServerLinkStep::Stop,
    }
}

/// The server's step after reading from a client: `read` is the number of
/// bytes read into `buf`, `None` when the read failed. Gives the frames
/// completed by the read, taken off `pending`, or `None` when the server stops
/// reading this client.
pub fn client_link_step(pending: &mut FrameBuffer, read: Option<usize>, buf: &[u8]) -> (frames:
    Option<Vec<(Vec<u8>, u16, u8, u32, u16)>>)
    requires
        read matches Some(ct) ==> ct <= buf.len() && (ct > 0 ==> well_sized(
            old(pending)@ + buf@.take(ct as int),
        )),
    ensures
        (match read {
            None => frames is None && final(pending)@ == old(pending)@,
            Some(ct) => if ct == 0 {
                frames is None && final(pending)@ == old(pending)@
            } else {
                let s = old(pending)@ + buf@.take(ct as int);
                &&& frames matches Some(fs) && fs.deep_view() == decode(s).0
                &&& final(pending)@ == s.skip(decode(s).1 as int)
            },
        }),
{
    match read {
        Some(ct) => {
            if ct == 0 {
                None
            } else {
                Some(pending.feed(buf, ct))
            }
        },
        None => None,
    }
}

/// The frame that tells the client that connection `msg_id` is gone.
pub open spec fn close_notice(msg_id: u16) -> Seq<u8> {
    encode_block(Seq::empty(), msg_id, CONNECTION_FAIL, 0, 0)
}

/// What the server does after a read from a destination connection.
pub enum DestinationStep {
    /// The destination closed the connection: forget it, send this frame to
    /// the client and stop reading.
    Closed(Vec<u8>),
    /// Send these frames to the client.
    Forward(Vec<Vec<u8>>),
    /// The read failed: read again.
    Retry,
}

/// The server's step after reading from the destination connection of
/// `msg_id`: `read` is the number of bytes read into `buf`, `None` when the
/// read failed.
pub fn destination_step(read: Option<usize>, buf: &[u8], msg_id: u16) -> (step: DestinationStep)
    requires
        read matches Some(ct) ==> ct <= buf.len(),
    ensures
        (match read {
            None => step is Retry,
            Some(ct) => if ct == 0 {
                step matches DestinationStep::Closed(notice) && notice@ == close_notice(msg_id)
                    && notice@ == seq![
                    HEADER_LEN as u8,
                    (msg_id / 256) as u8,
                    (msg_id % 256) as u8,
                    CONNECTION_FAIL,
                    0u8,
                    0u8,
                    0u8,
                    0u8,
                    0u8,
                    0u8,
                ]
            } else {
                step matches DestinationStep::Forward(frames) && frames.deep_view()
                    == encode_string(buf@.take(ct as int), msg_id, 0, 0, 0)
            },
        }),
{
    match read {
        Some(ct) => {
            if ct == 0 {
                let empty: [u8; 0] = [];
                let close_buff = code_block(&empty, 0, msg_id, CONNECTION_FAIL, 0, 0);
                assert(empty@.take(0) =~= Seq::<u8>::empty());
                proof {
                    law_close_notice_read_back(msg_id);
                }
                DestinationStep::Closed(close_buff)
            } else {
                DestinationStep::Forward(code_string(buf, ct, msg_id, 0, 0, 0))
            }
        },
        None => DestinationStep::Retry,
    }
}

/// The four bytes of `addr`, lowest first: the order in which the server
/// writes a destination address as `a.b.c.d`.
pub fn destination_octets(addr: u32) -> (octets: (u8, u8, u8, u8))
    ensures
        octets == ((addr % 256) as u8, ((addr / 0x100) % 256) as u8, ((addr / 0x1_0000) % 256) as u8, (addr / 0x100_0000) as u8),
{
    assert(addr & 255 == addr % 256) by (bit_vector);
    assert((addr >> 8) & 255 == (addr / 0x100) % 256) by (bit_vector);
    assert((addr >> 16) & 255 == (addr / 0x1_0000) % 256) by (bit_vector);
    assert((addr >> 24) & 255 == addr / 0x100_0000) by (bit_vector);
    (
        (addr & 255) as u8,
        ((addr >> 8) & 255) as u8,
        ((addr >> 16) & 255) as u8,
        ((addr >> 24) & 255) as u8,
    )
}

/// The frame that the server sends when a destination closes is read back by
/// the client as one frame, with no payload, that closes connection `msg_id`;
/// the frames that carry destination data (flags 0) do not close anything.
pub proof fn law_close_notice_read_back(msg_id: u16)
    ensures
        decode(close_notice(msg_id)) == (
            seq![(Seq::<u8>::empty(), msg_id, CONNECTION_FAIL, 0u32, 0u16)],
            HEADER_LEN as nat,
        ),
        closes(CONNECTION_FAIL),
        !closes(0),
        close_notice(msg_id) == seq![
            HEADER_LEN as u8,
            (msg_id / 256) as u8,
            (msg_id % 256) as u8,
            CONNECTION_FAIL,
            0u8,
            0u8,
            0u8,
            0u8,
            0u8,
            0u8,
        ],
        decode(close_notice(msg_id)).1 == close_notice(msg_id).len(),
{
    assert(close_notice(msg_id) =~= seq![
        HEADER_LEN as u8,
        (msg_id / 256) as u8,
        (msg_id % 256) as u8,
        CONNECTION_FAIL,
        0u8,
        0u8,
        0u8,
        0u8,
        0u8,
        0u8,
    ]);
    crate::tcp::laws::law_block_read_back(Seq::empty(), msg_id, CONNECTION_FAIL, 0, 0, Seq::empty());
    assert(close_notice(msg_id) + Seq::<u8>::empty() =~= close_notice(msg_id));
    assert(decode(Seq::<u8>::empty()).0 =~= Seq::<FrameView>::empty());
    assert(seq![(Seq::<u8>::empty(), msg_id, CONNECTION_FAIL, 0u32, 0u16)] + Seq::<FrameView>::empty()
        =~= seq![(Seq::<u8>::empty(), msg_id, CONNECTION_FAIL, 0u32, 0u16)]);
    assert(CONNECTION_FAIL & CONNECTION_FAIL != 0) by (bit_vector);
    assert(0u8 & CONNECTION_FAIL == 0) by (bit_vector);
}

proof fn lemma_whole_window(s: Seq<u8>)
    ensures
        window(s, s.len() as int) == s,
        crate::tcp::protocol::decodable(s, s.len() as int) == well_sized(s),
        decode(s).1 <= s.len(),
{
    assert(window(s, s.len() as int) =~= s);
    crate::tcp::laws::law_remainder_starts_no_frame(s);
}

} // verus!
