use vpnr::network::tcp::next_connection_id;
use vpnr::network::{
    app_read_step, client_action, client_link_step, destination_octets, destination_step,
    server_link_step, AppStep, Client, ClientAction, DestinationStep, FrameBuffer, Server,
    ServerLinkStep, CONNECTION_FAIL,
};
use vpnr::tcp::protocol;

#[test]
fn ends_construct() {
    let _client = Client::new();
    let _server = Server::new();
}

#[test]
fn frame_buffer_joins_reads() {
    let mut stream = protocol::code_block(&[1, 2, 3, 4], 4, 5, 0, 6, 7);
    stream.extend(protocol::code_block(&[9], 1, 5, 0, 6, 7));
    let mut fb = FrameBuffer::new();
    assert!(fb.accepts(&stream[..8], 8));
    let first = fb.feed(&stream[..8], 8);
    assert!(first.is_empty());
    let second = fb.feed(&stream[8..], stream.len() - 8);
    assert_eq!(second.len(), 2);
    assert_eq!(second[0].0, vec![1, 2, 3, 4]);
    assert_eq!(second[1].0, vec![9]);
    assert_eq!(second[1].1, 5);
    assert_eq!(second[1].3, 6);
    assert_eq!(second[1].4, 7);
}

#[test]
fn frame_buffer_keeps_partial_frame() {
    let stream = protocol::code_block(&[1, 2, 3], 3, 1, 0, 0, 0);
    let mut fb = FrameBuffer::new();
    let mut buf = [0u8; 200];
    buf[..13].copy_from_slice(&stream);
    buf[13] = 30;
    let got = fb.feed(&buf, 14);
    assert_eq!(got.len(), 1);
    let more = fb.feed(&[0u8; 200], 29);
    assert_eq!(more.len(), 1);
    assert_eq!(more[0].0.len(), 20);
}

#[test]
fn frame_buffer_accepts_rejects_short_frame() {
    let fb = FrameBuffer::new();
    assert!(!fb.accepts(&[3, 0, 0, 0], 4));
    assert!(fb.accepts(&[3, 0, 0, 0], 2));
}

#[test]
fn client_action_close_and_deliver() {
    match client_action((vec![1, 2], 4, CONNECTION_FAIL, 0, 0)) {
        ClientAction::Close(id) => assert_eq!(id, 4),
        ClientAction::Deliver(..) => panic!("expected close"),
    }
    match client_action((vec![1, 2], 4, 2, 0, 0)) {
        ClientAction::Deliver(id, payload) => {
            assert_eq!(id, 4);
            assert_eq!(payload, vec![1, 2]);
        }
        ClientAction::Close(_) => panic!("expected deliver"),
    }
    match client_action((vec![], 9, 3, 0, 0)) {
        ClientAction::Close(id) => assert_eq!(id, 9),
        ClientAction::Deliver(..) => panic!("expected close"),
    }
}

#[test]
fn app_read_steps() {
    let buf = [7u8; 200];
    assert!(matches!(app_read_step(None, &buf, 1, 2, 3), AppStep::Forget));
    assert!(matches!(app_read_step(Some(0), &buf, 1, 2, 3), AppStep::Finish));
    match app_read_step(Some(5), &buf, 1, 0x0102_0304, 80) {
        AppStep::Forward(frames) => {
            assert_eq!(frames.len(), 1);
            assert_eq!(frames[0], vec![15, 0, 1, 0, 1, 2, 3, 4, 0, 80, 7, 7, 7, 7, 7]);
        }
        _ => panic!("expected frames"),
    }
}

#[test]
fn server_link_steps() {
    let mut fb = FrameBuffer::new();
    assert!(matches!(server_link_step(&mut fb, None, &[]), ServerLinkStep::Stop));
    assert!(matches!(server_link_step(&mut fb, Some(0), &[]), ServerLinkStep::Shutdown));
    let mut stream = protocol::code_block(&[1], 1, 3, 0, 0, 0);
    stream.extend(protocol::code_block(b"", 0, 4, CONNECTION_FAIL, 0, 0));
    match server_link_step(&mut fb, Some(stream.len()), &stream) {
        ServerLinkStep::Dispatch(actions) => {
            assert_eq!(actions.len(), 2);
            assert!(matches!(&actions[0], ClientAction::Deliver(3, p) if p == &vec![1]));
            assert!(matches!(&actions[1], ClientAction::Close(4)));
        }
        _ => panic!("expected actions"),
    }
}

#[test]
fn client_link_steps() {
    let mut fb = FrameBuffer::new();
    assert!(client_link_step(&mut fb, None, &[]).is_none());
    assert!(client_link_step(&mut fb, Some(0), &[1]).is_none());
    let stream = protocol::code_block(&[8, 9], 2, 11, 0, 0x7F00_0001, 8080);
    let frames = client_link_step(&mut fb, Some(stream.len()), &stream).unwrap();
    assert_eq!(frames, vec![(vec![8, 9], 11, 0, 0x7F00_0001, 8080)]);
}

#[test]
fn destination_steps() {
    let buf = [1u8; 300];
    assert!(matches!(destination_step(None, &buf, 2), DestinationStep::Retry));
    match destination_step(Some(0), &buf, 0x0102) {
        DestinationStep::Closed(notice) => {
            assert_eq!(notice, vec![10, 1, 2, CONNECTION_FAIL, 0, 0, 0, 0, 0, 0]);
            let (msgs, used) = protocol::decode_string(&notice, notice.len());
            assert_eq!(used, 10);
            assert_eq!(msgs, vec![(vec![], 0x0102, CONNECTION_FAIL, 0, 0)]);
        }
        _ => panic!("expected close notice"),
    }
    match destination_step(Some(250), &buf, 6) {
        DestinationStep::Forward(frames) => {
            assert_eq!(frames.len(), 2);
            assert_eq!(frames[1].len(), 60);
            assert_eq!(frames[1][3], 0);
        }
        _ => panic!("expected frames"),
    }
}

#[test]
fn destination_octets_low_first() {
    assert_eq!(destination_octets(0x0100_007F), (127, 0, 0, 1));
    assert_eq!(destination_octets(2383468972), (172, 217, 16, 142));
}

#[test]
fn connection_ids_count_up() {
    assert_eq!(next_connection_id(0), 1);
    assert_eq!(next_connection_id(65534), 65535);
}
