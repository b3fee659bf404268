use zahttp::base64::base64_encode;
use zahttp::buf::Out;
use zahttp::http::{parse_head, Parse, Request};
use zahttp::sha1::{sha1, sha1_block};
use zahttp::ws::{
    extra_length, frame_head, header_has_token, take_control, ws_close, ws_drain, ws_handshake, ws_refuse, ws_reject, ws_send,
    ws_serve, ws_serve_at, ControlReply, FrameHead, Session, Step, Verdict, WsConnection,
};

const DATE: &[u8; 29] = b"Sun, 06 Nov 1994 08:49:37 GMT";

fn ready(head: &str) -> Request<'_> {
    match parse_head(head.as_bytes()) {
        Parse::Ready(r) => r,
        _ => panic!("bad head"),
    }
}

fn hex(b: &[u8]) -> String {
    b.iter().map(|x| format!("{:02x}", x)).collect()
}

#[test]
fn sha1_vectors() {
    for (msg, digest) in [
        (&b""[..], "da39a3ee5e6b4b0d3255bfef95601890afd80709"),
        (b"abc", "a9993e364706816aba3e25717850c26c9cd0d89d"),
        (b"abcdbcdecdefdefgefghfghighijhijkijkljklmklmnlmnomnopnopq", "84983e441c3bd26ebaae4aa1f95129e5e54670f1"),
        (&[b'a'; 55], "c1c8bbdc22796e28c0e15163d20899b65621d65a"),
        (&[b'a'; 56], "c2db330f6083854c99d4b5bfb6e8f29f201be699"),
        (&[b'a'; 64], "0098ba824b5c16427bd7a1122a5a442a25ec644d"),
        (&[b'a'; 119], "ee971065aaa017e0632a8ca6c77bb3bf8b1dfc56"),
        (&[b'a'; 1000], "291e9a6c66994949b57ba5e650361e98fc36b1ba"),
    ] {
        let mut d = [0u8; 20];
        sha1(msg, &mut d);
        assert_eq!(hex(&d), digest);
    }
}

#[test]
fn sha1_one_block() {
    let mut block = [0u8; 64];
    block[0] = 0x80;
    let mut h = [0x67452301u32, 0xEFCDAB89, 0x98BADCFE, 0x10325476, 0xC3D2E1F0];
    sha1_block(&block, &mut h);
    assert_eq!(h[0], 0xda39a3ee);
    assert_eq!(h[4], 0xafd80709);
}

#[test]
fn base64_vectors() {
    for (s, e) in [
        ("", ""), ("f", "Zg=="), ("fo", "Zm8="), ("foo", "Zm9v"), ("foob", "Zm9vYg=="), ("fooba", "Zm9vYmE="),
        ("foobar", "Zm9vYmFy"),
    ] {
        let mut out = [b'.'; 12];
        let n = base64_encode(s.as_bytes(), &mut out);
        assert_eq!(&out[..n], e.as_bytes());
        assert!(out[n..].iter().all(|&b| b == b'.'));
    }
    let mut out = [0u8; 4];
    base64_encode(&[0xfb, 0xff, 0xbf], &mut out);
    assert_eq!(&out, b"+/+/");
}

fn shake(fields: &str) -> Result<String, u16> {
    let head = format!("GET /ws HTTP/1.1\r\n{}\r\n", fields);
    ws_handshake(&ready(&head)).map(|a| String::from_utf8(a.to_vec()).unwrap())
}

#[test]
fn the_handshake_answers_the_key() {
    let ok = "Upgrade: WebSocket\r\nConnection: keep-alive, Upgrade\r\nSec-WebSocket-Version: 13\r\nSec-WebSocket-Key: dGhlIHNhbXBsZSBub25jZQ==\r\n";
    assert_eq!(shake(ok), Ok("s3pPLMBiTxaQ9kYGzzhZRbK+xOo=".to_string()));
}

#[test]
fn handshakes_that_are_refused() {
    let base = "Upgrade: websocket\r\nConnection: Upgrade\r\n";
    let key = "Sec-WebSocket-Key: dGhlIHNhbXBsZSBub25jZQ==\r\n";
    assert_eq!(shake(&format!("{}{}Sec-WebSocket-Version: 8\r\n", base, key)), Err(426));
    assert_eq!(shake(&format!("{}{}", base, key)), Err(400));
    assert_eq!(shake(&format!("Upgrade: websocket\r\n{}Sec-WebSocket-Version: 13\r\n", key)), Err(400));
    assert_eq!(shake(&format!("Connection: upgrade\r\n{}Sec-WebSocket-Version: 13\r\n", key)), Err(400));
    assert_eq!(shake(&format!("{}Sec-WebSocket-Version: 13\r\n", base)), Err(400));
    assert_eq!(shake(&format!("{}Sec-WebSocket-Version: 13\r\nSec-WebSocket-Key:\r\n", base)), Err(400));
    let long = "k".repeat(65);
    assert_eq!(shake(&format!("{}Sec-WebSocket-Version: 13\r\nSec-WebSocket-Key: {}\r\n", base, long)), Err(400));
}

#[test]
fn tokens_in_header_lists() {
    let r = ready("GET /ws HTTP/1.1\r\nConnection: close\r\nCONNECTION: a , UpGrade\r\n\r\n");
    assert!(header_has_token(&r, "connection", b"upgrade"));
    assert!(!header_has_token(&r, "connection", b"up"));
    assert!(!header_has_token(&r, "upgrade", b"upgrade"));
}

#[test]
fn upgrade_heads() {
    let mut room = [0u8; 256];
    let mut h = Out::new(&mut room);
    ws_reject(&mut h, 426);
    assert_eq!(
        h.as_slice(),
        b"HTTP/1.1 426 Upgrade Required\r\nContent-Type: text/plain\r\nContent-Length: 0\r\nSec-WebSocket-Version: 13\r\nConnection: close\r\n\r\n"
    );
    let mut room = [0u8; 256];
    let mut h = Out::new(&mut room);
    ws_reject(&mut h, 400);
    assert_eq!(
        h.as_slice(),
        b"HTTP/1.1 400 Bad Request\r\nContent-Type: text/plain\r\nContent-Length: 0\r\nConnection: close\r\n\r\n"
    );
    let r = ready("GET /ws HTTP/1.1\r\nUpgrade: websocket\r\nConnection: Upgrade\r\nSec-WebSocket-Version: 13\r\nSec-WebSocket-Key: dGhlIHNhbXBsZSBub25jZQ==\r\n\r\n");
    let mut room = [0u8; 384];
    let mut h = Out::new(&mut room);
    assert!(ws_serve_at(&mut h, &r, DATE));
    assert_eq!(
        h.as_slice(),
        b"HTTP/1.1 101 Switching Protocols\r\nDate: Sun, 06 Nov 1994 08:49:37 GMT\r\nServer: zahttp/0.1\r\nUpgrade: websocket\r\nConnection: Upgrade\r\nSec-WebSocket-Accept: s3pPLMBiTxaQ9kYGzzhZRbK+xOo=\r\n\r\n"
    );
    let mut room = [0u8; 384];
    let mut h = Out::new(&mut room);
    assert!(!ws_serve(&mut h, &ready("GET /ws HTTP/1.1\r\n\r\n")));
    assert!(h.as_slice().starts_with(b"HTTP/1.1 400 Bad Request\r\n"));
}

#[test]
fn frame_heads() {
    assert_eq!(extra_length(0x85), 0);
    assert_eq!(extra_length(0xFE), 2);
    assert_eq!(extra_length(0x7F), 8);
    assert!(frame_head(&[0x81, 0x85]) == Some(FrameHead { fin: true, rsv: false, opcode: 1, masked: true, len: 5 }));
    assert!(frame_head(&[0x02, 0x05]) == Some(FrameHead { fin: false, rsv: false, opcode: 2, masked: false, len: 5 }));
    assert!(frame_head(&[0xC1, 0x80]) == Some(FrameHead { fin: true, rsv: true, opcode: 1, masked: true, len: 0 }));
    assert!(frame_head(&[0x82, 0xFE, 0x01, 0x02]).unwrap().len == 258);
    assert!(frame_head(&[0x82, 0xFF, 0, 0, 0, 0, 0, 1, 0, 0]).unwrap().len == 65536);
    assert!(frame_head(&[0x82, 0xFF, 0x80, 0, 0, 0, 0, 0, 0, 0]).is_none());
}

#[test]
fn frames_that_are_sent() {
    let mut room = [0u8; 8];
    let mut h = Out::new(&mut room);
    ws_send(&mut h, 1, 125);
    ws_send(&mut h, 2, 4096);
    assert_eq!(h.as_slice(), [0x81, 125, 0x82, 126, 0x10, 0x00]);
    let mut room = [0u8; 16];
    let mut h = Out::new(&mut room);
    ws_refuse(&mut h, 1002);
    assert_eq!(h.as_slice(), b"\x88\x0a\x03\xeaprotocol");
    let mut room = [0u8; 16];
    let mut h = Out::new(&mut room);
    ws_refuse(&mut h, 1009);
    assert_eq!(h.as_slice(), b"\x88\x09\x03\xf1too big");
    let mut room = [0u8; 256];
    let mut h = Out::new(&mut room);
    ws_close(&mut h, 1000, &[b'r'; 200]);
    assert_eq!(h.as_slice().len(), 127);
    assert_eq!(h.as_slice()[..4], [0x88, 125, 0x03, 0xe8]);
    assert_eq!(ws_drain(65536), 65536);
    assert_eq!(ws_drain(65537), 0);
}

const MASK: [u8; 4] = [0x37, 0xfa, 0x21, 0x3d];

fn frame(b0: u8, data: &[u8]) -> Vec<u8> {
    let mut f = vec![b0];
    if data.len() < 126 {
        f.push(0x80 | data.len() as u8);
    } else {
        f.push(0x80 | 126);
        f.extend_from_slice(&(data.len() as u16).to_be_bytes());
    }
    f.extend_from_slice(&MASK);
    f.extend(data.iter().enumerate().map(|(i, b)| b ^ MASK[i % 4]));
    f
}

/// What a session does with the bytes of a client.
fn talk(mut wire: &[u8]) -> Vec<String> {
    let mut c = WsConnection::new();
    let mut log = Vec::new();
    loop {
        let n = c.wants();
        if wire.len() < n {
            return log;
        }
        let step = c.feed(&wire[..n]);
        wire = &wire[n..];
        match step {
            Step::More => {}
            Step::Quiet => log.push("quiet".to_string()),
            Step::Echo(op, k) => log.push(format!("{} {}", op, String::from_utf8_lossy(&c.session.msg[..k]))),
            Step::Control(op, k) => log.push(format!("{} {}", op, String::from_utf8_lossy(&c.control[..k]))),
            Step::Last(op, k) => {
                log.push(format!("last {} {}", op, String::from_utf8_lossy(&c.control[..k])));
                return log;
            }
            Step::Refuse(code, drain) => {
                log.push(format!("refuse {} {}", code, drain));
                return log;
            }
        }
    }
}

#[test]
fn messages_are_echoed() {
    assert_eq!(talk(&frame(0x81, b"Hello")), ["1 Hello"]);
    assert_eq!(talk(&frame(0x82, b"")), ["2 "]);
    let long = vec![b'x'; 4096];
    assert_eq!(talk(&frame(0x82, &long)), [format!("2 {}", "x".repeat(4096))]);
}

#[test]
fn pieces_are_put_together() {
    let mut wire = frame(0x01, b"Hel");
    wire.extend(frame(0x00, b"lo, "));
    wire.extend(frame(0x89, b"ping"));
    wire.extend(frame(0x80, b"world"));
    wire.extend(frame(0x81, b"again"));
    assert_eq!(talk(&wire), ["quiet", "quiet", "10 ping", "1 Hello, world", "1 again"]);
}

#[test]
fn control_frames_are_answered() {
    let mut wire = frame(0x8A, b"pong");
    wire.extend(frame(0x89, b"p"));
    wire.extend(frame(0x88, b"\x03\xe8bye"));
    wire.extend(frame(0x81, b"late"));
    let log = talk(&wire);
    assert_eq!(log[..2], ["quiet", "10 p"]);
    assert!(log[2].starts_with("last 8 "));
    assert_eq!(log.len(), 3);
}

#[test]
fn violations_close_the_session() {
    assert_eq!(talk(&[0x81, 0x05]), ["refuse 1002 5"]);
    assert_eq!(talk(&frame(0xC1, b"abc")), ["refuse 1002 3"]);
    assert_eq!(talk(&frame(0x83, b"abc")), ["refuse 1002 3"]);
    assert_eq!(talk(&frame(0x80, b"abc")), ["refuse 1002 3"]);
    assert_eq!(talk(&frame(0x09, b"abc")), ["refuse 1002 3"]);
    assert_eq!(talk(&frame(0x89, &[0; 126])), ["refuse 1002 126"]);
    assert_eq!(talk(&frame(0x8B, b"abc")), ["refuse 1002 0"]);
    let mut wire = frame(0x01, b"a");
    wire.extend(frame(0x81, b"bc"));
    assert_eq!(talk(&wire), ["quiet", "refuse 1002 2"]);
    assert_eq!(talk(&frame(0x82, &[0; 4097])), ["refuse 1009 4097"]);
    let mut wire = frame(0x02, &[0; 4000]);
    wire.extend(frame(0x80, &[0; 97]));
    assert_eq!(talk(&wire), ["quiet", "refuse 1009 97"]);
    assert_eq!(talk(&[0x82, 0xFF, 0x80, 0, 0, 0, 0, 0, 0, 0]), ["refuse 1009 0"]);
    assert_eq!(talk(&[0x82, 0x7F, 0, 0, 0, 0, 0, 2, 0, 0]), ["refuse 1002 0"]);
}

#[test]
fn sessions_piece_by_piece() {
    let mut s = Session::new();
    let head = FrameHead { fin: true, rsv: false, opcode: 1, masked: true, len: 2 };
    assert!(s.judge(&head) == Verdict::Data);
    s.msg[0] = b'h' ^ MASK[0];
    s.msg[1] = b'i' ^ MASK[1];
    assert_eq!(s.take_data(&head, &MASK), Some((1, 2)));
    assert_eq!(&s.msg[..2], b"hi");
    let ping = FrameHead { fin: true, rsv: false, opcode: 9, masked: true, len: 2 };
    assert!(s.judge(&ping) == Verdict::Control);
    let mut payload = [b'h' ^ MASK[0], b'i' ^ MASK[1]];
    assert!(take_control(&ping, &MASK, &mut payload) == ControlReply::Send(10));
    assert_eq!(&payload, b"hi");
    let orphan = FrameHead { fin: true, rsv: false, opcode: 0, masked: true, len: 2 };
    assert!(s.judge(&orphan) == Verdict::Refuse(1002));
}

#[test]
fn masking_twice_gives_the_payload_back() {
    let pong = FrameHead { fin: true, rsv: false, opcode: 10, masked: true, len: 5 };
    let mut payload = *b"Hello";
    assert!(take_control(&pong, &MASK, &mut payload) == ControlReply::Nothing);
    assert_eq!(payload, [0x7f, 0x9f, 0x4d, 0x51, 0x58]);
    take_control(&pong, &MASK, &mut payload);
    assert_eq!(&payload, b"Hello");
}
