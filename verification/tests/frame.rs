use mineore::frame::{send_message, Received, Receiver};

fn read_packet(stream: &[u8]) -> Option<(Vec<u8>, usize)> {
    let mut receiver = Receiver::new();
    let mut at = 0;
    loop {
        let want = receiver.wanted();
        if at + want > stream.len() {
            return None;
        }
        let chunk = stream[at..at + want].to_vec();
        at += want;
        match receiver.receive_message(chunk) {
            Received::More(next) => receiver = next,
            Received::Message(payload) => return Some((payload, at)),
            Received::BadHeader => return None,
        }
    }
}

#[test]
fn packet_layout() {
    let packet = send_message(&[7, 8, 9]);
    assert_eq!(packet, vec![0, 0, 0, 4, 3, 0, 0, 0, 7, 8, 9]);
}

#[test]
fn header_is_that_of_bincode() {
    let payload = vec![1u8; 70_000];
    let packet = send_message(&payload);
    assert_eq!(packet[4..8].to_vec(), bincode::serialize(&70_000u32).unwrap());
    assert_eq!(packet[4..8].to_vec(), vec![0x70, 0x11, 0x01, 0x00]);
}

#[test]
fn empty_payload() {
    let packet = send_message(&[]);
    assert_eq!(packet, vec![0, 0, 0, 4, 0, 0, 0, 0]);
    assert_eq!(read_packet(&packet), Some((vec![], 8)));
}

#[test]
fn received_as_sent() {
    for len in [1usize, 2, 255, 256, 257, 65_536] {
        let payload: Vec<u8> = (0..len).map(|i| (i * 31 % 251) as u8).collect();
        let mut stream = send_message(&payload);
        let end = stream.len();
        stream.extend_from_slice(&[0xaa, 0xbb]);
        assert_eq!(read_packet(&stream), Some((payload, end)));
    }
}

#[test]
fn messages_in_order() {
    let payloads = vec![vec![1u8, 2], vec![], vec![3u8; 300]];
    let mut stream = Vec::new();
    for payload in &payloads {
        stream.extend(send_message(payload));
    }
    let mut at = 0;
    for payload in &payloads {
        let (read, used) = read_packet(&stream[at..]).unwrap();
        assert_eq!(&read, payload);
        at += used;
    }
    assert_eq!(at, stream.len());
}

#[test]
fn stream_that_ends_early() {
    let packet = send_message(&[1, 2, 3]);
    for end in 0..packet.len() {
        assert_eq!(read_packet(&packet[..end]), None);
    }
}

#[test]
fn header_sizes() {
    let next = match Receiver::new().receive_message(vec![0, 0, 1, 2]) {
        Received::More(next) => next,
        _ => panic!("a header was expected"),
    };
    assert_eq!(next, Receiver::Header { size: 258 });
    assert_eq!(next.wanted(), 258);
    let mut header = vec![5, 1, 0, 0];
    header.extend(vec![9u8; 254]);
    let next = match next.receive_message(header) {
        Received::More(next) => next,
        _ => panic!("a payload was expected"),
    };
    assert_eq!(next, Receiver::Payload { size: 261 });
}

#[test]
fn header_that_is_too_short() {
    for size in 0..4u32 {
        let header = vec![1u8; size as usize];
        let received = Receiver::Header { size }.receive_message(header);
        assert!(matches!(received, Received::BadHeader));
    }
}
