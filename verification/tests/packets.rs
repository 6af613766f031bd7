use onode::node::flooding::link::Link;
use onode::node::flooding::routing_table::RoutingTable;
use onode::node::packets::ack_packet::AckPacket;
use onode::node::packets::flood_packet::FloodPacket;
use onode::node::packets::frame::{be16_bytes, parse_tcp_packet, parse_udp_packet, size_field_of};
use onode::node::packets::packet::{PacketType, Reply};
use onode::node::packets::refuse_packet::RefusePacket;
use onode::node::packets::request_packet::RequestPacket;
use onode::node::packets::stream_packet::StreamPacket;
use onode::node::threads::listener::{read_packet, read_stream_packet, FrameError, LISTENER_PORT};

fn link(addr: &str, jumps: u32) -> Link {
    Link::new(
        addr.to_string(),
        "empty".to_string(),
        jumps,
        u64::MAX,
        false,
        0,
        0,
        false,
    )
}

#[test]
fn packet_kinds() {
    assert_eq!(FloodPacket::new("a".to_string(), 0, 0).get_type(), 0);
    assert_eq!(RequestPacket::new().get_type(), 1);
    assert_eq!(AckPacket::from_bytes_packet_type(vec![]).get_type(), 2);
    assert_eq!(RefusePacket::new().get_type(), 3);
    assert_eq!(LISTENER_PORT, 1234);
}

#[test]
fn request_and_refuse_bytes() {
    assert_eq!(RequestPacket::new().to_bytes(), vec![1, 0, 3]);
    assert_eq!(RefusePacket::new().to_bytes(), Ok(vec![3, 0, 3]));
    let _ = RequestPacket::from_bytes_packet_type(vec![9, 9]);
    let _ = RefusePacket::from_bytes_packet_type(vec![9, 9]);
}

#[test]
fn flood_packet_new_keeps_fields() {
    let p = FloodPacket::new("10.0.0.1".to_string(), 4, 1234567);
    assert_eq!(p.source, "10.0.0.1");
    assert_eq!(p.jumps, 4);
    assert_eq!(p.timestamp, 1234567);
}

#[test]
fn flood_packet_from_link_adds_a_jump() {
    let l = link("10.0.0.7", 2);
    let p = FloodPacket::from_link_at(&l, 77);
    assert_eq!(p.source, "10.0.0.7");
    assert_eq!(p.jumps, 3);
    assert_eq!(p.timestamp, 77);
    let q = FloodPacket::from_link(&l).unwrap();
    assert_eq!(q.source, "10.0.0.7");
    assert_eq!(q.jumps, 3);
    assert!(q.timestamp > 0);
}

#[test]
fn flood_bytes_are_framed_messagepack() {
    let p = FloodPacket::new("ab".to_string(), 5, 6);
    let b = p.to_bytes().unwrap();
    // [source, jumps, timestamp] as a MessagePack array
    let payload = vec![0x93, 0xa2, b'a', b'b', 5, 6];
    let mut expected = vec![0, 0, 9];
    expected.extend_from_slice(&payload);
    assert_eq!(b, expected);
}

#[test]
fn flood_bytes_read_back() {
    let p = FloodPacket::new("10.0.0.3".to_string(), 17, 1_700_000_000_123);
    let mut buf = p.to_bytes().unwrap();
    buf.extend_from_slice(&[0u8; 40]);
    match read_packet(&buf) {
        Ok(PacketType::Flood(q)) => {
            assert_eq!(q.source, "10.0.0.3");
            assert_eq!(q.jumps, 17);
            assert_eq!(q.timestamp, 1_700_000_000_123);
        }
        other => panic!("unexpected {:?}", other),
    }
}

#[test]
fn flood_decode_rejects_garbage() {
    assert!(FloodPacket::decode(&[0xc1]).is_none());
    assert!(FloodPacket::decode(&[]).is_none());
    let good = [0x93, 0xa1, b'x', 1, 2];
    let p = FloodPacket::decode(&good).unwrap();
    assert_eq!(p.source, "x");
    assert_eq!(p.jumps, 1);
    assert_eq!(p.timestamp, 2);
    let q = FloodPacket::from_bytes_packet_type(good.to_vec());
    assert_eq!(q.source, "x");
}

#[test]
fn from_u8_by_kind() {
    let flood = [0x93, 0xa1, b'x', 1, 2].to_vec();
    assert!(matches!(PacketType::from_u8(0, flood), Some(PacketType::Flood(_))));
    assert!(matches!(PacketType::from_u8(1, vec![]), Some(PacketType::Request(_))));
    assert!(matches!(PacketType::from_u8(2, vec![]), Some(PacketType::Ack(_))));
    assert!(matches!(PacketType::from_u8(3, vec![]), Some(PacketType::Refuse(_))));
    match PacketType::from_u8(4, vec![7, 8]) {
        Some(PacketType::Stream(s)) => assert_eq!(s.data, vec![7, 8]),
        other => panic!("unexpected {:?}", other),
    }
    assert!(PacketType::from_u8(5, vec![]).is_none());
    assert!(PacketType::from_u8(255, vec![]).is_none());
}

#[test]
fn try_from_u8_reports_bad_flood() {
    let r = PacketType::try_from_u8(0, vec![0xc1]);
    assert_eq!(r.unwrap_err(), "Flood packet could not be decoded");
    assert!(matches!(PacketType::try_from_u8(9, vec![]), Ok(None)));
    assert!(matches!(PacketType::try_from_u8(1, vec![]), Ok(Some(PacketType::Request(_)))));
}

#[test]
fn frame_helpers() {
    assert_eq!(size_field_of(0), Some(3));
    assert_eq!(size_field_of(100), Some(103));
    assert_eq!(size_field_of(65532), Some(65535));
    assert_eq!(size_field_of(65533), None);
    assert_eq!(size_field_of(65536 + 4), Some(7));
    assert_eq!(be16_bytes(0x1234), vec![0x12, 0x34]);
    assert_eq!(parse_tcp_packet(&[4, 0, 5, 9, 8, 7]), Some((4, vec![9, 8])));
    assert_eq!(parse_tcp_packet(&[4, 0, 2, 9]), None);
    assert_eq!(parse_tcp_packet(&[4, 0, 9, 9]), None);
    assert_eq!(parse_tcp_packet(&[4, 0]), None);
    assert_eq!(parse_udp_packet(&[0, 4, 1, 2, 3]), Some(vec![1, 2]));
    assert_eq!(parse_udp_packet(&[0, 1, 1]), None);
    assert_eq!(parse_udp_packet(&[0]), None);
}

#[test]
fn read_packet_errors() {
    assert_eq!(read_packet(&[1, 0]).unwrap_err(), FrameError::Malformed);
    assert_eq!(read_packet(&[1, 0, 50, 0]).unwrap_err(), FrameError::Malformed);
    assert_eq!(read_packet(&[7, 0, 3]).unwrap_err(), FrameError::UnknownKind);
    assert_eq!(read_packet(&[0, 0, 4, 0xc1]).unwrap_err(), FrameError::BadFlood);
}

#[test]
fn request_and_refuse_frames_read_back() {
    let mut req = RequestPacket::new().to_bytes();
    req.extend_from_slice(&[0xff, 0xee]);
    assert!(matches!(read_packet(&req), Ok(PacketType::Request(_))));
    assert_eq!(parse_tcp_packet(&req), Some((1, vec![])));
    let mut refuse = RefusePacket::new().to_bytes().unwrap();
    refuse.push(7);
    assert_eq!(parse_tcp_packet(&refuse), Some((3, vec![])));
}

#[test]
fn request_bytes_read_from_zeroed_buffer() {
    let mut buf = [0u8; 1500];
    let b = RequestPacket::new().to_bytes();
    buf[..b.len()].copy_from_slice(&b);
    assert!(matches!(read_packet(&buf), Ok(PacketType::Request(_))));
    let mut buf2 = [0u8; 1500];
    buf2[..3].copy_from_slice(&RefusePacket::new().to_bytes().unwrap());
    assert!(matches!(read_packet(&buf2), Ok(PacketType::Refuse(_))));
}

#[test]
fn stream_bytes_and_read_back() {
    let mut s = StreamPacket::new(vec![10, 20, 30]);
    let b = s.to_bytes().unwrap();
    assert_eq!(b, vec![0, 6, 10, 20, 30]);
    assert!(s.data.is_empty());
    // the reader takes one byte past the data
    let mut buf = b.clone();
    buf.push(99);
    buf.push(98);
    let r = read_stream_packet(&buf).unwrap();
    assert_eq!(r.data, vec![10, 20, 30, 99]);
    assert!(read_stream_packet(&b).is_none());
    let f = StreamPacket::from_bytes_packet_type(vec![1]);
    assert_eq!(f.data, vec![1]);
}

#[test]
fn stream_relay_plan() {
    let mut t = RoutingTable::new(vec![link("a", 1), link("b", 2)]);
    t.handle_request_packet("a".to_string()).unwrap();
    t.handle_request_packet("b".to_string()).unwrap();
    t.handle_request_packet("c".to_string()).unwrap();
    let mut s = StreamPacket::new(vec![5]);
    let (bytes, to) = s.relay(&t, &"a".to_string());
    assert_eq!(bytes, vec![0, 4, 5]);
    assert_eq!(to, vec!["b".to_string(), "c".to_string()]);
    assert!(s.data.is_empty());
}

#[test]
fn apply_flood() {
    let mut t = RoutingTable::new(vec![Link::new_default("a")]);
    let p = PacketType::Flood(FloodPacket::new("s".to_string(), 2, 10));
    assert!(p.allowed(&t, &"a".to_string(), 10));
    assert!(!p.allowed(&t, &"b".to_string(), 10));
    assert!(!p.allowed(&t, &"a".to_string(), 9));
    match p.apply(&mut t, "a".to_string(), 15) {
        Ok(Reply::Done(changed)) => assert!(changed),
        other => panic!("unexpected {:?}", other),
    }
    assert_eq!(t.links[0].delay, 5);
    assert_eq!(t.closest_link.addr, "a");
}

#[test]
fn apply_request_forwards_first_connection() {
    let mut t = RoutingTable::new(vec![link("up", 1), link("down", 2)]);
    let p = PacketType::Request(RequestPacket::new());
    assert!(p.allowed(&t, &"down".to_string(), 0));
    match p.apply(&mut t, "down".to_string(), 0) {
        Ok(Reply::Forward(addr, bytes)) => {
            assert_eq!(addr, "up");
            assert_eq!(bytes, vec![1, 0, 3]);
        }
        other => panic!("unexpected {:?}", other),
    }
    match p.apply(&mut t, "client".to_string(), 0) {
        Ok(Reply::Done(false)) => {}
        other => panic!("unexpected {:?}", other),
    }
    assert_eq!(t.num_stream_connections, 2);
    assert!(!p.allowed(&t, &"down".to_string(), 0));
}

#[test]
fn apply_refuse_forwards_when_idle() {
    let mut t = RoutingTable::new(vec![link("up", 1), link("down", 2)]);
    t.handle_request_packet("down".to_string()).unwrap();
    t.handle_request_packet("c".to_string()).unwrap();
    let p = PacketType::Refuse(RefusePacket::new());
    match p.apply(&mut t, "down".to_string(), 0) {
        Ok(Reply::Done(false)) => {}
        other => panic!("unexpected {:?}", other),
    }
    // the client's refusal does not lower the count
    match p.apply(&mut t, "c".to_string(), 0) {
        Ok(Reply::Done(false)) => {}
        other => panic!("unexpected {:?}", other),
    }
    let mut idle = RoutingTable::new(vec![link("up", 1), link("down", 2)]);
    idle.handle_request_packet("down".to_string()).unwrap();
    match p.apply(&mut idle, "down".to_string(), 0) {
        Ok(Reply::Forward(addr, bytes)) => {
            assert_eq!(addr, "up");
            assert_eq!(bytes, vec![3, 0, 3]);
        }
        other => panic!("unexpected {:?}", other),
    }
    match p.apply(&mut idle, "nobody".to_string(), 0) {
        Err(e) => assert_eq!(e, "Node wasn't receiving the stream..."),
        other => panic!("unexpected {:?}", other),
    }
    assert!(!p.allowed(&idle, &"down".to_string(), 0));
}

#[test]
fn apply_ack_and_stream_are_errors() {
    let mut t = RoutingTable::new(vec![]);
    let ack = PacketType::Ack(AckPacket::from_bytes_packet_type(vec![]));
    match ack.apply(&mut t, "a".to_string(), 0) {
        Err(e) => assert_eq!(e, "Acknowledgements are not handled"),
        other => panic!("unexpected {:?}", other),
    }
    let st = PacketType::Stream(StreamPacket::new(vec![1]));
    match st.apply(&mut t, "a".to_string(), 0) {
        Err(e) => assert_eq!(e, "FIXME"),
        other => panic!("unexpected {:?}", other),
    }
}
