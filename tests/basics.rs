use token_ring::add;
use token_ring::event::{Event, JoinAnswerEvent};
use token_ring::packet::JoinAnswerResult;
use token_ring::addr::{IpAddr, SockAddr};
use token_ring::err::TokenRingError;
use token_ring::id::WorkStationId;
use token_ring::serialize::{
    get_sock_addr_size, read_byte_arr, read_byte_vec, write_byte_arr, read_sock_addr, read_string, read_u16, read_u32, read_u64,
    write_byte_vec, write_sock_addr, write_string, write_u16, write_u32, write_u64, Serializable,
};

#[test]
fn it_works() {
    let result = add(2, 2);
    assert_eq!(result, 4);
}

#[test]
fn serialize_stub() {
    let stub = "Test".to_owned();
    let mut buf = vec![];
    assert!(write_string(&mut buf, &stub).is_ok());

    let (new_stub, _) = read_string(buf.as_slice(), 0).unwrap();
    assert_eq!(stub, new_stub)
}

#[test]
fn big_endian_integers() {
    let mut buf = vec![];
    write_u16(&mut buf, 0x1234);
    write_u32(&mut buf, 0x0102_0304);
    write_u64(&mut buf, 0x0102_0304_0506_0708);
    assert_eq!(buf, vec![0x12, 0x34, 1, 2, 3, 4, 1, 2, 3, 4, 5, 6, 7, 8]);
    assert_eq!(read_u16(&buf, 0).unwrap(), (0x1234, 2));
    assert_eq!(read_u32(&buf, 2).unwrap(), (0x0102_0304, 6));
    assert_eq!(read_u64(&buf, 6).unwrap(), (0x0102_0304_0506_0708, 14));
    assert!(read_u64(&buf, 7).is_err());
}

#[test]
fn byte_vec_has_length_prefix() {
    let mut buf = vec![];
    write_byte_vec(&mut buf, &[9, 8, 7]).unwrap();
    assert_eq!(buf, vec![0, 3, 9, 8, 7]);
    let (v, p) = read_byte_vec(&buf, 0).unwrap();
    assert_eq!(v, vec![9, 8, 7]);
    assert_eq!(p, 5);
    assert!(matches!(read_byte_vec(&buf[..4], 0), Err(TokenRingError::InvalidPacketHeader)));
}

#[test]
fn oversized_byte_vec_is_refused() {
    let mut buf = vec![];
    let big = vec![0u8; 65536];
    assert!(matches!(write_byte_vec(&mut buf, &big), Err(TokenRingError::InvalidPacketHeader)));
    let fits = vec![1u8; 65535];
    assert!(write_byte_vec(&mut buf, &fits).is_ok());
    assert_eq!(buf.len(), 65537);
}

#[test]
fn malformed_utf8_is_refused() {
    let buf = vec![0, 2, 0xff, 0xfe];
    assert!(matches!(read_string(&buf, 0), Err(TokenRingError::InvalidPacketHeader)));
}

#[test]
fn string_is_utf8_with_prefix() {
    let mut buf = vec![];
    write_string(&mut buf, &"hé".to_owned()).unwrap();
    assert_eq!(buf, vec![0, 3, b'h', 0xc3, 0xa9]);
}

#[test]
fn workstation_id_is_truncated_and_lowercased() {
    assert_eq!(WorkStationId::new("Some Station".to_owned()).as_str(), "some sta");
    assert_eq!(WorkStationId::new("Bob".to_owned()).as_str(), "bob");
    assert_eq!(WorkStationId::new("ALICE".to_owned()), WorkStationId::new("alice".to_owned()));
    assert_eq!(WorkStationId::new("".to_owned()).as_str(), "");
    // eight bytes would split the two-byte 'é': the cut backs off to a boundary
    assert_eq!(WorkStationId::new("abcdefgé".to_owned()).as_str(), "abcdefg");
    assert_eq!(WorkStationId::new("abcdefgh".to_owned()).as_str(), "abcdefgh");
}

#[test]
fn workstation_id_round_trip() {
    let id = WorkStationId::new("Alice".to_owned());
    let mut buf = vec![];
    id.write(&mut buf).unwrap();
    assert_eq!(buf, vec![0, 5, b'a', b'l', b'i', b'c', b'e']);
    let (back, p) = WorkStationId::read(&buf, 0).unwrap();
    assert_eq!(back, id);
    assert_eq!(p, buf.len());
}

#[test]
fn sock_addr_round_trip() {
    let v4 = SockAddr { ip: IpAddr::V4(0x7f00_0001), port: 7000 };
    let mut buf = vec![];
    write_sock_addr(&mut buf, &v4);
    assert_eq!(buf, vec![0, 127, 0, 0, 1, 0x1b, 0x58]);
    assert_eq!(read_sock_addr(&buf, 0).unwrap(), (v4, 7));
    assert_eq!(get_sock_addr_size(&v4), 6);

    let v6 = SockAddr { ip: IpAddr::V6(1), port: 1 };
    let mut buf6 = vec![];
    write_sock_addr(&mut buf6, &v6);
    assert_eq!(buf6.len(), 19);
    assert_eq!(buf6[0], 1);
    assert_eq!(buf6[16], 1);
    assert_eq!(read_sock_addr(&buf6, 0).unwrap(), (v6, 19));
    assert_eq!(get_sock_addr_size(&v6), 18);

    let bad = vec![2, 0, 0, 0, 0, 0, 0];
    assert!(matches!(read_sock_addr(&bad, 0), Err(TokenRingError::InvalidPacketHeader)));
}

#[test]
fn join_answer_event_names_its_source() {
    let ev = JoinAnswerEvent {
        source: WorkStationId::new("Mon".to_owned()),
        result: JoinAnswerResult::Deny("no".to_owned()),
    };
    assert_eq!(ev.source().as_str(), "mon");
}

#[test]
fn byte_arrays_have_no_prefix() {
    let mut buf = vec![];
    write_byte_arr(&mut buf, &[1u8, 2, 3, 4]);
    assert_eq!(buf, vec![1, 2, 3, 4]);
    let (a, p) = read_byte_arr::<2>(&buf, 1).unwrap();
    assert_eq!(a, [2, 3]);
    assert_eq!(p, 3);
    assert!(read_byte_arr::<4>(&buf, 1).is_err());
}
