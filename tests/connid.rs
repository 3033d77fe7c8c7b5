use comet::connid::{ConnectionId, MachineId, ShortConnectionId, SocketAddrV4, SocketAddrV6};

fn mock_connection_id() -> ConnectionId {
    ConnectionId {
        msec: 1626712839789,
        machine_id: MachineId::AddressV6(SocketAddrV6 {
            ip: 0xfdbd_dc02_00ff_0001_0002_0225_0137_0157,
            port: 12345,
        }),
        incr: 12345,
        rand: 2345,
        version: 0,
    }
}

#[test]
fn test_connection_id_to_string() {
    let id = mock_connection_id();
    println!("{:?}", id);
    assert_eq!(
        id.to_text().as_str(),
        "0QNFX42SPVYVVQ0203ZG00800812A09Q05BK0E9G74JA8"
    )
}

#[test]
fn test_connection_id_to_short() {
    let id = mock_connection_id();
    let short_id = id.to_short();
    let want: [u8; 10] = [1, 122, 191, 164, 22, 109, 48, 57, 36, 164];
    println!("{:?}", id);
    assert_eq!(short_id, ShortConnectionId::new(want))
}

#[test]
fn test_connection_id_parse() {
    let id = mock_connection_id();
    let got: ConnectionId = "0QNFX42SPVYVVQ0203ZG00800812A09Q05BK0E9G74JA8"
        .parse()
        .unwrap();
    assert_eq!(got, id)
}

#[test]
fn parse_accepts_lower_case() {
    let id = mock_connection_id();
    let got = ConnectionId::from_text("0qnfx42spvyvvq0203zg00800812a09q05bk0e9g74ja8").unwrap();
    assert_eq!(got, id);
}

#[test]
fn text_round_trip_random_machine() {
    let mut bytes = [0u8; 18];
    for (i, b) in bytes.iter_mut().enumerate() {
        *b = (i as u8) * 13 + 7;
    }
    let id = ConnectionId {
        machine_id: MachineId::Random(bytes),
        msec: 0x3FFF_FFFF_FFFF,
        incr: 0xFFFF,
        rand: 0x3FFF,
        version: 3,
    };
    let text = id.to_text();
    assert_eq!(text.len(), 45);
    assert_eq!(ConnectionId::from_text(&text).unwrap(), id);
}

#[test]
fn text_round_trip_ipv4_machine() {
    let id = ConnectionId {
        machine_id: MachineId::AddressV4(SocketAddrV4 { ip: 0x7F00_0001, port: 9002 }),
        msec: 1,
        incr: 2,
        rand: 3,
        version: 0,
    };
    let text = id.to_text();
    assert_eq!(text.len(), 45);
    assert_ne!(text, "000000000000000000000000000000000000000000000");
    assert_eq!(ConnectionId::from_text(&text).unwrap(), id);
}

#[test]
fn parse_rejects_wrong_length() {
    let good = "0QNFX42SPVYVVQ0203ZG00800812A09Q05BK0E9G74JA8";
    assert!(ConnectionId::from_text(&good[..44]).is_err());
    let long = format!("{}0", good);
    assert!(ConnectionId::from_text(&long).is_err());
    assert!(ConnectionId::from_text("").is_err());
}

#[test]
fn parse_reads_confusable_letters() {
    let id = ConnectionId::from_text("0QNFX42SPVYVVQ0203ZG00800812A09Q05BK0E9G74JA8").unwrap();
    let alt = ConnectionId::from_text("OQNFX42SPVYVVQO2O3ZGOO8OO812A09Q05BK0E9G74JA8").unwrap();
    assert_eq!(alt, id);
}

#[test]
fn parse_rejects_non_ascii_of_right_byte_length() {
    let s = "0QNFX42SPVYVVQ0203ZG00800812A09Q05BK0E9G74Jé";
    assert_eq!(s.len(), 45);
    assert!(ConnectionId::from_text(s).is_err());
}

#[test]
fn parse_rejects_non_base32() {
    let bad = "0QNFX42SPVYVVQ0203ZG00800812A09Q05BK0E9G74JU8";
    assert!(ConnectionId::from_text(bad).is_err());
    let bad2 = "0QNFX42SPVYVVQ0203ZG00800812A09Q05BK0E9G74J=8";
    assert!(ConnectionId::from_text(bad2).is_err());
}

#[test]
fn parse_rejects_unknown_machine_tag() {
    let mut bytes = ConnectionId {
        machine_id: MachineId::Random([0u8; 18]),
        msec: 5,
        incr: 0,
        rand: 0,
        version: 0,
    }
    .encode();
    bytes[5] |= 3;
    let err = ConnectionId::decode(&bytes).unwrap_err();
    assert_eq!(err.detail, "invalid connection id");
}

#[test]
fn decode_rejects_wrong_length() {
    assert!(ConnectionId::decode(&[0u8; 27]).is_err());
    assert!(ConnectionId::decode(&[0u8; 29]).is_err());
}

#[test]
fn encode_layout() {
    let id = ConnectionId {
        machine_id: MachineId::AddressV4(SocketAddrV4 { ip: 0x0A00_0001, port: 0x1F90 }),
        msec: 1,
        incr: 0x0102,
        rand: 1,
        version: 2,
    };
    let b = id.encode();
    assert_eq!(b.len(), 28);
    assert_eq!(&b[..6], &[0, 0, 0, 0, 0, 5]);
    assert_eq!(&b[6..12], &[10, 0, 0, 1, 0x1F, 0x90]);
    assert_eq!(&b[12..24], &[0u8; 12]);
    assert_eq!(&b[24..28], &[1, 2, 0, 6]);
}

#[test]
fn short_round_trip_and_key() {
    let id = mock_connection_id();
    let short = id.to_short();
    assert_eq!(ConnectionId::from_short(short, id.machine_id), id);
    assert_eq!(short.key(), 0x017A_BFA4_166D_3039_24A4);
    assert_eq!(short.as_bytes(), [1, 122, 191, 164, 22, 109, 48, 57, 36, 164]);
}

#[test]
fn order_follows_time_then_counter() {
    let m = MachineId::AddressV4(SocketAddrV4 { ip: 1, port: 2 });
    let a = ConnectionId { machine_id: m, msec: 10, incr: 900, rand: 5, version: 0 };
    let b = ConnectionId { machine_id: m, msec: 11, incr: 3, rand: 1, version: 0 };
    let c = ConnectionId { machine_id: m, msec: 11, incr: 4, rand: 0, version: 0 };
    assert!(a < b);
    assert!(b < c);
    assert!(a.to_text() < b.to_text());
    assert!(b.to_text() < c.to_text());
    assert_eq!(a.partial_cmp(&a), Some(std::cmp::Ordering::Equal));
    assert!(c > a);
}

#[test]
fn getters() {
    let id = mock_connection_id();
    assert_eq!(id.get_version(), 0);
    assert_eq!(id.get_time(), 1626712839789);
    assert!(id.get_socket_addr().is_some());
    let r = ConnectionId { machine_id: MachineId::Random([1u8; 18]), msec: 0, incr: 0, rand: 0, version: 1 };
    assert!(r.get_socket_addr().is_none());
}
