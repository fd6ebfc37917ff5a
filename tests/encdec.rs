use wyd2::encdec::{
    decrypt, decrypt_cursor, decrypt_non_null, dispatch, encrypt, load_keys, packet_size_at,
    packet_spans, KeyTableError, MsgHeader, MsgLockPasswordRequest, Packet, Payload,
};

fn default_keys() -> Vec<u8> {
    vec![
        0x84, 0x87, 0x37, 0xD7, 0xEA, 0x79, 0x91, 0x7D, 0x4B, 0x4B, 0x85, 0x7D, 0x87, 0x81,
        0x91, 0x7C, 0x0F, 0x73, 0x91, 0x91, 0x87, 0x7D, 0x0D, 0x7D, 0x86, 0x8F, 0x73, 0x0F,
        0xE1, 0xDD, 0x85, 0x7D, 0x05, 0x7D, 0x85, 0x83, 0x87, 0x9C, 0x85, 0x33, 0x0D, 0xE2,
        0x87, 0x19, 0x0F, 0x79, 0x85, 0x86, 0x37, 0x7D, 0xD7, 0xDD, 0xE9, 0x7D, 0xD7, 0x7D,
        0x85, 0x79, 0x05, 0x7D, 0x0F, 0xE1, 0x87, 0x7E, 0x23, 0x87, 0xF5, 0x79, 0x5F, 0xE3,
        0x4B, 0x83, 0xA3, 0xA2, 0xAE, 0x0E, 0x14, 0x7D, 0xDE, 0x7E, 0x85, 0x7A, 0x85, 0xAF,
        0xCD, 0x7D, 0x87, 0xA5, 0x87, 0x7D, 0xE1, 0x7D, 0x88, 0x7D, 0x15, 0x91, 0x23, 0x7D,
        0x87, 0x7C, 0x0D, 0x7A, 0x85, 0x87, 0x17, 0x7C, 0x85, 0x7D, 0xAC, 0x80, 0xBB, 0x79,
        0x84, 0x9B, 0x5B, 0xA5, 0xD7, 0x8F, 0x05, 0x0F, 0x85, 0x7E, 0x85, 0x80, 0x85, 0x98,
        0xF5, 0x9D, 0xA3, 0x1A, 0x0D, 0x19, 0x87, 0x7C, 0x85, 0x7D, 0x84, 0x7D, 0x85, 0x7E,
        0xE7, 0x97, 0x0D, 0x0F, 0x85, 0x7B, 0xEA, 0x7D, 0xAD, 0x80, 0xAD, 0x7D, 0xB7, 0xAF,
        0x0D, 0x7D, 0xE9, 0x3D, 0x85, 0x7D, 0x87, 0xB7, 0x23, 0x7D, 0xE7, 0xB7, 0xA3, 0x0C,
        0x87, 0x7E, 0x85, 0xA5, 0x7D, 0x76, 0x35, 0xB9, 0x0D, 0x6F, 0x23, 0x7D, 0x87, 0x9B,
        0x85, 0x0C, 0xE1, 0xA1, 0x0D, 0x7F, 0x87, 0x7D, 0x84, 0x7A, 0x84, 0x7B, 0xE1, 0x86,
        0xE8, 0x6F, 0xD1, 0x79, 0x85, 0x19, 0x53, 0x95, 0xC3, 0x47, 0x19, 0x7D, 0xE7, 0x0C,
        0x37, 0x7C, 0x23, 0x7D, 0x85, 0x7D, 0x4B, 0x79, 0x21, 0xA5, 0x87, 0x7D, 0x19, 0x7D,
        0x0D, 0x7D, 0x15, 0x91, 0x23, 0x7D, 0x87, 0x7C, 0x85, 0x7A, 0x85, 0xAF, 0xCD, 0x7D,
        0x87, 0x7D, 0xE9, 0x3D, 0x85, 0x7D, 0x15, 0x79, 0x85, 0x7D, 0xC1, 0x7B, 0xEA, 0x7D,
        0xB7, 0x7D, 0x85, 0x7D, 0x85, 0x7D, 0x0D, 0x7D, 0xE9, 0x73, 0x85, 0x79, 0x05, 0x7D,
        0xD7, 0x7D, 0x85, 0xE1, 0xB9, 0xE1, 0x0F, 0x65, 0x85, 0x86, 0x2D, 0x7D, 0xD7, 0xDD,
        0xA3, 0x8E, 0xE6, 0x7D, 0xDE, 0x7E, 0xAE, 0x0E, 0x0F, 0xE1, 0x89, 0x7E, 0x23, 0x7D,
        0xF5, 0x79, 0x23, 0xE1, 0x4B, 0x83, 0x0C, 0x0F, 0x85, 0x7B, 0x85, 0x7E, 0x8F, 0x80,
        0x85, 0x98, 0xF5, 0x7A, 0x85, 0x1A, 0x0D, 0xE1, 0x0F, 0x7C, 0x89, 0x0C, 0x85, 0x0B,
        0x23, 0x69, 0x87, 0x7B, 0x23, 0x0C, 0x1F, 0xB7, 0x21, 0x7A, 0x88, 0x7E, 0x8F, 0xA5,
        0x7D, 0x80, 0xB7, 0xB9, 0x18, 0xBF, 0x4B, 0x19, 0x85, 0xA5, 0x91, 0x80, 0x87, 0x81,
        0x87, 0x7C, 0x0F, 0x73, 0x91, 0x91, 0x84, 0x87, 0x37, 0xD7, 0x86, 0x79, 0xE1, 0xDD,
        0x85, 0x7A, 0x73, 0x9B, 0x05, 0x7D, 0x0D, 0x83, 0x87, 0x9C, 0x85, 0x33, 0x87, 0x7D,
        0x85, 0x0F, 0x87, 0x7D, 0x0D, 0x7D, 0xF6, 0x7E, 0x87, 0x7D, 0x88, 0x19, 0x89, 0xF5,
        0xD1, 0xDD, 0x85, 0x7D, 0x8B, 0xC3, 0xEA, 0x7A, 0xD7, 0xB0, 0x0D, 0x7D, 0x87, 0xA5,
        0x87, 0x7C, 0x73, 0x7E, 0x7D, 0x86, 0x87, 0x23, 0x85, 0x10, 0xD7, 0xDF, 0xED, 0xA5,
        0xE1, 0x7A, 0x85, 0x23, 0xEA, 0x7E, 0x85, 0x98, 0xAD, 0x79, 0x86, 0x7D, 0x85, 0x7D,
        0xD7, 0x7D, 0xE1, 0x7A, 0xF5, 0x7D, 0x85, 0xB0, 0x2B, 0x37, 0xE1, 0x7A, 0x87, 0x79,
        0x84, 0x7D, 0x73, 0x73, 0x87, 0x7D, 0x23, 0x7D, 0xE9, 0x7D, 0x85, 0x7E, 0x02, 0x7D,
        0xDD, 0x2D, 0x87, 0x79, 0xE7, 0x79, 0xAD, 0x7C, 0x23, 0xDA, 0x87, 0x0D, 0x0D, 0x7B,
        0xE7, 0x79, 0x9B, 0x7D, 0xD7, 0x8F, 0x05, 0x7D, 0x0D, 0x34, 0x8F, 0x7D, 0xAD, 0x87,
        0xE9, 0x7C, 0x85, 0x80, 0x85, 0x79, 0x8A, 0xC3, 0xE7, 0xA5, 0xE8, 0x6B, 0x0D, 0x74,
        0x10, 0x73, 0x33, 0x17, 0x0D, 0x37, 0x21, 0x19,
    ]
}

fn default_decrypted() -> Vec<u8> {
    vec![
        0x20, 0x00, 0xBB, 0x58, 0xDE, 0x0F, 0x00, 0x00, 0xC1, 0x78, 0xB9, 0x95, 0x30, 0x32,
        0x34, 0x39, 0x00, 0x00, 0x00, 0x00, 0x00, 0x00, 0x00, 0x00, 0x00, 0x00, 0x00, 0x00,
        0x00, 0x00, 0x00, 0x00, 0x0C, 0x00, 0x11, 0xCC, 0xDF, 0x0F, 0x00, 0x00, 0xC1, 0x78,
        0xB9, 0x95,
    ]
}

fn default_encrypted() -> Vec<u8> {
    vec![
        0x20, 0x00, 0xBB, 0x58, 0xD8, 0xF3, 0x84, 0xFD, 0xCD, 0x69, 0x2D, 0x91, 0x2A, 0x23,
        0x6C, 0x32, 0xFC, 0xF1, 0xE4, 0xF9, 0x06, 0xFF, 0xEC, 0xFD, 0x00, 0xED, 0xE8, 0x00,
        0xC2, 0xF1, 0x30, 0x00, 0x0C, 0x00, 0x11, 0xCC, 0xD9, 0xF3, 0x84, 0xFD, 0xCD, 0x69,
        0x2D, 0x91,
    ]
}

#[test]
fn test_encrypt() {
    let keys = default_keys();
    let encrypted = default_encrypted();
    let mut decrypted = default_decrypted();
    assert_eq!(encrypt(&mut decrypted, &keys), encrypted);
}

#[test]
fn test_decrypt() {
    let keys = default_keys();
    let mut encrypted = default_encrypted();
    let decrypted = default_decrypted();
    assert_eq!(decrypt(&mut encrypted, &keys), decrypted);
}

#[test]
fn test_decrypt_non_null() {
    let keys = default_keys();
    let mut encrypted = default_encrypted();
    let decrypted = default_decrypted();
    assert_eq!(decrypt_non_null(&mut encrypted, &keys), decrypted);
}

#[test]
fn test_decrypt_cursor() {
    let keys = default_keys();
    let mut encrypted = default_encrypted();
    let decrypted = default_decrypted();
    assert_eq!(decrypt_cursor(&mut encrypted, &keys), decrypted);
}

#[test]
fn encrypt_changes_buffer_in_place() {
    let keys = default_keys();
    let mut buf = default_decrypted();
    let copy = encrypt(&mut buf, &keys);
    assert_eq!(buf, default_encrypted());
    assert_eq!(copy, buf);
}

#[test]
fn round_trip_both_ways() {
    let keys = default_keys();
    let mut buf = default_decrypted();
    encrypt(&mut buf, &keys);
    decrypt(&mut buf, &keys);
    assert_eq!(buf, default_decrypted());
    let mut other = default_decrypted();
    decrypt(&mut other, &keys);
    assert_ne!(other, default_decrypted());
    encrypt(&mut other, &keys);
    assert_eq!(other, default_decrypted());
}

#[test]
fn header_bytes_unchanged_by_transform() {
    let keys = default_keys();
    let plain = default_decrypted();
    let mut buf = plain.clone();
    encrypt(&mut buf, &keys);
    for (start, _) in packet_spans(&plain) {
        assert_eq!(buf[start..start + 4], plain[start..start + 4]);
    }
    let mut back = buf.clone();
    decrypt(&mut back, &keys);
    for (start, _) in packet_spans(&buf) {
        assert_eq!(back[start..start + 4], buf[start..start + 4]);
    }
}

#[test]
fn framing_finds_both_fixture_packets() {
    let plain = default_decrypted();
    assert_eq!(packet_spans(&plain), vec![(0, 32), (32, 12)]);
    assert_eq!(packet_spans(&plain), packet_spans(&plain));
    assert_eq!(packet_spans(&default_encrypted()), vec![(0, 32), (32, 12)]);
}

#[test]
fn framing_of_empty_and_short_buffers() {
    assert_eq!(packet_spans(&[]), vec![]);
    assert_eq!(packet_spans(&[0x0C, 0x00, 0x01]), vec![]);
}

#[test]
fn framing_takes_short_declarations_and_stops_at_zero() {
    let mut buf = vec![0u8; 24];
    buf[0] = 0x0C;
    buf[12] = 0x05;
    assert_eq!(packet_spans(&buf), vec![(0, 12), (12, 5)]);
    assert_eq!(packet_size_at(&buf, 12), Some(5));
    buf[12] = 0x00;
    assert_eq!(packet_spans(&buf), vec![(0, 12)]);
    assert_eq!(packet_size_at(&buf, 12), None);
}

#[test]
fn short_packet_payload_is_transformed() {
    let keys = default_keys();
    let mut plain = vec![0u8; 20];
    plain[0] = 0x08;
    plain[2] = 0xBB;
    plain[8] = 0x0C;
    plain[10] = 0xBB;
    assert_eq!(packet_spans(&plain), vec![(0, 8), (8, 12)]);
    let mut buf = plain.clone();
    encrypt(&mut buf, &keys);
    // Same key seed and offsets as the fixture's first packet, whose bytes 4..8
    // go from DE 0F 00 00 to D8 F3 84 FD; here they start at zero.
    assert_eq!(buf[4..8], [0xFA, 0xE4, 0x84, 0xFD]);
    assert_eq!(buf[..4], plain[..4]);
    assert_eq!(buf[8..12], plain[8..12]);
    assert_ne!(buf[12..], plain[12..]);
    decrypt(&mut buf, &keys);
    assert_eq!(buf, plain);
}

#[test]
fn packets_shorter_than_four_bytes_are_unchanged() {
    let keys = default_keys();
    let mut plain = vec![0u8; 15];
    plain[0] = 0x03;
    plain[3] = 0x0C;
    let mut buf = plain.clone();
    assert_eq!(packet_spans(&plain), vec![(0, 3), (3, 12)]);
    encrypt(&mut buf, &keys);
    assert_eq!(buf[..7], plain[..7]);
    assert_ne!(buf[7..], plain[7..]);
    decrypt(&mut buf, &keys);
    assert_eq!(buf, plain);
}

#[test]
fn packet_size_reads_little_endian() {
    let mut buf = vec![0u8; 0x0102];
    buf[0] = 0x02;
    buf[1] = 0x01;
    assert_eq!(packet_size_at(&buf, 0), Some(0x0102));
    buf[0] = 0x03;
    assert_eq!(packet_size_at(&buf, 0), None);
    assert_eq!(packet_size_at(&default_decrypted(), 32), Some(12));
}

#[test]
fn truncated_trailing_packet_left_untouched() {
    let keys = default_keys();
    let mut buf = default_decrypted();
    let fragment = vec![0x40, 0x00, 0xBB, 0x58, 0xDE, 0x0F, 0x00, 0x00, 0x01, 0x02, 0x03, 0x04, 0x05, 0x06];
    buf.extend_from_slice(&fragment);
    let out = encrypt(&mut buf, &keys);
    assert_eq!(out[..44], default_encrypted()[..]);
    assert_eq!(out[44..], fragment[..]);
    let mut back = out.clone();
    decrypt(&mut back, &keys);
    assert_eq!(back[..44], default_decrypted()[..]);
    assert_eq!(back[44..], fragment[..]);
}

#[test]
fn short_tail_fragment_left_untouched() {
    let keys = default_keys();
    let mut buf = default_decrypted();
    buf.extend_from_slice(&[0x0C, 0x00, 0x07]);
    encrypt(&mut buf, &keys);
    assert_eq!(buf[..44], default_encrypted()[..]);
    assert_eq!(buf[44..], [0x0C, 0x00, 0x07]);
}

#[test]
fn load_keys_accepts_exactly_512() {
    let keys = default_keys();
    assert_eq!(load_keys(&keys), Ok(keys.clone()));
    assert_eq!(load_keys(&keys[..511]), Err(KeyTableError::WrongLength { len: 511 }));
    let mut longer = keys.clone();
    longer.push(0);
    assert_eq!(load_keys(&longer), Err(KeyTableError::WrongLength { len: 513 }));
    assert_eq!(load_keys(&[]), Err(KeyTableError::WrongLength { len: 0 }));
}

#[test]
fn header_read_from_plaintext() {
    let plain = default_decrypted();
    let h = MsgHeader::read(&plain).unwrap();
    assert_eq!(h.size, 32);
    assert_eq!(h.key, 0xBB);
    assert_eq!(h.hash, 0x58);
    assert_eq!(h.code, 0x0FDE);
    assert_eq!(h.index, 0);
    assert_eq!(h.timestamp, 0x95B9_78C1);
    assert_eq!(MsgHeader::read(&plain[..11]), None);
}

#[test]
fn header_read_signed_fields() {
    let bytes = [0x0C, 0x00, 0x01, 0x02, 0xFF, 0xFF, 0x00, 0x80, 0xFF, 0xFF, 0xFF, 0xFF];
    let h = MsgHeader::read(&bytes).unwrap();
    assert_eq!(h.code, -1);
    assert_eq!(h.index, i16::MIN);
    assert_eq!(h.timestamp, u32::MAX);
    assert_eq!(*h.get_header(), h);
}

#[test]
fn dispatch_lock_password_request() {
    let plain = default_decrypted();
    let payload = dispatch(&plain[..32]).unwrap();
    let Payload::LockPasswordRequest(req) = payload;
    let mut password = [0u8; 16];
    password[..4].copy_from_slice(b"0249");
    assert_eq!(req.password, password);
    assert_eq!(req.change, 0);
    assert_eq!(req.get_header().code, 0x0FDE);
    assert_eq!(*req.get_header(), MsgHeader::read(&plain).unwrap());
}

#[test]
fn dispatch_change_flag_is_signed() {
    let mut plain = default_decrypted()[..32].to_vec();
    plain[28..32].copy_from_slice(&[0xFE, 0xFF, 0xFF, 0xFF]);
    let Payload::LockPasswordRequest(req): Payload = dispatch(&plain).unwrap();
    assert_eq!(req.change, -2);
    let copy: MsgLockPasswordRequest = req;
    assert_eq!(copy, req);
}

#[test]
fn dispatch_ignores_other_codes_and_short_packets() {
    let plain = default_decrypted();
    assert_eq!(dispatch(&plain[32..]), None);
    assert_eq!(dispatch(&plain[..31]), None);
    assert_eq!(dispatch(&plain[..11]), None);
    assert_eq!(dispatch(&[]), None);
    assert!(dispatch(&plain).is_some());
    assert_eq!(dispatch(&default_encrypted()[..32]), None);
}
