use caramel::pxe::{
    extract_server_ip, negotiate_step, prepare_filename, pxe_api_present, validate_pxe,
    validate_pxenv, FirmwareEvent, NegotiationState,
};

/// Set `buf[at]` so the whole buffer's byte-sum is zero modulo 256.
fn balance_checksum(buf: &mut Vec<u8>, at: usize) {
    buf[at] = 0;
    let sum: u32 = buf.iter().map(|&b| b as u32).sum();
    buf[at] = ((256 - (sum % 256)) % 256) as u8;
}

/// An intact API presence record pointing at segment:offset 0x5678:0x1234,
/// with byte 6 balancing the checksum.
fn synth_pxenv() -> Vec<u8> {
    let mut buf = vec![0u8; 0x2c];
    buf[0] = 0x50; // 'P'
    buf[1] = 0x58; // 'X'
    buf[2] = 0x45; // 'E'
    buf[3] = 0x4e; // 'N'
    buf[4] = 0x56; // 'V'
    buf[5] = 0x2b; // '+'
    buf[8] = 0x2c; // declared length
    buf[0x28] = 0x34; // entry-record offset, low byte
    buf[0x29] = 0x12;
    buf[0x2a] = 0x78; // entry-record segment, low byte
    buf[0x2b] = 0x56;
    balance_checksum(&mut buf, 6);
    buf
}

/// An intact API entry-point record with entry point 0xBEEF:0x0042, byte 6
/// balancing the checksum.
fn synth_pxe() -> Vec<u8> {
    let mut buf = vec![0u8; 0x58];
    buf[0] = 0x21; // '!'
    buf[1] = 0x50; // 'P'
    buf[2] = 0x58; // 'X'
    buf[3] = 0x45; // 'E'
    buf[4] = 0x58; // declared length
    buf[0x10] = 0x42; // entry offset
    buf[0x11] = 0x00;
    buf[0x12] = 0xEF; // entry segment, low byte
    buf[0x13] = 0xBE;
    balance_checksum(&mut buf, 6);
    buf
}

#[test]
fn presence_record_round_trip() {
    let buf = synth_pxenv();
    let (seg, off) = validate_pxenv(&buf).unwrap();
    assert_eq!(seg, 0x5678);
    assert_eq!(off, 0x1234);
}

#[test]
fn presence_record_nonzero_checksum_rejected() {
    // Correct signature and length, but the balancing byte is wrong.
    let mut buf = synth_pxenv();
    buf[6] = buf[6].wrapping_add(1);
    assert!(validate_pxenv(&buf).is_none());
}

#[test]
fn presence_record_any_flip_rejected_and_restorable() {
    let good = synth_pxenv();
    assert!(validate_pxenv(&good).is_some());

    // Flipping any single byte breaks the record.
    for i in 0..good.len() {
        let mut bad = good.clone();
        bad[i] = bad[i].wrapping_add(0x41);
        assert!(validate_pxenv(&bad).is_none());
    }

    // Restoring the checksum through the designated balance byte accepts it
    // again (for a flip outside signature and length fields).
    let mut changed = good.clone();
    changed[0x20] = changed[0x20].wrapping_add(0x41);
    assert!(validate_pxenv(&changed).is_none());
    balance_checksum(&mut changed, 6);
    assert!(validate_pxenv(&changed).is_some());
}

#[test]
fn presence_record_bad_length_rejected() {
    let mut buf = synth_pxenv();
    buf[8] = 0x2b;
    balance_checksum(&mut buf, 6);
    assert!(validate_pxenv(&buf).is_none());
}

#[test]
fn presence_record_short_buffer_rejected() {
    let buf = vec![0u8; 0x2b];
    assert!(validate_pxenv(&buf).is_none());
}

#[test]
fn entry_record_round_trip() {
    let buf = synth_pxe();
    let (seg, off) = validate_pxe(&buf).unwrap();
    assert_eq!(seg, 0xBEEF);
    assert_eq!(off, 0x0042);
}

#[test]
fn entry_record_nonzero_checksum_rejected() {
    let mut buf = synth_pxe();
    buf[6] = buf[6].wrapping_add(1);
    assert!(validate_pxe(&buf).is_none());
}

#[test]
fn entry_record_any_flip_rejected_and_restorable() {
    let good = synth_pxe();
    for i in 0..good.len() {
        let mut bad = good.clone();
        bad[i] = bad[i].wrapping_add(1);
        assert!(validate_pxe(&bad).is_none());
    }
    let mut changed = good.clone();
    changed[0x30] = changed[0x30].wrapping_add(7);
    balance_checksum(&mut changed, 6);
    assert!(validate_pxe(&changed).is_some());
}

#[test]
fn entry_record_zero_code_segment_rejected() {
    let mut buf = synth_pxe();
    buf[0x12] = 0;
    buf[0x13] = 0;
    balance_checksum(&mut buf, 6);
    assert!(validate_pxe(&buf).is_none());
}

#[test]
fn presence_check_response() {
    assert!(pxe_api_present(0x564e, 0));
    assert!(pxe_api_present(0x564e, 2)); // other flags may be set
    assert!(!pxe_api_present(0x564e, 1)); // carry flag means failure
    assert!(!pxe_api_present(0x5650, 0)); // wrong response code
}

#[test]
fn server_ip_extraction() {
    let mut pkt = vec![0u8; 128];
    pkt[0x14] = 192;
    pkt[0x15] = 168;
    pkt[0x16] = 1;
    pkt[0x17] = 77;
    assert_eq!(extract_server_ip(0, &pkt), Some([192, 168, 1, 77]));
    // A non-zero status is a hard failure.
    assert_eq!(extract_server_ip(1, &pkt), None);
    // A packet too short to hold the field yields nothing.
    let short = vec![0u8; 0x17];
    assert_eq!(extract_server_ip(0, &short), None);
}

#[test]
fn filename_must_fit_with_terminator() {
    let name = b"stage2.bin";
    let buf = prepare_filename(name).unwrap();
    assert_eq!(buf.len(), 128);
    assert_eq!(&buf[..name.len()], name);
    assert!(buf[name.len()..].iter().all(|&b| b == 0));

    // 127 bytes plus the terminator still fit; 128 do not.
    let long = vec![b'a'; 127];
    assert!(prepare_filename(&long).is_some());
    let too_long = vec![b'a'; 128];
    assert!(prepare_filename(&too_long).is_none());
}

#[test]
fn negotiation_walks_all_states() {
    let st = NegotiationState::Start;
    let st = negotiate_step(
        st,
        FirmwareEvent::PresenceResponse { eax: 0x564e, efl: 0, es: 0x9000, bx: 0x100 },
    );
    assert!(matches!(st, NegotiationState::ApiPresent { pxenv_seg: 0x9000, pxenv_off: 0x100 }));

    let st = negotiate_step(st, FirmwareEvent::PresenceRecord { bytes: synth_pxenv() });
    assert!(matches!(st, NegotiationState::RecordValidated { pxe_seg: 0x5678, pxe_off: 0x1234 }));

    let st = negotiate_step(st, FirmwareEvent::EntryRecord { bytes: synth_pxe() });
    assert!(matches!(st, NegotiationState::EntryKnown { ep_seg: 0xBEEF, ep_off: 0x0042 }));

    let mut packet = vec![0u8; 128];
    packet[0x14..0x18].copy_from_slice(&[10, 0, 0, 2]);
    let st = negotiate_step(st, FirmwareEvent::CachedInfoResponse { status: 0, packet });
    assert!(matches!(
        st,
        NegotiationState::ServerDiscovered { server_ip: [10, 0, 0, 2], .. }
    ));

    let st = negotiate_step(st, FirmwareEvent::SizeResponse { status: 0, file_size: 4096 });
    assert!(matches!(st, NegotiationState::SizeKnown { file_size: 4096, .. }));

    let st = negotiate_step(st, FirmwareEvent::DownloadResponse { status: 0 });
    assert!(matches!(st, NegotiationState::Downloaded));
}

#[test]
fn negotiation_fails_fast_and_keeps_nothing() {
    // A failed presence check reports the API absent.
    let st = negotiate_step(
        NegotiationState::Start,
        FirmwareEvent::PresenceResponse { eax: 0x564e, efl: 1, es: 0, bx: 0 },
    );
    assert!(matches!(st, NegotiationState::Failed));

    // A corrupt record aborts, and an out-of-order response aborts too.
    let st = negotiate_step(
        NegotiationState::Start,
        FirmwareEvent::PresenceResponse { eax: 0x564e, efl: 0, es: 1, bx: 2 },
    );
    let mut bad = synth_pxenv();
    bad[10] = bad[10].wrapping_add(1);
    let st = negotiate_step(st, FirmwareEvent::PresenceRecord { bytes: bad });
    assert!(matches!(st, NegotiationState::Failed));

    let st = negotiate_step(
        NegotiationState::Start,
        FirmwareEvent::DownloadResponse { status: 0 },
    );
    assert!(matches!(st, NegotiationState::Failed));
}
