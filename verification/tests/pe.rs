use caramel::pe::PeParser;

/// Lay a 32-bit little-endian value into `buf` at `off`.
fn put32(buf: &mut Vec<u8>, off: usize, v: u32) {
    let b = v.to_le_bytes();
    for k in 0..4 {
        buf[off + k] = b[k];
    }
}

/// Lay a 16-bit little-endian value into `buf` at `off`.
fn put16(buf: &mut Vec<u8>, off: usize, v: u16) {
    let b = v.to_le_bytes();
    for k in 0..2 {
        buf[off + k] = b[k];
    }
}

/// Lay a 64-bit little-endian value into `buf` at `off`.
fn put64(buf: &mut Vec<u8>, off: usize, v: u64) {
    let b = v.to_le_bytes();
    for k in 0..8 {
        buf[off + k] = b[k];
    }
}

/// A well-formed 64-bit image: extended header at 0x40, optional header of
/// 0x20 bytes, two sections whose raw bytes sit after the section table.
fn synth_image() -> Vec<u8> {
    let mut buf = vec![0u8; 0x100];
    buf[0] = 0x4d; // 'M'
    buf[1] = 0x5a; // 'Z'
    put32(&mut buf, 0x3c, 0x40); // extended header offset
    buf[0x40] = 0x50; // 'P'
    buf[0x41] = 0x45; // 'E'
    put16(&mut buf, 0x44, 0x8664); // machine
    put16(&mut buf, 0x46, 2); // section count
    put16(&mut buf, 0x54, 0x20); // optional header size
    put32(&mut buf, 0x68, 0x1000); // entry relative address
    put64(&mut buf, 0x70, 0x140000000); // image base

    // Section table at 0x40 + 0x18 + 0x20 = 0x78.
    // Section 0: vsize 0x10, rva 0x2000, raw size 0x20 (clamped), raw at 0xC8.
    put32(&mut buf, 0x78 + 0x8, 0x10);
    put32(&mut buf, 0x78 + 0xc, 0x2000);
    put32(&mut buf, 0x78 + 0x10, 0x20);
    put32(&mut buf, 0x78 + 0x14, 0xC8);
    // Section 1: vsize 0x30, rva 0x3000, raw size 0x8, raw at 0xD8.
    put32(&mut buf, 0xA0 + 0x8, 0x30);
    put32(&mut buf, 0xA0 + 0xc, 0x3000);
    put32(&mut buf, 0xA0 + 0x10, 0x8);
    put32(&mut buf, 0xA0 + 0x14, 0xD8);

    // Recognizable raw contents.
    for k in 0..0x10 {
        buf[0xC8 + k] = 0xA0 + k as u8;
    }
    for k in 0..0x8 {
        buf[0xD8 + k] = 0xB0 + k as u8;
    }
    buf
}

#[test]
fn it_works() {
    let image = synth_image();
    let pe = PeParser::parse(&image).unwrap();
    pe.sections().unwrap();
}

#[test]
fn round_trip_entry_and_sections() {
    let image = synth_image();
    let pe = PeParser::parse(&image).unwrap();
    assert_eq!(pe.entry_point, 0x140000000 + 0x1000);

    let sections = pe.sections().unwrap();
    assert_eq!(sections.len(), 2);

    assert_eq!(sections[0].vaddr, 0x140000000 + 0x2000);
    assert_eq!(sections[0].vsize, 0x10);
    // Raw bytes are clamped to min(virtual size, raw size) = 0x10.
    assert_eq!(sections[0].bytes, image[0xC8..0xD8].to_vec());

    assert_eq!(sections[1].vaddr, 0x140000000 + 0x3000);
    assert_eq!(sections[1].vsize, 0x30);
    assert_eq!(sections[1].bytes.len(), 0x8);
    assert_eq!(sections[1].bytes, image[0xD8..0xE0].to_vec());
}

#[test]
fn parses_x86_image_base() {
    let mut image = synth_image();
    put16(&mut image, 0x44, 0x014c); // the narrower machine code
    put16(&mut image, 0x46, 0); // no sections, the table region is unused
    put32(&mut image, 0x74, 0x400000); // 32-bit image base at 0x40 + 0x34
    put32(&mut image, 0x68, 0x1500); // entry relative address
    let pe = PeParser::parse(&image).unwrap();
    assert_eq!(pe.entry_point, 0x400000 + 0x1500);
    assert_eq!(pe.sections().unwrap().len(), 0);
}

#[test]
fn rejects_bad_legacy_magic() {
    let mut image = synth_image();
    image[0] = 0x4e;
    assert!(PeParser::parse(&image).is_none());
}

#[test]
fn rejects_bad_extended_magic() {
    let mut image = synth_image();
    image[0x41] = 0x46;
    assert!(PeParser::parse(&image).is_none());
}

#[test]
fn rejects_unknown_machine() {
    let mut image = synth_image();
    put16(&mut image, 0x44, 0x1234);
    assert!(PeParser::parse(&image).is_none());
}

#[test]
fn rejects_truncated_header() {
    let image = synth_image();
    // The header region runs to 0xC8; ending inside it is a rejection.
    let truncated = image[..0xC0].to_vec();
    assert!(PeParser::parse(&truncated).is_none());
}

#[test]
fn rejects_truncated_legacy_header() {
    let image = synth_image();
    let truncated = image[..0x20].to_vec();
    assert!(PeParser::parse(&truncated).is_none());
}

#[test]
fn section_outside_input_aborts_enumeration() {
    let mut image = synth_image();
    // Point section 1's raw bytes past the end of the input.
    put32(&mut image, 0xA0 + 0x14, 0xFC);
    let pe = PeParser::parse(&image).unwrap();
    assert!(pe.sections().is_none());
}
