use sidplay::header::{
    decode_text, parse, parse_additional, parse_header, AdditionalHeader, FormatError, MagicId,
};

fn buffer(magic: &[u8; 4], version: u16, len: usize) -> Vec<u8> {
    let mut b = vec![0u8; len];
    b[0..4].copy_from_slice(magic);
    b[4] = (version >> 8) as u8;
    b[5] = version as u8;
    b
}

fn put_text(b: &mut Vec<u8>, at: usize, text: &str) {
    b[at..at + text.len()].copy_from_slice(text.as_bytes());
}

#[test]
fn psid_v2_zero_buffer_parses() {
    let b = buffer(b"PSID", 2, 140);
    let f = parse(&b).unwrap();
    let h = &f.header;
    assert_eq!(h.magic_id, MagicId::Psid);
    assert_eq!(h.version, 2);
    assert_eq!(h.data_offset, 0);
    assert_eq!(h.load_address, 0);
    assert_eq!(h.init_address, 0);
    assert_eq!(h.play_address, 0);
    assert_eq!(h.songs, 0);
    assert_eq!(h.start_song, 0);
    assert_eq!(h.speed, 0);
    assert_eq!(h.name, "");
    assert_eq!(h.author, "");
    assert_eq!(h.released, "");
    assert_eq!(
        f.additional,
        Some(AdditionalHeader {
            flags: 0,
            start_page: 0,
            page_length: 0,
            second_sid_address: 0,
            third_sid_address: 0,
        })
    );
}

#[test]
fn xsid_is_bad_magic() {
    let b = buffer(b"XSID", 2, 140);
    assert!(matches!(parse(&b), Err(FormatError::BadMagic)));
    assert!(matches!(parse_header(&b), Err(FormatError::BadMagic)));
}

#[test]
fn rsid_is_recognized() {
    let b = buffer(b"RSID", 1, 118);
    assert_eq!(parse_header(&b).unwrap().magic_id, MagicId::Rsid);
}

#[test]
fn every_short_length_is_too_short() {
    for len in 0..=117usize {
        let b = if len >= 6 { buffer(b"PSID", 2, len) } else { vec![0x50u8; len] };
        assert!(matches!(parse(&b), Err(FormatError::TooShort)), "length {}", len);
        assert!(matches!(parse_header(&b), Err(FormatError::TooShort)), "length {}", len);
    }
}

#[test]
fn version_one_never_reads_extension() {
    for len in 118..=137usize {
        let b = buffer(b"PSID", 1, len);
        let f = parse(&b).unwrap();
        assert_eq!(f.header.version, 1);
        assert!(f.additional.is_none());
    }
}

#[test]
fn version_two_needs_extension_bytes() {
    let b = buffer(b"PSID", 2, 137);
    assert!(matches!(parse(&b), Err(FormatError::TooShort)));
    assert!(parse_header(&b).is_ok());
    assert_eq!(parse_additional(&b), Err(FormatError::TooShort));
}

#[test]
fn fields_decode_big_endian() {
    let mut b = buffer(b"PSID", 2, 150);
    let words: [(usize, u16); 6] = [
        (6, 0x007c),
        (8, 0x1000),
        (10, 0x1234),
        (12, 0xabcd),
        (14, 0x0003),
        (16, 0x0002),
    ];
    for (at, v) in words {
        b[at] = (v >> 8) as u8;
        b[at + 1] = v as u8;
    }
    b[18..22].copy_from_slice(&[0x80, 0x00, 0x01, 0x02]);
    put_text(&mut b, 22, "Commando");
    put_text(&mut b, 54, "Rob Hubbard");
    put_text(&mut b, 86, "1985 Elite");
    b[118] = 0x01;
    b[119] = 0x24;
    b[134] = 0x04;
    b[135] = 0x10;
    b[136] = 0x42;
    b[137] = 0xe0;
    let f = parse(&b).unwrap();
    let h = &f.header;
    assert_eq!(h.data_offset, 0x007c);
    assert_eq!(h.load_address, 0x1000);
    assert_eq!(h.init_address, 0x1234);
    assert_eq!(h.play_address, 0xabcd);
    assert_eq!(h.songs, 3);
    assert_eq!(h.start_song, 2);
    assert_eq!(h.speed, 0x8000_0102);
    assert_eq!(h.name, "Commando");
    assert_eq!(h.author, "Rob Hubbard");
    assert_eq!(h.released, "1985 Elite");
    assert_eq!(
        f.additional,
        Some(AdditionalHeader {
            flags: 0x0124,
            start_page: 0x04,
            page_length: 0x10,
            second_sid_address: 0x42,
            third_sid_address: 0xe0,
        })
    );
}

#[test]
fn name_round_trip() {
    let mut field = b"Test".to_vec();
    field.resize(32, 0);
    assert_eq!(decode_text(&field).unwrap(), "Test");
    let mut b = buffer(b"PSID", 1, 118);
    b[22..54].copy_from_slice(&field);
    assert_eq!(parse_header(&b).unwrap().name, "Test");
}

#[test]
fn text_without_null_uses_all_bytes() {
    let field = [b'x'; 32];
    assert_eq!(decode_text(&field).unwrap(), "x".repeat(32));
}

#[test]
fn text_utf8_is_decoded() {
    let mut b = buffer(b"PSID", 1, 118);
    put_text(&mut b, 54, "Jeroen Tel \u{00e9}");
    assert_eq!(parse_header(&b).unwrap().author, "Jeroen Tel \u{00e9}");
}

#[test]
fn invalid_text_is_rejected() {
    let mut b = buffer(b"PSID", 1, 118);
    b[86] = 0xff;
    assert!(matches!(parse_header(&b), Err(FormatError::InvalidText)));
    assert!(matches!(parse(&b), Err(FormatError::InvalidText)));
    assert!(matches!(decode_text(&[0xc3, 0x28, 0]), Err(FormatError::InvalidText)));
}

#[test]
fn bytes_after_null_are_ignored() {
    let mut b = buffer(b"PSID", 1, 118);
    put_text(&mut b, 22, "ok");
    b[25] = 0xff;
    assert_eq!(parse_header(&b).unwrap().name, "ok");
}
