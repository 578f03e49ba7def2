use gif_decoder::color::parse_color_table;
use gif_decoder::error::GifParsingError;
use gif_decoder::gif_reader::{GifRead, GifReader, GifReaderStringError};
use gif_decoder::header::parse_header;

#[test]
fn read_u16_is_little_endian() {
    let mut rdr = GifReader::new(vec![0x34, 0x12, 0xFF, 0x00]);
    assert_eq!(rdr.read_u16().unwrap(), 0x1234);
    assert_eq!(rdr.read_u16().unwrap(), 0x00FF);
    assert!(rdr.read_u16().is_err());
}

#[test]
fn read_u8_advances_pos() {
    let mut rdr = GifReader::new(vec![7, 8, 9]);
    assert_eq!(rdr.get_pos(), 0);
    assert_eq!(rdr.read_u8().unwrap(), 7);
    assert_eq!(rdr.get_pos(), 1);
    assert_eq!(rdr.read_u8().unwrap(), 8);
    assert_eq!(rdr.read_u8().unwrap(), 9);
    assert_eq!(rdr.get_pos(), 3);
    // The position counter is bumped even on a failed read.
    assert!(matches!(rdr.read_u8(), Err(GifParsingError::IOError)));
    assert_eq!(rdr.get_pos(), 4);
}

#[test]
fn read_bytes_returns_window() {
    let mut rdr = GifReader::new(vec![1, 2, 3, 4, 5]);
    assert_eq!(rdr.read_bytes(3).unwrap(), vec![1, 2, 3]);
    assert_eq!(rdr.get_pos(), 3);
    assert_eq!(rdr.read_bytes(2).unwrap(), vec![4, 5]);
    assert!(matches!(rdr.read_bytes(3), Err(GifParsingError::IOError)));
    // The position counter is bumped even on a failed read.
    assert_eq!(rdr.get_pos(), 8);
}

#[test]
fn skip_bytes_seeks_forward() {
    let mut rdr = GifReader::new(vec![1, 2, 3, 4]);
    rdr.skip_bytes(3).unwrap();
    assert_eq!(rdr.get_pos(), 3);
    assert_eq!(rdr.read_u8().unwrap(), 4);
    assert!(rdr.skip_bytes(1).is_err());
    assert_eq!(rdr.get_pos(), 5);
}

#[test]
fn read_str_decodes_ascii() {
    let mut rdr = GifReader::new(b"GIF89a".to_vec());
    assert_eq!(rdr.read_str(3).unwrap(), "GIF");
    assert_eq!(rdr.read_str(3).unwrap(), "89a");
}

#[test]
fn read_str_rejects_non_ascii() {
    let mut rdr = GifReader::new(vec![0x41, 0xC3, 0xA9]);
    assert!(matches!(rdr.read_str(3), Err(GifReaderStringError::FromUtf8Error)));
    // The bytes are consumed even so.
    assert_eq!(rdr.get_pos(), 3);
}

#[test]
fn read_str_fails_past_end() {
    let mut rdr = GifReader::new(vec![0x41]);
    assert!(matches!(rdr.read_str(2), Err(GifReaderStringError::IOError)));
    // The position counter is bumped even on a failed read.
    assert_eq!(rdr.get_pos(), 2);
}

#[test]
fn color_table_reads_packed_triplets() {
    let mut rdr = GifReader::new(vec![1, 2, 3, 4, 5, 6, 7]);
    let ct = parse_color_table(&mut rdr, 2).unwrap();
    assert_eq!(ct.len(), 2);
    assert_eq!((ct[0].r, ct[0].g, ct[0].b), (1, 2, 3));
    assert_eq!((ct[1].r, ct[1].g, ct[1].b), (4, 5, 6));
    assert_eq!(rdr.get_pos(), 6);
}

#[test]
fn color_table_fails_on_short_input() {
    let mut rdr = GifReader::new(vec![1, 2, 3, 4, 5]);
    assert!(matches!(parse_color_table(&mut rdr, 2), Err(GifParsingError::IOError)));
}

#[test]
fn header_fields_are_decoded() {
    let mut bytes = b"GIF89a".to_vec();
    bytes.extend_from_slice(&640u16.to_le_bytes());
    bytes.extend_from_slice(&480u16.to_le_bytes());
    // GCT present, 3 color resolution bits, sorted, size exponent 0.
    bytes.push(0x80 | 0x20 | 0x08 | 0x00);
    bytes.push(1); // background color index
    bytes.push(49); // pixel aspect ratio
    bytes.extend_from_slice(&[10, 20, 30, 40, 50, 60]); // two entries
    let mut rdr = GifReader::new(bytes);
    let h = parse_header(&mut rdr).unwrap();
    assert_eq!(h.width, 640);
    assert_eq!(h.height, 480);
    assert_eq!(h.nb_color_resolution_bits, 3);
    assert!(h.is_table_sorted);
    assert_eq!(h.background_color_index, 1);
    assert_eq!(h.pixel_aspect_ratio, 49);
    let gct = h.global_color_table.unwrap();
    assert_eq!(gct.len(), 2);
    assert_eq!((gct[0].r, gct[0].g, gct[0].b), (10, 20, 30));
    assert_eq!((gct[1].r, gct[1].g, gct[1].b), (40, 50, 60));
    assert_eq!(rdr.get_pos(), 19);
}

#[test]
fn header_without_global_table() {
    let mut bytes = b"GIF87a".to_vec();
    bytes.extend_from_slice(&[1, 0, 1, 0, 0x00, 0, 0]);
    let mut rdr = GifReader::new(bytes);
    let h = parse_header(&mut rdr).unwrap();
    assert!(h.global_color_table.is_none());
    assert_eq!(rdr.get_pos(), 13);
}

#[test]
fn magic_rejection() {
    let mut bytes = b"GIF90a".to_vec();
    bytes.extend_from_slice(&[1, 0, 1, 0, 0, 0, 0]);
    let mut rdr = GifReader::new(bytes);
    match parse_header(&mut rdr) {
        Err(GifParsingError::UnsupportedVersion(Some(v))) => assert_eq!(v, "90a"),
        other => panic!("expected UnsupportedVersion(Some(..)), got {:?}", other),
    }
}

#[test]
fn no_magic() {
    let mut rdr = GifReader::new(vec![0, 0, 0, 1, 2, 3, 4, 5, 6, 7, 8, 9, 10]);
    assert!(matches!(parse_header(&mut rdr), Err(GifParsingError::NoGIFHeader)));
}

#[test]
fn non_ascii_version_is_unsupported_without_text() {
    let mut bytes = b"GIF".to_vec();
    bytes.extend_from_slice(&[0xC3, 0xA9, 0x61]);
    bytes.extend_from_slice(&[1, 0, 1, 0, 0, 0, 0]);
    let mut rdr = GifReader::new(bytes);
    assert!(matches!(
        parse_header(&mut rdr),
        Err(GifParsingError::UnsupportedVersion(None))
    ));
}

#[test]
fn truncated_header_is_io_error() {
    let mut rdr = GifReader::new(b"GIF89a\x01\x00".to_vec());
    assert!(matches!(parse_header(&mut rdr), Err(GifParsingError::IOError)));
}
