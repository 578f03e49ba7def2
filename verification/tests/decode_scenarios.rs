use gif_decoder::error::GifParsingError;
use gif_decoder::gif_reader::{GifRead, GifReader};
use gif_decoder::header::parse_header;
use gif_decoder::parser::{decode_and_render, GifEvent};

/// A minimal conforming LZW encoder emitting root codes only; see the
/// LZW test file for the growth bookkeeping it mirrors.
struct Encoder {
    min_code_size: u8,
    width: u32,
    count: u32,
    first_after_clear: bool,
    acc: u32,
    bits: u32,
    out: Vec<u8>,
}

impl Encoder {
    fn new(min_code_size: u8) -> Encoder {
        Encoder {
            min_code_size,
            width: min_code_size as u32 + 1,
            count: (1u32 << min_code_size) + 2,
            first_after_clear: true,
            acc: 0,
            bits: 0,
            out: Vec::new(),
        }
    }

    fn put(&mut self, code: u32) {
        self.acc |= code << self.bits;
        self.bits += self.width;
        while self.bits >= 8 {
            self.out.push((self.acc & 0xFF) as u8);
            self.acc >>= 8;
            self.bits -= 8;
        }
    }

    fn clear(&mut self) {
        self.put(1u32 << self.min_code_size);
        self.width = self.min_code_size as u32 + 1;
        self.count = (1u32 << self.min_code_size) + 2;
        self.first_after_clear = true;
    }

    fn index(&mut self, i: u8) {
        self.put(i as u32);
        if self.first_after_clear {
            self.first_after_clear = false;
        } else {
            self.count += 1;
            if self.count == (1u32 << self.width) && self.width < 12 {
                self.width += 1;
            }
        }
    }

    fn stop(&mut self) {
        self.put((1u32 << self.min_code_size) + 1);
    }

    fn finish(mut self) -> Vec<u8> {
        if self.bits > 0 {
            self.out.push((self.acc & 0xFF) as u8);
        }
        self.out
    }
}

fn lzw_encode(min_code_size: u8, indices: &[u8]) -> Vec<u8> {
    let mut e = Encoder::new(min_code_size);
    e.clear();
    for &i in indices {
        e.index(i);
    }
    e.stop();
    e.finish()
}

fn gif_header(
    version: &str,
    width: u16,
    height: u16,
    gct: Option<&[(u8, u8, u8)]>,
    bg_index: u8,
) -> Vec<u8> {
    let mut v = b"GIF".to_vec();
    v.extend_from_slice(version.as_bytes());
    v.extend_from_slice(&width.to_le_bytes());
    v.extend_from_slice(&height.to_le_bytes());
    match gct {
        Some(t) => {
            let mut k: u8 = 0;
            while (1usize << (k + 1)) < t.len() {
                k += 1;
            }
            v.push(0x80 | k);
            v.push(bg_index);
            v.push(0);
            for i in 0..(1usize << (k + 1)) {
                let (r, g, b) = if i < t.len() { t[i] } else { (0, 0, 0) };
                v.push(r);
                v.push(g);
                v.push(b);
            }
        }
        None => {
            v.push(0x00);
            v.push(bg_index);
            v.push(0);
        }
    }
    v
}

fn image_block(
    left: u16,
    top: u16,
    w: u16,
    h: u16,
    interlaced: bool,
    mcs: u8,
    indices: &[u8],
) -> Vec<u8> {
    let mut v = vec![0x2C];
    v.extend_from_slice(&left.to_le_bytes());
    v.extend_from_slice(&top.to_le_bytes());
    v.extend_from_slice(&w.to_le_bytes());
    v.extend_from_slice(&h.to_le_bytes());
    v.push(if interlaced { 0x40 } else { 0x00 });
    v.push(mcs);
    let data = lzw_encode(mcs, indices);
    for chunk in data.chunks(255) {
        v.push(chunk.len() as u8);
        v.extend_from_slice(chunk);
    }
    v.push(0);
    v
}

fn gce(disposal: u8, transparent: Option<u8>, delay: u16) -> Vec<u8> {
    let mut v = vec![0x21, 0xF9, 0x04];
    v.push((disposal << 2) | if transparent.is_some() { 1 } else { 0 });
    v.extend_from_slice(&delay.to_le_bytes());
    v.push(transparent.unwrap_or(0));
    v.push(0);
    v
}

fn netscape_loop(count: u16) -> Vec<u8> {
    let mut v = vec![0x21, 0xFF, 0x0B];
    v.extend_from_slice(b"NETSCAPE");
    v.extend_from_slice(&[0x32, 0x2E, 0x30]);
    v.push(0x03);
    v.push(0x01);
    v.extend_from_slice(&count.to_le_bytes());
    v.push(0x00);
    v
}

fn decode_all(bytes: Vec<u8>) -> (Result<(), GifParsingError>, Vec<GifEvent>, usize) {
    let mut rdr = GifReader::new(bytes);
    let header = parse_header(&mut rdr).unwrap();
    let mut sink = Vec::new();
    let r = decode_and_render(&mut rdr, &header, &mut sink);
    (r, sink, rdr.get_pos())
}

fn frame_data(ev: &GifEvent) -> (&Vec<u8>, Option<u16>) {
    match ev {
        GifEvent::GifFrameData { data, delay_until_next } => (data, *delay_until_next),
        other => panic!("expected a frame event, got {:?}", other),
    }
}

#[test]
fn minimal_1x1_gif87a() {
    let mut bytes = gif_header("87a", 1, 1, Some(&[(0x12, 0x34, 0x56)]), 0);
    bytes.extend_from_slice(&image_block(0, 0, 1, 1, false, 2, &[0]));
    bytes.push(0x3B);
    let total = bytes.len();
    let (r, sink, pos) = decode_all(bytes);
    r.unwrap();
    assert_eq!(sink.len(), 3);
    let (data, delay) = frame_data(&sink[0]);
    assert_eq!(data, &vec![0x12, 0x34, 0x56]);
    assert_eq!(delay, None);
    assert!(matches!(sink[1], GifEvent::LoopingInfo(None)));
    assert!(matches!(sink[2], GifEvent::GifFrameEnd));
    // The trailer is the last byte consumed.
    assert_eq!(pos, total);
}

#[test]
fn netscape_infinite_loop() {
    let mut bytes = gif_header("89a", 1, 1, Some(&[(0x12, 0x34, 0x56)]), 0);
    bytes.extend_from_slice(&netscape_loop(0));
    bytes.extend_from_slice(&image_block(0, 0, 1, 1, false, 2, &[0]));
    bytes.push(0x3B);
    let (r, sink, _) = decode_all(bytes);
    r.unwrap();
    // Exactly one looping event, and no trailing LoopingInfo(None).
    assert_eq!(sink.len(), 3);
    assert!(matches!(sink[0], GifEvent::LoopingInfo(Some(0))));
    let (data, _) = frame_data(&sink[1]);
    assert_eq!(data, &vec![0x12, 0x34, 0x56]);
    assert!(matches!(sink[2], GifEvent::GifFrameEnd));
}

#[test]
fn every_frame_is_full_screen() {
    let a = (10, 10, 10);
    let b = (20, 20, 20);
    let mut bytes = gif_header("89a", 2, 2, Some(&[a, b, (0, 0, 0), (0, 0, 0)]), 0);
    bytes.extend_from_slice(&gce(1, None, 5));
    bytes.extend_from_slice(&image_block(0, 0, 2, 2, false, 2, &[0, 1, 1, 0]));
    bytes.extend_from_slice(&gce(1, None, 7));
    bytes.extend_from_slice(&image_block(0, 0, 1, 1, false, 2, &[1]));
    bytes.push(0x3B);
    let (r, sink, _) = decode_all(bytes);
    r.unwrap();
    let (d1, delay1) = frame_data(&sink[0]);
    let (d2, delay2) = frame_data(&sink[1]);
    assert_eq!(d1.len(), 2 * 2 * 3);
    assert_eq!(d2.len(), 2 * 2 * 3);
    assert_eq!(delay1, Some(5));
    assert_eq!(delay2, Some(7));
    // The second frame overwrites one pixel of the first.
    assert_eq!(d1, &vec![10, 10, 10, 20, 20, 20, 20, 20, 20, 10, 10, 10]);
    assert_eq!(d2, &vec![20, 20, 20, 20, 20, 20, 20, 20, 20, 10, 10, 10]);
}

#[test]
fn restore_to_previous_keeps_older_raster() {
    let a = (10, 10, 10);
    let b = (20, 20, 20);
    let mut bytes = gif_header("89a", 2, 2, Some(&[a, b, (0, 0, 0), (0, 0, 0)]), 0);
    // Frame 1 covers the screen with color A and is kept as the base.
    bytes.extend_from_slice(&gce(1, None, 0));
    bytes.extend_from_slice(&image_block(0, 0, 2, 2, false, 2, &[0, 0, 0, 0]));
    // Frame 2 draws one pixel of color B, then restores to previous.
    bytes.extend_from_slice(&gce(3, None, 0));
    bytes.extend_from_slice(&image_block(0, 0, 1, 1, false, 2, &[1]));
    // Frame 3 is fully transparent: it shows the base fed to it.
    bytes.extend_from_slice(&gce(1, Some(3), 0));
    bytes.extend_from_slice(&image_block(0, 0, 2, 2, false, 2, &[3, 3, 3, 3]));
    bytes.push(0x3B);
    let (r, sink, _) = decode_all(bytes);
    r.unwrap();
    let (d1, _) = frame_data(&sink[0]);
    let (d2, _) = frame_data(&sink[1]);
    let (d3, _) = frame_data(&sink[2]);
    let all_a = vec![10u8; 12];
    assert_eq!(d1, &all_a);
    // Frame 2 composites over the all-A base.
    assert_eq!(d2, &vec![20, 20, 20, 10, 10, 10, 10, 10, 10, 10, 10, 10]);
    // The base fed to the frame after frame 2 is the raster as it was
    // before frame 2: all A, not the frame-2 raster.
    assert_eq!(d3, &all_a);
}

#[test]
fn transparency_with_base_buffer() {
    let c0 = (1, 2, 3);
    let c1 = (4, 5, 6);
    let mut bytes = gif_header("89a", 2, 2, Some(&[c0, c1, (7, 8, 9), (0, 0, 0)]), 0);
    bytes.extend_from_slice(&gce(1, None, 0));
    bytes.extend_from_slice(&image_block(0, 0, 2, 2, false, 2, &[0, 0, 0, 0]));
    bytes.extend_from_slice(&gce(1, Some(3), 0));
    bytes.extend_from_slice(&image_block(0, 0, 2, 2, false, 2, &[3, 1, 3, 1]));
    bytes.push(0x3B);
    let (r, sink, _) = decode_all(bytes);
    r.unwrap();
    let (d2, _) = frame_data(&sink[1]);
    // Indices equal to 3 leave the base pixels untouched; index 1
    // overwrites.
    assert_eq!(d2, &vec![1, 2, 3, 4, 5, 6, 1, 2, 3, 4, 5, 6]);
}

#[test]
fn transparency_without_base_writes_background() {
    let c0 = (1, 2, 3);
    let mut bytes = gif_header("89a", 1, 2, Some(&[c0, (4, 5, 6), (0, 0, 0), (0, 0, 0)]), 1);
    // No frame precedes, so there is no base raster: transparent
    // pixels take the background color, index 1 of the table.
    bytes.extend_from_slice(&gce(0, Some(3), 0));
    bytes.extend_from_slice(&image_block(0, 0, 1, 2, false, 2, &[3, 0]));
    bytes.push(0x3B);
    let (r, sink, _) = decode_all(bytes);
    r.unwrap();
    let (d, _) = frame_data(&sink[0]);
    assert_eq!(d, &vec![4, 5, 6, 1, 2, 3]);
}

#[test]
fn interlaced_rows_land_in_four_pass_order() {
    let colors: Vec<(u8, u8, u8)> = (0..8).map(|i| (i as u8 * 10, 0, 0)).collect();
    let mut bytes = gif_header("89a", 1, 8, Some(&colors), 0);
    bytes.extend_from_slice(&image_block(0, 0, 1, 8, true, 3, &[0, 1, 2, 3, 4, 5, 6, 7]));
    bytes.push(0x3B);
    let (r, sink, _) = decode_all(bytes);
    r.unwrap();
    let (d, _) = frame_data(&sink[0]);
    // Written rows in pass order 0, 4, 2, 6, 1, 3, 5, 7.
    let row = |i: usize| d[3 * i];
    assert_eq!(row(0), 0);
    assert_eq!(row(4), 10);
    assert_eq!(row(2), 20);
    assert_eq!(row(6), 30);
    assert_eq!(row(1), 40);
    assert_eq!(row(3), 50);
    assert_eq!(row(5), 60);
    assert_eq!(row(7), 70);
}

#[test]
fn degenerate_rect_gives_solid_background() {
    let bg = (9, 8, 7);
    let mut bytes = gif_header("89a", 2, 1, Some(&[(1, 1, 1), bg]), 1);
    // A zero-width image: descriptor, code size byte, and nothing else.
    bytes.push(0x2C);
    bytes.extend_from_slice(&[0, 0, 0, 0]);
    bytes.extend_from_slice(&0u16.to_le_bytes());
    bytes.extend_from_slice(&1u16.to_le_bytes());
    bytes.push(0x00);
    bytes.push(2);
    bytes.push(0x3B);
    let (r, sink, _) = decode_all(bytes);
    r.unwrap();
    let (d, _) = frame_data(&sink[0]);
    assert_eq!(d, &vec![9, 8, 7, 9, 8, 7]);
}

#[test]
fn comment_extension_is_skipped() {
    // The comment's chain ends with its zero-length sub-block; the
    // next block follows directly.
    let mut bytes = gif_header("89a", 1, 1, Some(&[(0x12, 0x34, 0x56)]), 0);
    bytes.extend_from_slice(&[0x21, 0xFE, 3, b'h', b'e', b'y', 0x00]);
    bytes.extend_from_slice(&image_block(0, 0, 1, 1, false, 2, &[0]));
    bytes.push(0x3B);
    let (r, sink, _) = decode_all(bytes);
    r.unwrap();
    assert_eq!(sink.len(), 3);
}

#[test]
fn unknown_application_extension_is_skipped() {
    let mut bytes = gif_header("89a", 1, 1, Some(&[(0x12, 0x34, 0x56)]), 0);
    let mut ext = vec![0x21, 0xFF, 0x0B];
    ext.extend_from_slice(b"XMP DataXMP");
    // Two data sub-blocks, then the zero-length terminator.
    ext.extend_from_slice(&[2, 0xAA, 0xBB, 1, 0xCC, 0x00]);
    bytes.extend_from_slice(&ext);
    bytes.extend_from_slice(&image_block(0, 0, 1, 1, false, 2, &[0]));
    bytes.push(0x3B);
    let (r, sink, _) = decode_all(bytes);
    r.unwrap();
    assert_eq!(sink.len(), 3);
    assert!(matches!(sink[0], GifEvent::GifFrameData { .. }));
}

#[test]
fn invalid_color_index_is_error() {
    let mut bytes = gif_header("89a", 1, 1, Some(&[(1, 1, 1), (2, 2, 2)]), 0);
    bytes.extend_from_slice(&image_block(0, 0, 1, 1, false, 2, &[2]));
    bytes.push(0x3B);
    let (r, _, _) = decode_all(bytes);
    assert!(matches!(r, Err(GifParsingError::InvalidColor)));
}

#[test]
fn too_much_pixels_is_error() {
    let mut bytes = gif_header("89a", 1, 1, Some(&[(1, 1, 1), (2, 2, 2)]), 0);
    bytes.extend_from_slice(&image_block(0, 0, 2, 1, false, 2, &[0, 1]));
    bytes.push(0x3B);
    let (r, _, _) = decode_all(bytes);
    assert!(matches!(r, Err(GifParsingError::TooMuchPixels)));
}

#[test]
fn no_color_table_is_error() {
    let mut bytes = gif_header("89a", 1, 1, None, 0);
    bytes.extend_from_slice(&image_block(0, 0, 1, 1, false, 2, &[0]));
    bytes.push(0x3B);
    let (r, _, _) = decode_all(bytes);
    assert!(matches!(r, Err(GifParsingError::NoColorTable)));
}

#[test]
fn unrecognized_extension_is_error() {
    let mut bytes = gif_header("89a", 1, 1, Some(&[(1, 1, 1)]), 0);
    bytes.extend_from_slice(&[0x21, 0x42]);
    let (r, _, _) = decode_all(bytes);
    assert!(matches!(r, Err(GifParsingError::UnrecognizedExtension(0x42))));
}

#[test]
fn unrecognized_block_is_error() {
    let mut bytes = gif_header("89a", 1, 1, Some(&[(1, 1, 1)]), 0);
    let header_len = bytes.len();
    bytes.push(0x99);
    let (r, _, _) = decode_all(bytes);
    match r {
        Err(GifParsingError::UnrecognizedBlock { code, position }) => {
            assert_eq!(code, 0x99);
            assert_eq!(position, header_len + 1);
        }
        other => panic!("expected UnrecognizedBlock, got {:?}", other),
    }
}

#[test]
fn gce_with_wrong_size_is_error() {
    let mut bytes = gif_header("89a", 1, 1, Some(&[(1, 1, 1)]), 0);
    bytes.extend_from_slice(&[0x21, 0xF9, 0x05, 0, 0, 0, 0, 0, 0]);
    let (r, _, _) = decode_all(bytes);
    match r {
        Err(GifParsingError::UnexpectedLength { block_name, expected, got }) => {
            assert_eq!(block_name, "Graphic Control Extension");
            assert_eq!(expected, 4);
            assert_eq!(got, 5);
        }
        other => panic!("expected UnexpectedLength, got {:?}", other),
    }
}

#[test]
fn gce_without_terminator_is_error() {
    let mut bytes = gif_header("89a", 1, 1, Some(&[(1, 1, 1)]), 0);
    bytes.extend_from_slice(&[0x21, 0xF9, 0x04, 0, 0, 0, 0, 0x07]);
    let (r, _, _) = decode_all(bytes);
    match r {
        Err(GifParsingError::ExpectedBlockTerminator { block_name }) => {
            assert_eq!(block_name.as_deref(), Some("Graphic Control Extension"));
        }
        other => panic!("expected ExpectedBlockTerminator, got {:?}", other),
    }
}

#[test]
fn truncated_image_data_is_io_error() {
    let mut bytes = gif_header("89a", 1, 1, Some(&[(1, 1, 1)]), 0);
    // An image descriptor announcing a sub-block that never comes.
    bytes.push(0x2C);
    bytes.extend_from_slice(&[0, 0, 0, 0, 1, 0, 1, 0, 0x00, 2, 5]);
    let (r, _, _) = decode_all(bytes);
    assert!(matches!(r, Err(GifParsingError::IOError)));
}

#[test]
fn invalid_lzw_data_in_file_is_error() {
    let mut bytes = gif_header("89a", 1, 1, Some(&[(1, 1, 1)]), 0);
    bytes.push(0x2C);
    bytes.extend_from_slice(&[0, 0, 0, 0, 1, 0, 1, 0, 0x00, 2]);
    // One sub-block whose codes are clear, then 7: past the dictionary.
    bytes.extend_from_slice(&[1, 0x3C, 0x00]);
    bytes.push(0x3B);
    let (r, _, _) = decode_all(bytes);
    assert!(matches!(r, Err(GifParsingError::InvalidLzwCode)));
}

#[test]
fn plain_text_extension_is_skipped() {
    let mut bytes = gif_header("89a", 1, 1, Some(&[(0x12, 0x34, 0x56)]), 0);
    bytes.extend_from_slice(&[0x21, 0x01, 12]);
    bytes.extend_from_slice(&[0; 12]);
    bytes.extend_from_slice(&[2, 0xAA, 0xBB, 0x00]);
    bytes.extend_from_slice(&image_block(0, 0, 1, 1, false, 2, &[0]));
    bytes.push(0x3B);
    let (r, sink, _) = decode_all(bytes);
    r.unwrap();
    assert_eq!(sink.len(), 3);
    assert!(matches!(sink[0], GifEvent::GifFrameData { .. }));
}

#[test]
fn plain_text_with_wrong_size_is_error() {
    let mut bytes = gif_header("89a", 1, 1, Some(&[(1, 1, 1)]), 0);
    bytes.extend_from_slice(&[0x21, 0x01, 11]);
    let (r, _, _) = decode_all(bytes);
    match r {
        Err(GifParsingError::UnexpectedLength { block_name, expected, got }) => {
            assert_eq!(block_name, "Plain Text Extension");
            assert_eq!(expected, 12);
            assert_eq!(got, 11);
        }
        other => panic!("expected UnexpectedLength, got {:?}", other),
    }
}

#[test]
fn application_extension_with_wrong_size_is_error() {
    let mut bytes = gif_header("89a", 1, 1, Some(&[(1, 1, 1)]), 0);
    bytes.extend_from_slice(&[0x21, 0xFF, 10]);
    let (r, _, _) = decode_all(bytes);
    match r {
        Err(GifParsingError::UnexpectedLength { block_name, expected, got }) => {
            assert_eq!(block_name, "Application Extension");
            assert_eq!(expected, 11);
            assert_eq!(got, 10);
        }
        other => panic!("expected UnexpectedLength, got {:?}", other),
    }
}

#[test]
fn application_extension_with_truncated_chain_is_error() {
    let mut bytes = gif_header("89a", 1, 1, Some(&[(1, 1, 1)]), 0);
    let mut ext = netscape_loop(0);
    // Announce a further five-byte sub-block that never comes.
    let last = ext.len() - 1;
    ext[last] = 0x05;
    bytes.extend_from_slice(&ext);
    let (r, _, _) = decode_all(bytes);
    assert!(matches!(r, Err(GifParsingError::IOError)));
}

#[test]
fn application_extension_chain_after_looping_data_is_consumed() {
    let mut bytes = gif_header("89a", 1, 1, Some(&[(0x12, 0x34, 0x56)]), 0);
    let mut ext = netscape_loop(3);
    // A further two-byte sub-block before the terminator.
    let last = ext.len() - 1;
    ext[last] = 0x02;
    ext.extend_from_slice(&[0xAA, 0xBB, 0x00]);
    bytes.extend_from_slice(&ext);
    bytes.extend_from_slice(&image_block(0, 0, 1, 1, false, 2, &[0]));
    bytes.push(0x3B);
    let (r, sink, _) = decode_all(bytes);
    r.unwrap();
    assert_eq!(sink.len(), 3);
    assert!(matches!(sink[0], GifEvent::LoopingInfo(Some(3))));
    assert!(matches!(sink[1], GifEvent::GifFrameData { .. }));
}

#[test]
fn out_of_range_background_index_falls_back_to_white() {
    // The background index names no entry of the two-entry table: the
    // background color is treated as absent and a degenerate frame is
    // filled with the default opaque white.
    let mut bytes = gif_header("89a", 1, 1, Some(&[(1, 1, 1), (2, 2, 2)]), 7);
    bytes.push(0x2C);
    bytes.extend_from_slice(&[0, 0, 0, 0]);
    bytes.extend_from_slice(&0u16.to_le_bytes());
    bytes.extend_from_slice(&1u16.to_le_bytes());
    bytes.push(0x00);
    bytes.push(2);
    bytes.push(0x3B);
    let (r, sink, _) = decode_all(bytes);
    r.unwrap();
    let (d, _) = frame_data(&sink[0]);
    assert_eq!(d, &vec![0xFF, 0xFF, 0xFF]);
}

#[test]
fn graphic_control_applies_to_one_image_only() {
    let c0 = (10, 10, 10);
    let c1 = (20, 20, 20);
    let mut bytes = gif_header("89a", 1, 1, Some(&[c0, c1]), 0);
    // The extension makes index 1 transparent for the first image only.
    bytes.extend_from_slice(&gce(1, Some(1), 5));
    bytes.extend_from_slice(&image_block(0, 0, 1, 1, false, 2, &[0]));
    // The second image carries no extension of its own: index 1 is an
    // ordinary color here, and no delay applies.
    bytes.extend_from_slice(&image_block(0, 0, 1, 1, false, 2, &[1]));
    bytes.push(0x3B);
    let (r, sink, _) = decode_all(bytes);
    r.unwrap();
    let (d1, delay1) = frame_data(&sink[0]);
    let (d2, delay2) = frame_data(&sink[1]);
    assert_eq!(d1, &vec![10, 10, 10]);
    assert_eq!(delay1, Some(5));
    assert_eq!(d2, &vec![20, 20, 20]);
    assert_eq!(delay2, None);
}
