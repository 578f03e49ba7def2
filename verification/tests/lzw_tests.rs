use gif_decoder::decoder::LzwDecoder;
use gif_decoder::error::GifParsingError;

/// A minimal conforming LZW encoder: it emits only root codes, but
/// tracks the decoder's dictionary growth so that its code widths stay
/// in step with the decoder's.
struct Encoder {
    min_code_size: u8,
    width: u32,
    count: u32,
    first_after_clear: bool,
    acc: u32,
    bits: u32,
    out: Vec<u8>,
}

impl Encoder {
    fn new(min_code_size: u8) -> Encoder {
        Encoder {
            min_code_size,
            width: min_code_size as u32 + 1,
            count: (1u32 << min_code_size) + 2,
            first_after_clear: true,
            acc: 0,
            bits: 0,
            out: Vec::new(),
        }
    }

    fn put(&mut self, code: u32) {
        self.acc |= code << self.bits;
        self.bits += self.width;
        while self.bits >= 8 {
            self.out.push((self.acc & 0xFF) as u8);
            self.acc >>= 8;
            self.bits -= 8;
        }
    }

    fn clear(&mut self) {
        self.put(1u32 << self.min_code_size);
        self.width = self.min_code_size as u32 + 1;
        self.count = (1u32 << self.min_code_size) + 2;
        self.first_after_clear = true;
    }

    fn index(&mut self, i: u8) {
        self.put(i as u32);
        if self.first_after_clear {
            self.first_after_clear = false;
        } else {
            self.count += 1;
            if self.count == (1u32 << self.width) && self.width < 12 {
                self.width += 1;
            }
        }
    }

    fn stop(&mut self) {
        self.put((1u32 << self.min_code_size) + 1);
    }

    fn finish(mut self) -> Vec<u8> {
        if self.bits > 0 {
            self.out.push((self.acc & 0xFF) as u8);
        }
        self.out
    }
}

fn lzw_encode(min_code_size: u8, indices: &[u8]) -> Vec<u8> {
    let mut e = Encoder::new(min_code_size);
    e.clear();
    for &i in indices {
        e.index(i);
    }
    e.stop();
    e.finish()
}

#[test]
fn roundtrip_single_index() {
    let encoded = lzw_encode(2, &[0]);
    assert_eq!(encoded, vec![0x44, 0x01]);
    let mut dec = LzwDecoder::new(2);
    assert_eq!(dec.decode_next(&encoded).unwrap(), vec![0]);
}

#[test]
fn roundtrip_all_byte_values() {
    let indices: Vec<u8> = (0..=255).collect();
    let encoded = lzw_encode(8, &indices);
    let mut dec = LzwDecoder::new(8);
    assert_eq!(dec.decode_next(&encoded).unwrap(), indices);
}

#[test]
fn roundtrip_long_small_alphabet() {
    let mut indices = Vec::new();
    for i in 0..200 {
        indices.push((i % 4) as u8);
    }
    let encoded = lzw_encode(2, &indices);
    let mut dec = LzwDecoder::new(2);
    assert_eq!(dec.decode_next(&encoded).unwrap(), indices);
}

#[test]
fn all_minimum_code_sizes_decode() {
    for mcs in 2..=8u8 {
        let limit = 1u16 << mcs;
        let mut indices = Vec::new();
        for i in 0..(3 * limit as usize) {
            indices.push((i % limit as usize) as u8);
        }
        let encoded = lzw_encode(mcs, &indices);
        let mut dec = LzwDecoder::new(mcs);
        assert_eq!(dec.decode_next(&encoded).unwrap(), indices, "mcs {}", mcs);
    }
}

#[test]
fn code_size_growth_boundary() {
    // With a minimum code size of 2 the width grows from 3 to 4 when
    // the eighth code is assigned; a long stream crosses several
    // growth boundaries and still decodes byte for byte.
    let mut indices = Vec::new();
    for i in 0..1000 {
        indices.push((i % 3) as u8);
    }
    let encoded = lzw_encode(2, &indices);
    let mut dec = LzwDecoder::new(2);
    assert_eq!(dec.decode_next(&encoded).unwrap(), indices);
}

#[test]
fn repeated_clears_decode() {
    let mut e = Encoder::new(2);
    e.clear();
    e.index(0);
    e.clear();
    e.index(1);
    e.clear();
    e.index(0);
    e.index(2);
    e.stop();
    let encoded = e.finish();
    let mut dec = LzwDecoder::new(2);
    assert_eq!(dec.decode_next(&encoded).unwrap(), vec![0, 1, 0, 2]);
}

#[test]
fn decode_split_across_calls() {
    let mut indices = Vec::new();
    for i in 0..50 {
        indices.push((i % 4) as u8);
    }
    let encoded = lzw_encode(2, &indices);
    let mut dec = LzwDecoder::new(2);
    let mut out = dec.decode_next(&encoded[..3]).unwrap();
    out.extend_from_slice(&dec.decode_next(&encoded[3..]).unwrap());
    assert_eq!(out, indices);
}

#[test]
fn empty_input_decodes_to_nothing() {
    let mut dec = LzwDecoder::new(4);
    assert_eq!(dec.decode_next(&[]).unwrap(), Vec::<u8>::new());
}

#[test]
fn code_past_dictionary_is_error() {
    // Width 3 after a clear; the code 7 names neither a root, a
    // sentinel, nor the next assignable code.
    let mut dec = LzwDecoder::new(2);
    let bytes = vec![0x3C];
    assert!(matches!(
        dec.decode_next(&bytes),
        Err(GifParsingError::InvalidLzwCode)
    ));
}

#[test]
fn self_referential_code_decodes() {
    // clear, 0, then the next assignable code 6, which stands for the
    // previous sequence extended by its own first byte: 0 0.
    let mut e = Encoder::new(2);
    e.clear();
    e.put(0);
    e.first_after_clear = false;
    e.put(6);
    e.count += 1;
    e.stop();
    let encoded = e.finish();
    let mut dec = LzwDecoder::new(2);
    assert_eq!(dec.decode_next(&encoded).unwrap(), vec![0, 0, 0]);
}

#[test]
fn self_referential_code_without_previous_is_error() {
    // Directly after a clear the next assignable code 6 has no
    // previous sequence to extend.
    let mut e = Encoder::new(2);
    e.clear();
    e.put(6);
    let encoded = e.finish();
    let mut dec = LzwDecoder::new(2);
    assert!(matches!(
        dec.decode_next(&encoded),
        Err(GifParsingError::InvalidLzwCode)
    ));
}
