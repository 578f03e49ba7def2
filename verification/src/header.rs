use vstd::prelude::*;

use crate::color::{color_table_of, parse_color_table, Rgb};
use crate::error::GifParsingError;
use crate::gif_reader::{all_ascii, chars_of_bytes, le_u16, read_window, GifRead, GifReaderStringError};

verus! {

/// The Logical Screen Descriptor of a GIF data stream, together with the
/// Global Color Table when one is present.
#[derive(Debug)]
pub struct GifHeader {
    pub width: u16,
    pub height: u16,
    pub nb_color_resolution_bits: u8,
    pub is_table_sorted: bool,
    pub background_color_index: u8,
    pub pixel_aspect_ratio: u8,
    pub global_color_table: Option<Vec<Rgb>>,
}

/// Whether the three bytes at `p` spell the "GIF" magic string.
pub open spec fn magic_ok(data: Seq<u8>, p: nat) -> bool {
    &&& all_ascii(read_window(data, p, 3))
    &&& chars_of_bytes(read_window(data, p, 3)) == "GIF"@
}

/// The three version characters that follow the magic string.
pub open spec fn version_chars(data: Seq<u8>, p: nat) -> Seq<char> {
    chars_of_bytes(read_window(data, (p + 3) as nat, 3))
}

/// Whether the version bytes are ASCII text.
pub open spec fn version_ascii(data: Seq<u8>, p: nat) -> bool {
    all_ascii(read_window(data, (p + 3) as nat, 3))
}

/// Whether the version is one of the two this decoder understands.
pub open spec fn version_ok(data: Seq<u8>, p: nat) -> bool {
    &&& version_ascii(data, p)
    &&& (version_chars(data, p) == "87a"@ || version_chars(data, p) == "89a"@)
}

/// The packed field byte of the Logical Screen Descriptor.
pub open spec fn header_field(data: Seq<u8>, p: nat) -> u8 {
    data[p as int + 10]
}

/// Whether the packed field announces a Global Color Table.
pub open spec fn has_gct(data: Seq<u8>, p: nat) -> bool {
    header_field(data, p) & 0x80 != 0
}

/// The number of entries of a color table whose size exponent is packed
/// in the low three bits of `field`.
pub open spec fn table_entries(field: u8) -> nat {
    (1u16 << (((field & 0x07) + 1) as u16)) as nat
}

/// The total byte length of the header: the 13 fixed bytes plus the
/// Global Color Table when one is announced.
pub open spec fn header_len(data: Seq<u8>, p: nat) -> nat {
    if has_gct(data, p) {
        (13 + 3 * table_entries(header_field(data, p))) as nat
    } else {
        13
    }
}

/// What a successfully parsed header holds: each field decoded from the
/// thirteen fixed bytes at `p`, and the Global Color Table read from the
/// packed triplets that follow them when announced.
pub open spec fn header_matches(data: Seq<u8>, p: nat, h: GifHeader) -> bool {
    &&& h.width == le_u16(data, (p + 6) as nat)
    &&& h.height == le_u16(data, (p + 8) as nat)
    &&& h.nb_color_resolution_bits == ((header_field(data, p) & 0x70) >> 4) + 1
    &&& h.is_table_sorted == (header_field(data, p) & 0x08 != 0)
    &&& h.background_color_index == data[p as int + 11]
    &&& h.pixel_aspect_ratio == data[p as int + 12]
    &&& match h.global_color_table {
        Some(ct) => {
            &&& has_gct(data, p)
            &&& ct@ == color_table_of(
                read_window(data, (p + 13) as nat, 3 * table_entries(header_field(data, p))),
                table_entries(header_field(data, p)),
            )
        },
        None => !has_gct(data, p),
    }
}

/// Parse the header part of a GIF buffer and the Global Color Table, if
/// one is announced.  On success the reader stands just after the header.
pub fn parse_header<R: GifRead>(rdr: &mut R) -> (r: Result<GifHeader, GifParsingError>)
    requires
        old(rdr).pos() <= old(rdr).bytes().len(),
    ensures
        final(rdr).bytes() == old(rdr).bytes(),
        ({
            let data = old(rdr).bytes();
            let p = old(rdr).pos();
            match r {
                Ok(h) => {
                    &&& p + header_len(data, p) <= data.len()
                    &&& magic_ok(data, p)
                    &&& version_ok(data, p)
                    &&& header_matches(data, p, h)
                    &&& final(rdr).pos() == p + header_len(data, p)
                },
                Err(e) => {
                    if p + 3 > data.len() {
                        e == GifParsingError::IOError
                    } else if !magic_ok(data, p) {
                        e == GifParsingError::NoGIFHeader
                    } else if p + 6 > data.len() {
                        e == GifParsingError::IOError
                    } else if !version_ascii(data, p) {
                        e == GifParsingError::UnsupportedVersion(None)
                    } else if !version_ok(data, p) {
                        &&& e matches GifParsingError::UnsupportedVersion(Some(v))
                        &&& v@ == version_chars(data, p)
                    } else if p + 13 > data.len() {
                        e == GifParsingError::IOError
                    } else if p + header_len(data, p) > data.len() {
                        e == GifParsingError::IOError
                    } else {
                        false
                    }
                },
            }
        }),
{
    match rdr.read_str(3) {
        Err(GifReaderStringError::FromUtf8Error) => {
            return Err(GifParsingError::NoGIFHeader);
        },
        Err(GifReaderStringError::IOError) => {
            return Err(GifParsingError::IOError);
        },
        Ok(x) => {
            let magic: String = "GIF".to_owned();
            if x != magic {
                return Err(GifParsingError::NoGIFHeader);
            }
        },
    };

    match rdr.read_str(3) {
        Err(GifReaderStringError::FromUtf8Error) => {
            return Err(GifParsingError::UnsupportedVersion(None));
        },
        Err(GifReaderStringError::IOError) => {
            return Err(GifParsingError::IOError);
        },
        Ok(v) => {
            let v87: String = "87a".to_owned();
            let v89: String = "89a".to_owned();
            if v != v87 && v != v89 {
                return Err(GifParsingError::UnsupportedVersion(Some(v)));
            }
        },
    };

    let width = match rdr.read_u16() {
        Ok(v) => v,
        Err(e) => { return Err(e); },
    };
    let height = match rdr.read_u16() {
        Ok(v) => v,
        Err(e) => { return Err(e); },
    };

    let field = match rdr.read_u8() {
        Ok(v) => v,
        Err(e) => { return Err(e); },
    };
    proof {
        assert((field & 0x70) >> 4 < 8) by (bit_vector);
        assert(field & 0x07 < 8) by (bit_vector);
    }
    let has_global_color_table = field & 0x80 != 0;
    let nb_color_resolution_bits = ((field & 0x70) >> 4) + 1;
    let is_table_sorted = field & 0x08 != 0;
    let nb_entries: u16 = 1u16 << (((field & 0x07) + 1) as u16);

    let background_color_index = match rdr.read_u8() {
        Ok(v) => v,
        Err(e) => { return Err(e); },
    };
    let pixel_aspect_ratio = match rdr.read_u8() {
        Ok(v) => v,
        Err(e) => { return Err(e); },
    };

    let global_color_table = if has_global_color_table {
        match parse_color_table(rdr, nb_entries as usize) {
            Ok(ct) => Some(ct),
            Err(e) => { return Err(e); },
        }
    } else {
        None
    };

    Ok(GifHeader {
        width,
        height,
        nb_color_resolution_bits,
        is_table_sorted,
        background_color_index,
        pixel_aspect_ratio,
        global_color_table,
    })
}

} // verus!
