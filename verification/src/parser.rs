use vstd::prelude::*;

use crate::color::{color_table_of, parse_color_table, Rgb};
use crate::decoder::LzwDecoder;
use crate::error::GifParsingError;
use crate::gif_reader::{all_ascii, chars_of_bytes, le_u16, read_window, GifRead, GifReaderStringError};
use crate::header::{table_entries, GifHeader};
use crate::lzw::{initial_state, lzw_run, LzwOutcome, LzwState};

verus! {

/// What a parsing step yields at the model level: a value and the
/// position just after it, or the error that input produces.
pub ghost enum Parsed<T> {
    Val { v: T, end: nat },
    Bad(ErrModel),
}

/// Ghost mirror of `GifParsingError`, with character sequences in place
/// of allocated strings, so that contracts can state which error an
/// input produces.
#[allow(inconsistent_fields)]
pub ghost enum ErrModel {
    Io,
    BadLength { name: Seq<char>, expected: u8, got: u8 },
    NoTerminator { name: Option<Seq<char>> },
    BadColor,
    TooMany,
    NoTable,
    BadExtension(u8),
    BadBlock { code: u8, position: nat },
    BadLzw,
}

/// Whether the error value `e` is the one the model `m` calls for.
pub open spec fn err_matches(e: GifParsingError, m: ErrModel) -> bool {
    match m {
        ErrModel::Io => e == GifParsingError::IOError,
        ErrModel::BadLength { name, expected, got } => {
            &&& e matches GifParsingError::UnexpectedLength { block_name, expected: e2, got: g2 }
            &&& block_name@ == name
            &&& e2 == expected
            &&& g2 == got
        },
        ErrModel::NoTerminator { name } => {
            &&& e matches GifParsingError::ExpectedBlockTerminator { block_name }
            &&& match (block_name, name) {
                (Some(s), Some(n)) => s@ == n,
                (None, None) => true,
                _ => false,
            }
        },
        ErrModel::BadColor => e == GifParsingError::InvalidColor,
        ErrModel::TooMany => e == GifParsingError::TooMuchPixels,
        ErrModel::NoTable => e == GifParsingError::NoColorTable,
        ErrModel::BadExtension(l) => e == GifParsingError::UnrecognizedExtension(l),
        ErrModel::BadBlock { code, position } => {
            &&& e matches GifParsingError::UnrecognizedBlock { code: c, position: q }
            &&& c == code
            &&& q == position
        },
        ErrModel::BadLzw => e == GifParsingError::InvalidLzwCode,
    }
}

/// The position just after a sub-block chain that starts at `p`: each
/// length byte is followed by that many data bytes, and a zero length
/// byte closes the chain.  `None` when the data ends first.
pub open spec fn sub_blocks_end(data: Seq<u8>, p: nat) -> Option<nat>
    decreases data.len() - p,
{
    if p + 1 > data.len() {
        None
    } else if data[p as int] == 0 {
        Some((p + 1) as nat)
    } else if p + 1 + data[p as int] > data.len() {
        None
    } else {
        sub_blocks_end(data, (p + 1 + data[p as int]) as nat)
    }
}

/// A sub-block chain only moves the position forward.
pub proof fn lemma_sub_blocks_end_advances(data: Seq<u8>, p: nat)
    ensures
        match sub_blocks_end(data, p) {
            Some(q) => p < q <= data.len(),
            None => true,
        },
    decreases data.len() - p,
{
    if p + 1 > data.len() {
    } else if data[p as int] == 0 {
    } else if p + 1 + data[p as int] > data.len() {
    } else {
        lemma_sub_blocks_end_advances(data, (p + 1 + data[p as int]) as nat);
    }
}

/// Allows to skip sub-blocks when reached.  You might want to do that
/// when reaching a part of the GIF buffer containing sub-blocks you do
/// not care for (e.g. comments).
pub fn skip_sub_blocks<R: GifRead>(rdr: &mut R) -> (r: Result<(), GifParsingError>)
    requires
        old(rdr).pos() <= old(rdr).bytes().len(),
    ensures
        final(rdr).bytes() == old(rdr).bytes(),
        match r {
            Ok(_) => {
                &&& sub_blocks_end(old(rdr).bytes(), old(rdr).pos()) matches Some(q)
                &&& final(rdr).pos() == sub_blocks_end(old(rdr).bytes(), old(rdr).pos()).arrow_Some_0()
            },
            Err(e) => {
                &&& e == GifParsingError::IOError
                &&& sub_blocks_end(old(rdr).bytes(), old(rdr).pos()) is None
            },
        },
{
    loop
        invariant
            rdr.pos() <= rdr.bytes().len(),
            rdr.bytes() == old(rdr).bytes(),
            sub_blocks_end(old(rdr).bytes(), old(rdr).pos()) == sub_blocks_end(
                rdr.bytes(),
                rdr.pos(),
            ),
        decreases rdr.bytes().len() - rdr.pos(),
    {
        let size_of_block = match rdr.read_u8() {
            Ok(v) => v,
            Err(e) => {
                return Err(e);
            },
        };
        if size_of_block == 0 {
            return Ok(());
        }
        match rdr.skip_bytes(size_of_block as usize) {
            Ok(_) => {},
            Err(e) => {
                return Err(e);
            },
        };
    }
}

/// The available values for the `disposal_method` parsed from a graphic
/// control extension.
#[derive(Debug, Clone, Copy, PartialEq, Eq, Structural)]
pub enum DisposalMethod {
    /// The decoder is not required to take any action.
    NoDisposalSpecified,
    /// The graphic is to be left in place.
    DoNotDispose,
    /// The area used by the graphic must be restored to the background
    /// color.
    RestoreToBackgroundColor,
    /// The decoder is required to restore the area overwritten by the
    /// graphic with what was there prior to rendering the graphic.
    RestoreToPrevious,
}

/// Value of a parsed Graphic Control Extension from a GIF buffer.
#[derive(Debug, Clone, Copy)]
pub struct GraphicControlExtension {
    /// Indicates the way in which the graphic is to be treated after
    /// being displayed.
    pub disposal_method: DisposalMethod,
    /// If set to `true`, processing will continue when user input is
    /// entered.
    pub user_input: bool,
    /// The index such that, when encountered, the corresponding pixel
    /// of the display device is not modified and processing goes on to
    /// the next pixel.  Present if and only if the transparency flag is
    /// set.
    pub transparent_color_index: Option<u8>,
    /// The number of hundredths of a second to wait before continuing
    /// with the processing of the data stream.
    pub delay: u16,
}

/// The disposal method packed in bits 4..2 of the GCE field byte.
pub open spec fn disposal_of(packed: u8) -> DisposalMethod {
    if (packed & 0x1C) >> 2 == 1 {
        DisposalMethod::DoNotDispose
    } else if (packed & 0x1C) >> 2 == 2 {
        DisposalMethod::RestoreToBackgroundColor
    } else if (packed & 0x1C) >> 2 == 3 {
        DisposalMethod::RestoreToPrevious
    } else {
        DisposalMethod::NoDisposalSpecified
    }
}

/// What a Graphic Control Extension starting at `p` (just after its
/// label byte) parses to: a four-byte block whose packed field carries
/// the disposal method, user input flag and transparency flag, then the
/// delay, the transparency index, and a zero terminator.
pub open spec fn gce_spec(data: Seq<u8>, p: nat) -> Parsed<GraphicControlExtension> {
    if p + 1 > data.len() {
        Parsed::Bad(ErrModel::Io)
    } else if data[p as int] != 4 {
        Parsed::Bad(
            ErrModel::BadLength {
                name: "Graphic Control Extension"@,
                expected: 4,
                got: data[p as int],
            },
        )
    } else if p + 6 > data.len() {
        Parsed::Bad(ErrModel::Io)
    } else if data[p as int + 5] != 0 {
        Parsed::Bad(ErrModel::NoTerminator { name: Some("Graphic Control Extension"@) })
    } else {
        Parsed::Val {
            v: GraphicControlExtension {
                disposal_method: disposal_of(data[p as int + 1]),
                user_input: data[p as int + 1] & 0x02 != 0,
                transparent_color_index: if data[p as int + 1] & 0x01 != 0 {
                    Some(data[p as int + 4])
                } else {
                    None
                },
                delay: le_u16(data, (p + 2) as nat),
            },
            end: (p + 6) as nat,
        }
    }
}

/// Parse a Graphic Control Extension, the reader standing just after
/// the extension label.
pub fn parse_graphic_control_extension<R: GifRead>(rdr: &mut R) -> (r: Result<
    GraphicControlExtension,
    GifParsingError,
>)
    requires
        old(rdr).pos() <= old(rdr).bytes().len(),
    ensures
        final(rdr).bytes() == old(rdr).bytes(),
        match r {
            Ok(g) => {
                &&& gce_spec(old(rdr).bytes(), old(rdr).pos()) matches Parsed::Val { v, end }
                    && v == g && final(rdr).pos() == end
            },
            Err(e) => {
                &&& gce_spec(old(rdr).bytes(), old(rdr).pos()) matches Parsed::Bad(m)
                    && err_matches(e, m)
                &&& (e matches GifParsingError::UnexpectedLength { .. }
                    ==> final(rdr).pos() == old(rdr).pos() + 1)
                &&& (e matches GifParsingError::ExpectedBlockTerminator { .. }
                    ==> final(rdr).pos() == old(rdr).pos() + 6)
            },
        },
{
    let block_size = match rdr.read_u8() {
        Ok(v) => v,
        Err(e) => {
            return Err(e);
        },
    };
    if block_size != 4 {
        return Err(
            GifParsingError::UnexpectedLength {
                block_name: "Graphic Control Extension".to_owned(),
                expected: 4,
                got: block_size,
            },
        );
    }
    let packed_fields = match rdr.read_u8() {
        Ok(v) => v,
        Err(e) => {
            return Err(e);
        },
    };
    let code = (packed_fields & 0x1C) >> 2;
    let disposal_method = if code == 1 {
        DisposalMethod::DoNotDispose
    } else if code == 2 {
        DisposalMethod::RestoreToBackgroundColor
    } else if code == 3 {
        DisposalMethod::RestoreToPrevious
    } else {
        DisposalMethod::NoDisposalSpecified
    };
    let user_input: bool = packed_fields & 0x02 != 0;
    let transparent_color_flag: bool = packed_fields & 0x01 != 0;
    let delay = match rdr.read_u16() {
        Ok(v) => v,
        Err(e) => {
            return Err(e);
        },
    };
    let transparent_color_index = if transparent_color_flag {
        match rdr.read_u8() {
            Ok(v) => Some(v),
            Err(e) => {
                return Err(e);
            },
        }
    } else {
        match rdr.skip_bytes(1) {
            Ok(_) => None,
            Err(e) => {
                return Err(e);
            },
        }
    };
    let terminator = match rdr.read_u8() {
        Ok(v) => v,
        Err(e) => {
            return Err(e);
        },
    };
    if terminator != 0 {
        return Err(
            GifParsingError::ExpectedBlockTerminator {
                block_name: Some("Graphic Control Extension".to_owned()),
            },
        );
    }
    Ok(GraphicControlExtension { disposal_method, user_input, transparent_color_index, delay })
}

/// The two application extensions this decoder tells apart.
#[derive(Debug, Clone, Copy, PartialEq, Eq, Structural)]
pub enum ApplicationExtension {
    /// Looping value from the NETSCAPE2.0 extension.  0 means infinite
    /// looping, any other value is the number of times the GIF image
    /// is to be played back from the beginning.
    NetscapeLooping(u16),
    /// Any other application extension, skipped without error.
    NotKnown,
}

/// Whether the extension's name and authentication code at `p` (the
/// position of its block size byte) announce the NETSCAPE2.0 looping
/// extension.
pub open spec fn is_netscape(data: Seq<u8>, p: nat) -> bool {
    &&& all_ascii(read_window(data, (p + 1) as nat, 8))
    &&& chars_of_bytes(read_window(data, (p + 1) as nat, 8)) == "NETSCAPE"@
    &&& data[p as int + 9] == 50
    &&& data[p as int + 10] == 46
    &&& data[p as int + 11] == 48
}

/// The tail of the application extension: the `remaining` payload
/// bytes of the current sub-block, then the rest of the sub-block
/// chain through its zero-length terminator.
pub open spec fn app_tail(data: Seq<u8>, p: nat, remaining: nat, ext: ApplicationExtension) -> Parsed<
    ApplicationExtension,
> {
    if p + remaining > data.len() {
        Parsed::Bad(ErrModel::Io)
    } else {
        match sub_blocks_end(data, (p + remaining) as nat) {
            None => Parsed::Bad(ErrModel::Io),
            Some(q) => Parsed::Val { v: ext, end: q },
        }
    }
}

/// What an Application Extension starting at `p` (just after its label
/// byte) parses to: an eleven-byte header holding the application name
/// and authentication code, then data sub-blocks.  Only the
/// NETSCAPE2.0 looping sub-block is interpreted; everything else is
/// consumed and yields `NotKnown`.
pub open spec fn app_ext_spec(data: Seq<u8>, p: nat) -> Parsed<ApplicationExtension> {
    if p + 1 > data.len() {
        Parsed::Bad(ErrModel::Io)
    } else if data[p as int] != 11 {
        Parsed::Bad(
            ErrModel::BadLength { name: "Application Extension"@, expected: 11, got: data[p as int] },
        )
    } else if p + 9 > data.len() {
        Parsed::Bad(ErrModel::Io)
    } else if p + 13 > data.len() {
        Parsed::Bad(ErrModel::Io)
    } else {
        let first_len = data[p as int + 12];
        if first_len == 0 {
            Parsed::Val { v: ApplicationExtension::NotKnown, end: (p + 13) as nat }
        } else if is_netscape(data, p) && first_len >= 3 {
            if p + 14 > data.len() {
                Parsed::Bad(ErrModel::Io)
            } else if first_len != 3 || data[p as int + 13] != 1 {
                app_tail(data, (p + 14) as nat, (first_len - 1) as nat, ApplicationExtension::NotKnown)
            } else if p + 16 > data.len() {
                Parsed::Bad(ErrModel::Io)
            } else {
                app_tail(
                    data,
                    (p + 16) as nat,
                    (first_len - 3) as nat,
                    ApplicationExtension::NetscapeLooping(le_u16(data, (p + 14) as nat)),
                )
            }
        } else {
            app_tail(data, (p + 13) as nat, first_len as nat, ApplicationExtension::NotKnown)
        }
    }
}

/// Parse an Application Extension, the reader standing just after the
/// extension label.
pub fn parse_application_extension<R: GifRead>(rdr: &mut R) -> (r: Result<
    ApplicationExtension,
    GifParsingError,
>)
    requires
        old(rdr).pos() <= old(rdr).bytes().len(),
    ensures
        final(rdr).bytes() == old(rdr).bytes(),
        match r {
            Ok(ext) => {
                &&& app_ext_spec(old(rdr).bytes(), old(rdr).pos()) matches Parsed::Val { v, end }
                    && v == ext && final(rdr).pos() == end
            },
            Err(e) => {
                &&& app_ext_spec(old(rdr).bytes(), old(rdr).pos()) matches Parsed::Bad(m)
                    && err_matches(e, m)
                &&& (e matches GifParsingError::UnexpectedLength { .. }
                    ==> final(rdr).pos() == old(rdr).pos() + 1)
            },
        },
{
    let ghost data = old(rdr).bytes();
    let ghost p = old(rdr).pos();
    let block_size = match rdr.read_u8() {
        Ok(v) => v,
        Err(e) => {
            return Err(e);
        },
    };
    if block_size != 11 {
        return Err(
            GifParsingError::UnexpectedLength {
                block_name: "Application Extension".to_owned(),
                expected: 11,
                got: block_size,
            },
        );
    }
    let app_name = match rdr.read_str(8) {
        Err(GifReaderStringError::IOError) => {
            return Err(GifParsingError::IOError);
        },
        Err(GifReaderStringError::FromUtf8Error) => None,
        Ok(x) => Some(x),
    };
    let auth_0 = match rdr.read_u8() {
        Ok(v) => v,
        Err(e) => {
            return Err(e);
        },
    };
    let auth_1 = match rdr.read_u8() {
        Ok(v) => v,
        Err(e) => {
            return Err(e);
        },
    };
    let auth_2 = match rdr.read_u8() {
        Ok(v) => v,
        Err(e) => {
            return Err(e);
        },
    };
    let first_len = match rdr.read_u8() {
        Ok(v) => v,
        Err(e) => {
            return Err(e);
        },
    };
    let ghost spec_result = app_ext_spec(data, p);
    let mut data_len: usize = first_len as usize;
    if data_len == 0 {
        return Ok(ApplicationExtension::NotKnown);
    }

    let mut ext = ApplicationExtension::NotKnown;

    let name_is_netscape = match &app_name {
        Some(s) => {
            let netscape: String = "NETSCAPE".to_owned();
            *s == netscape
        },
        None => false,
    };
    proof {
        assert(name_is_netscape && auth_0 == 50 && auth_1 == 46 && auth_2 == 48 <==> is_netscape(
            data,
            p,
        ));
    }
    if name_is_netscape && auth_0 == 50 && auth_1 == 46 && auth_2 == 48 && data_len >= 3 {
        let sub_block_id = match rdr.read_u8() {
            Ok(v) => v,
            Err(e) => {
                return Err(e);
            },
        };
        if data_len != 3 || sub_block_id != 1 {
            // Not a valid NETSCAPE2.0 looping extension: ignore it.
            data_len = data_len - 1;
        } else {
            let loop_count = match rdr.read_u16() {
                Ok(v) => v,
                Err(e) => {
                    return Err(e);
                },
            };
            ext = ApplicationExtension::NetscapeLooping(loop_count);
            data_len = data_len - 3;
        }
    }

    proof {
        assert(spec_result == app_tail(data, rdr.pos(), data_len as nat, ext));
    }
    // Skip the rest of the current data sub-block, then the rest of
    // the chain through its zero-length terminator.
    match rdr.skip_bytes(data_len) {
        Ok(_) => {},
        Err(e) => {
            return Err(e);
        },
    };
    match skip_sub_blocks(rdr) {
        Ok(_) => {},
        Err(e) => {
            return Err(e);
        },
    };
    Ok(ext)
}

/// What a Plain Text Extension starting at `p` (just after its label
/// byte) parses to: a twelve-byte header that is skipped, then a
/// sub-block chain that is skipped too.
pub open spec fn plain_text_spec(data: Seq<u8>, p: nat) -> Parsed<()> {
    if p + 1 > data.len() {
        Parsed::Bad(ErrModel::Io)
    } else if data[p as int] != 12 {
        Parsed::Bad(
            ErrModel::BadLength { name: "Plain Text Extension"@, expected: 12, got: data[p as int] },
        )
    } else if p + 13 > data.len() {
        Parsed::Bad(ErrModel::Io)
    } else {
        match sub_blocks_end(data, (p + 13) as nat) {
            None => Parsed::Bad(ErrModel::Io),
            Some(q) => Parsed::Val { v: (), end: q },
        }
    }
}

/// The plain text extension is an 89a GIF extension allowing to render
/// text in a GIF image.  This feature is very rarely used, so this
/// decoder skips it.
pub fn skip_plain_text_extension<R: GifRead>(rdr: &mut R) -> (r: Result<(), GifParsingError>)
    requires
        old(rdr).pos() <= old(rdr).bytes().len(),
    ensures
        final(rdr).bytes() == old(rdr).bytes(),
        match r {
            Ok(_) => {
                &&& plain_text_spec(old(rdr).bytes(), old(rdr).pos()) matches Parsed::Val { v, end }
                    && final(rdr).pos() == end
            },
            Err(e) => {
                &&& plain_text_spec(old(rdr).bytes(), old(rdr).pos()) matches Parsed::Bad(m)
                    && err_matches(e, m)
                &&& (e matches GifParsingError::UnexpectedLength { .. }
                    ==> final(rdr).pos() == old(rdr).pos() + 1)
            },
        },
{
    let block_size = match rdr.read_u8() {
        Ok(v) => v,
        Err(e) => {
            return Err(e);
        },
    };
    if block_size != 12 {
        return Err(
            GifParsingError::UnexpectedLength {
                block_name: "Plain Text Extension".to_owned(),
                expected: 12,
                got: block_size,
            },
        );
    }
    // Skip the whole plain text header.
    match rdr.skip_bytes(12) {
        Ok(_) => {},
        Err(e) => {
            return Err(e);
        },
    };
    match skip_sub_blocks(rdr) {
        Ok(_) => {},
        Err(e) => {
            return Err(e);
        },
    };
    Ok(())
}

/// The fixed parameters of one frame's pixel placement.
pub ghost struct RenderParams {
    /// The active color table.
    pub table: Seq<Rgb>,
    /// The full screen width, in pixels.
    pub img_width: nat,
    /// The left edge of the image rectangle.
    pub left: nat,
    /// The top edge of the image rectangle.
    pub top: nat,
    /// The last column of the image rectangle.
    pub max_x: nat,
    /// The last row of the image rectangle.
    pub max_y: nat,
    /// Whether the image uses the four-pass interlace order.
    pub interlace: bool,
    /// The index whose pixels are suppressed, when one is set.
    pub transparent: Option<u8>,
    /// Whether the raster started from a previous frame's pixels.
    pub has_base: bool,
    /// The color written for a transparent index with no base raster.
    pub background: Rgb,
}

/// The changing part of one frame's pixel placement: the raster and
/// the write position.
pub ghost struct RenderState {
    pub buf: Seq<u8>,
    pub x: nat,
    pub y: nat,
    pub cycle: nat,
    pub step: nat,
}

/// What placing decoded bytes can come to.
pub ghost enum RenderOut {
    /// All given bytes placed; more may follow.
    More(RenderState),
    /// The rectangle has been fully covered: the raster is complete and
    /// any remaining bytes are dropped.
    Finished(Seq<u8>),
    /// A byte was not an index of the active color table.
    BadIndex,
    /// A write would fall outside the raster.
    Overflow,
}

/// The raster with the packed R, G, B triplet at byte index `idx`
/// replaced by color `c`.
pub open spec fn put_pixel(buf: Seq<u8>, idx: int, c: Rgb) -> Seq<u8> {
    buf.update(idx, c.r).update(idx + 1, c.g).update(idx + 2, c.b)
}

/// Place one decoded index byte: bounds-check it against the color
/// table, the screen width and the raster, honor transparency, and
/// advance the write position in file order, or in the four-pass
/// interlace order.
pub open spec fn render_step(st: RenderState, b: u8, rp: RenderParams) -> RenderOut {
    if b >= rp.table.len() {
        RenderOut::BadIndex
    } else if st.x >= rp.img_width {
        // A column past the screen: the write is rejected rather than
        // wrapped onto a later row of the raster.
        RenderOut::Overflow
    } else {
        let idx = (st.y * rp.img_width + st.x) * 3;
        if idx + 2 >= st.buf.len() {
            RenderOut::Overflow
        } else {
            let buf2 = if rp.transparent == Some(b) {
                if rp.has_base {
                    st.buf
                } else {
                    put_pixel(st.buf, idx as int, rp.background)
                }
            } else {
                put_pixel(st.buf, idx as int, rp.table[b as int])
            };
            if st.x + 1 > rp.max_x {
                if st.y + st.step > rp.max_y {
                    if !rp.interlace || st.cycle >= 3 {
                        RenderOut::Finished(buf2)
                    } else if st.cycle + 1 == 1 {
                        RenderOut::More(
                            RenderState {
                                buf: buf2,
                                x: rp.left,
                                y: rp.top + 4,
                                cycle: 1,
                                step: 8,
                            },
                        )
                    } else if st.cycle + 1 == 2 {
                        RenderOut::More(
                            RenderState {
                                buf: buf2,
                                x: rp.left,
                                y: rp.top + 2,
                                cycle: 2,
                                step: 4,
                            },
                        )
                    } else {
                        RenderOut::More(
                            RenderState {
                                buf: buf2,
                                x: rp.left,
                                y: rp.top + 1,
                                cycle: st.cycle + 1,
                                step: 2,
                            },
                        )
                    }
                } else {
                    RenderOut::More(
                        RenderState { buf: buf2, x: rp.left, y: st.y + st.step, ..st },
                    )
                }
            } else {
                RenderOut::More(RenderState { buf: buf2, x: st.x + 1, ..st })
            }
        }
    }
}

/// Place a run of decoded index bytes, one after the other, stopping
/// at the first error or when the rectangle is covered.
pub open spec fn render_run(st: RenderState, idxs: Seq<u8>, rp: RenderParams) -> RenderOut
    decreases idxs.len(),
{
    if idxs.len() == 0 {
        RenderOut::More(st)
    } else {
        match render_step(st, idxs[0], rp) {
            RenderOut::More(st2) => render_run(st2, idxs.subrange(1, idxs.len() as int), rp),
            RenderOut::Finished(buf) => RenderOut::Finished(buf),
            RenderOut::BadIndex => RenderOut::BadIndex,
            RenderOut::Overflow => RenderOut::Overflow,
        }
    }
}

/// Decode and place the image data sub-blocks that start at `p`: each
/// sub-block's bytes run through the LZW decoder, whose output is
/// placed on the raster; a zero-length sub-block ends the chain, and a
/// covered rectangle drains the remaining sub-blocks.
pub open spec fn frame_blocks(
    data: Seq<u8>,
    p: nat,
    m: LzwState,
    st: RenderState,
    rp: RenderParams,
) -> Parsed<Seq<u8>>
    decreases data.len() - p, 0int,
{
    if p + 1 > data.len() {
        Parsed::Bad(ErrModel::Io)
    } else if data[p as int] == 0 {
        Parsed::Val { v: st.buf, end: (p + 1) as nat }
    } else if p + 1 + data[p as int] > data.len() {
        Parsed::Bad(ErrModel::Io)
    } else {
        let block = data.subrange(p as int + 1, p as int + 1 + data[p as int]);
        let q = (p + 1 + data[p as int]) as nat;
        match lzw_run(m, block) {
            LzwOutcome::Fail => Parsed::Bad(ErrModel::BadLzw),
            LzwOutcome::More { next, out } => frame_feed(data, q, next, st, rp, out),
            LzwOutcome::Done { next, out } => frame_feed(data, q, next, st, rp, out),
        }
    }
}

/// Place one sub-block's decoded bytes and go on with the chain.
pub open spec fn frame_feed(
    data: Seq<u8>,
    q: nat,
    m: LzwState,
    st: RenderState,
    rp: RenderParams,
    out: Seq<u8>,
) -> Parsed<Seq<u8>>
    decreases data.len() - q, 1int,
{
    if q > data.len() {
        Parsed::Bad(ErrModel::Io)
    } else {
        match render_run(st, out, rp) {
            RenderOut::BadIndex => Parsed::Bad(ErrModel::BadColor),
            RenderOut::Overflow => Parsed::Bad(ErrModel::TooMany),
            RenderOut::Finished(buf) => match sub_blocks_end(data, q) {
                None => Parsed::Bad(ErrModel::Io),
                Some(e) => Parsed::Val { v: buf, end: e },
            },
            RenderOut::More(st2) => frame_blocks(data, q, m, st2, rp),
        }
    }
}

/// The surroundings a frame is composited in: the screen size, the
/// global color table, the starting raster, the background color, and
/// the transparency index of the current Graphic Control Extension.
pub ghost struct FrameEnv {
    pub gct: Option<Seq<Rgb>>,
    pub base: Option<Seq<u8>>,
    pub height: nat,
    pub width: nat,
    pub background: Option<Rgb>,
    pub transparent: Option<u8>,
}

/// The background color used when none is defined: opaque white.
pub open spec fn white() -> Rgb {
    Rgb { r: 0xFF, g: 0xFF, b: 0xFF }
}

/// The background color in effect.
pub open spec fn effective_bg(background: Option<Rgb>) -> Rgb {
    match background {
        Some(c) => c,
        None => white(),
    }
}

/// A raster of `n` pixels, all of color `c`.
pub open spec fn solid(n: nat, c: Rgb) -> Seq<u8> {
    Seq::new(
        (3 * n) as nat,
        |i: int| if i % 3 == 0 { c.r } else if i % 3 == 1 { c.g } else { c.b },
    )
}

/// A zero-initialized raster of `n` bytes.
pub open spec fn zeros(n: nat) -> Seq<u8> {
    Seq::new(n, |i: int| 0u8)
}

/// What the frame whose Image Descriptor body starts at `p` composites
/// to: the nine descriptor bytes give the image rectangle and flags,
/// an optional Local Color Table follows, then the initial LZW code
/// size and the image data sub-blocks.  A degenerate rectangle gives a
/// raster filled with the background color without consuming image
/// data.
pub open spec fn frame_spec(data: Seq<u8>, p: nat, env: FrameEnv) -> Parsed<Seq<u8>> {
    if p + 9 > data.len() {
        Parsed::Bad(ErrModel::Io)
    } else {
        let left = le_u16(data, p) as nat;
        let top = le_u16(data, (p + 2) as nat) as nat;
        let bw = le_u16(data, (p + 4) as nat) as nat;
        let bh = le_u16(data, (p + 6) as nat) as nat;
        let field = data[p as int + 8];
        let has_lct = field & 0x80 != 0;
        let interlace = field & 0x40 != 0;
        let n_lct = table_entries(field);
        let q0: nat = if has_lct {
            (p + 9 + 3 * n_lct) as nat
        } else {
            (p + 9) as nat
        };
        if q0 > data.len() {
            Parsed::Bad(ErrModel::Io)
        } else {
            let table = if has_lct {
                Some(color_table_of(read_window(data, (p + 9) as nat, 3 * n_lct), n_lct))
            } else {
                env.gct
            };
            match table {
                None => Parsed::Bad(ErrModel::NoTable),
                Some(ct) => {
                    if q0 + 1 > data.len() {
                        Parsed::Bad(ErrModel::Io)
                    } else {
                        let ics = data[q0 as int];
                        if bw == 0 || bh == 0 {
                            Parsed::Val {
                                v: solid(
                                    (env.height * env.width) as nat,
                                    effective_bg(env.background),
                                ),
                                end: (q0 + 1) as nat,
                            }
                        } else if ics > 11 {
                            Parsed::Bad(ErrModel::BadLzw)
                        } else {
                            let buf0 = match env.base {
                                Some(b) => b,
                                None => zeros((env.height * env.width * 3) as nat),
                            };
                            let rp = RenderParams {
                                table: ct,
                                img_width: env.width,
                                left,
                                top,
                                max_x: (left + bw - 1) as nat,
                                max_y: (top + bh - 1) as nat,
                                interlace,
                                transparent: env.transparent,
                                has_base: env.base is Some,
                                background: effective_bg(env.background),
                            };
                            let st0 = RenderState {
                                buf: buf0,
                                x: left,
                                y: top,
                                cycle: 0,
                                step: if interlace { 8 as nat } else { 1 as nat },
                            };
                            frame_blocks(data, (q0 + 1) as nat, initial_state(ics as nat), st0, rp)
                        }
                    }
                },
            }
        }
    }
}

/// Read one Image Descriptor body, its optional Local Color Table and
/// its LZW image data, and composite the full-screen RGB raster it
/// describes over the given base raster, honoring interlacing and
/// transparency.
pub fn construct_next_frame<R: GifRead>(
    rdr: &mut R,
    global_color_table: Option<&Vec<Rgb>>,
    base_buffer: Option<Vec<u8>>,
    img_height: u16,
    img_width: u16,
    background_color: Option<Rgb>,
    transparent_color_index: Option<u8>,
) -> (r: Result<Vec<u8>, GifParsingError>)
    requires
        old(rdr).pos() <= old(rdr).bytes().len(),
        3 * (img_height as int) * (img_width as int) <= usize::MAX,
    ensures
        final(rdr).bytes() == old(rdr).bytes(),
        ({
            let env = FrameEnv {
                gct: match global_color_table {
                    Some(v) => Some(v@),
                    None => None,
                },
                base: match base_buffer {
                    Some(b) => Some(b@),
                    None => None,
                },
                height: img_height as nat,
                width: img_width as nat,
                background: background_color,
                transparent: transparent_color_index,
            };
            match r {
                Ok(v) => {
                    &&& frame_spec(old(rdr).bytes(), old(rdr).pos(), env) matches Parsed::Val {
                        v: buf,
                        end,
                    }
                        && v@ == buf && final(rdr).pos() == end
                },
                Err(e) => {
                    &&& frame_spec(old(rdr).bytes(), old(rdr).pos(), env) matches Parsed::Bad(m)
                        && err_matches(e, m)
                },
            }
        }),
{
    let ghost data = old(rdr).bytes();
    let ghost p = old(rdr).pos();
    let ghost env = FrameEnv {
        gct: match global_color_table {
            Some(v) => Some(v@),
            None => None,
        },
        base: match &base_buffer {
            Some(b) => Some(b@),
            None => None,
        },
        height: img_height as nat,
        width: img_width as nat,
        background: background_color,
        transparent: transparent_color_index,
    };
    let curr_block_left = match rdr.read_u16() {
        Ok(v) => v,
        Err(e) => {
            return Err(e);
        },
    };
    let curr_block_top = match rdr.read_u16() {
        Ok(v) => v,
        Err(e) => {
            return Err(e);
        },
    };
    let curr_block_width = match rdr.read_u16() {
        Ok(v) => v,
        Err(e) => {
            return Err(e);
        },
    };
    let curr_block_height = match rdr.read_u16() {
        Ok(v) => v,
        Err(e) => {
            return Err(e);
        },
    };
    let field = match rdr.read_u8() {
        Ok(v) => v,
        Err(e) => {
            return Err(e);
        },
    };

    let has_local_color_table = field & 0x80 != 0;
    let has_interlacing = field & 0x40 != 0;
    proof {
        assert(field & 0x07 < 8) by (bit_vector);
    }
    let nb_color_entries: u16 = 1u16 << (((field & 0x07) + 1) as u16);

    // Current interlacing cycle - from 0 to 3 - and step used to obtain
    // the next line to draw.  Both matter only with interlacing on.
    let mut interlacing_cycle: usize = 0;
    let mut line_step: usize = if has_interlacing {
        8
    } else {
        1
    };

    let lct = if has_local_color_table {
        match parse_color_table(rdr, nb_color_entries as usize) {
            Ok(v) => Some(v),
            Err(e) => {
                return Err(e);
            },
        }
    } else {
        None
    };

    let current_color_table: &Vec<Rgb> = match &lct {
        Some(c) => c,
        None => {
            match global_color_table {
                None => {
                    return Err(GifParsingError::NoColorTable);
                },
                Some(val) => val,
            }
        },
    };

    proof {
        assert((img_height as int * img_width as int) * 3 == 3 * (img_height as int) * (
        img_width as int)) by (nonlinear_arith);
        assert(img_height as int * img_width as int <= 3 * (img_height as int) * (img_width as int))
            by (nonlinear_arith);
    }
    let (has_background_frame, mut global_buffer) = match base_buffer {
        Some(frame) => (true, frame),
        None => (false, vec![0u8; img_height as usize * img_width as usize * 3]),
    };
    proof {
        if env.base is None {
            assert forall|i: int|
                0 <= i < global_buffer@.len() implies global_buffer@[i] == 0u8 by {}
            assert(global_buffer@ =~= zeros((env.height * env.width * 3) as nat));
        }
    }

    let initial_code_size = match rdr.read_u8() {
        Ok(v) => v,
        Err(e) => {
            return Err(e);
        },
    };

    if curr_block_width == 0 || curr_block_height == 0 {
        let bg_color: Rgb = match background_color {
            Some(color) => color,
            None => Rgb { r: 0xFF, g: 0xFF, b: 0xFF },
        };
        let elts: usize = img_height as usize * img_width as usize;
        let mut ret: Vec<u8> = Vec::new();
        let mut k: usize = 0;
        while k < elts
            invariant
                k <= elts,
                ret@ == solid(k as nat, bg_color),
            decreases elts - k,
        {
            ret.push(bg_color.r);
            ret.push(bg_color.g);
            ret.push(bg_color.b);
            k = k + 1;
            proof {
                assert(ret@ =~= solid(k as nat, bg_color));
            }
        }
        proof {
            assert(bg_color == effective_bg(env.background));
        }
        return Ok(ret);
    }

    if initial_code_size > 11 {
        return Err(GifParsingError::InvalidLzwCode);
    }
    let mut decoder = LzwDecoder::new(initial_code_size);

    let mut x_pos: usize = curr_block_left as usize;
    let mut y_pos: usize = curr_block_top as usize;
    let max_pos_width: usize = curr_block_width as usize + curr_block_left as usize - 1;
    let max_pos_height: usize = curr_block_height as usize + curr_block_top as usize - 1;

    let ghost rp = RenderParams {
        table: current_color_table@,
        img_width: img_width as nat,
        left: curr_block_left as nat,
        top: curr_block_top as nat,
        max_x: max_pos_width as nat,
        max_y: max_pos_height as nat,
        interlace: has_interlacing,
        transparent: transparent_color_index,
        has_base: has_background_frame,
        background: effective_bg(background_color),
    };
    let ghost fspec = frame_spec(data, p, env);
    proof {
        assert(fspec == frame_blocks(
            data,
            rdr.pos(),
            decoder@,
            RenderState {
                buf: global_buffer@,
                x: x_pos as nat,
                y: y_pos as nat,
                cycle: interlacing_cycle as nat,
                step: line_step as nat,
            },
            rp,
        ));
    }
    loop
        invariant
            data == old(rdr).bytes(),
            p == old(rdr).pos(),
            env == (FrameEnv {
                gct: match global_color_table {
                    Some(v) => Some(v@),
                    None => None,
                },
                base: env.base,
                height: img_height as nat,
                width: img_width as nat,
                background: background_color,
                transparent: transparent_color_index,
            }),
            env.base == (match base_buffer {
                Some(b) => Some(b@),
                None => None,
            }),
            rdr.pos() <= rdr.bytes().len(),
            rdr.bytes() == data,
            decoder.wf(),
            rp.left <= rp.max_x < 0x20000,
            rp.top <= rp.max_y < 0x20000,
            rp.img_width == img_width as nat,
            rp.transparent == transparent_color_index,
            rp.has_base == has_background_frame,
            rp.background == effective_bg(background_color),
            rp.table == current_color_table@,
            x_pos <= max_pos_width,
            y_pos <= max_pos_height + 4,
            max_pos_width as nat == rp.max_x,
            max_pos_height as nat == rp.max_y,
            curr_block_left as nat == rp.left,
            curr_block_top as nat == rp.top,
            has_interlacing == rp.interlace,
            line_step <= 8,
            interlacing_cycle <= 3,
            fspec == frame_spec(data, p, env),
            fspec == frame_blocks(
                data,
                rdr.pos(),
                decoder@,
                RenderState {
                    buf: global_buffer@,
                    x: x_pos as nat,
                    y: y_pos as nat,
                    cycle: interlacing_cycle as nat,
                    step: line_step as nat,
                },
                rp,
            ),
        decreases data.len() - rdr.pos(),
    {
        let sub_block_size = match rdr.read_u8() {
            Ok(v) => v,
            Err(e) => {
                return Err(e);
            },
        };
        if sub_block_size == 0 {
            return Ok(global_buffer);
        }
        let sub_block_data = match rdr.read_bytes(sub_block_size as usize) {
            Ok(v) => v,
            Err(e) => {
                return Err(e);
            },
        };
        let ghost st_block = RenderState {
            buf: global_buffer@,
            x: x_pos as nat,
            y: y_pos as nat,
            cycle: interlacing_cycle as nat,
            step: line_step as nat,
        };
        let decoded_data = match decoder.decode_next(sub_block_data.as_slice()) {
            Ok(d) => d,
            Err(e) => {
                return Err(e);
            },
        };
        let ghost q = rdr.pos();
        proof {
            assert(fspec == frame_feed(data, q, decoder@, st_block, rp, decoded_data@));
            assert(decoded_data@.subrange(0, decoded_data@.len() as int) =~= decoded_data@);
        }
        let mut j: usize = 0;
        while j < decoded_data.len()
            invariant
                data == old(rdr).bytes(),
                p == old(rdr).pos(),
                env == (FrameEnv {
                    gct: match global_color_table {
                        Some(v) => Some(v@),
                        None => None,
                    },
                    base: env.base,
                    height: img_height as nat,
                    width: img_width as nat,
                    background: background_color,
                    transparent: transparent_color_index,
                }),
                env.base == (match base_buffer {
                    Some(b) => Some(b@),
                    None => None,
                }),
                q == rdr.pos(),
                rdr.pos() <= rdr.bytes().len(),
                rdr.bytes() == data,
                j <= decoded_data.len(),
                rp.left <= rp.max_x < 0x20000,
                rp.top <= rp.max_y < 0x20000,
                rp.img_width == img_width as nat,
                rp.transparent == transparent_color_index,
                rp.has_base == has_background_frame,
                rp.background == effective_bg(background_color),
                rp.table == current_color_table@,
                x_pos <= max_pos_width,
                y_pos <= max_pos_height + 4,
                max_pos_width as nat == rp.max_x,
                max_pos_height as nat == rp.max_y,
                curr_block_left as nat == rp.left,
                curr_block_top as nat == rp.top,
                has_interlacing == rp.interlace,
                line_step <= 8,
                interlacing_cycle <= 3,
                fspec == frame_spec(data, p, env),
                fspec == frame_feed(
                    data,
                    q,
                    decoder@,
                    st_block,
                    rp,
                    decoded_data@,
                ),
                render_run(st_block, decoded_data@, rp) == render_run(
                    RenderState {
                        buf: global_buffer@,
                        x: x_pos as nat,
                        y: y_pos as nat,
                        cycle: interlacing_cycle as nat,
                        step: line_step as nat,
                    },
                    decoded_data@.subrange(j as int, decoded_data@.len() as int),
                    rp,
                ),
            decreases decoded_data.len() - j,
        {
            let ghost st_j = RenderState {
                buf: global_buffer@,
                x: x_pos as nat,
                y: y_pos as nat,
                cycle: interlacing_cycle as nat,
                step: line_step as nat,
            };
            let elt = decoded_data[j];
            if elt as usize >= current_color_table.len() {
                return Err(GifParsingError::InvalidColor);
            }
            if x_pos >= img_width as usize {
                return Err(GifParsingError::TooMuchPixels);
            }
            proof {
                vstd::arithmetic::mul::lemma_mul_upper_bound(
                    y_pos as int,
                    0x20003,
                    img_width as int,
                    0xFFFF,
                );
            }
            let curr_buffer_idx64: u64 = (y_pos as u64 * img_width as u64 + x_pos as u64) * 3;
            if curr_buffer_idx64 + 2 >= global_buffer.len() as u64 {
                return Err(GifParsingError::TooMuchPixels);
            }
            let curr_buffer_idx: usize = curr_buffer_idx64 as usize;
            let ghost idxg: int = ((st_j.y * rp.img_width + st_j.x) * 3) as int;
            proof {
                assert(curr_buffer_idx as int == idxg);
            }
            let is_transparent = match transparent_color_index {
                Some(t_idx) => t_idx == elt,
                None => false,
            };
            if is_transparent {
                if !has_background_frame {
                    let color: Rgb = match background_color {
                        Some(c) => c,
                        None => Rgb { r: 0xFF, g: 0xFF, b: 0xFF },
                    };
                    global_buffer[curr_buffer_idx] = color.r;
                    global_buffer[curr_buffer_idx + 1] = color.g;
                    global_buffer[curr_buffer_idx + 2] = color.b;
                }
            } else {
                let color: Rgb = current_color_table[elt as usize];
                global_buffer[curr_buffer_idx] = color.r;
                global_buffer[curr_buffer_idx + 1] = color.g;
                global_buffer[curr_buffer_idx + 2] = color.b;
            }
            let ghost buf2 = global_buffer@;
            proof {
                assert(buf2 == (if rp.transparent == Some(elt) {
                    if rp.has_base {
                        st_j.buf
                    } else {
                        put_pixel(st_j.buf, idxg, rp.background)
                    }
                } else {
                    put_pixel(st_j.buf, idxg, rp.table[elt as int])
                }));
            }

            x_pos = x_pos + 1;
            if x_pos > max_pos_width {
                y_pos = y_pos + line_step;
                if y_pos > max_pos_height {
                    if !has_interlacing || interlacing_cycle >= 3 {
                        proof {
                            assert(render_step(st_j, elt, rp) == RenderOut::Finished(buf2));
                            assert(render_run(st_block, decoded_data@, rp)
                                == RenderOut::Finished(buf2));
                        }
                        match skip_sub_blocks(rdr) {
                            Ok(_) => {
                                return Ok(global_buffer);
                            },
                            Err(e) => {
                                return Err(e);
                            },
                        };
                    }
                    interlacing_cycle = interlacing_cycle + 1;
                    if interlacing_cycle == 1 {
                        y_pos = curr_block_top as usize + 4;
                        line_step = 8;
                    } else if interlacing_cycle == 2 {
                        y_pos = curr_block_top as usize + 2;
                        line_step = 4;
                    } else {
                        y_pos = curr_block_top as usize + 1;
                        line_step = 2;
                    }
                }
                x_pos = curr_block_left as usize;
            }
            j = j + 1;
            proof {
                let st_new = RenderState {
                    buf: global_buffer@,
                    x: x_pos as nat,
                    y: y_pos as nat,
                    cycle: interlacing_cycle as nat,
                    step: line_step as nat,
                };
                assert(render_step(st_j, elt, rp) == RenderOut::More(st_new));
                assert(decoded_data@.subrange(j as int - 1, decoded_data@.len() as int).subrange(
                    1,
                    decoded_data@.len() as int - (j as int - 1),
                ) =~= decoded_data@.subrange(j as int, decoded_data@.len() as int));
            }
        }
        proof {
            assert(decoded_data@.subrange(
                decoded_data@.len() as int,
                decoded_data@.len() as int,
            ) =~= Seq::<u8>::empty());
            assert(fspec == frame_blocks(
                data,
                rdr.pos(),
                decoder@,
                RenderState {
                    buf: global_buffer@,
                    x: x_pos as nat,
                    y: y_pos as nat,
                    cycle: interlacing_cycle as nat,
                    step: line_step as nat,
                },
                rp,
            ));
        }
    }
}

/// A covered or erred placement never moves the position backward.
pub proof fn lemma_frame_blocks_advances(
    data: Seq<u8>,
    p: nat,
    m: LzwState,
    st: RenderState,
    rp: RenderParams,
)
    ensures
        match frame_blocks(data, p, m, st, rp) {
            Parsed::Val { v, end } => p < end <= data.len(),
            Parsed::Bad(_) => true,
        },
    decreases data.len() - p, 0int,
{
    if p + 1 > data.len() {
    } else if data[p as int] == 0 {
    } else if p + 1 + data[p as int] > data.len() {
    } else {
        let block = data.subrange(p as int + 1, p as int + 1 + data[p as int]);
        let q = (p + 1 + data[p as int]) as nat;
        match lzw_run(m, block) {
            LzwOutcome::Fail => {},
            LzwOutcome::More { next, out } => {
                lemma_frame_feed_advances(data, q, next, st, rp, out);
            },
            LzwOutcome::Done { next, out } => {
                lemma_frame_feed_advances(data, q, next, st, rp, out);
            },
        }
    }
}

/// The rest of the sub-block chain never moves the position backward.
pub proof fn lemma_frame_feed_advances(
    data: Seq<u8>,
    q: nat,
    m: LzwState,
    st: RenderState,
    rp: RenderParams,
    out: Seq<u8>,
)
    ensures
        match frame_feed(data, q, m, st, rp, out) {
            Parsed::Val { v, end } => q < end <= data.len(),
            Parsed::Bad(_) => true,
        },
    decreases data.len() - q, 1int,
{
    if q > data.len() {
    } else {
        match render_run(st, out, rp) {
            RenderOut::BadIndex => {},
            RenderOut::Overflow => {},
            RenderOut::Finished(buf) => {
                lemma_sub_blocks_end_advances(data, q);
            },
            RenderOut::More(st2) => {
                lemma_frame_blocks_advances(data, q, m, st2, rp);
            },
        }
    }
}

/// A composited frame always consumes at least its descriptor.
pub proof fn lemma_frame_spec_advances(data: Seq<u8>, p: nat, env: FrameEnv)
    ensures
        match frame_spec(data, p, env) {
            Parsed::Val { v, end } => p < end <= data.len(),
            Parsed::Bad(_) => true,
        },
{
    if p + 9 <= data.len() {
        let field = data[p as int + 8];
        let has_lct = field & 0x80 != 0;
        let n_lct = table_entries(field);
        let q0: nat = if has_lct {
            (p + 9 + 3 * n_lct) as nat
        } else {
            (p + 9) as nat
        };
        if q0 <= data.len() {
            let table = if has_lct {
                Some(color_table_of(read_window(data, (p + 9) as nat, 3 * n_lct), n_lct))
            } else {
                env.gct
            };
            match table {
                None => {},
                Some(ct) => {
                    if q0 + 1 <= data.len() {
                        let bw = le_u16(data, (p + 4) as nat) as nat;
                        let bh = le_u16(data, (p + 6) as nat) as nat;
                        let ics = data[q0 as int];
                        if bw == 0 || bh == 0 {
                        } else if ics > 11 {
                        } else {
                            let left = le_u16(data, p) as nat;
                            let top = le_u16(data, (p + 2) as nat) as nat;
                            let interlace = field & 0x40 != 0;
                            let buf0 = match env.base {
                                Some(b) => b,
                                None => zeros((env.height * env.width * 3) as nat),
                            };
                            let rp = RenderParams {
                                table: ct,
                                img_width: env.width,
                                left,
                                top,
                                max_x: (left + bw - 1) as nat,
                                max_y: (top + bh - 1) as nat,
                                interlace,
                                transparent: env.transparent,
                                has_base: env.base is Some,
                                background: effective_bg(env.background),
                            };
                            let st0 = RenderState {
                                buf: buf0,
                                x: left,
                                y: top,
                                cycle: 0,
                                step: if interlace {
                                    8 as nat
                                } else {
                                    1 as nat
                                },
                            };
                            lemma_frame_blocks_advances(
                                data,
                                (q0 + 1) as nat,
                                initial_state(ics as nat),
                                st0,
                                rp,
                            );
                        }
                    }
                },
            }
        }
    }
}

/// A parsed application extension always consumes at least its header.
pub proof fn lemma_app_ext_spec_advances(data: Seq<u8>, p: nat)
    ensures
        match app_ext_spec(data, p) {
            Parsed::Val { v, end } => p < end <= data.len(),
            Parsed::Bad(_) => true,
        },
{
    if p + 13 <= data.len() {
        let first_len = data[p as int + 12];
        lemma_sub_blocks_end_advances(data, (p + 13 + first_len) as nat);
        lemma_sub_blocks_end_advances(data, (p + 14 + (first_len - 1)) as nat);
        lemma_sub_blocks_end_advances(data, (p + 16 + (first_len - 3)) as nat);
    }
}

/// The events the decode driver hands to its sink.
#[derive(Debug)]
pub enum GifEvent {
    /// Information about the number of times the GIF image should
    /// loop.  `None` for no looping, `Some(0)` for infinite looping;
    /// any other `Some(n)` plays all frames `n` times.
    LoopingInfo(Option<u16>),
    /// One decoded frame: a full-screen raster of packed R, G, B
    /// bytes, and the delay until the next frame in hundredths of a
    /// second.
    GifFrameData { data: Vec<u8>, delay_until_next: Option<u16> },
    /// All frames have been communicated.
    GifFrameEnd,
}

/// Ghost mirror of one sink event.
pub ghost enum EventModel {
    Looping(Option<u16>),
    Frame { data: Seq<u8>, delay: Option<u16> },
    End,
}

impl View for GifEvent {
    type V = EventModel;

    open spec fn view(&self) -> EventModel {
        match self {
            GifEvent::LoopingInfo(l) => EventModel::Looping(*l),
            GifEvent::GifFrameData { data, delay_until_next } => EventModel::Frame {
                data: data@,
                delay: *delay_until_next,
            },
            GifEvent::GifFrameEnd => EventModel::End,
        }
    }
}

/// The models of a run of sink events.
pub open spec fn events_of(s: Seq<GifEvent>) -> Seq<EventModel> {
    s.map(|i: int, e: GifEvent| e@)
}

/// What driving a whole GIF data stream comes to.
pub ghost enum DriveOut {
    /// The trailer was reached at `end` after emitting `events`.
    Done { events: Seq<EventModel>, end: nat },
    /// Decoding failed with `err` after emitting `events`.
    Failed { events: Seq<EventModel>, err: ErrModel },
}

/// Prefix `evs` onto the events of outcome `o`.
pub open spec fn drive_prepend(evs: Seq<EventModel>, o: DriveOut) -> DriveOut {
    match o {
        DriveOut::Done { events, end } => DriveOut::Done { events: evs + events, end },
        DriveOut::Failed { events, err } => DriveOut::Failed { events: evs + events, err },
    }
}

/// Prefixing events composes by concatenation.
pub proof fn lemma_drive_prepend_compose(a: Seq<EventModel>, b: Seq<EventModel>, o: DriveOut)
    ensures
        drive_prepend(a, drive_prepend(b, o)) == drive_prepend(a.add(b), o),
{
    match o {
        DriveOut::Done { events, end } => {
            assert(a.add(b.add(events)) =~= a.add(b).add(events));
        },
        DriveOut::Failed { events, err } => {
            assert(a.add(b.add(events)) =~= a.add(b).add(events));
        },
    }
}

/// Prefixing no events changes nothing.
pub proof fn lemma_drive_prepend_empty(o: DriveOut)
    ensures
        drive_prepend(Seq::<EventModel>::empty(), o) == o,
{
    match o {
        DriveOut::Done { events, end } => {
            assert(Seq::<EventModel>::empty().add(events) =~= events);
        },
        DriveOut::Failed { events, err } => {
            assert(Seq::<EventModel>::empty().add(events) =~= events);
        },
    }
}

/// The screen-wide surroundings of a decode run.
pub ghost struct DriveEnv {
    pub width: u16,
    pub height: u16,
    pub gct: Option<Seq<Rgb>>,
    pub background: Option<Rgb>,
}

/// The surroundings that a parsed header sets up: its global color
/// table, and the background color it designates when the background
/// index falls inside that table.
pub open spec fn drive_env_of(h: GifHeader) -> DriveEnv {
    DriveEnv {
        width: h.width,
        height: h.height,
        gct: match h.global_color_table {
            Some(t) => Some(t@),
            None => None,
        },
        background: match h.global_color_table {
            Some(t) => if t@.len() <= h.background_color_index {
                None
            } else {
                Some(t@[h.background_color_index as int])
            },
            None => None,
        },
    }
}

/// The frame surroundings at one image, given the driver's state.
pub open spec fn frame_env_at(
    env: DriveEnv,
    base: Option<Seq<u8>>,
    gce: Option<GraphicControlExtension>,
) -> FrameEnv {
    FrameEnv {
        gct: env.gct,
        base,
        height: env.height as nat,
        width: env.width as nat,
        background: env.background,
        transparent: match gce {
            Some(g) => g.transparent_color_index,
            None => None,
        },
    }
}

/// Drive the block-tag dispatch loop from position `p`: composite each
/// Image Descriptor into a frame event, interpret extensions, track
/// the disposal-dependent base raster, and stop at the trailer.
pub open spec fn drive(
    data: Seq<u8>,
    p: nat,
    env: DriveEnv,
    gce: Option<GraphicControlExtension>,
    base: Option<Seq<u8>>,
    found_loop: bool,
) -> DriveOut
    decreases data.len() - p,
    via drive_decreases
{
    if p + 1 > data.len() {
        DriveOut::Failed { events: Seq::empty(), err: ErrModel::Io }
    } else {
        let tag = data[p as int];
        if tag == 0x2C {
            let delay = match gce {
                Some(g) => Some(g.delay),
                None => None,
            };
            let cloned_bg = match gce {
                Some(g) => if g.disposal_method is RestoreToPrevious {
                    base
                } else {
                    None
                },
                None => None,
            };
            match frame_spec(data, (p + 1) as nat, frame_env_at(env, base, gce)) {
                Parsed::Bad(m) => DriveOut::Failed { events: Seq::empty(), err: m },
                Parsed::Val { v: block, end } => {
                    let base2 = match gce {
                        Some(g) => match g.disposal_method {
                            DisposalMethod::DoNotDispose => Some(block),
                            DisposalMethod::NoDisposalSpecified => Some(block),
                            DisposalMethod::RestoreToPrevious => cloned_bg,
                            DisposalMethod::RestoreToBackgroundColor => None,
                        },
                        None => None,
                    };
                    drive_prepend(
                        seq![EventModel::Frame { data: block, delay }],
                        drive(data, end, env, None, base2, found_loop),
                    )
                },
            }
        } else if tag == 0x3B {
            if !found_loop {
                DriveOut::Done {
                    events: seq![EventModel::Looping(None), EventModel::End],
                    end: (p + 1) as nat,
                }
            } else {
                DriveOut::Done { events: seq![EventModel::End], end: (p + 1) as nat }
            }
        } else if tag == 0x21 {
            if p + 2 > data.len() {
                DriveOut::Failed { events: Seq::empty(), err: ErrModel::Io }
            } else {
                let label = data[p as int + 1];
                if label == 0xF9 {
                    match gce_spec(data, (p + 2) as nat) {
                        Parsed::Bad(m) => DriveOut::Failed { events: Seq::empty(), err: m },
                        Parsed::Val { v, end } => drive(data, end, env, Some(v), base, found_loop),
                    }
                } else if label == 0xFF {
                    match app_ext_spec(data, (p + 2) as nat) {
                        Parsed::Bad(m) => DriveOut::Failed { events: Seq::empty(), err: m },
                        Parsed::Val { v: ApplicationExtension::NetscapeLooping(n), end } => {
                            drive_prepend(
                                seq![EventModel::Looping(Some(n))],
                                drive(data, end, env, gce, base, true),
                            )
                        },
                        Parsed::Val { v: ApplicationExtension::NotKnown, end } => {
                            drive(data, end, env, gce, base, found_loop)
                        },
                    }
                } else if label == 0xFE {
                    match sub_blocks_end(data, (p + 2) as nat) {
                        None => DriveOut::Failed { events: Seq::empty(), err: ErrModel::Io },
                        Some(q) => drive(data, q, env, gce, base, found_loop),
                    }
                } else if label == 0x01 {
                    match plain_text_spec(data, (p + 2) as nat) {
                        Parsed::Bad(m) => DriveOut::Failed { events: Seq::empty(), err: m },
                        Parsed::Val { v, end } => drive(data, end, env, gce, base, found_loop),
                    }
                } else {
                    DriveOut::Failed { events: Seq::empty(), err: ErrModel::BadExtension(label) }
                }
            }
        } else {
            DriveOut::Failed {
                events: Seq::empty(),
                err: ErrModel::BadBlock { code: tag, position: (p + 1) as nat },
            }
        }
    }
}

#[via_fn]
proof fn drive_decreases(
    data: Seq<u8>,
    p: nat,
    env: DriveEnv,
    gce: Option<GraphicControlExtension>,
    base: Option<Seq<u8>>,
    found_loop: bool,
) {
    if p + 1 <= data.len() {
        let tag = data[p as int];
        if tag == 0x2C {
            lemma_frame_spec_advances(data, (p + 1) as nat, frame_env_at(env, base, gce));
        } else if tag == 0x21 && p + 2 <= data.len() {
            lemma_app_ext_spec_advances(data, (p + 2) as nat);
            lemma_sub_blocks_end_advances(data, (p + 2) as nat);
            if p + 13 <= data.len() {
                lemma_sub_blocks_end_advances(data, (p + 13) as nat);
            }
        }
    }
}

/// The bytes a base raster holds, when there is one.
pub open spec fn base_view(b: Option<Vec<u8>>) -> Option<Seq<u8>> {
    match b {
        Some(v) => Some(v@),
        None => None,
    }
}

/// Copy an optional raster element by element.
fn clone_base(b: &Option<Vec<u8>>) -> (r: Option<Vec<u8>>)
    ensures
        base_view(r) == base_view(*b),
{
    match b {
        Some(v) => Some(crate::decoder::copy_vec(v)),
        None => None,
    }
}

/// Appending one event extends the models of the emitted run by its
/// model.
proof fn lemma_events_push(s: Seq<GifEvent>, a: int, e: GifEvent)
    requires
        0 <= a <= s.len(),
    ensures
        events_of(s.push(e).subrange(a, s.len() as int + 1)) == events_of(
            s.subrange(a, s.len() as int),
        ).push(e@),
        s.push(e).subrange(0, a) == s.subrange(0, a),
{
    assert(events_of(s.push(e).subrange(a, s.len() as int + 1)) =~= events_of(
        s.subrange(a, s.len() as int),
    ).push(e@));
    assert(s.push(e).subrange(0, a) =~= s.subrange(0, a));
}

/// Decode a GIF data stream from just after its header to its
/// trailer, pushing each decoded frame, the looping information and
/// the end signal onto `sink` in file order.  Frames are composited
/// over the base raster that the previous image's disposal method
/// calls for.
#[verifier::rlimit(100)]
pub fn decode_and_render<R: GifRead>(
    rdr: &mut R,
    header: &GifHeader,
    sink: &mut Vec<GifEvent>,
) -> (r: Result<(), GifParsingError>)
    requires
        old(rdr).pos() <= old(rdr).bytes().len(),
        3 * (header.height as int) * (header.width as int) <= usize::MAX,
    ensures
        final(rdr).bytes() == old(rdr).bytes(),
        final(sink)@.len() >= old(sink)@.len(),
        final(sink)@.subrange(0, old(sink)@.len() as int) == old(sink)@,
        ({
            let emitted = events_of(
                final(sink)@.subrange(old(sink)@.len() as int, final(sink)@.len() as int),
            );
            match r {
                Ok(_) => {
                    &&& drive(
                        old(rdr).bytes(),
                        old(rdr).pos(),
                        drive_env_of(*header),
                        None,
                        None,
                        false,
                    ) matches DriveOut::Done { events, end }
                        && emitted == events && final(rdr).pos() == end
                },
                Err(e) => {
                    &&& drive(
                        old(rdr).bytes(),
                        old(rdr).pos(),
                        drive_env_of(*header),
                        None,
                        None,
                        false,
                    ) matches DriveOut::Failed { events, err }
                        && emitted == events && err_matches(e, err)
                },
            }
        }),
{
    let ghost data = old(rdr).bytes();
    let ghost p0 = old(rdr).pos();
    let ghost env = drive_env_of(*header);
    let ghost dspec = drive(data, p0, env, None, None, false);
    let ghost sink0 = old(sink)@;

    let (background_color, global_color_table): (Option<Rgb>, Option<&Vec<Rgb>>) = match &header
        .global_color_table {
        Some(gct) => {
            let index = header.background_color_index as usize;
            if gct.len() <= index {
                (None, Some(gct))
            } else {
                (Some(gct[index]), Some(gct))
            }
        },
        None => (None, None),
    };

    // Last graphic extension encountered; used when an Image Descriptor
    // is met.
    let mut last_graphic_ext: Option<GraphicControlExtension> = None;

    // Background for the next frame encountered.  Its content depends
    // on the disposal method of the previous frame.
    let mut next_frame_base_buffer: Option<Vec<u8>> = None;

    let mut found_loop_attribute = false;

    proof {
        assert(sink@.subrange(sink0.len() as int, sink@.len() as int) =~= Seq::<
            GifEvent,
        >::empty());
        assert(events_of(Seq::<GifEvent>::empty()) =~= Seq::<EventModel>::empty());
        lemma_drive_prepend_empty(drive(data, rdr.pos(), env, None, None, false));
        assert(sink@.subrange(0, sink0.len() as int) =~= sink0);
    }
    loop
        invariant
            data == old(rdr).bytes(),
            p0 == old(rdr).pos(),
            env == drive_env_of(*header),
            dspec == drive(data, p0, env, None, None, false),
            sink0 == old(sink)@,
            rdr.pos() <= rdr.bytes().len(),
            rdr.bytes() == data,
            3 * (header.height as int) * (header.width as int) <= usize::MAX,
            background_color == env.background,
            match global_color_table {
                Some(t) => env.gct == Some(t@),
                None => env.gct is None,
            },
            sink@.len() >= sink0.len(),
            sink@.subrange(0, sink0.len() as int) == sink0,
            dspec == drive_prepend(
                events_of(sink@.subrange(sink0.len() as int, sink@.len() as int)),
                drive(
                    data,
                    rdr.pos(),
                    env,
                    last_graphic_ext,
                    base_view(next_frame_base_buffer),
                    found_loop_attribute,
                ),
            ),
        decreases data.len() - rdr.pos(),
    {
        let ghost t0 = rdr.pos();
        let ghost emitted = events_of(sink@.subrange(sink0.len() as int, sink@.len() as int));
        let tag = match rdr.read_u8() {
            Ok(v) => v,
            Err(e) => {
                return Err(e);
            },
        };
        if tag == 0x2C {
            let (delay, transparent_color_index) = match &last_graphic_ext {
                Some(e) => (Some(e.delay), e.transparent_color_index),
                None => (None, None),
            };

            // The RestoreToPrevious disposal method forces us to keep
            // the current base buffer for the frame coming after this
            // one.
            let cloned_image_background = match &last_graphic_ext {
                Some(g) => {
                    if matches!(g.disposal_method, DisposalMethod::RestoreToPrevious) {
                        clone_base(&next_frame_base_buffer)
                    } else {
                        None
                    }
                },
                None => None,
            };

            let ghost fenv = frame_env_at(
                env,
                base_view(next_frame_base_buffer),
                last_graphic_ext,
            );
            let block = match construct_next_frame(
                rdr,
                global_color_table,
                next_frame_base_buffer,
                header.height,
                header.width,
                background_color,
                transparent_color_index,
            ) {
                Ok(b) => b,
                Err(e) => {
                    proof {
                        assert(emitted.add(Seq::<EventModel>::empty()) =~= emitted);
                    }
                    return Err(e);
                },
            };

            proof {
                lemma_frame_spec_advances(data, (t0 + 1) as nat, fenv);
            }
            // Obtain the base buffer for the next frame according to
            // the current disposal method.
            next_frame_base_buffer = match &last_graphic_ext {
                Some(g) => match g.disposal_method {
                    DisposalMethod::DoNotDispose | DisposalMethod::NoDisposalSpecified => Some(
                        crate::decoder::copy_vec(&block),
                    ),
                    DisposalMethod::RestoreToPrevious => cloned_image_background,
                    DisposalMethod::RestoreToBackgroundColor => None,
                },
                None => None,
            };
            let ghost ev = EventModel::Frame { data: block@, delay };
            proof {
                lemma_events_push(
                    sink@,
                    sink0.len() as int,
                    GifEvent::GifFrameData { data: block, delay_until_next: delay },
                );
            }
            sink.push(GifEvent::GifFrameData { data: block, delay_until_next: delay });
            // The extension applies to this image only: it is consumed.
            last_graphic_ext = None;
            proof {
                lemma_drive_prepend_compose(
                    emitted,
                    seq![ev],
                    drive(
                        data,
                        rdr.pos(),
                        env,
                        last_graphic_ext,
                        base_view(next_frame_base_buffer),
                        found_loop_attribute,
                    ),
                );
                assert(emitted.push(ev) =~= emitted.add(seq![ev]));
            }
        } else if tag == 0x3B {
            if !found_loop_attribute {
                proof {
                    lemma_events_push(sink@, sink0.len() as int, GifEvent::LoopingInfo(None));
                }
                sink.push(GifEvent::LoopingInfo(None));
                proof {
                    lemma_events_push(sink@, sink0.len() as int, GifEvent::GifFrameEnd);
                }
                sink.push(GifEvent::GifFrameEnd);
                proof {
                    assert(emitted.push(EventModel::Looping(None)).push(EventModel::End)
                        =~= emitted.add(seq![EventModel::Looping(None), EventModel::End]));
                }
            } else {
                proof {
                    lemma_events_push(sink@, sink0.len() as int, GifEvent::GifFrameEnd);
                }
                sink.push(GifEvent::GifFrameEnd);
                proof {
                    assert(emitted.push(EventModel::End) =~= emitted.add(seq![EventModel::End]));
                }
            }
            return Ok(());
        } else if tag == 0x21 {
            let label = match rdr.read_u8() {
                Ok(v) => v,
                Err(e) => {
                    return Err(e);
                },
            };
            if label == 0xF9 {
                let g = match parse_graphic_control_extension(rdr) {
                    Ok(g) => g,
                    Err(e) => {
                        return Err(e);
                    },
                };
                last_graphic_ext = Some(g);
            } else if label == 0xFF {
                let extension = match parse_application_extension(rdr) {
                    Ok(x) => x,
                    Err(e) => {
                        return Err(e);
                    },
                };
                proof {
                    lemma_app_ext_spec_advances(data, (t0 + 2) as nat);
                }
                // Only NETSCAPE2.0 is interpreted, as looping is an
                // essential feature.
                match extension {
                    ApplicationExtension::NetscapeLooping(x) => {
                        found_loop_attribute = true;
                        let ghost ev = EventModel::Looping(Some(x));
                        proof {
                            lemma_events_push(
                                sink@,
                                sink0.len() as int,
                                GifEvent::LoopingInfo(Some(x)),
                            );
                        }
                        sink.push(GifEvent::LoopingInfo(Some(x)));
                        proof {
                            lemma_drive_prepend_compose(
                                emitted,
                                seq![ev],
                                drive(
                                    data,
                                    rdr.pos(),
                                    env,
                                    last_graphic_ext,
                                    base_view(next_frame_base_buffer),
                                    found_loop_attribute,
                                ),
                            );
                            assert(emitted.push(ev) =~= emitted.add(seq![ev]));
                        }
                    },
                    ApplicationExtension::NotKnown => {},
                }
            } else if label == 0xFE {
                // We do not care about comments: the chain is skipped
                // through its zero-length terminator.
                match skip_sub_blocks(rdr) {
                    Ok(_) => {},
                    Err(e) => {
                        return Err(e);
                    },
                };
                proof {
                    lemma_sub_blocks_end_advances(data, (t0 + 2) as nat);
                }
            } else if label == 0x01 {
                match skip_plain_text_extension(rdr) {
                    Ok(_) => {},
                    Err(e) => {
                        return Err(e);
                    },
                };
                proof {
                    lemma_sub_blocks_end_advances(data, (t0 + 15) as nat);
                }
            } else {
                return Err(GifParsingError::UnrecognizedExtension(label));
            }
        } else {
            let position = rdr.get_pos();
            return Err(GifParsingError::UnrecognizedBlock { code: tag, position });
        }
    }
}

} // verus!
