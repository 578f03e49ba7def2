use vstd::arithmetic::power2::pow2;
use vstd::prelude::*;

use crate::gif_reader::le_u16;
use crate::header::table_entries;
use crate::lzw::{apply_code, lzw_run, next_code, LzwOutcome, LzwState, LzwStep};
use crate::parser::{
    drive, effective_bg, frame_blocks, frame_env_at, frame_feed, frame_spec, gce_spec,
    lemma_app_ext_spec_advances, lemma_frame_spec_advances, lemma_sub_blocks_end_advances,
    render_run, render_step, solid, sub_blocks_end, ApplicationExtension, DriveEnv, DriveOut,
    EventModel, FrameEnv, GraphicControlExtension, Parsed, RenderOut, RenderParams, RenderState,
};

verus! {

/// The code-width growth rule: after a code that assigns a new
/// dictionary entry, the width gains one bit exactly when the number
/// of assigned codes reaches the current width's capacity and the
/// twelve-bit limit is not yet reached; at twelve bits it stays.
pub proof fn lemma_code_size_growth(s: LzwState, c: nat)
    requires
        apply_code(s, c) matches LzwStep::Emit { next, out } && next.extras.len() == s.extras.len()
            + 1,
    ensures
        apply_code(s, c) matches LzwStep::Emit { next, out } && next.width == (
        if next_code(next) == pow2(s.width) && s.width < 12 {
            s.width + 1
        } else {
            s.width
        }),
{
}

/// A clear code resets the dictionary and the code width: afterwards
/// no entry is assigned, the width is back at one more than the
/// minimum code size, and no previous sequence is remembered.
pub proof fn lemma_clear_resets(s: LzwState)
    ensures
        apply_code(s, crate::lzw::clear_code(s.min)) == (LzwStep::Emit {
            next: crate::lzw::apply_clear(s),
            out: Seq::<u8>::empty(),
        }),
        crate::lzw::apply_clear(s).extras.len() == 0,
        crate::lzw::apply_clear(s).width == s.min + 1,
        crate::lzw::apply_clear(s).prev.len() == 0,
{
}

/// After a successful decode the trailer is the last byte consumed:
/// the driver's final position stands just after a trailer tag, so on
/// an input that is one whole GIF body it equals the input length.
pub proof fn lemma_trailer_last(
    data: Seq<u8>,
    p: nat,
    env: DriveEnv,
    gce: Option<GraphicControlExtension>,
    base: Option<Seq<u8>>,
    found_loop: bool,
)
    ensures
        match drive(data, p, env, gce, base, found_loop) {
            DriveOut::Done { events, end } => p < end <= data.len() && data[end - 1] == 0x3B,
            DriveOut::Failed { events, err } => true,
        },
    decreases data.len() - p,
{
    if p + 1 > data.len() {
    } else {
        let tag = data[p as int];
        if tag == 0x2C {
            lemma_frame_spec_advances(data, (p + 1) as nat, frame_env_at(env, base, gce));
            match frame_spec(data, (p + 1) as nat, frame_env_at(env, base, gce)) {
                Parsed::Bad(m) => {},
                Parsed::Val { v: block, end } => {
                    let cloned_bg = match gce {
                        Some(g) => if g.disposal_method is RestoreToPrevious {
                            base
                        } else {
                            None
                        },
                        None => None,
                    };
                    let base2 = match gce {
                        Some(g) => match g.disposal_method {
                            crate::parser::DisposalMethod::DoNotDispose => Some(block),
                            crate::parser::DisposalMethod::NoDisposalSpecified => Some(block),
                            crate::parser::DisposalMethod::RestoreToPrevious => cloned_bg,
                            crate::parser::DisposalMethod::RestoreToBackgroundColor => None,
                        },
                        None => None,
                    };
                    lemma_trailer_last(data, end, env, None, base2, found_loop);
                },
            }
        } else if tag == 0x3B {
        } else if tag == 0x21 {
            if p + 2 <= data.len() {
                let label = data[p as int + 1];
                if label == 0xF9 {
                    match gce_spec(data, (p + 2) as nat) {
                        Parsed::Bad(m) => {},
                        Parsed::Val { v, end } => {
                            lemma_trailer_last(data, end, env, Some(v), base, found_loop);
                        },
                    }
                } else if label == 0xFF {
                    lemma_app_ext_spec_advances(data, (p + 2) as nat);
                    match crate::parser::app_ext_spec(data, (p + 2) as nat) {
                        Parsed::Bad(m) => {},
                        Parsed::Val { v: ApplicationExtension::NetscapeLooping(n), end } => {
                            lemma_trailer_last(data, end, env, gce, base, true);
                        },
                        Parsed::Val { v: ApplicationExtension::NotKnown, end } => {
                            lemma_trailer_last(data, end, env, gce, base, found_loop);
                        },
                    }
                } else if label == 0xFE {
                    lemma_sub_blocks_end_advances(data, (p + 2) as nat);
                    match sub_blocks_end(data, (p + 2) as nat) {
                        None => {},
                        Some(q) => {
                            lemma_trailer_last(data, q, env, gce, base, found_loop);
                        },
                    }
                } else if label == 0x01 {
                    if p + 3 <= data.len() && data[p as int + 2] == 12 && p + 15 <= data.len() {
                        lemma_sub_blocks_end_advances(data, (p + 15) as nat);
                        match sub_blocks_end(data, (p + 15) as nat) {
                            None => {},
                            Some(q) => {
                                lemma_trailer_last(data, q, env, gce, base, found_loop);
                            },
                        }
                    }
                }
            }
        }
    }
}

/// Pixel placement never changes the size of the raster.
pub proof fn lemma_render_run_len(st: RenderState, idxs: Seq<u8>, rp: RenderParams)
    ensures
        match render_run(st, idxs, rp) {
            RenderOut::More(st2) => st2.buf.len() == st.buf.len(),
            RenderOut::Finished(b) => b.len() == st.buf.len(),
            RenderOut::BadIndex => true,
            RenderOut::Overflow => true,
        },
    decreases idxs.len(),
{
    if idxs.len() == 0 {
    } else {
        match render_step(st, idxs[0], rp) {
            RenderOut::More(st2) => {
                lemma_render_run_len(st2, idxs.subrange(1, idxs.len() as int), rp);
            },
            RenderOut::Finished(b) => {},
            RenderOut::BadIndex => {},
            RenderOut::Overflow => {},
        }
    }
}

/// Decoding and placing a sub-block chain never changes the raster
/// size either.
pub proof fn lemma_frame_blocks_len(
    data: Seq<u8>,
    p: nat,
    m: LzwState,
    st: RenderState,
    rp: RenderParams,
)
    ensures
        match frame_blocks(data, p, m, st, rp) {
            Parsed::Val { v, end } => v.len() == st.buf.len(),
            Parsed::Bad(_) => true,
        },
    decreases data.len() - p, 0int,
{
    if p + 1 > data.len() {
    } else if data[p as int] == 0 {
    } else if p + 1 + data[p as int] > data.len() {
    } else {
        let block = data.subrange(p as int + 1, p as int + 1 + data[p as int]);
        let q = (p + 1 + data[p as int]) as nat;
        match lzw_run(m, block) {
            LzwOutcome::Fail => {},
            LzwOutcome::More { next, out } => {
                lemma_frame_feed_len(data, q, next, st, rp, out);
            },
            LzwOutcome::Done { next, out } => {
                lemma_frame_feed_len(data, q, next, st, rp, out);
            },
        }
    }
}

/// Helper for `lemma_frame_blocks_len`, one sub-block at a time.
pub proof fn lemma_frame_feed_len(
    data: Seq<u8>,
    q: nat,
    m: LzwState,
    st: RenderState,
    rp: RenderParams,
    out: Seq<u8>,
)
    ensures
        match frame_feed(data, q, m, st, rp, out) {
            Parsed::Val { v, end } => v.len() == st.buf.len(),
            Parsed::Bad(_) => true,
        },
    decreases data.len() - q, 1int,
{
    if q > data.len() {
    } else {
        lemma_render_run_len(st, out, rp);
        match render_run(st, out, rp) {
            RenderOut::BadIndex => {},
            RenderOut::Overflow => {},
            RenderOut::Finished(buf) => {},
            RenderOut::More(st2) => {
                lemma_frame_blocks_len(data, q, m, st2, rp);
            },
        }
    }
}

/// Every composited frame is a full-screen raster: when the base
/// raster (if any) has the screen size, the result holds exactly
/// `3 * height * width` bytes.
pub proof fn lemma_frame_len(data: Seq<u8>, p: nat, env: FrameEnv)
    requires
        match env.base {
            Some(b) => b.len() == 3 * env.height * env.width,
            None => true,
        },
    ensures
        match frame_spec(data, p, env) {
            Parsed::Val { v, end } => v.len() == 3 * env.height * env.width,
            Parsed::Bad(_) => true,
        },
{
    assert((env.height * env.width) * 3 == 3 * env.height * env.width) by (nonlinear_arith);
    assert(env.height * env.width * 3 == 3 * env.height * env.width) by (nonlinear_arith);
    if p + 9 <= data.len() {
        let field = data[p as int + 8];
        let has_lct = field & 0x80 != 0;
        let n_lct = table_entries(field);
        let q0: nat = if has_lct {
            (p + 9 + 3 * n_lct) as nat
        } else {
            (p + 9) as nat
        };
        if q0 <= data.len() {
            let table = if has_lct {
                Some(
                    crate::color::color_table_of(
                        crate::gif_reader::read_window(data, (p + 9) as nat, 3 * n_lct),
                        n_lct,
                    ),
                )
            } else {
                env.gct
            };
            match table {
                None => {},
                Some(ct) => {
                    if q0 + 1 <= data.len() {
                        let bw = le_u16(data, (p + 4) as nat) as nat;
                        let bh = le_u16(data, (p + 6) as nat) as nat;
                        let ics = data[q0 as int];
                        if bw == 0 || bh == 0 {
                        } else if ics > 11 {
                        } else {
                            let left = le_u16(data, p) as nat;
                            let top = le_u16(data, (p + 2) as nat) as nat;
                            let interlace = field & 0x40 != 0;
                            let buf0 = match env.base {
                                Some(b) => b,
                                None => crate::parser::zeros((env.height * env.width * 3) as nat),
                            };
                            let rp = RenderParams {
                                table: ct,
                                img_width: env.width,
                                left,
                                top,
                                max_x: (left + bw - 1) as nat,
                                max_y: (top + bh - 1) as nat,
                                interlace,
                                transparent: env.transparent,
                                has_base: env.base is Some,
                                background: effective_bg(env.background),
                            };
                            let st0 = RenderState {
                                buf: buf0,
                                x: left,
                                y: top,
                                cycle: 0,
                                step: if interlace {
                                    8 as nat
                                } else {
                                    1 as nat
                                },
                            };
                            lemma_frame_blocks_len(
                                data,
                                (q0 + 1) as nat,
                                crate::lzw::initial_state(ics as nat),
                                st0,
                                rp,
                            );
                        }
                    }
                },
            }
        }
    }
}

/// Whether every frame event in a run is a full-screen raster.
pub open spec fn frames_full_screen(events: Seq<EventModel>, env: DriveEnv) -> bool {
    forall|i: int|
        0 <= i < events.len() ==> match #[trigger] events[i] {
            EventModel::Frame { data, delay } => data.len() == 3 * (env.height as nat) * (
            env.width as nat),
            _ => true,
        }
}

/// Every frame the driver emits is a full-screen raster of exactly
/// `3 * height * width` bytes, whatever the input bytes hold.
#[verifier::rlimit(100)]
pub proof fn lemma_frames_full_screen(
    data: Seq<u8>,
    p: nat,
    env: DriveEnv,
    gce: Option<GraphicControlExtension>,
    base: Option<Seq<u8>>,
    found_loop: bool,
)
    requires
        match base {
            Some(b) => b.len() == 3 * (env.height as nat) * (env.width as nat),
            None => true,
        },
    ensures
        match drive(data, p, env, gce, base, found_loop) {
            DriveOut::Done { events, end } => frames_full_screen(events, env),
            DriveOut::Failed { events, err } => frames_full_screen(events, env),
        },
    decreases data.len() - p,
{
    if p + 1 > data.len() {
    } else {
        let tag = data[p as int];
        if tag == 0x2C {
            lemma_frame_spec_advances(data, (p + 1) as nat, frame_env_at(env, base, gce));
            lemma_frame_len(data, (p + 1) as nat, frame_env_at(env, base, gce));
            match frame_spec(data, (p + 1) as nat, frame_env_at(env, base, gce)) {
                Parsed::Bad(m) => {},
                Parsed::Val { v: block, end } => {
                    let cloned_bg = match gce {
                        Some(g) => if g.disposal_method is RestoreToPrevious {
                            base
                        } else {
                            None
                        },
                        None => None,
                    };
                    let base2 = match gce {
                        Some(g) => match g.disposal_method {
                            crate::parser::DisposalMethod::DoNotDispose => Some(block),
                            crate::parser::DisposalMethod::NoDisposalSpecified => Some(block),
                            crate::parser::DisposalMethod::RestoreToPrevious => cloned_bg,
                            crate::parser::DisposalMethod::RestoreToBackgroundColor => None,
                        },
                        None => None,
                    };
                    lemma_frames_full_screen(data, end, env, None, base2, found_loop);
                },
            }
        } else if tag == 0x3B {
        } else if tag == 0x21 {
            if p + 2 <= data.len() {
                let label = data[p as int + 1];
                if label == 0xF9 {
                    match gce_spec(data, (p + 2) as nat) {
                        Parsed::Bad(m) => {},
                        Parsed::Val { v, end } => {
                            lemma_frames_full_screen(data, end, env, Some(v), base, found_loop);
                        },
                    }
                } else if label == 0xFF {
                    lemma_app_ext_spec_advances(data, (p + 2) as nat);
                    match crate::parser::app_ext_spec(data, (p + 2) as nat) {
                        Parsed::Bad(m) => {},
                        Parsed::Val { v: ApplicationExtension::NetscapeLooping(n), end } => {
                            lemma_frames_full_screen(data, end, env, gce, base, true);
                        },
                        Parsed::Val { v: ApplicationExtension::NotKnown, end } => {
                            lemma_frames_full_screen(data, end, env, gce, base, found_loop);
                        },
                    }
                } else if label == 0xFE {
                    lemma_sub_blocks_end_advances(data, (p + 2) as nat);
                    match sub_blocks_end(data, (p + 2) as nat) {
                        None => {},
                        Some(q) => {
                            lemma_frames_full_screen(data, q, env, gce, base, found_loop);
                        },
                    }
                } else if label == 0x01 {
                    if p + 3 <= data.len() && data[p as int + 2] == 12 && p + 15 <= data.len() {
                        lemma_sub_blocks_end_advances(data, (p + 15) as nat);
                        match sub_blocks_end(data, (p + 15) as nat) {
                            None => {},
                            Some(q) => {
                                lemma_frames_full_screen(data, q, env, gce, base, found_loop);
                            },
                        }
                    }
                }
            }
        }
    }
}

/// Every decoded index byte placed by a fully consumed run lies
/// inside the active color table.
pub proof fn lemma_indices_bounded(st: RenderState, idxs: Seq<u8>, rp: RenderParams)
    ensures
        render_run(st, idxs, rp) is More ==> forall|i: int|
            0 <= i < idxs.len() ==> idxs[i] < rp.table.len(),
    decreases idxs.len(),
{
    if idxs.len() == 0 {
    } else {
        match render_step(st, idxs[0], rp) {
            RenderOut::More(st2) => {
                lemma_indices_bounded(st2, idxs.subrange(1, idxs.len() as int), rp);
                if render_run(st, idxs, rp) is More {
                    assert forall|i: int| 0 <= i < idxs.len() implies idxs[i]
                        < rp.table.len() by {
                        if i > 0 {
                            assert(idxs.subrange(1, idxs.len() as int)[i - 1] == idxs[i]);
                        }
                    }
                }
            },
            RenderOut::Finished(b) => {},
            RenderOut::BadIndex => {},
            RenderOut::Overflow => {},
        }
    }
}

/// The first `k + 1` bytes of a run all name entries of the active
/// color table.
pub open spec fn bounded_prefix(idxs: Seq<u8>, rp: RenderParams, k: int) -> bool {
    &&& 0 <= k < idxs.len()
    &&& forall|i: int| 0 <= i <= k ==> #[trigger] idxs[i] < rp.table.len()
}

/// Every decoded index byte placed by a run that covered the
/// rectangle lies inside the active color table too: the bytes after
/// the finishing one are dropped without being placed.
pub proof fn lemma_indices_bounded_until_finished(st: RenderState, idxs: Seq<u8>, rp: RenderParams)
    ensures
        render_run(st, idxs, rp) matches RenderOut::Finished(b) ==> exists|k: int|
            #[trigger] bounded_prefix(idxs, rp, k),
    decreases idxs.len(),
{
    if idxs.len() == 0 {
    } else {
        match render_step(st, idxs[0], rp) {
            RenderOut::More(st2) => {
                let tail = idxs.subrange(1, idxs.len() as int);
                lemma_indices_bounded_until_finished(st2, tail, rp);
                if render_run(st, idxs, rp) is Finished {
                    let k2 = choose|k: int| #[trigger] bounded_prefix(tail, rp, k);
                    assert(forall|i: int| 0 <= i <= k2 + 1 ==> #[trigger] idxs[i]
                        < rp.table.len()) by {
                        assert(forall|i: int| 1 <= i <= k2 + 1 ==> idxs[i] == tail[i - 1]);
                    }
                    assert(bounded_prefix(idxs, rp, k2 + 1));
                }
            },
            RenderOut::Finished(b) => {
                assert(bounded_prefix(idxs, rp, 0));
            },
            RenderOut::BadIndex => {},
            RenderOut::Overflow => {},
        }
    }
}

/// A degenerate image rectangle composites to a raster filled with
/// one solid color, the effective background, and consumes none of
/// the image data: only the descriptor, the optional local table and
/// the code size byte are read.
pub proof fn lemma_degenerate_frame(data: Seq<u8>, p: nat, env: FrameEnv)
    requires
        p + 9 <= data.len(),
        le_u16(data, (p + 4) as nat) == 0 || le_u16(data, (p + 6) as nat) == 0,
        frame_spec(data, p, env) matches Parsed::Val { v, end },
    ensures
        frame_spec(data, p, env) matches Parsed::Val { v, end } && v == solid(
            (env.height * env.width) as nat,
            effective_bg(env.background),
        ) && end == p + 9 + (
        if data[p as int + 8] & 0x80 != 0 {
            3 * table_entries(data[p as int + 8])
        } else {
            0
        }) + 1,
{
}

} // verus!
