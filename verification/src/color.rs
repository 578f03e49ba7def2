use vstd::prelude::*;

use crate::error::GifParsingError;
use crate::gif_reader::{can_read, read_window, GifRead};

verus! {

/// Simple structure containing "RGB" (Red Green Blue) colors as defined in
/// a GIF's color table.
#[derive(Debug, Clone, Copy, PartialEq, Eq, Structural)]
pub struct Rgb {
    pub r: u8,
    pub g: u8,
    pub b: u8,
}

/// The color stored as a packed R, G, B triplet at entry `i` of a color
/// table laid out in `s`.
pub open spec fn rgb_at(s: Seq<u8>, i: int) -> Rgb {
    Rgb { r: s[3 * i], g: s[3 * i + 1], b: s[3 * i + 2] }
}

/// The `n`-entry color table whose packed triplets are laid out in `s`.
pub open spec fn color_table_of(s: Seq<u8>, n: nat) -> Seq<Rgb> {
    Seq::new(n as nat, |i: int| rgb_at(s, i))
}

/// Parse a color table from a GIF buffer (the `rdr` should currently be
/// just at the start of the first entry of that color table) into the
/// corresponding vector of RGB values.  Reads exactly `3 * nb_entries`
/// bytes, in file order; fails with an I/O error on short input.
pub fn parse_color_table<R: GifRead>(rdr: &mut R, nb_entries: usize) -> (r: Result<
    Vec<Rgb>,
    GifParsingError,
>)
    requires
        old(rdr).pos() <= old(rdr).bytes().len(),
        3 * nb_entries <= usize::MAX,
    ensures
        final(rdr).bytes() == old(rdr).bytes(),
        match r {
            Ok(ct) => {
                &&& can_read(old(rdr).bytes(), old(rdr).pos(), (3 * nb_entries) as nat)
                &&& ct@ == color_table_of(
                    read_window(old(rdr).bytes(), old(rdr).pos(), (3 * nb_entries) as nat),
                    nb_entries as nat,
                )
                &&& final(rdr).pos() == old(rdr).pos() + 3 * nb_entries
            },
            Err(e) => {
                &&& e == GifParsingError::IOError
                &&& !can_read(old(rdr).bytes(), old(rdr).pos(), (3 * nb_entries) as nat)
            },
        },
{
    let mut ct: Vec<Rgb> = Vec::new();
    let mut k: usize = 0;
    while k < nb_entries
        invariant
            3 * nb_entries <= usize::MAX,
            k <= nb_entries,
            rdr.bytes() == old(rdr).bytes(),
            rdr.pos() == old(rdr).pos() + 3 * k,
            rdr.pos() <= rdr.bytes().len(),
            ct@ == color_table_of(
                read_window(old(rdr).bytes(), old(rdr).pos(), (3 * k) as nat),
                k as nat,
            ),
        decreases nb_entries - k,
    {
        let colors = match rdr.read_bytes(3) {
            Ok(c) => c,
            Err(e) => {
                proof {
                    assert(3 * k + 3 <= 3 * nb_entries) by (nonlinear_arith)
                        requires
                            k < nb_entries,
                    ;
                }
                return Err(e);
            },
        };
        ct.push(Rgb { r: colors[0], g: colors[1], b: colors[2] });
        k = k + 1;
        proof {
            let w = read_window(old(rdr).bytes(), old(rdr).pos(), (3 * k) as nat);
            assert(ct@ =~= color_table_of(w, k as nat));
        }
    }
    proof {
        assert(ct@ =~= color_table_of(
            read_window(old(rdr).bytes(), old(rdr).pos(), (3 * nb_entries) as nat),
            nb_entries as nat,
        ));
    }
    Ok(ct)
}

} // verus!
