use vstd::arithmetic::div_mod::{
    lemma_fundamental_div_mod, lemma_mod_multiples_vanish, lemma_small_mod,
};
use vstd::arithmetic::power2::{lemma2_to64, lemma_pow2_adds, lemma_pow2_pos, lemma_pow2_strictly_increases, pow2};
use vstd::prelude::*;

verus! {

/// The mathematical state of the LZW decompressor used for GIF image
/// data: a growing dictionary, the previously decoded sequence, and the
/// pending bits of the least-significant-bit-first code reader.
pub ghost struct LzwState {
    /// The minimum code size the decoder was created with.
    pub min: nat,
    /// The current width, in bits, of one compressed code.
    pub width: nat,
    /// The sequences assigned to the codes above the two sentinel codes,
    /// in order of assignment.
    pub extras: Seq<Seq<u8>>,
    /// The sequence decoded by the last code, used both for new
    /// dictionary entries and for the self-referential code.
    pub prev: Seq<u8>,
    /// The pending input bits, read least significant first, as the
    /// integer they denote.
    pub acc: nat,
    /// How many pending input bits there are.
    pub nbits: nat,
}

/// The code that resets the dictionary.
pub open spec fn clear_code(min: nat) -> nat {
    pow2(min)
}

/// The code that ends the compressed stream.
pub open spec fn stop_code(min: nat) -> nat {
    pow2(min) + 1
}

/// The code the next dictionary entry will be assigned.
pub open spec fn next_code(s: LzwState) -> nat {
    pow2(s.min) + 2 + s.extras.len()
}

/// The sequence denoted by the value code `c`: a one-byte sequence for a
/// root code, and the assigned entry for a later code.
pub open spec fn code_value(min: nat, extras: Seq<Seq<u8>>, c: nat) -> Seq<u8> {
    if c < pow2(min) {
        seq![c as u8]
    } else {
        extras[c - pow2(min) - 2]
    }
}

/// The code width after the dictionary has grown to `count` entries:
/// one more bit exactly when the count fills the current width and the
/// twelve-bit limit is not yet reached.
pub open spec fn grow_width(width: nat, count: nat) -> nat {
    if count == pow2(width) && width < 12 {
        (width + 1) as nat
    } else {
        width
    }
}

/// The state after a clear code: the dictionary holds the roots and the
/// two sentinels again, the code width is back at its starting value,
/// and no previous sequence is remembered.
pub open spec fn apply_clear(s: LzwState) -> LzwState {
    LzwState { width: s.min + 1, extras: Seq::empty(), prev: Seq::empty(), ..s }
}

/// The effect of one decoded code on the decoder state.
pub ghost enum LzwStep {
    /// The code decodes to `out` and the decoder goes on in state `next`.
    Emit { next: LzwState, out: Seq<u8> },
    /// The code was the stop sentinel.
    Stop,
    /// The code has no dictionary entry and is not the one the growth
    /// rule could assign next: the stream cannot be decoded.
    Invalid,
}

/// Decode one code against the dictionary, as the GIF flavor of LZW
/// prescribes: a clear code resets the dictionary; a known code emits
/// its sequence and assigns the previous sequence extended by the first
/// emitted byte; the code one past the dictionary emits the previous
/// sequence extended by its own first byte.
pub open spec fn apply_code(s: LzwState, c: nat) -> LzwStep {
    if c == clear_code(s.min) {
        LzwStep::Emit { next: apply_clear(s), out: Seq::empty() }
    } else if c == stop_code(s.min) {
        LzwStep::Stop
    } else if c < pow2(s.min) || (pow2(s.min) + 2 <= c && c < next_code(s)) {
        let val = code_value(s.min, s.extras, c);
        let cur = s.prev.push(val[0]);
        if cur.len() == 1 {
            LzwStep::Emit { next: LzwState { prev: cur, ..s }, out: val }
        } else {
            let extras2 = s.extras.push(cur);
            LzwStep::Emit {
                next: LzwState {
                    extras: extras2,
                    width: grow_width(s.width, pow2(s.min) + 2 + extras2.len()),
                    prev: val,
                    ..s
                },
                out: val,
            }
        }
    } else if c == next_code(s) && s.prev.len() > 0 {
        let val = s.prev.push(s.prev[0]);
        let extras2 = s.extras.push(val);
        LzwStep::Emit {
            next: LzwState {
                extras: extras2,
                width: grow_width(s.width, pow2(s.min) + 2 + extras2.len()),
                prev: val,
                ..s
            },
            out: val,
        }
    } else {
        LzwStep::Invalid
    }
}

/// The outcome of running the decoder over a block of compressed bytes.
pub ghost enum LzwOutcome {
    /// All input was consumed, the last code being cut short: `out` was
    /// produced and the decoder waits in state `next` for more bytes.
    More { next: LzwState, out: Seq<u8> },
    /// The stop sentinel was decoded after producing `out`; the bytes
    /// that follow it are not consumed.
    Done { next: LzwState, out: Seq<u8> },
    /// An invalid code was decoded.
    Fail,
}

/// Prefix `pre` onto the output of outcome `o`.
pub open spec fn with_output(pre: Seq<u8>, o: LzwOutcome) -> LzwOutcome {
    match o {
        LzwOutcome::More { next, out } => LzwOutcome::More { next, out: pre + out },
        LzwOutcome::Done { next, out } => LzwOutcome::Done { next, out: pre + out },
        LzwOutcome::Fail => LzwOutcome::Fail,
    }
}

/// Run the decoder over `input`: fill the pending bits one byte at a
/// time, and decode a code whenever a full code width is pending.
pub open spec fn lzw_run(s: LzwState, input: Seq<u8>) -> LzwOutcome
    decreases input.len(), s.nbits,
{
    if s.width == 0 {
        // Unreachable for states made by this decoder: the width starts
        // at min + 1 and never shrinks below it.
        LzwOutcome::Fail
    } else if s.nbits < s.width {
        if input.len() == 0 {
            LzwOutcome::More { next: s, out: Seq::empty() }
        } else {
            let s2 = LzwState { acc: (s.acc + input[0] * pow2(s.nbits)) as nat, nbits: s.nbits + 8, ..s };
            lzw_run(s2, input.subrange(1, input.len() as int))
        }
    } else {
        let code = s.acc % pow2(s.width);
        let s2 = LzwState { acc: s.acc / pow2(s.width), nbits: (s.nbits - s.width) as nat, ..s };
        match apply_code(s2, code) {
            LzwStep::Stop => LzwOutcome::Done { next: s2, out: Seq::empty() },
            LzwStep::Invalid => LzwOutcome::Fail,
            LzwStep::Emit { next, out } => with_output(out, lzw_run(next, input)),
        }
    }
}

/// The state a fresh decoder starts in for minimum code size `min`.
pub open spec fn initial_state(min: nat) -> LzwState {
    LzwState {
        min,
        width: min + 1,
        extras: Seq::empty(),
        prev: Seq::empty(),
        acc: 0,
        nbits: 0,
    }
}

/// The states the decoder can actually reach: a bounded minimum code
/// size, a code width between its starting value and the twelve-bit
/// limit, pending bits that fit under the width plus one input byte,
/// and only nonempty dictionary entries.
pub open spec fn state_wf(s: LzwState) -> bool {
    &&& s.min <= 11
    &&& s.min + 1 <= s.width <= 12
    &&& s.acc < pow2(s.nbits)
    &&& s.nbits < s.width + 8
    &&& forall|i: int| 0 <= i < s.extras.len() ==> #[trigger] s.extras[i].len() >= 1
}

/// The outcome of reading one code from pending bits and fresh input.
pub ghost enum ReadOutcome {
    /// The input ran out before a full code was pending; every input
    /// byte was absorbed into the pending bits.
    Short { acc: nat, nbits: nat },
    /// A code was extracted after absorbing `consumed` input bytes.
    Got { consumed: nat, code: nat, acc: nat, nbits: nat },
}

/// Read one code of width `w` least-significant-bit first, absorbing
/// input bytes into the pending bits until `w` bits are pending.
pub open spec fn read_code(acc: nat, nbits: nat, w: nat, input: Seq<u8>) -> ReadOutcome
    decreases input.len(),
{
    if nbits >= w {
        ReadOutcome::Got { consumed: 0, code: acc % pow2(w), acc: acc / pow2(w), nbits: (nbits - w) as nat }
    } else if input.len() == 0 {
        ReadOutcome::Short { acc, nbits }
    } else {
        match read_code((acc + input[0] * pow2(nbits)) as nat, nbits + 8, w, input.subrange(1, input.len() as int)) {
            ReadOutcome::Short { acc, nbits } => ReadOutcome::Short { acc, nbits },
            ReadOutcome::Got { consumed, code, acc, nbits } => ReadOutcome::Got {
                consumed: consumed + 1,
                code,
                acc,
                nbits,
            },
        }
    }
}

/// Prefixing an empty output changes nothing.
pub proof fn lemma_with_output_empty(o: LzwOutcome)
    ensures
        with_output(Seq::<u8>::empty(), o) == o,
{
    match o {
        LzwOutcome::More { next, out } => {
            assert(Seq::<u8>::empty().add(out) =~= out);
        },
        LzwOutcome::Done { next, out } => {
            assert(Seq::<u8>::empty().add(out) =~= out);
        },
        LzwOutcome::Fail => {},
    }
}

/// Prefixing outputs composes by concatenation.
pub proof fn lemma_with_output_compose(a: Seq<u8>, b: Seq<u8>, o: LzwOutcome)
    ensures
        with_output(a, with_output(b, o)) == with_output(a.add(b), o),
{
    match o {
        LzwOutcome::More { next, out } => {
            assert(a.add(b.add(out)) =~= a.add(b).add(out));
        },
        LzwOutcome::Done { next, out } => {
            assert(a.add(b.add(out)) =~= a.add(b).add(out));
        },
        LzwOutcome::Fail => {},
    }
}

/// Add `k` to the consumed count of a read outcome.
pub open spec fn shift_consumed(o: ReadOutcome, k: nat) -> ReadOutcome {
    match o {
        ReadOutcome::Short { acc, nbits } => ReadOutcome::Short { acc, nbits },
        ReadOutcome::Got { consumed, code, acc, nbits } => ReadOutcome::Got {
            consumed: consumed + k,
            code,
            acc,
            nbits,
        },
    }
}

/// Shifting the consumed count twice is shifting it once by the sum.
pub proof fn lemma_shift_consumed_add(o: ReadOutcome, j: nat, k: nat)
    ensures
        shift_consumed(shift_consumed(o, j), k) == shift_consumed(o, j + k),
{
}

/// One run step, seen through `read_code`: running the decoder first
/// reads one code (or runs short), then applies it, then goes on with
/// the input that is left.
pub proof fn lemma_run_unfold(s: LzwState, input: Seq<u8>)
    requires
        s.width >= 1,
    ensures
        match read_code(s.acc, s.nbits, s.width, input) {
            ReadOutcome::Short { acc, nbits } => lzw_run(s, input) == (LzwOutcome::More {
                next: LzwState { acc, nbits, ..s },
                out: Seq::<u8>::empty(),
            }),
            ReadOutcome::Got { consumed, code, acc, nbits } => {
                let s2 = LzwState { acc, nbits, ..s };
                &&& consumed <= input.len()
                &&& lzw_run(s, input) == match apply_code(s2, code) {
                    LzwStep::Stop => LzwOutcome::Done { next: s2, out: Seq::<u8>::empty() },
                    LzwStep::Invalid => LzwOutcome::Fail,
                    LzwStep::Emit { next, out } => with_output(
                        out,
                        lzw_run(next, input.subrange(consumed as int, input.len() as int)),
                    ),
                }
            },
        },
    decreases input.len(),
{
    if s.nbits >= s.width {
        assert(input.subrange(0, input.len() as int) =~= input);
    } else if input.len() == 0 {
    } else {
        let tail = input.subrange(1, input.len() as int);
        let s2 = LzwState { acc: (s.acc + input[0] * pow2(s.nbits)) as nat, nbits: s.nbits + 8, ..s };
        lemma_run_unfold(s2, tail);
        match read_code(s2.acc, s2.nbits, s.width, tail) {
            ReadOutcome::Short { .. } => {},
            ReadOutcome::Got { consumed, code, acc, nbits } => {
                assert(tail.subrange(consumed as int, tail.len() as int) =~= input.subrange(
                    consumed as int + 1,
                    input.len() as int,
                ));
            },
        }
    }
}

/// The bits a conforming literal encoder emits for the indices
/// `idxs` from decoder state `s`: each index as a root code, then the
/// stop code, each at the width the decoder tracks at that point.
/// The bits are returned as the little-endian integer they denote,
/// together with their count.
pub open spec fn enc_num(s: LzwState, idxs: Seq<u8>) -> (nat, nat)
    decreases idxs.len(),
{
    if idxs.len() == 0 {
        (stop_code(s.min), s.width)
    } else {
        let c = idxs[0] as nat;
        match apply_code(s, c) {
            LzwStep::Emit { next, out } => {
                let rest = enc_num(next, idxs.subrange(1, idxs.len() as int));
                ((c + rest.0 * pow2(s.width)) as nat, (s.width + rest.1) as nat)
            },
            LzwStep::Stop => (0, 0),
            LzwStep::Invalid => (0, 0),
        }
    }
}

/// The bytes that spell the low `l` bits of `v`, least significant
/// byte first, the last byte padded with zero bits.
pub open spec fn bytes_le(v: nat, l: nat) -> Seq<u8>
    decreases l,
{
    if l == 0 {
        Seq::empty()
    } else if l <= 8 {
        seq![(v % 256) as u8]
    } else {
        seq![(v % 256) as u8].add(bytes_le(v / 256, (l - 8) as nat))
    }
}

/// The compressed bytes a conforming literal encoder produces for
/// `idxs` from decoder state `s`.
pub open spec fn literal_encoding(s: LzwState, idxs: Seq<u8>) -> Seq<u8> {
    bytes_le(enc_num(s, idxs).0, enc_num(s, idxs).1)
}

/// The encoder's bits always fit their count, and at least one code
/// width is always emitted.
proof fn lemma_enc_num_bound(s: LzwState, idxs: Seq<u8>)
    requires
        1 <= s.min,
        s.min + 1 <= s.width,
        forall|i: int| 0 <= i < idxs.len() ==> (idxs[i] as nat) < pow2(s.min),
    ensures
        enc_num(s, idxs).0 < pow2(enc_num(s, idxs).1),
        enc_num(s, idxs).1 >= s.width,
    decreases idxs.len(),
{
    lemma_pow2_strictly_increases(s.min, s.width);
    lemma_pow2_strictly_increases(0, s.min);
    lemma_pow2_adds(s.min, 1);
    lemma2_to64();
    if s.width > s.min + 1 {
        lemma_pow2_strictly_increases((s.min + 1) as nat, s.width);
    }
    assert(stop_code(s.min) < pow2(s.width));
    if idxs.len() == 0 {
    } else {
        let c = idxs[0] as nat;
        match apply_code(s, c) {
            LzwStep::Emit { next, out } => {
                let tail = idxs.subrange(1, idxs.len() as int);
                assert(forall|i: int|
                    0 <= i < tail.len() ==> (tail[i] as nat) < pow2(next.min)) by {
                    assert(forall|i: int| 0 <= i < tail.len() ==> tail[i] == idxs[i + 1]);
                }
                lemma_enc_num_bound(next, tail);
                let rest = enc_num(next, tail);
                lemma_pow2_adds(s.width, rest.1);
                assert(c + rest.0 * pow2(s.width) < pow2(s.width) * pow2(rest.1))
                    by (nonlinear_arith)
                    requires
                        c < pow2(s.width),
                        rest.0 < pow2(rest.1),
                        pow2(s.width) > 0,
                ;
            },
            LzwStep::Stop => {
                assert(false);
            },
            LzwStep::Invalid => {
                assert(false);
            },
        }
    }
}

/// Decoding the bytes that hold the encoder's remaining bits yields
/// exactly the remaining indices.  The decoder's pending bits plus the
/// byte stream spell the remaining codes, up to zero padding in the
/// last byte.
#[verifier::rlimit(100)]
#[verifier::spinoff_prover]
proof fn lemma_decode_encoded(s: LzwState, idxs: Seq<u8>, v: nat, l: nat)
    requires
        1 <= s.min,
        s.min + 1 <= s.width,
        forall|i: int| 0 <= i < idxs.len() ==> (idxs[i] as nat) < pow2(s.min),
        s.acc + v * pow2(s.nbits) == enc_num(s, idxs).0,
        s.nbits + l >= enc_num(s, idxs).1,
        v < pow2(l),
    ensures
        lzw_run(s, bytes_le(v, l)) matches LzwOutcome::Done { next, out } && out == idxs,
    decreases idxs.len(), l,
{
    let w = s.width;
    let pw = pow2(w);
    let vc = enc_num(s, idxs).0;
    let lc = enc_num(s, idxs).1;
    lemma_pow2_pos(w);
    lemma_pow2_pos(s.nbits);
    lemma_pow2_strictly_increases(s.min, s.width);
    lemma_enc_num_bound(s, idxs);
    if s.nbits >= w {
        // A full code is pending: it is the next code of the encoding.
        lemma_pow2_adds(w, (s.nbits - w) as nat);
        let shift = pow2((s.nbits - w) as nat);
        assert(v * pow2(s.nbits) == (v * shift) * pw) by (nonlinear_arith)
            requires
                pow2(s.nbits) == pw * shift,
        ;
        lemma_mod_multiples_vanish((v * shift) as int, s.acc as int, pw as int);
        assert(vc as int == pw as int * ((v * shift) as int) + s.acc as int) by (nonlinear_arith)
            requires
                vc == s.acc + v * pow2(s.nbits),
                v * pow2(s.nbits) == (v * shift) * pw,
        ;
        assert(vc % pw == s.acc % pw);
        let code = s.acc % pw;
        let s2 = LzwState { acc: s.acc / pw, nbits: (s.nbits - w) as nat, ..s };
        lemma_fundamental_div_mod(s.acc as int, pw as int);
        if idxs.len() == 0 {
            // The pending code is the stop code.
            lemma_small_mod(stop_code(s.min), pw);
            assert(v * pow2(s.nbits) == 0) by (nonlinear_arith)
                requires
                    s.acc + v * pow2(s.nbits) == vc,
                    s.acc % pw == vc,
                    s.acc / pw * pw + s.acc % pw == s.acc,
                    s.acc / pw >= 0,
                    pw > 0,
                    v * pow2(s.nbits) >= 0,
                    vc < pw,
            ;
            assert(code == stop_code(s.min));
            assert(apply_code(s2, code) is Stop);
        } else {
            let c = idxs[0] as nat;
            match apply_code(s, c) {
                LzwStep::Emit { next, out } => {
                    let tail = idxs.subrange(1, idxs.len() as int);
                    let rest = enc_num(next, tail);
                    // The low bits of the stream are the root code `c`.
                    lemma_small_mod(c, pw);
                    lemma_mod_multiples_vanish(rest.0 as int, c as int, pw as int);
                    assert(vc as int == pw as int * (rest.0 as int) + c as int)
                        by (nonlinear_arith)
                        requires
                            vc == c + rest.0 * pw,
                    ;
                    assert(vc % pw == c);
                    assert(code == c);
                    // Applying a root code in `s2` mirrors applying it
                    // in `s`: only the pending bits differ.
                    let next2 = match apply_code(s2, c) {
                        LzwStep::Emit { next: n2, out: o2 } => n2,
                        LzwStep::Stop => s2,
                        LzwStep::Invalid => s2,
                    };
                    assert(apply_code(s2, c) matches LzwStep::Emit { next: n2, out: o2 }
                        && o2 == seq![idxs[0]] && n2.min == s.min && n2.width == next.width
                        && n2.extras == next.extras && n2.prev == next.prev && n2.acc == s2.acc
                        && n2.nbits == s2.nbits);
                    // The stream relation carries to the next state.
                    assert(enc_num(next2, tail) == rest) by {
                        lemma_enc_num_same(next, next2, tail);
                    }
                    assert(s2.acc + v * pow2(s2.nbits) == rest.0) by (nonlinear_arith)
                        requires
                            s.acc / pw * pw + s.acc % pw == s.acc,
                            s2.acc == s.acc / pw,
                            s.acc % pw == c,
                            s.acc + v * pow2(s.nbits) == vc,
                            vc == c + rest.0 * pw,
                            v * pow2(s.nbits) == (v * pow2((s.nbits - w) as nat)) * pw,
                            s2.nbits == s.nbits - w,
                            pow2(s2.nbits) == pow2((s.nbits - w) as nat),
                            pw > 0,
                    ;
                    assert(forall|i: int|
                        0 <= i < tail.len() ==> (tail[i] as nat) < pow2(next2.min)) by {
                        assert(forall|i: int| 0 <= i < tail.len() ==> tail[i] == idxs[i + 1]);
                    }
                    lemma_decode_encoded(next2, tail, v, l);
                    match lzw_run(next2, bytes_le(v, l)) {
                        LzwOutcome::Done { next: nf, out } => {
                            assert(seq![idxs[0]].add(out) =~= idxs);
                        },
                        LzwOutcome::More { next: nf, out } => {},
                        LzwOutcome::Fail => {},
                    }
                },
                LzwStep::Stop => {
                    assert(false);
                },
                LzwStep::Invalid => {
                    assert(false);
                },
            }
        }
    } else {
        // Not enough pending bits: the stream has at least one more
        // byte, which the run absorbs.
        assert(lc >= w);
        assert(l >= 1);
        let b = v % 256;
        let bytes = bytes_le(v, l);
        assert(bytes[0] == (b as u8));
        let s2 = LzwState {
            acc: (s.acc + (b as u8) * pow2(s.nbits)) as nat,
            nbits: s.nbits + 8,
            ..s
        };
        lemma_pow2_adds(s.nbits, 8);
        lemma2_to64();
        lemma_enc_num_same(s, s2, idxs);
        if l <= 8 {
            lemma_small_mod(v, 256);
            assert(b == v);
            assert(s2.acc + 0 * pow2(s2.nbits) == vc) by (nonlinear_arith)
                requires
                    s.acc + v * pow2(s.nbits) == vc,
                    s2.acc == s.acc + b * pow2(s.nbits),
                    b == v,
            ;
            assert(bytes.subrange(1, bytes.len() as int) =~= bytes_le(0, 0));
            lemma_pow2_pos(0);
            lemma_decode_encoded(s2, idxs, 0, 0);
        } else {
            lemma_fundamental_div_mod(v as int, 256);
            assert(s2.acc + (v / 256) * pow2(s2.nbits) == vc) by (nonlinear_arith)
                requires
                    s.acc + v * pow2(s.nbits) == vc,
                    s2.acc == s.acc + b * pow2(s.nbits),
                    b == v % 256,
                    v / 256 * 256 + v % 256 == v,
                    pow2(s2.nbits) == pow2(s.nbits) * 256,
                    s2.nbits == s.nbits + 8,
            ;
            assert(v / 256 < pow2((l - 8) as nat)) by {
                lemma_pow2_adds((l - 8) as nat, 8);
                assert(v / 256 < pow2((l - 8) as nat)) by (nonlinear_arith)
                    requires
                        v < pow2(l),
                        pow2(l) == pow2((l - 8) as nat) * 256,
                        v / 256 * 256 + v % 256 == v,
                        0 <= v % 256 < 256,
                        pow2((l - 8) as nat) > 0,
                ;
            }
            assert(bytes.subrange(1, bytes.len() as int) =~= bytes_le(v / 256, (l - 8) as nat));
            lemma_decode_encoded(s2, idxs, v / 256, (l - 8) as nat);
        }
    }
}

/// The encoding depends only on the dictionary part of the state, not
/// on the pending bits.
proof fn lemma_enc_num_same(a: LzwState, b: LzwState, idxs: Seq<u8>)
    requires
        a.min == b.min,
        a.width == b.width,
        a.extras == b.extras,
        a.prev == b.prev,
    ensures
        enc_num(a, idxs) == enc_num(b, idxs),
    decreases idxs.len(),
{
    if idxs.len() == 0 {
    } else {
        let c = idxs[0] as nat;
        match (apply_code(a, c), apply_code(b, c)) {
            (LzwStep::Emit { next: na, out: oa }, LzwStep::Emit { next: nb, out: ob }) => {
                lemma_enc_num_same(na, nb, idxs.subrange(1, idxs.len() as int));
            },
            _ => {},
        }
    }
}

/// LZW round trip: compressing any sequence of indices with a
/// conforming encoder - here the literal one, which emits each index
/// as a root code at the width the decoder tracks - and decoding the
/// result yields the original sequence, for every minimum code size
/// whose roots can name each index.
pub proof fn lemma_lzw_round_trip(min: nat, idxs: Seq<u8>)
    requires
        1 <= min,
        forall|i: int| 0 <= i < idxs.len() ==> (idxs[i] as nat) < pow2(min),
    ensures
        lzw_run(initial_state(min), literal_encoding(initial_state(min), idxs))
            matches LzwOutcome::Done { next, out } && out == idxs,
{
    let s = initial_state(min);
    lemma_enc_num_bound(s, idxs);
    lemma2_to64();
    lemma_decode_encoded(s, idxs, enc_num(s, idxs).0, enc_num(s, idxs).1);
}

} // verus!
