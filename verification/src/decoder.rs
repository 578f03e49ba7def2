use vstd::arithmetic::power2::{lemma2_to64, lemma_pow2_adds, lemma_pow2_pos, pow2};
use vstd::bits::{
    lemma_u32_low_bits_mask_is_mod, lemma_u32_pow2_no_overflow, lemma_u32_shl_is_mul,
    lemma_u32_shr_is_div, low_bits_mask,
};
use vstd::prelude::*;

use crate::error::GifParsingError;
use crate::lzw::{
    apply_clear, apply_code, clear_code, code_value, grow_width, initial_state, lemma_run_unfold,
    lemma_with_output_compose, lzw_run, read_code, state_wf, stop_code, with_output, LzwOutcome,
    LzwState, LzwStep, ReadOutcome,
};

verus! {

/// Read bits from a byte stream, least significant bit first.
struct LsbReader {
    /// Current number of bits waiting to be read.
    bits: u8,
    /// Current pending value.
    acc: u32,
}

impl LsbReader {
    /// The pending bits, as the integer they denote.
    spec fn spec_acc(&self) -> nat {
        self.acc as nat
    }

    /// How many bits are pending.
    spec fn spec_bits(&self) -> nat {
        self.bits as nat
    }

    /// The pending value always fits in the pending bit count.
    spec fn inv(&self) -> bool {
        self.acc < pow2(self.bits as nat)
    }

    /// Create a new LsbReader with no pending bits.
    fn new() -> (r: LsbReader)
        ensures
            r.inv(),
            r.spec_acc() == 0,
            r.spec_bits() == 0,
    {
        proof {
            lemma_pow2_pos(0);
        }
        LsbReader { bits: 0, acc: 0 }
    }

    /// Reads and consumes `code_size` bits from `buf`, starting at the
    /// byte offset `start`, continuing from the pending bits of earlier
    /// calls.  Returns how many bytes were consumed, and the code, or
    /// `None` when the input ran out before a full code was pending.
    fn get_next_code(&mut self, buf: &[u8], start: usize, code_size: u8) -> (r: (usize, Option<
        u16,
    >))
        requires
            old(self).inv(),
            start <= buf@.len(),
            1 <= code_size <= 16,
            old(self).spec_bits() < code_size + 8,
        ensures
            final(self).inv(),
            final(self).spec_bits() < code_size + 8,
            r.1 is Some ==> final(self).spec_bits() < 8,
            start + r.0 <= buf@.len(),
            ({
                let rem = buf@.subrange(start as int, buf@.len() as int);
                match read_code(
                    old(self).spec_acc(),
                    old(self).spec_bits(),
                    code_size as nat,
                    rem,
                ) {
                    ReadOutcome::Short { acc, nbits } => {
                        &&& r.0 == rem.len()
                        &&& r.1 is None
                        &&& final(self).spec_acc() == acc
                        &&& final(self).spec_bits() == nbits
                    },
                    ReadOutcome::Got { consumed, code, acc, nbits } => {
                        &&& r.0 == consumed
                        &&& r.1 matches Some(c) && c == code
                        &&& final(self).spec_acc() == acc
                        &&& final(self).spec_bits() == nbits
                    },
                }
            }),
    {
        let ghost data = buf@;
        let ghost w = code_size as nat;
        let mut consumed: usize = 0;
        while self.bits < code_size
            invariant
                self.inv(),
                self.spec_bits() < code_size + 8,
                1 <= code_size <= 16,
                start + consumed <= data.len(),
                data == buf@,
                w == code_size as nat,
                read_code(
                    old(self).spec_acc(),
                    old(self).spec_bits(),
                    w,
                    data.subrange(start as int, data.len() as int),
                ) == crate::lzw::shift_consumed(
                    read_code(
                        self.spec_acc(),
                        self.spec_bits(),
                        w,
                        data.subrange((start + consumed) as int, data.len() as int),
                    ),
                    consumed as nat,
                ),
            decreases data.len() - start - consumed,
        {
            let ghost rem_here = data.subrange((start + consumed) as int, data.len() as int);
            if start >= buf.len() - consumed {
                proof {
                    assert(rem_here.len() == 0);
                    assert(read_code(self.spec_acc(), self.spec_bits(), w, rem_here)
                        == (ReadOutcome::Short { acc: self.spec_acc(), nbits: self.spec_bits() }));
                }
                return (consumed, None);
            }
            let byte = buf[start + consumed];
            let a = self.acc;
            let sh = self.bits as u32;
            proof {
                assert(rem_here[0] == data[(start + consumed) as int]);
                lemma_u32_pow2_no_overflow(sh as nat);
                lemma_u32_shl_is_mul(1u32, sh);
                assert(a | ((byte as u32) << sh) == a + (byte as u32) * (1u32 << sh))
                    by (bit_vector)
                    requires
                        a < (1u32 << sh),
                        sh < 16,
                        byte <= 255,
                ;
                // The grown pending value still fits the grown bit count.
                let p = pow2(sh as nat);
                assert(a + (byte as u32) * p < p * 256) by (nonlinear_arith)
                    requires
                        a < p,
                        byte <= 255,
                        p > 0,
                ;
                lemma_pow2_adds(sh as nat, 8);
                lemma2_to64();
                // One more unfolding of `read_code` on the remaining input.
                assert(rem_here.subrange(1, rem_here.len() as int) =~= data.subrange(
                    (start + consumed + 1) as int,
                    data.len() as int,
                ));
            }
            let ghost k = consumed as nat;
            self.acc = self.acc | ((byte as u32) << sh);
            self.bits = self.bits + 8;
            consumed = consumed + 1;
            proof {
                let rem_next = data.subrange((start + consumed) as int, data.len() as int);
                let inner = read_code(self.spec_acc(), self.spec_bits(), w, rem_next);
                assert(self.spec_acc() == a + byte * pow2(sh as nat));
                assert(read_code(a as nat, sh as nat, w, rem_here) == crate::lzw::shift_consumed(
                    inner,
                    1,
                ));
                crate::lzw::lemma_shift_consumed_add(inner, 1, k);
            }
        }
        let sh = code_size as u32;
        let a = self.acc;
        proof {
            lemma_u32_pow2_no_overflow(sh as nat);
            lemma_u32_shl_is_mul(1u32, sh);
            assert((1u32 << sh) - 1 == low_bits_mask(sh as nat));
            lemma_u32_low_bits_mask_is_mod(a, sh as nat);
            lemma_u32_shr_is_div(a, sh);
            // The remaining pending value fits the remaining bit count.
            let p = pow2(sh as nat);
            let q = pow2((self.bits - code_size) as nat);
            lemma_pow2_adds((self.bits - code_size) as nat, sh as nat);
            lemma_pow2_pos((self.bits - code_size) as nat);
            assert((a as nat) / p < q) by (nonlinear_arith)
                requires
                    a < q * p,
                    p > 0,
                    q > 0,
            ;
            // The extracted code fits in sixteen bits.
            lemma_pow2_pos(sh as nat);
            assert((a as nat) % p < p);
            assert(a & (((1u32 << sh) - 1) as u32) <= 0xFFFFu32) by (bit_vector)
                requires
                    1 <= sh <= 16,
            ;
            let rem_cur = data.subrange((start + consumed) as int, data.len() as int);
            assert(read_code(self.spec_acc(), self.spec_bits(), w, rem_cur)
                == (ReadOutcome::Got {
                    consumed: 0,
                    code: (a as nat) % p,
                    acc: (a as nat) / p,
                    nbits: (self.spec_bits() - w) as nat,
                }));
        }
        let res = a & ((1u32 << sh) - 1);
        self.acc = a >> sh;
        self.bits = self.bits - code_size;
        (consumed, Some(res as u16))
    }
}

/// Ghost summary of the dictionary: its minimum code size, the current
/// code width, and the entries assigned past the two sentinel codes.
pub ghost struct DictModel {
    pub min: nat,
    pub width: nat,
    pub extras: Seq<Seq<u8>>,
}

/// Value returned when interrogating the dictionary through its
/// `get_value` method.
enum DictionaryValue {
    /// The code has no entry and cannot be accounted for.
    NotFound,
    /// The code is the `clear` code.
    Clear,
    /// The code is the `stop` code.
    Stop,
    /// The code is the next one to be assigned: the special
    /// self-referential case.
    Repeat,
    /// The code is assigned the returned sequence.
    Value(Vec<u8>),
}

/// Copy a byte vector element by element.
pub(crate) fn copy_vec(src: &Vec<u8>) -> (r: Vec<u8>)
    ensures
        r@ == src@,
{
    let mut v: Vec<u8> = Vec::new();
    let mut i: usize = 0;
    while i < src.len()
        invariant
            i <= src.len(),
            v@ == src@.subrange(0, i as int),
        decreases src.len() - i,
    {
        v.push(src[i]);
        i = i + 1;
        proof {
            assert(v@ =~= src@.subrange(0, i as int));
        }
    }
    proof {
        assert(v@ =~= src@);
    }
    v
}

/// Store codes and related values for an LZW decoder.
struct LzwDictionary {
    /// The minimum code size at the instantiation of the LzwDictionary.
    min_code_size: u8,
    /// Current code size that should be read from a compressed buffer.
    curr_code_size: u8,
    /// Table of correspondence between codes and corresponding values:
    /// the code is the index, the value is wrapped in `Some`.  The `None`
    /// form stands for the two sentinel codes `clear` and `stop`.
    table: Vec<Option<Vec<u8>>>,
}

impl LzwDictionary {
    /// The dictionary a table stands for.
    spec fn model(&self) -> DictModel {
        DictModel {
            min: self.min_code_size as nat,
            width: self.curr_code_size as nat,
            extras: Seq::new(
                (self.table@.len() - (pow2(self.min_code_size as nat) + 2)) as nat,
                |i: int|
                    self.table@[pow2(self.min_code_size as nat) as int + 2 + i].arrow_Some_0()@,
            ),
        }
    }

    /// The table lays the dictionary out as the format prescribes: one
    /// root entry for each code under the minimum code size, the two
    /// sentinel slots, then the assigned entries, all nonempty.
    spec fn inv(&self) -> bool {
        let r = pow2(self.min_code_size as nat) as int;
        &&& self.min_code_size <= 11
        &&& self.min_code_size + 1 <= self.curr_code_size <= 12
        &&& self.table@.len() >= r + 2
        &&& forall|i: int|
            0 <= i < r ==> ({
                &&& (#[trigger] self.table@[i]) matches Some(v)
                &&& v@ == seq![i as u8]
            })
        &&& self.table@[r] is None
        &&& self.table@[r + 1] is None
        &&& forall|i: int|
            r + 2 <= i < self.table@.len() ==> ({
                &&& (#[trigger] self.table@[i]) matches Some(v)
                &&& v@.len() >= 1
            })
    }

    /// Create a new LzwDictionary with the given initial code size.
    fn new(min_code_size: u8) -> (r: LzwDictionary)
        requires
            min_code_size <= 11,
        ensures
            r.inv(),
            r.model() == (DictModel {
                min: min_code_size as nat,
                width: min_code_size as nat + 1,
                extras: Seq::<Seq<u8>>::empty(),
            }),
    {
        let table: Vec<Option<Vec<u8>>> = Vec::with_capacity(512);
        let mut dict = LzwDictionary {
            min_code_size,
            curr_code_size: min_code_size + 1,
            table,
        };
        dict.clear();
        dict
    }

    /// Reset the LzwDictionary to its initial state: the root entries,
    /// the two sentinel slots, and the starting code width.
    fn clear(&mut self)
        requires
            old(self).min_code_size <= 11,
        ensures
            final(self).inv(),
            final(self).min_code_size == old(self).min_code_size,
            final(self).model() == (DictModel {
                min: old(self).min_code_size as nat,
                width: old(self).min_code_size as nat + 1,
                extras: Seq::<Seq<u8>>::empty(),
            }),
    {
        self.table.clear();
        self.curr_code_size = self.min_code_size + 1;
        proof {
            lemma_u32_pow2_no_overflow(self.min_code_size as nat);
            lemma_u32_shl_is_mul(1u32, self.min_code_size as u32);
        }
        let initial_table_size: u32 = 1u32 << (self.min_code_size as u32);
        let mut i: u32 = 0;
        while i < initial_table_size
            invariant
                initial_table_size == pow2(self.min_code_size as nat),
                i <= initial_table_size,
                self.table@.len() == i,
                forall|j: int|
                    0 <= j < i ==> ({
                        &&& (#[trigger] self.table@[j]) matches Some(v)
                        &&& v@ == seq![j as u8]
                    }),
                self.min_code_size == old(self).min_code_size,
                self.curr_code_size == old(self).min_code_size + 1,
            decreases initial_table_size - i,
        {
            let mut entry: Vec<u8> = Vec::new();
            entry.push(#[verifier::truncate] (i as u8));
            self.table.push(Some(entry));
            i = i + 1;
        }
        self.table.push(None);
        self.table.push(None);
        proof {
            assert(self.model().extras =~= Seq::<Seq<u8>>::empty());
        }
    }

    /// Get the value corresponding to the code given.
    fn get_value(&self, code: u16) -> (r: DictionaryValue)
        requires
            self.inv(),
        ensures
            ({
                let m = self.model();
                match r {
                    DictionaryValue::Clear => code == clear_code(m.min),
                    DictionaryValue::Stop => code == stop_code(m.min),
                    DictionaryValue::NotFound => code > pow2(m.min) + 2 + m.extras.len(),
                    DictionaryValue::Repeat => code == pow2(m.min) + 2 + m.extras.len(),
                    DictionaryValue::Value(v) => {
                        &&& (code < pow2(m.min) || pow2(m.min) + 2 <= code < pow2(m.min) + 2
                            + m.extras.len())
                        &&& v@ == code_value(m.min, m.extras, code as nat)
                        &&& v@.len() >= 1
                    },
                }
            }),
    {
        proof {
            lemma_u32_pow2_no_overflow(self.min_code_size as nat);
            lemma_u32_shl_is_mul(1u32, self.min_code_size as u32);
        }
        let code_us = code as usize;
        if code_us < self.table.len() {
            match &self.table[code_us] {
                Some(val) => DictionaryValue::Value(copy_vec(val)),
                None => {
                    if (code as u32) == (1u32 << (self.min_code_size as u32)) {
                        DictionaryValue::Clear
                    } else {
                        DictionaryValue::Stop
                    }
                },
            }
        } else if code_us == self.table.len() {
            DictionaryValue::Repeat
        } else {
            DictionaryValue::NotFound
        }
    }

    /// Add a new value at the next code, and widen the code size when
    /// the table fills the current width, up to the twelve-bit limit.
    fn push_new_value(&mut self, val: Vec<u8>)
        requires
            old(self).inv(),
            val@.len() >= 1,
        ensures
            final(self).inv(),
            final(self).model().min == old(self).model().min,
            final(self).model().extras == old(self).model().extras.push(val@),
            final(self).model().width == grow_width(
                old(self).model().width,
                pow2(old(self).model().min) + 2 + old(self).model().extras.len() + 1,
            ),
    {
        let ghost old_extras = self.model().extras;
        self.table.push(Some(val));
        proof {
            vstd::bits::lemma_u64_pow2_no_overflow(self.curr_code_size as nat);
            vstd::bits::lemma_u64_shl_is_mul(1u64, self.curr_code_size as u64);
            assert(self.model().extras =~~= old_extras.push(val@));
        }
        let limit: u64 = 1u64 << (self.curr_code_size as u64);
        if self.table.len() as u64 == limit && self.curr_code_size < 12 {
            self.curr_code_size = self.curr_code_size + 1;
        }
    }

    /// Returns the current code size to read from the compressed buffer.
    fn get_curr_code_size(&self) -> (r: u8)
        ensures
            r as nat == self.model().width,
    {
        self.curr_code_size
    }
}

/// Append a copy of `src` onto `dst`.
fn push_all(dst: &mut Vec<u8>, src: &Vec<u8>)
    ensures
        final(dst)@ == old(dst)@ + src@,
{
    let mut i: usize = 0;
    while i < src.len()
        invariant
            i <= src.len(),
            dst@ == old(dst)@ + src@.subrange(0, i as int),
        decreases src.len() - i,
    {
        dst.push(src[i]);
        i = i + 1;
        proof {
            assert(dst@ =~= old(dst)@ + src@.subrange(0, i as int));
        }
    }
    proof {
        assert(old(dst)@ + src@.subrange(0, src@.len() as int) =~= old(dst)@ + src@);
    }
}

/// Decompress data compressed in the LZW compression format.
/// This struct keeps state in between `decode_next` calls so that you
/// can call it with contiguous subparts of the compressed data as you
/// read them.
pub struct LzwDecoder {
    current_val: Vec<u8>,
    bit_reader: LsbReader,
    dict: LzwDictionary,
}

impl View for LzwDecoder {
    type V = LzwState;

    closed spec fn view(&self) -> LzwState {
        LzwState {
            min: self.dict.model().min,
            width: self.dict.model().width,
            extras: self.dict.model().extras,
            prev: self.current_val@,
            acc: self.bit_reader.spec_acc(),
            nbits: self.bit_reader.spec_bits(),
        }
    }
}

impl LzwDecoder {
    /// The decoder's in-memory structures lay out a reachable state.
    pub closed spec fn wf(&self) -> bool {
        &&& self.dict.inv()
        &&& self.bit_reader.inv()
        &&& self.bit_reader.spec_bits() < self.dict.model().width + 8
    }

    /// A well-formed decoder stands in a well-formed model state.
    pub proof fn lemma_wf_state(&self)
        requires
            self.wf(),
        ensures
            state_wf(self@),
    {
    }

    /// Create a new LzwDecoder, with the given initial code size that
    /// should have been parsed from the GIF buffer before its
    /// compressed data.
    pub fn new(min_code_size: u8) -> (r: LzwDecoder)
        requires
            min_code_size <= 11,
        ensures
            r.wf(),
            r@ == initial_state(min_code_size as nat),
    {
        LzwDecoder {
            current_val: Vec::new(),
            bit_reader: LsbReader::new(),
            dict: LzwDictionary::new(min_code_size),
        }
    }

    /// Decode the next block of compressed data and return the newly
    /// produced bytes.  The bit reader and the dictionary persist
    /// across calls, so the compressed stream may be split anywhere.
    /// A code that no dictionary entry accounts for is an error.
    pub fn decode_next(&mut self, buf: &[u8]) -> (r: Result<Vec<u8>, GifParsingError>)
        requires
            old(self).wf(),
        ensures
            final(self).wf(),
            match lzw_run(old(self)@, buf@) {
                LzwOutcome::More { next, out } => ({
                    &&& r matches Ok(v) && v@ == out
                    &&& final(self)@ == next
                }),
                LzwOutcome::Done { next, out } => ({
                    &&& r matches Ok(v) && v@ == out
                    &&& final(self)@ == next
                }),
                LzwOutcome::Fail => r matches Err(e) && e == GifParsingError::InvalidLzwCode,
            },
    {
        let n = buf.len();
        let mut decoded_buf: Vec<u8> = Vec::new();
        let mut current_offset: usize = 0;
        proof {
            assert(buf@.subrange(0, buf@.len() as int) =~= buf@);
            crate::lzw::lemma_with_output_empty(lzw_run(self@, buf@));
        }
        loop
            invariant
                self.wf(),
                n == buf@.len(),
                current_offset <= n,
                lzw_run(old(self)@, buf@) == with_output(
                    decoded_buf@,
                    lzw_run(self@, buf@.subrange(current_offset as int, buf@.len() as int)),
                ),
            decreases buf@.len() - current_offset, self@.nbits,
        {
            let ghost pre = self@;
            let ghost rem = buf@.subrange(current_offset as int, buf@.len() as int);
            let curr_code_size = self.dict.get_curr_code_size();
            let (consumed, code_opt) = self.bit_reader.get_next_code(
                buf,
                current_offset,
                curr_code_size,
            );
            proof {
                lemma_run_unfold(pre, rem);
            }
            match code_opt {
                None => {
                    proof {
                        assert(decoded_buf@ + Seq::<u8>::empty() =~= decoded_buf@);
                    }
                    return Ok(decoded_buf);
                },
                Some(code) => {
                    current_offset = current_offset + consumed;
                    let ghost s2 = self@;
                    let ghost rem2 = buf@.subrange(current_offset as int, buf@.len() as int);
                    proof {
                        assert(s2 == (LzwState {
                            acc: self.bit_reader.spec_acc(),
                            nbits: self.bit_reader.spec_bits(),
                            ..pre
                        }));
                        assert(rem.subrange(consumed as int, rem.len() as int) =~= rem2);
                    }
                    match self.dict.get_value(code) {
                        DictionaryValue::Clear => {
                            self.dict.clear();
                            self.current_val = Vec::new();
                            proof {
                                assert(self@ == apply_clear(s2));
                                assert(apply_code(s2, code as nat) == (LzwStep::Emit {
                                    next: self@,
                                    out: Seq::<u8>::empty(),
                                }));
                                crate::lzw::lemma_with_output_empty(lzw_run(self@, rem2));
                            }
                        },
                        DictionaryValue::Stop => {
                            proof {
                                assert(decoded_buf@ + Seq::<u8>::empty() =~= decoded_buf@);
                            }
                            return Ok(decoded_buf);
                        },
                        DictionaryValue::NotFound => {
                            return Err(GifParsingError::InvalidLzwCode);
                        },
                        DictionaryValue::Repeat => {
                            if self.current_val.len() == 0 {
                                return Err(GifParsingError::InvalidLzwCode);
                            }
                            let ghost out = s2.prev.push(s2.prev[0]);
                            let ghost dec_old = decoded_buf@;
                            let first_val = self.current_val[0];
                            self.current_val.push(first_val);
                            push_all(&mut decoded_buf, &self.current_val);
                            let copy = copy_vec(&self.current_val);
                            self.dict.push_new_value(copy);
                            proof {
                                assert(apply_code(s2, code as nat) == (LzwStep::Emit {
                                    next: self@,
                                    out,
                                }));
                                lemma_with_output_compose(dec_old, out, lzw_run(self@, rem2));
                            }
                        },
                        DictionaryValue::Value(val) => {
                            let ghost out = val@;
                            let ghost dec_old = decoded_buf@;
                            self.current_val.push(val[0]);
                            if self.current_val.len() != 1 {
                                let copy = copy_vec(&self.current_val);
                                self.dict.push_new_value(copy);
                                self.current_val = val;
                                push_all(&mut decoded_buf, &self.current_val);
                            } else {
                                push_all(&mut decoded_buf, &val);
                            }
                            proof {
                                assert(apply_code(s2, code as nat) == (LzwStep::Emit {
                                    next: self@,
                                    out,
                                }));
                                lemma_with_output_compose(dec_old, out, lzw_run(self@, rem2));
                            }
                        },
                    }
                },
            }
        }
    }
}

} // verus!
