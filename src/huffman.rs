//! Canonical Huffman codes, as DEFLATE assigns them from a list of code lengths.
//!
//! Codes are assigned in increasing order of length, and within one length in the order in
//! which the symbols are listed. A code of length `l` is looked up by peeking the longest code
//! length `m` worth of bits, most significant first: it matches every `m`-bit value whose top
//! `l` bits are the code.
use vstd::prelude::*;
use vstd::arithmetic::power2::{pow2, lemma2_to64, lemma_pow2_unfold, lemma_pow2_pos, lemma_pow2_adds};
use crate::error::DecodeError;
use crate::fiddling::{BitOrder, BitStream, bits_value};

verus! {

/// The longest code length that an alphabet may use.
pub const MAX_CODE_LENGTH: u8 = 15;

/// How many of `lens` equal `l`.
pub open spec fn count_len(lens: Seq<u8>, l: nat) -> nat
    decreases lens.len(),
{
    if lens.len() == 0 {
        0
    } else {
        count_len(lens.drop_last(), l) + if lens.last() as nat == l { 1nat } else { 0nat }
    }
}

/// The number of `l`-bit prefixes that the codes of length 1 to `l` take.
pub open spec fn kraft_at(lens: Seq<u8>, l: nat) -> nat
    decreases l,
{
    if l == 0 {
        0
    } else {
        2 * kraft_at(lens, (l - 1) as nat) + count_len(lens, l)
    }
}

/// The first code of length `l` (`next_code[l]` of RFC 1951, section 3.2.2).
pub open spec fn first_code(lens: Seq<u8>, l: nat) -> nat
    decreases l,
{
    if l <= 1 {
        0
    } else {
        2 * (first_code(lens, (l - 1) as nat) + count_len(lens, (l - 1) as nat))
    }
}

/// The canonical code of entry `i`.
pub open spec fn code_of(lens: Seq<u8>, i: int) -> nat {
    first_code(lens, lens[i] as nat) + count_len(lens.take(i), lens[i] as nat)
}

/// The lengths, each from 1 to 15, can be given codes that are a prefix code (Kraft's
/// inequality).
pub open spec fn is_prefix_code_lengths(lens: Seq<u8>) -> bool {
    &&& forall|i: int| 0 <= i < lens.len() ==> 1 <= #[trigger] lens[i] <= MAX_CODE_LENGTH
    &&& kraft_at(lens, MAX_CODE_LENGTH as nat) <= pow2(MAX_CODE_LENGTH as nat)
}

/// The largest of `lens`, 0 for none.
pub open spec fn max_len(lens: Seq<u8>) -> nat
    decreases lens.len(),
{
    if lens.len() == 0 {
        0
    } else {
        let m = max_len(lens.drop_last());
        if lens.last() as nat > m {
            lens.last() as nat
        } else {
            m
        }
    }
}

/// Entry `i` has the top bits of the `m`-bit value `c` as its code.
pub open spec fn code_matches(lens: Seq<u8>, m: nat, i: int, c: nat) -> bool {
    c / pow2((m - lens[i]) as nat) == code_of(lens, i)
}

/// The last of the first `k` entries whose code matches `c`.
pub open spec fn last_match(lens: Seq<u8>, m: nat, c: nat, k: nat) -> Option<nat>
    decreases k,
{
    if k == 0 {
        None
    } else if code_matches(lens, m, (k - 1) as int, c) {
        Some((k - 1) as nat)
    } else {
        last_match(lens, m, c, (k - 1) as nat)
    }
}

/// The entry that the `max_len(lens)`-bit value `c` decodes to. In a prefix code at most one
/// entry matches.
pub open spec fn decode_index(lens: Seq<u8>, c: nat) -> Option<nat> {
    last_match(lens, max_len(lens), c, lens.len())
}

/// The lengths of a list of (symbol, length) pairs.
pub open spec fn lens_of<S>(pairs: Seq<(S, u8)>) -> Seq<u8> {
    pairs.map_values(|p: (S, u8)| p.1)
}

/// The pairs of `pairs` whose length is not zero, in their order.
pub open spec fn nonzero<S>(pairs: Seq<(S, u8)>) -> Seq<(S, u8)>
    decreases pairs.len(),
{
    if pairs.len() == 0 {
        Seq::empty()
    } else if pairs.last().1 > 0 {
        nonzero(pairs.drop_last()).push(pairs.last())
    } else {
        nonzero(pairs.drop_last())
    }
}

proof fn lemma_count_push(lens: Seq<u8>, x: u8, l: nat)
    ensures
        count_len(lens.push(x), l) == count_len(lens, l) + if x as nat == l { 1nat } else { 0nat },
{
    assert(lens.push(x).drop_last() =~= lens);
}

proof fn lemma_kraft_push(lens: Seq<u8>, x: u8, l: nat)
    ensures
        kraft_at(lens.push(x), l) == kraft_at(lens, l) + if 1 <= x && x as nat <= l {
            pow2((l - x) as nat)
        } else {
            0
        },
    decreases l,
{
    lemma_count_push(lens, x, l);
    if l > 0 {
        lemma_kraft_push(lens, x, (l - 1) as nat);
        if 1 <= x && x as nat <= l - 1 {
            lemma_pow2_unfold((l - x) as nat);
        }
        if x as nat == l {
            lemma2_to64();
        }
    }
}

proof fn lemma_first_code_kraft(lens: Seq<u8>, l: nat)
    requires
        l >= 1,
    ensures
        first_code(lens, l) + count_len(lens, l) == kraft_at(lens, l),
    decreases l,
{
    assert(kraft_at(lens, 0) == 0);
    if l > 1 {
        lemma_first_code_kraft(lens, (l - 1) as nat);
    }
}

/// The prefixes of length `l` that codes up to length `l` take, scaled to length 15, fit in
/// what all codes take.
proof fn lemma_kraft_scaled(lens: Seq<u8>, l: nat)
    requires
        l <= 15,
    ensures
        kraft_at(lens, l) * pow2((15 - l) as nat) <= kraft_at(lens, 15),
    decreases 15 - l,
{
    if l < 15 {
        lemma_kraft_scaled(lens, l + 1);
        lemma_pow2_unfold((15 - l) as nat);
        let p = pow2((15 - l - 1) as nat);
        let k = kraft_at(lens, l);
        let k1 = kraft_at(lens, l + 1);
        assert(k1 == 2 * kraft_at(lens, l) + count_len(lens, l + 1));
        assert(k1 >= 2 * k);
        assert(k * (2 * p) <= k1 * p) by (nonlinear_arith)
            requires
                k1 >= 2 * k,
        ;
        assert((15 - (l + 1)) as nat == (15 - l - 1) as nat);
        assert(k1 * p <= kraft_at(lens, 15));
        assert(pow2((15 - l) as nat) == 2 * p);
        let q = pow2((15 - l) as nat);
        let t = kraft_at(lens, 15);
        assert(k * q <= t) by (nonlinear_arith)
            requires
                q == 2 * p,
                k * (2 * p) <= k1 * p,
                k1 * p <= t,
        ;
    } else {
        lemma2_to64();
        assert(kraft_at(lens, l) * 1 == kraft_at(lens, l));
    }
}

proof fn lemma_kraft_bound(lens: Seq<u8>, l: nat)
    requires
        l <= 15,
        kraft_at(lens, 15) <= pow2(15),
    ensures
        kraft_at(lens, l) <= pow2(l),
{
    lemma_kraft_scaled(lens, l);
    lemma_pow2_adds(l, (15 - l) as nat);
    lemma_pow2_pos((15 - l) as nat);
    let k = kraft_at(lens, l);
    let p = pow2((15 - l) as nat);
    assert(k <= pow2(l)) by (nonlinear_arith)
        requires
            k * p <= pow2(15),
            pow2(15) == pow2(l) * p,
            p > 0,
    ;
}

proof fn lemma_count_take_step(lens: Seq<u8>, i: int, l: nat)
    requires
        0 <= i < lens.len(),
    ensures
        count_len(lens.take(i + 1), l) == count_len(lens.take(i), l) + if lens[i] as nat == l {
            1nat
        } else {
            0nat
        },
{
    assert(lens.take(i + 1) =~= lens.take(i).push(lens[i]));
    lemma_count_push(lens.take(i), lens[i], l);
}

proof fn lemma_count_take_le(lens: Seq<u8>, i: int, l: nat)
    requires
        0 <= i <= lens.len(),
    ensures
        count_len(lens.take(i), l) <= count_len(lens, l),
    decreases lens.len() - i,
{
    if i < lens.len() {
        lemma_count_take_step(lens, i, l);
        lemma_count_take_le(lens, i + 1, l);
    } else {
        assert(lens.take(i) =~= lens);
    }
}

/// In a prefix code each code fits in its length.
proof fn lemma_code_bound(lens: Seq<u8>, i: int)
    requires
        is_prefix_code_lengths(lens),
        0 <= i < lens.len(),
    ensures
        code_of(lens, i) < pow2(lens[i] as nat),
        code_of(lens, i) + 1 <= first_code(lens, lens[i] as nat) + count_len(lens, lens[i] as nat),
{
    let l = lens[i] as nat;
    lemma_count_take_step(lens, i, l);
    lemma_count_take_le(lens, i + 1, l);
    lemma_first_code_kraft(lens, l);
    lemma_kraft_bound(lens, l);
}

/// Whether the lengths of `code_lengths` that are not zero form a prefix code, each of them at
/// most 15.
pub fn is_prefix_code<S: Copy>(code_lengths: &[(S, u8)]) -> (r: bool)
    ensures
        r == is_prefix_code_lengths(lens_of(nonzero(code_lengths@))),
{
    let ghost pairs = code_lengths@;
    let mut bl_count: Vec<usize> = vec![0usize; 16];
    let mut too_long = false;
    let mut i: usize = 0;
    while i < code_lengths.len()
        invariant
            0 <= i <= code_lengths@.len(),
            pairs == code_lengths@,
            bl_count@.len() == 16,
            forall|l: int| 1 <= l < 16 ==> #[trigger] bl_count@[l] == count_len(lens_of(nonzero(pairs.take(i as int))), l as nat),
            forall|j: int| 0 <= j < lens_of(nonzero(pairs.take(i as int))).len() ==> 1 <= #[trigger] lens_of(nonzero(pairs.take(i as int)))[j],
            too_long == exists|j: int| 0 <= j < lens_of(nonzero(pairs.take(i as int))).len() && #[trigger] lens_of(nonzero(pairs.take(i as int)))[j] > 15,
            forall|l: int| 1 <= l < 16 ==> #[trigger] bl_count@[l] <= i,
        decreases code_lengths@.len() - i,
    {
        let len = code_lengths[i].1;
        proof {
            assert(pairs.take(i + 1).drop_last() =~= pairs.take(i as int));
            let before = nonzero(pairs.take(i as int));
            let lb = lens_of(before);
            assert(pairs.take(i + 1).last() == pairs[i as int]);
            if len > 0 {
                assert(nonzero(pairs.take(i + 1)) == before.push(pairs[i as int]));
            } else {
                assert(nonzero(pairs.take(i + 1)) == before);
            }
            if len > 0 {
                let la = lens_of(before.push(pairs[i as int]));
                assert(la =~= lb.push(len));
                assert forall|l: int| 1 <= l < 16 implies #[trigger] count_len(lens_of(before.push(pairs[i as int])), l as nat) == count_len(lens_of(before), l as nat) + if len as nat == l { 1nat } else { 0nat } by {
                    lemma_count_push(lens_of(before), len, l as nat);
                }
                if len > 15 {
                    assert(la[la.len() - 1] > 15);
                }
                if exists|j: int| 0 <= j < la.len() && #[trigger] la[j] > 15 {
                    let j = choose|j: int| 0 <= j < la.len() && #[trigger] la[j] > 15;
                    if j < lb.len() {
                        assert(lb[j] > 15);
                    }
                }
                if exists|j: int| 0 <= j < lb.len() && #[trigger] lb[j] > 15 {
                    let j = choose|j: int| 0 <= j < lb.len() && #[trigger] lb[j] > 15;
                    assert(la[j] > 15);
                }
            }
        }
        if len > 15 {
            too_long = true;
        } else if len > 0 {
            bl_count.set(len as usize, bl_count[len as usize] + 1);
        }
        i = i + 1;
    }
    proof {
        assert(pairs.take(i as int) =~= pairs);
    }
    if too_long {
        return false;
    }
    let ghost lens = lens_of(nonzero(pairs));
    proof {
        assert(pairs.take(i as int) =~= pairs);
    }
    // kraft: the l-bit prefixes taken by codes of length 1 to l
    let mut kraft: u64 = 0;
    let mut l: usize = 1;
    while l < 16
        invariant
            1 <= l <= 16,
            bl_count@.len() == 16,
            forall|k: int| 1 <= k < 16 ==> #[trigger] bl_count@[k] == count_len(lens, k as nat),
            lens == lens_of(nonzero(code_lengths@)),
            forall|j: int| 0 <= j < lens.len() ==> 1 <= #[trigger] lens[j] <= 15,
            kraft as nat == kraft_at(lens, (l - 1) as nat),
            kraft as nat <= pow2((l - 1) as nat),
            l - 1 <= 15,
        decreases 16 - l,
    {
        proof {
            lemma2_to64();
            vstd::arithmetic::power2::lemma_pow2_strictly_increases((l - 1) as nat, 15);
            lemma_pow2_unfold(l as nat);
        }
        let limit: u64 = 1u64 << (l as u64);
        proof {
            vstd::bits::lemma_u64_shl_is_mul(1, l as u64);
        }
        if bl_count[l] > limit as usize {
            proof {
                lemma_kraft_scaled(lens, l as nat);
                lemma_pow2_adds(l as nat, (15 - l) as nat);
                lemma_pow2_pos((15 - l) as nat);
                let k = kraft_at(lens, l as nat);
                let p = pow2((15 - l) as nat);
                assert(k == 2 * kraft_at(lens, (l - 1) as nat) + count_len(lens, l as nat));
                assert(k >= count_len(lens, l as nat));
                assert(limit == pow2(l as nat));
                assert(k > pow2(l as nat));
                assert(k * p > pow2(l as nat) * p) by (nonlinear_arith)
                    requires
                        k > pow2(l as nat),
                        p > 0,
                ;
                assert(pow2(15) == pow2(l as nat) * p);
                assert(kraft_at(lens, l as nat) * pow2((15 - l) as nat) <= kraft_at(lens, 15));
                assert(kraft_at(lens, 15) > pow2(15));
                assert(!is_prefix_code_lengths(lens));
            }
            return false;
        }
        let next = 2 * kraft + bl_count[l] as u64;
        if next > limit {
            proof {
                lemma_kraft_scaled(lens, l as nat);
                lemma_pow2_adds(l as nat, (15 - l) as nat);
                lemma_pow2_pos((15 - l) as nat);
                let k = kraft_at(lens, l as nat);
                let p = pow2((15 - l) as nat);
                assert(k == 2 * kraft_at(lens, (l - 1) as nat) + count_len(lens, l as nat));
                assert(limit == pow2(l as nat));
                assert(k > pow2(l as nat));
                assert(k * p > pow2(l as nat) * p) by (nonlinear_arith)
                    requires
                        k > pow2(l as nat),
                        p > 0,
                ;
                assert(pow2(15) == pow2(l as nat) * p);
                assert(kraft_at(lens, l as nat) * pow2((15 - l) as nat) <= kraft_at(lens, 15));
                assert(kraft_at(lens, 15) > pow2(15));
                assert(!is_prefix_code_lengths(lens));
            }
            return false;
        }
        kraft = next;
        l = l + 1;
    }
    true
}

proof fn lemma_max_len(lens: Seq<u8>)
    ensures
        forall|i: int| 0 <= i < lens.len() ==> #[trigger] lens[i] as nat <= max_len(lens),
        max_len(lens) == 0 || exists|i: int| 0 <= i < lens.len() && #[trigger] lens[i] as nat == max_len(lens),
    decreases lens.len(),
{
    if lens.len() > 0 {
        let init = lens.drop_last();
        lemma_max_len(init);
        assert forall|i: int| 0 <= i < lens.len() implies #[trigger] lens[i] as nat <= max_len(lens) by {
            if i < init.len() {
                assert(lens[i] == init[i]);
            }
        }
        if max_len(lens) != 0 {
            if lens.last() as nat > max_len(init) {
                assert(lens[lens.len() - 1] as nat == max_len(lens));
            } else {
                let j = choose|j: int| 0 <= j < init.len() && #[trigger] init[j] as nat == max_len(init);
                assert(lens[j] as nat == max_len(lens));
            }
        }
    }
}

proof fn lemma_prefix_max(lens: Seq<u8>)
    requires
        is_prefix_code_lengths(lens),
    ensures
        max_len(lens) <= 15,
        forall|i: int| 0 <= i < lens.len() ==> #[trigger] lens[i] as nat <= max_len(lens),
{
    lemma_max_len(lens);
    if max_len(lens) != 0 {
        let j = choose|j: int| 0 <= j < lens.len() && #[trigger] lens[j] as nat == max_len(lens);
        assert(lens[j] <= 15);
    }
}

/// `c` lies in the block of `2^s` values that start at `code * 2^s` exactly when `c / 2^s` is
/// `code`.
proof fn lemma_div_block(c: nat, code: nat, s: nat)
    ensures
        (c / pow2(s) == code) == (code * pow2(s) <= c && c < (code + 1) * pow2(s)),
{
    lemma_pow2_pos(s);
    let p = pow2(s);
    vstd::arithmetic::div_mod::lemma_fundamental_div_mod(c as int, p as int);
    if code * p <= c && c < (code + 1) * p {
        assert((code + 1) * p == code * p + p) by (nonlinear_arith);
        assert(c == code * p + (c - code * p));
        vstd::arithmetic::div_mod::lemma_fundamental_div_mod_converse(
            c as int,
            p as int,
            code as int,
            (c - code * p) as int,
        );
    }
    if c / p == code {
        assert(c == p * code + c % p);
        assert(code * p <= c && c < (code + 1) * p) by (nonlinear_arith)
            requires
                c == p * code + c % p,
                0 <= c % p < p,
        ;
    }
}

/// One symbol of an alphabet with its canonical code.
#[derive(Clone, Copy, Debug, PartialEq)]
struct SymbolEntry<S> {
    symbol: S,
    length: u8,
    code: u16,
}

/// A canonical Huffman code over symbols of type `S`, with a lookup table indexed by the next
/// `max_code_length` bits of input.
#[derive(Clone, Debug, PartialEq)]
pub struct HuffmanAlphabet<S> {
    symbol_entries: Vec<SymbolEntry<S>>,
    lut: Vec<Option<usize>>,
    max_lut_code: u16,
    max_code_length: u8,
}

/// An optional index, as a mathematical one.
pub open spec fn index_of(o: Option<usize>) -> Option<nat> {
    match o {
        Some(i) => Some(i as nat),
        None => None,
    }
}

/// The entry that the input decodes to at bit `pos`: the one whose code matches the next
/// `max_len(lens)` bits, read most significant first. `None` where the input is too short or
/// no code matches.
pub open spec fn decode_at(lens: Seq<u8>, data: Seq<u8>, pos: nat) -> Option<nat> {
    if pos + max_len(lens) > 8 * data.len() {
        None
    } else {
        decode_index(lens, bits_value(data, pos, max_len(lens), BitOrder::MsbFirst))
    }
}

impl<S: Copy> HuffmanAlphabet<S> {
    /// The (symbol, length) pairs of the alphabet, each length at least 1, in the order in
    /// which the codes were assigned.
    pub closed spec fn pairs(&self) -> Seq<(S, u8)> {
        self.symbol_entries@.map_values(|e: SymbolEntry<S>| (e.symbol, e.length))
    }

    /// The code lengths of the alphabet.
    pub open spec fn lengths(&self) -> Seq<u8> {
        lens_of(self.pairs())
    }

    pub closed spec fn wf(&self) -> bool {
        let lens = self.lengths();
        &&& is_prefix_code_lengths(lens)
        &&& forall|i: int|
            0 <= i < self.symbol_entries@.len() ==> #[trigger] self.symbol_entries@[i].code as nat
                == code_of(lens, i)
        &&& self.max_code_length as nat == max_len(lens)
        &&& self.lut@.len() == pow2(max_len(lens))
        &&& self.max_lut_code as nat == pow2(max_len(lens)) - 1
        &&& forall|c: int|
            0 <= c < self.lut@.len() ==> index_of(#[trigger] self.lut@[c]) == decode_index(
                lens,
                c as nat,
            )
    }

    /// The lengths of a well-formed alphabet form a prefix code.
    pub proof fn lemma_wf_prefix(&self)
        requires
            self.wf(),
        ensures
            is_prefix_code_lengths(self.lengths()),
            self.lengths().len() == self.pairs().len(),
            forall|i: int| 0 <= i < self.pairs().len() ==> 1 <= (#[trigger] self.pairs()[i]).1 <= 15,
    {
        assert forall|i: int| 0 <= i < self.pairs().len() implies 1 <= (#[trigger] self.pairs()[i]).1 <= 15 by {
            assert(self.lengths()[i] == self.pairs()[i].1);
        }
    }

    proof fn lemma_lens_len(&self)
        ensures
            self.lengths().len() == self.symbol_entries@.len(),
            forall|i: int| 0 <= i < self.symbol_entries@.len() ==> #[trigger] self.lengths()[i] == self.symbol_entries@[i].length,
            forall|i: int| 0 <= i < self.symbol_entries@.len() ==> #[trigger] self.pairs()[i] == (self.symbol_entries@[i].symbol, self.symbol_entries@[i].length),
    {
    }

    /// The alphabet whose codes are assigned canonically to the pairs of `code_lengths` whose
    /// length is not zero; a length of zero leaves its symbol out of the alphabet.
    pub fn from_code_lengths(code_lengths: &[(S, u8)]) -> (r: HuffmanAlphabet<S>)
        requires
            is_prefix_code_lengths(lens_of(nonzero(code_lengths@))),
        ensures
            r.wf(),
            r.pairs() == nonzero(code_lengths@),
    {
        let ghost pairs = code_lengths@;
        let mut non_zero: Vec<(S, u8)> = Vec::new();
        let mut max_code_length: u8 = 0;
        let mut i: usize = 0;
        while i < code_lengths.len()
            invariant
                0 <= i <= code_lengths@.len(),
                pairs == code_lengths@,
                non_zero@ == nonzero(pairs.take(i as int)),
                max_code_length as nat == max_len(lens_of(non_zero@)),
                max_code_length <= 255,
            decreases code_lengths@.len() - i,
        {
            let pair = code_lengths[i];
            proof {
                assert(pairs.take(i + 1).drop_last() =~= pairs.take(i as int));
                assert(pairs.take(i + 1).last() == pairs[i as int]);
            }
            if pair.1 > 0 {
                proof {
                    assert(lens_of(non_zero@.push(pair)).drop_last() =~= lens_of(non_zero@));
                }
                non_zero.push(pair);
                if pair.1 > max_code_length {
                    max_code_length = pair.1;
                }
            }
            i = i + 1;
        }
        proof {
            assert(pairs.take(i as int) =~= pairs);
        }
        let ghost lens = lens_of(non_zero@);
        proof {
            lemma_prefix_max(lens);
            lemma2_to64();
            vstd::arithmetic::power2::lemma_pow2_strictly_increases(max_code_length as nat, 16);
            vstd::bits::lemma_u32_shl_is_mul(1, max_code_length as u32);
        }
        let symbol_entries = Self::assign_codes(&non_zero);
        let size: u32 = 1u32 << (max_code_length as u32);
        let mut lut: Vec<Option<usize>> = vec![None; size as usize];
        let mut idx: usize = 0;
        while idx < symbol_entries.len()
            invariant
                0 <= idx <= symbol_entries@.len(),
                symbol_entries@.len() == lens.len(),
                lens == lens_of(non_zero@),
                is_prefix_code_lengths(lens),
                max_code_length as nat == max_len(lens),
                max_code_length <= 15,
                size as nat == pow2(max_code_length as nat),
                lut@.len() == size,
                forall|j: int|
                    0 <= j < symbol_entries@.len() ==> (#[trigger] symbol_entries@[j]).length == lens[j]
                        && symbol_entries@[j].code as nat == code_of(lens, j),
                forall|c: int|
                    0 <= c < lut@.len() ==> index_of(#[trigger] lut@[c]) == last_match(
                        lens,
                        max_len(lens),
                        c as nat,
                        idx as nat,
                    ),
            decreases symbol_entries@.len() - idx,
        {
            let entry = symbol_entries[idx];
            proof {
                lemma_prefix_max(lens);
            }
            let shift = max_code_length - entry.length;
            let ghost code = entry.code as nat;
            let ghost sh = shift as nat;
            proof {
                lemma_prefix_max(lens);
                lemma_code_bound(lens, idx as int);
                lemma2_to64();
                lemma_pow2_adds(entry.length as nat, sh);
                lemma_pow2_pos(sh);
                vstd::arithmetic::power2::lemma_pow2_strictly_increases(sh, 16);
                vstd::bits::lemma_u32_shl_is_mul(1, shift as u32);
                assert((code + 1) * pow2(sh) <= pow2(entry.length as nat) * pow2(sh)) by (nonlinear_arith)
                    requires
                        code + 1 <= pow2(entry.length as nat),
                ;
                assert((code + 1) * pow2(sh) == code * pow2(sh) + pow2(sh)) by (nonlinear_arith);
            }
            let scale: u32 = 1u32 << (shift as u32);
            let start: usize = (entry.code as u32 * scale) as usize;
            let end: usize = ((entry.code as u32 + 1) * scale) as usize;
            let mut c: usize = start;
            while c < end
                invariant
                    start <= c <= end,
                    end <= lut@.len(),
                    lut@.len() == size,
                    forall|d: int|
                        0 <= d < lut@.len() ==> index_of(#[trigger] lut@[d]) == if start <= d < c {
                            Some(idx as nat)
                        } else {
                            last_match(lens, max_len(lens), d as nat, idx as nat)
                        },
                decreases end - c,
            {
                lut.set(c, Some(idx));
                c = c + 1;
            }
            proof {
                assert forall|d: int| 0 <= d < lut@.len() implies index_of(#[trigger] lut@[d]) == last_match(
                    lens,
                    max_len(lens),
                    d as nat,
                    (idx + 1) as nat,
                ) by {
                    lemma_div_block(d as nat, code, sh);
                    assert((max_len(lens) - lens[idx as int]) as nat == sh);
                }
            }
            idx = idx + 1;
        }
        proof {
            assert(max_code_length as nat == max_len(lens));
            assert(symbol_entries@.map_values(|e: SymbolEntry<S>| (e.symbol, e.length)) =~= non_zero@);
        }
        HuffmanAlphabet {
            symbol_entries,
            lut,
            max_lut_code: (size - 1) as u16,
            max_code_length,
        }
    }

    /// The symbol whose code matches the top bits of the `max_code_length`-bit value `code`.
    pub fn lookup(&self, code: u16) -> (r: Option<S>)
        requires
            self.wf(),
            code as nat <= pow2(max_len(self.lengths())) - 1,
        ensures
            r == match decode_index(self.lengths(), code as nat) {
                Some(i) => Some(self.pairs()[i as int].0),
                None => None,
            },
    {
        proof {
            self.lemma_decode_in_range(code as nat);
        }
        match self.lut[code as usize] {
            None => None,
            Some(tree_idx) => Some(self.symbol_entries[tree_idx].symbol),
        }
    }

    proof fn lemma_decode_in_range(&self, c: nat)
        requires
            self.wf(),
        ensures
            forall|i: nat| decode_index(self.lengths(), c) == Some(i) ==> i < self.symbol_entries@.len(),
    {
        assert forall|i: nat| decode_index(self.lengths(), c) == Some(i) implies i < self.symbol_entries@.len() by {
            lemma_last_match_range(self.lengths(), max_len(self.lengths()), c, self.lengths().len());
        }
    }

    /// Decodes the next symbol: peeks the longest code length worth of bits, most significant
    /// first, and consumes as many bits as the code that matches them has.
    pub fn read_next(&self, bits: &mut BitStream) -> (r: Result<S, DecodeError>)
        requires
            self.wf(),
            old(bits).wf(),
        ensures
            final(bits).wf(),
            final(bits).data() == old(bits).data(),
            match r {
                Ok(s) => match decode_at(self.lengths(), old(bits).data(), old(bits).pos()) {
                    Some(i) => {
                        &&& i < self.pairs().len()
                        &&& s == self.pairs()[i as int].0
                        &&& final(bits).pos() == old(bits).pos() + self.pairs()[i as int].1
                    },
                    None => false,
                },
                Err(e) => decode_at(self.lengths(), old(bits).data(), old(bits).pos()) is None && e == if old(
                    bits,
                ).pos() + max_len(self.lengths()) > 8 * old(bits).data().len() {
                    DecodeError::UnexpectedEof
                } else {
                    DecodeError::NoMatchingCode
                },
            },
    {
        proof {
            lemma_prefix_max(self.lengths());
        }
        let peeked = bits.peek_bits(self.max_code_length as usize, BitOrder::MsbFirst);
        let code = match peeked {
            Ok(v) => v,
            Err(e) => {
                return Err(e);
            },
        };
        proof {
            crate::fiddling::lemma_bits_value_bound(bits.data(), bits.pos(), max_len(self.lengths()), BitOrder::MsbFirst);
            self.lemma_decode_in_range(code as nat);
        }
        match self.lut[code as usize] {
            None => Err(DecodeError::NoMatchingCode),
            Some(tree_idx) => {
                let length = self.symbol_entries[tree_idx].length;
                proof {
                    self.lemma_lens_len();
                    assert(self.lengths()[tree_idx as int] == length);
                    assert(decode_index(self.lengths(), code as nat) == Some(tree_idx as nat));
                }
                match bits.skip_bits(length as usize) {
                    Ok(()) => Ok(self.symbol_entries[tree_idx].symbol),
                    Err(e) => Err(e),
                }
            },
        }
    }

    /// Gives each pair its canonical code (RFC 1951, section 3.2.2).
    fn assign_codes(code_lengths: &Vec<(S, u8)>) -> (r: Vec<SymbolEntry<S>>)
        requires
            is_prefix_code_lengths(lens_of(code_lengths@)),
        ensures
            r@.len() == code_lengths@.len(),
            forall|i: int|
                0 <= i < r@.len() ==> (#[trigger] r@[i]).symbol == code_lengths@[i].0 && r@[i].length
                    == code_lengths@[i].1 && r@[i].code as nat == code_of(lens_of(code_lengths@), i),
    {
        let ghost lens = lens_of(code_lengths@);
        let mut bl_count: Vec<u32> = vec![0u32; 16];
        let mut i: usize = 0;
        while i < code_lengths.len()
            invariant
                0 <= i <= code_lengths@.len(),
                lens == lens_of(code_lengths@),
                is_prefix_code_lengths(lens),
                bl_count@.len() == 16,
                bl_count@[0] == 0,
                forall|l: int| 1 <= l < 16 ==> #[trigger] bl_count@[l] as nat == count_len(lens.take(i as int), l as nat),
            decreases code_lengths@.len() - i,
        {
            let len = code_lengths[i].1;
            proof {
                assert(lens[i as int] == len);
                assert forall|l: int| 1 <= l < 16 implies #[trigger] count_len(lens.take(i + 1), l as nat) == count_len(lens.take(i as int), l as nat) + if len as nat == l { 1nat } else { 0nat } by {
                    lemma_count_take_step(lens, i as int, l as nat);
                }
                lemma_count_take_le(lens, i + 1, len as nat);
                lemma_first_code_kraft(lens, len as nat);
                lemma_kraft_bound(lens, len as nat);
                lemma2_to64();
                vstd::arithmetic::power2::lemma_pow2_strictly_increases(len as nat, 16);
                lemma_count_take_step(lens, i as int, len as nat);
            }
            bl_count.set(len as usize, bl_count[len as usize] + 1);
            i = i + 1;
        }
        proof {
            assert(lens.take(i as int) =~= lens);
        }
        let mut next_code: Vec<u32> = vec![0u32; 16];
        let mut code: u32 = 0;
        let mut bits: usize = 1;
        while bits < 16
            invariant
                1 <= bits <= 16,
                lens == lens_of(code_lengths@),
                is_prefix_code_lengths(lens),
                bl_count@.len() == 16,
                next_code@.len() == 16,
                bl_count@[0] == 0,
                forall|l: int| 1 <= l < 16 ==> #[trigger] bl_count@[l] as nat == count_len(lens, l as nat),
                forall|l: int| 1 <= l < bits ==> #[trigger] next_code@[l] as nat == first_code(lens, l as nat),
                code as nat == first_code(lens, (bits - 1) as nat),
            decreases 16 - bits,
        {
            proof {
                lemma_first_code_kraft(lens, bits as nat);
                lemma_kraft_bound(lens, bits as nat);
                if bits > 1 {
                    lemma_first_code_kraft(lens, (bits - 1) as nat);
                    lemma_kraft_bound(lens, (bits - 1) as nat);
                }
                lemma2_to64();
                vstd::arithmetic::power2::lemma_pow2_strictly_increases(bits as nat, 16);
                if bits > 1 {
                    vstd::arithmetic::power2::lemma_pow2_strictly_increases((bits - 1) as nat, 16);
                }
            }
            code = (code + bl_count[bits - 1]) * 2;
            next_code.set(bits, code);
            bits = bits + 1;
        }
        let mut tree: Vec<SymbolEntry<S>> = Vec::new();
        let mut n: usize = 0;
        while n < code_lengths.len()
            invariant
                0 <= n <= code_lengths@.len(),
                lens == lens_of(code_lengths@),
                is_prefix_code_lengths(lens),
                next_code@.len() == 16,
                tree@.len() == n,
                forall|l: int| 1 <= l < 16 ==> #[trigger] next_code@[l] as nat == first_code(lens, l as nat) + count_len(lens.take(n as int), l as nat),
                forall|j: int|
                    0 <= j < n ==> (#[trigger] tree@[j]).symbol == code_lengths@[j].0 && tree@[j].length
                        == code_lengths@[j].1 && tree@[j].code as nat == code_of(lens, j),
            decreases code_lengths@.len() - n,
        {
            let (symbol, len) = code_lengths[n];
            proof {
                assert(lens[n as int] == len);
                lemma_code_bound(lens, n as int);
                lemma2_to64();
                vstd::arithmetic::power2::lemma_pow2_strictly_increases(len as nat, 16);
                assert forall|l: int| 1 <= l < 16 implies #[trigger] count_len(lens.take(n + 1), l as nat) == count_len(lens.take(n as int), l as nat) + if len as nat == l { 1nat } else { 0nat } by {
                    lemma_count_take_step(lens, n as int, l as nat);
                }
                lemma_count_take_le(lens, n as int, len as nat);
                lemma_count_take_step(lens, n as int, len as nat);
                lemma_count_take_le(lens, n + 1, len as nat);
                lemma_first_code_kraft(lens, len as nat);
                lemma_kraft_bound(lens, len as nat);
            }
            let c = next_code[len as usize];
            tree.push(SymbolEntry { symbol, length: len, code: c as u16 });
            next_code.set(len as usize, c + 1);
            n = n + 1;
        }
        tree
    }
}

/// The entry that an input decodes to is an entry of the alphabet.
pub proof fn lemma_decode_at_range(lens: Seq<u8>, data: Seq<u8>, pos: nat)
    ensures
        forall|i: nat| decode_at(lens, data, pos) == Some(i) ==> i < lens.len(),
{
    if pos + max_len(lens) <= 8 * data.len() {
        lemma_last_match_range(lens, max_len(lens), bits_value(data, pos, max_len(lens), BitOrder::MsbFirst), lens.len());
    }
}

proof fn lemma_last_match_range(lens: Seq<u8>, m: nat, c: nat, k: nat)
    ensures
        forall|i: nat| last_match(lens, m, c, k) == Some(i) ==> i < k,
    decreases k,
{
    if k > 0 {
        lemma_last_match_range(lens, m, c, (k - 1) as nat);
    }
}

/// Length of the fixed literal/length code of symbol `i` (RFC 1951, section 3.2.6).
pub open spec fn fixed_literal_length(i: int) -> u8 {
    if i < 144 {
        8
    } else if i < 256 {
        9
    } else if i < 280 {
        7
    } else {
        8
    }
}

/// The fixed literal/length code lengths, for symbols 0 to 287 in order.
pub open spec fn fixed_literal_pairs() -> Seq<(u16, u8)> {
    Seq::new(288, |i: int| (i as u16, fixed_literal_length(i)))
}

/// The fixed distance code lengths: 5 for each of symbols 0 to 31.
pub open spec fn fixed_distance_pairs() -> Seq<(u16, u8)> {
    Seq::new(32, |i: int| (i as u16, 5u8))
}

/// `kraft_at(_, 15)` of the first `i` fixed literal/length code lengths.
spec fn fixed_literal_kraft(i: int) -> int {
    if i <= 144 {
        i * 128
    } else if i <= 256 {
        18432 + (i - 144) * 64
    } else if i <= 280 {
        25600 + (i - 256) * 256
    } else {
        31744 + (i - 280) * 128
    }
}

proof fn lemma_kraft_empty(lens: Seq<u8>, l: nat)
    requires
        lens.len() == 0,
    ensures
        kraft_at(lens, l) == 0,
    decreases l,
{
    if l > 0 {
        lemma_kraft_empty(lens, (l - 1) as nat);
    }
}

proof fn lemma_nonzero_all(pairs: Seq<(u16, u8)>)
    requires
        forall|i: int| 0 <= i < pairs.len() ==> (#[trigger] pairs[i]).1 > 0,
    ensures
        nonzero(pairs) == pairs,
    decreases pairs.len(),
{
    if pairs.len() > 0 {
        lemma_nonzero_all(pairs.drop_last());
        assert(pairs.drop_last().push(pairs.last()) =~= pairs);
    }
}

proof fn lemma_lens_push(v: Seq<(u16, u8)>, x: (u16, u8))
    ensures
        lens_of(v.push(x)) == lens_of(v).push(x.1),
{
    assert(lens_of(v.push(x)) =~= lens_of(v).push(x.1));
}

/// The fixed literal/length code lengths, in symbol order.
pub fn fixed_literal_code_lengths() -> (r: Vec<(u16, u8)>)
    ensures
        r@ == fixed_literal_pairs(),
        is_prefix_code_lengths(lens_of(nonzero(r@))),
{
    let mut v: Vec<(u16, u8)> = Vec::new();
    let mut i: u16 = 0;
    proof {
        lemma_kraft_empty(lens_of(v@), 15);
    }
    while i < 288
        invariant
            0 <= i <= 288,
            v@ == fixed_literal_pairs().take(i as int),
            kraft_at(lens_of(v@), 15) == fixed_literal_kraft(i as int),
            forall|j: int| 0 <= j < lens_of(v@).len() ==> 1 <= #[trigger] lens_of(v@)[j] <= 15,
        decreases 288 - i,
    {
        let len: u8 = if i < 144 {
            8
        } else if i < 256 {
            9
        } else if i < 280 {
            7
        } else {
            8
        };
        proof {
            lemma_lens_push(v@, (i, len));
            lemma_kraft_push(lens_of(v@), len, 15);
            lemma2_to64();
            assert(fixed_literal_pairs().take(i + 1) =~= fixed_literal_pairs().take(i as int).push((i, len)));
        }
        v.push((i, len));
        i = i + 1;
    }
    proof {
        assert(fixed_literal_pairs().take(288) =~= fixed_literal_pairs());
        lemma_nonzero_all(v@);
        lemma2_to64();
    }
    v
}

/// The fixed distance code lengths, in symbol order.
pub fn fixed_distance_code_lengths() -> (r: Vec<(u16, u8)>)
    ensures
        r@ == fixed_distance_pairs(),
        is_prefix_code_lengths(lens_of(nonzero(r@))),
{
    let mut v: Vec<(u16, u8)> = Vec::new();
    let mut i: u16 = 0;
    proof {
        lemma_kraft_empty(lens_of(v@), 15);
    }
    while i < 32
        invariant
            0 <= i <= 32,
            v@ == fixed_distance_pairs().take(i as int),
            kraft_at(lens_of(v@), 15) == i * 1024,
            forall|j: int| 0 <= j < lens_of(v@).len() ==> #[trigger] lens_of(v@)[j] == 5,
        decreases 32 - i,
    {
        proof {
            lemma_lens_push(v@, (i, 5u8));
            lemma_kraft_push(lens_of(v@), 5u8, 15);
            lemma2_to64();
            assert(fixed_distance_pairs().take(i + 1) =~= fixed_distance_pairs().take(i as int).push((i, 5u8)));
        }
        v.push((i, 5));
        i = i + 1;
    }
    proof {
        assert(fixed_distance_pairs().take(32) =~= fixed_distance_pairs());
        lemma_nonzero_all(v@);
        lemma2_to64();
    }
    v
}

impl HuffmanAlphabet<u16> {
    /// The fixed literal/length alphabet of DEFLATE: `from_code_lengths` of the fixed lengths.
    pub fn static_alphabet() -> (r: HuffmanAlphabet<u16>)
        ensures
            r.wf(),
            r.pairs() == nonzero(fixed_literal_pairs()),
    {
        let lengths = fixed_literal_code_lengths();
        HuffmanAlphabet::from_code_lengths(lengths.as_slice())
    }

    /// The fixed distance alphabet of DEFLATE: `from_code_lengths` of the fixed lengths.
    pub fn static_distance_alphabet() -> (r: HuffmanAlphabet<u16>)
        ensures
            r.wf(),
            r.pairs() == nonzero(fixed_distance_pairs()),
    {
        let lengths = fixed_distance_code_lengths();
        HuffmanAlphabet::from_code_lengths(lengths.as_slice())
    }
}

} // verus!
