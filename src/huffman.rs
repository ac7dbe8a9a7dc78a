use vstd::prelude::*;

use crate::bits::{
    bits_msb, lemma_bits_msb_bound, lemma_two_pow_16, lemma_two_pow_grows, lemma_two_pow_mono,
    two_pow, BitStream,
};
use crate::error::InflateError;

verus! {

/// The longest code DEFLATE allows.
pub const MAX_CODE_LEN: usize = 15;

/// Number of symbols among the first `n` of `lens` whose code length is `len`.
pub open spec fn count_len(lens: Seq<usize>, len: nat, n: int) -> nat
    decreases n,
{
    if n <= 0 {
        0
    } else {
        count_len(lens, len, n - 1) + if lens[n - 1] == len {
            1nat
        } else {
            0nat
        }
    }
}

/// The code of the first symbol of length `len`: codes of each length follow on
/// from the codes of the length before, shifted left by one bit.
pub open spec fn first_code(lens: Seq<usize>, len: nat) -> nat
    decreases len,
{
    if len == 0 {
        0
    } else {
        let prev = (len - 1) as nat;
        2 * (first_code(lens, prev) + if prev == 0 {
            0
        } else {
            count_len(lens, prev, lens.len() as int)
        })
    }
}

/// The canonical code of symbol `s`: the next free code of its length, in
/// symbol order.
pub open spec fn code_of(lens: Seq<usize>, s: int) -> nat {
    first_code(lens, lens[s] as nat) + count_len(lens, lens[s] as nat, s)
}

/// Code lengths that a code can be built from.
pub open spec fn lengths_ok(lens: Seq<usize>) -> bool {
    lens.len() <= 512 && forall|i: int| 0 <= i < lens.len() ==> lens[i] <= MAX_CODE_LEN
}

/// The first symbol `t >= s` below `n` whose code has length `len` and value `code`.
pub open spec fn find_symbol(lens: Seq<usize>, n: int, len: nat, code: nat, s: int) -> Option<nat>
    decreases n - s,
{
    if s >= n || s < 0 {
        None
    } else if lens[s] == len && code_of(lens, s) == code {
        Some(s as nat)
    } else {
        find_symbol(lens, n, len, code, s + 1)
    }
}

/// Decoding one symbol with the code of `lens` (symbols below `n`) from bit `pos`,
/// having found no code shorter than `len`: the symbol and the position after it.
pub open spec fn decode_from(lens: Seq<usize>, n: int, d: Seq<u8>, pos: int, len: nat) -> Result<
    (nat, int),
    InflateError,
>
    decreases 16 - len,
{
    if len == 0 || len > MAX_CODE_LEN {
        Err(InflateError::InvalidCode)
    } else if pos + len > 8 * d.len() {
        Err(InflateError::Truncated)
    } else {
        match find_symbol(lens, n, len, bits_msb(d, pos, len), 0) {
            Some(s) => Ok((s, pos + len)),
            None => decode_from(lens, n, d, pos, len + 1),
        }
    }
}

/// Decoding one symbol from bit `pos`: the shortest code that matches wins.
pub open spec fn decode_spec(lens: Seq<usize>, n: int, d: Seq<u8>, pos: int) -> Result<
    (nat, int),
    InflateError,
> {
    decode_from(lens, n, d, pos, 1)
}

/// A canonical prefix code, held as the code length and code of each symbol.
pub struct HuffmanCode {
    pub lens: Vec<usize>,
    pub codes: Vec<usize>,
    /// Only symbols below this bound are decoded.
    pub n: usize,
    /// The first code of each length.
    pub first: Vec<usize>,
    /// Where the symbols of each length start in `sorted`.
    pub offsets: Vec<usize>,
    /// The decodable symbols with a code, by length, then in symbol order.
    pub sorted: Vec<usize>,
}

impl HuffmanCode {
    pub open spec fn wf(&self) -> bool {
        &&& lengths_ok(self.lens@)
        &&& self.codes.len() == self.lens.len()
        &&& self.n <= self.lens.len()
        &&& forall|s: int|
            0 <= s < self.lens.len() && self.lens[s] > 0 ==> self.codes[s] == code_of(
                self.lens@,
                s,
            )
        &&& self.first.len() == 16
        &&& forall|l: int| 1 <= l < 16 ==> self.first[l] == first_code(self.lens@, l as nat)
        &&& self.offsets.len() == 17
        &&& forall|l: int|
            1 <= l < 16 ==> #[trigger] self.offsets[l] + count_len(
                self.lens@,
                l as nat,
                self.n as int,
            ) == self.offsets[l + 1]
        &&& forall|l: int| 1 <= l <= 16 ==> self.offsets[l] <= self.sorted.len()
        &&& forall|l: int, k: int|
            1 <= l < 16 && 0 <= k < count_len(self.lens@, l as nat, self.n as int) ==> {
                let s = (#[trigger] self.sorted[self.offsets[l] + k]) as int;
                0 <= s < self.n && self.lens[s] == l && count_len(self.lens@, l as nat, s) == k
            }
    }
}

pub proof fn lemma_count_len_le(lens: Seq<usize>, len: nat, n: int)
    ensures
        count_len(lens, len, n) <= if n < 0 {
            0
        } else {
            n
        },
    decreases n,
{
    if n > 0 {
        lemma_count_len_le(lens, len, n - 1);
    }
}

/// Codes stay small enough for machine words.
pub proof fn lemma_first_code_bound(lens: Seq<usize>, len: nat)
    requires
        lens.len() <= 512,
    ensures
        first_code(lens, len) + 1024 <= 1024 * two_pow(len),
    decreases len,
{
    lemma_two_pow_grows(len);
    if len > 0 {
        let prev = (len - 1) as nat;
        lemma_first_code_bound(lens, prev);
        lemma_two_pow_grows(prev);
        lemma_count_len_le(lens, prev, lens.len() as int);
    }
}

/// Builds the canonical code of the code lengths `lens` (0: the symbol has no
/// code); symbols above `until` take part in the construction but are never
/// decoded.
pub fn huffman_from_bit_length(lens: &[usize], until: usize) -> (r: HuffmanCode)
    requires
        lengths_ok(lens@),
    ensures
        r.wf(),
        r.lens@ == lens@,
        r.n as int == if until < lens.len() {
            until + 1
        } else {
            lens.len() as int
        },
{
    let mut bl_count: Vec<usize> = vec![0; 16];
    let mut own: Vec<usize> = Vec::new();
    let mut i: usize = 0;
    while i < lens.len()
        invariant
            lengths_ok(lens@),
            i <= lens.len(),
            own@ == lens@.subrange(0, i as int),
            bl_count.len() == 16,
            forall|l: int| 0 <= l < 16 ==> bl_count[l] == count_len(lens@, l as nat, i as int),
        decreases lens.len() - i,
    {
        let l = lens[i];
        proof {
            lemma_count_len_le(lens@, l as nat, i as int);
        }
        bl_count.set(l, bl_count[l] + 1);
        own.push(l);
        i = i + 1;
    }
    assert(own@ =~= lens@);
    let mut next_code: Vec<usize> = vec![0; 16];
    let mut first: Vec<usize> = vec![0; 16];
    let mut code: usize = 0;
    let mut bits: usize = 1;
    while bits < 16
        invariant
            first.len() == 16,
            forall|l: int| 1 <= l < bits ==> first[l] == first_code(lens@, l as nat),
            lengths_ok(lens@),
            1 <= bits <= 16,
            bl_count.len() == 16,
            forall|l: int|
                0 <= l < 16 ==> bl_count[l] == count_len(lens@, l as nat, lens.len() as int),
            next_code.len() == 16,
            forall|l: int| 1 <= l < bits ==> next_code[l] == first_code(lens@, l as nat),
            code == first_code(lens@, (bits - 1) as nat),
        decreases 16 - bits,
    {
        proof {
            lemma_first_code_bound(lens@, bits as nat);
            lemma_two_pow_mono(bits as nat, 16);
            lemma_two_pow_16();
        }
        let prev_count = if bits == 1 { 0 } else { bl_count[bits - 1] };
        code = 2 * (code + prev_count);
        next_code.set(bits, code);
        first.set(bits, code);
        bits = bits + 1;
    }
    let mut codes: Vec<usize> = Vec::new();
    let mut s: usize = 0;
    while s < lens.len()
        invariant
            first.len() == 16,
            forall|l: int| 1 <= l < 16 ==> first[l] == first_code(lens@, l as nat),
            lengths_ok(lens@),
            s <= lens.len(),
            next_code.len() == 16,
            forall|l: int|
                1 <= l < 16 ==> next_code[l] == first_code(lens@, l as nat) + count_len(
                    lens@,
                    l as nat,
                    s as int,
                ),
            codes.len() == s,
            forall|t: int| 0 <= t < s && lens[t] > 0 ==> codes[t] == code_of(lens@, t),
        decreases lens.len() - s,
    {
        let l = lens[s];
        if l == 0 {
            codes.push(0);
        } else {
            proof {
                lemma_first_code_bound(lens@, l as nat);
                lemma_two_pow_mono(l as nat, 16);
                lemma_two_pow_16();
                lemma_count_len_le(lens@, l as nat, s as int);
            }
            codes.push(next_code[l]);
            next_code.set(l, next_code[l] + 1);
        }
        s = s + 1;
    }
    let n = if until < lens.len() { until + 1 } else { lens.len() };
    let mut sorted: Vec<usize> = Vec::new();
    let mut offsets: Vec<usize> = vec![0; 17];
    let mut l: usize = 1;
    while l < 16
        invariant
            lengths_ok(lens@),
            n <= lens.len(),
            1 <= l <= 16,
            offsets.len() == 17,
            forall|m: int|
                1 <= m < l - 1 ==> #[trigger] offsets[m] + count_len(lens@, m as nat, n as int)
                    == offsets[m + 1],
            l > 1 ==> offsets[l - 1] + count_len(lens@, (l - 1) as nat, n as int) == sorted.len(),
            forall|m: int| 1 <= m < l ==> offsets[m] <= sorted.len(),
            forall|m: int, k: int|
                1 <= m < l && 0 <= k < count_len(lens@, m as nat, n as int) ==> {
                    let t = (#[trigger] sorted[offsets[m] + k]) as int;
                    0 <= t < n && lens[t] == m && count_len(lens@, m as nat, t) == k
                },
        decreases 16 - l,
    {
        offsets.set(l, sorted.len());
        let ghost before = sorted@;
        let mut t: usize = 0;
        while t < n
            invariant
                lengths_ok(lens@),
                n <= lens.len(),
                1 <= l < 16,
                offsets.len() == 17,
                offsets[l as int] == before.len(),
                t <= n,
                sorted.len() == before.len() + count_len(lens@, l as nat, t as int),
                forall|j: int| 0 <= j < before.len() ==> sorted[j] == before[j],
                forall|k: int|
                    0 <= k < count_len(lens@, l as nat, t as int) ==> {
                        let u = (#[trigger] sorted[before.len() + k]) as int;
                        0 <= u < t && lens[u] == l && count_len(lens@, l as nat, u) == k
                    },
            decreases n - t,
        {
            proof {
                lemma_count_len_le(lens@, l as nat, t as int);
            }
            if lens[t] == l {
                sorted.push(t);
            }
            t = t + 1;
        }
        proof {
            assert forall|m: int, k: int|
                1 <= m < l + 1 && 0 <= k < count_len(lens@, m as nat, n as int) implies {
                let u = (#[trigger] sorted[offsets[m] + k]) as int;
                0 <= u < n && lens[u] == m && count_len(lens@, m as nat, u) == k
            } by {
                if m < l {
                    assert(sorted[offsets[m] + k] == before[offsets[m] + k]);
                }
            }
        }
        l = l + 1;
    }
    offsets.set(16, sorted.len());
    HuffmanCode { lens: own, codes, n, first, offsets, sorted }
}

proof fn lemma_find_symbol_first(lens: Seq<usize>, n: int, len: nat, code: nat, j: int, s: int)
    requires
        0 <= j <= s < n,
        n <= lens.len(),
        lens[s] == len && code_of(lens, s) == code,
        forall|t: int| j <= t < s ==> !(lens[t] == len && code_of(lens, t) == code),
    ensures
        find_symbol(lens, n, len, code, j) == Some(s as nat),
    decreases s - j,
{
    if j < s {
        lemma_find_symbol_first(lens, n, len, code, j + 1, s);
    }
}

proof fn lemma_find_symbol_none(lens: Seq<usize>, n: int, len: nat, code: nat, j: int)
    requires
        0 <= j,
        n <= lens.len(),
        forall|t: int| j <= t < n ==> !(lens[t] == len && code_of(lens, t) == code),
    ensures
        find_symbol(lens, n, len, code, j) is None,
    decreases n - j,
{
    if j < n {
        lemma_find_symbol_none(lens, n, len, code, j + 1);
    }
}

/// Where the code `code` of length `len` stands among the codes of that length,
/// the symbol found there is what `find_symbol` finds; elsewhere it finds none.
proof fn lemma_table_lookup(tree: &HuffmanCode, len: nat, code: nat)
    requires
        tree.wf(),
        1 <= len < 16,
    ensures
        ({
            let f = first_code(tree.lens@, len);
            let c = count_len(tree.lens@, len, tree.n as int);
            if f <= code < f + c {
                find_symbol(tree.lens@, tree.n as int, len, code, 0) == Some(
                    tree.sorted[tree.offsets[len as int] + code - f] as nat,
                )
            } else {
                find_symbol(tree.lens@, tree.n as int, len, code, 0) is None
            }
        }),
{
    let lens = tree.lens@;
    let n = tree.n as int;
    let f = first_code(lens, len);
    let c = count_len(lens, len, n);
    assert forall|t: int| 0 <= t < n && lens[t] == len implies f <= code_of(lens, t) < f + c by {
        lemma_count_len_mono(lens, len, t + 1, n);
    }
    if f <= code < f + c {
        let k = code - f;
        let s = tree.sorted[tree.offsets[len as int] + k] as int;
        assert forall|t: int| 0 <= t < s implies !(lens[t] == len && code_of(lens, t) == code) by {
            if lens[t] == len {
                lemma_count_len_mono(lens, len, t + 1, s);
            }
        }
        lemma_find_symbol_first(lens, n, len, code, 0, s);
    } else {
        lemma_find_symbol_none(lens, n, len, code, 0);
    }
}

/// Reads one symbol of `tree` from the stream, a bit at a time, until the bits
/// read are the code of a symbol: the codes of each length are consecutive, so
/// the symbol is found by its place among them.
pub fn process_symbol(it: &mut BitStream, tree: &HuffmanCode) -> (r: Result<usize, InflateError>)
    requires
        old(it).wf(),
        tree.wf(),
    ensures
        final(it).wf(),
        final(it).data@ == old(it).data@,
        match decode_spec(tree.lens@, tree.n as int, old(it).data@, old(it).pos as int) {
            Ok((sym, end)) => r == Ok::<usize, InflateError>(sym as usize) && final(it).pos == end
                && sym < tree.n,
            Err(e) => r == Err::<usize, InflateError>(e),
        },
{
    let ghost d = it.data@;
    let ghost start = it.pos as int;
    let mut code: usize = 0;
    let mut len: usize = 1;
    loop
        invariant
            it.wf(),
            tree.wf(),
            it.data@ == d,
            d == old(it).data@,
            start == old(it).pos,
            1 <= len <= MAX_CODE_LEN,
            it.pos == start + len - 1,
            code == bits_msb(d, start, (len - 1) as nat),
            decode_spec(tree.lens@, tree.n as int, d, start) == decode_from(
                tree.lens@,
                tree.n as int,
                d,
                start,
                len as nat,
            ),
        decreases 16 - len,
    {
        let b = match it.next_bit() {
            Ok(b) => b,
            Err(e) => {
                return Err(e);
            },
        };
        proof {
            lemma_bits_msb_bound(d, start, (len - 1) as nat);
            lemma_two_pow_mono((len - 1) as nat, 16);
            lemma_two_pow_16();
        }
        code = 2 * code + b as usize;
        let f = tree.first[len];
        let offset = tree.offsets[len];
        let count = tree.offsets[len + 1] - offset;
        proof {
            lemma_table_lookup(tree, len as nat, code as nat);
        }
        if code >= f && code - f < count {
            return Ok(tree.sorted[offset + (code - f)]);
        }
        if len == MAX_CODE_LEN {
            assert(decode_from(tree.lens@, tree.n as int, d, start, 16) == Err::<(nat, int), InflateError>(
                InflateError::InvalidCode,
            ));
            return Err(InflateError::InvalidCode);
        }
        len = len + 1;
    }
}

pub proof fn lemma_count_len_mono(lens: Seq<usize>, len: nat, a: int, b: int)
    requires
        0 <= a <= b <= lens.len(),
    ensures
        count_len(lens, len, a) <= count_len(lens, len, b),
    decreases b - a,
{
    if a < b {
        lemma_count_len_mono(lens, len, a, b - 1);
    }
}

pub proof fn lemma_count_len_skip(lens: Seq<usize>, len: nat, a: int, b: int)
    requires
        0 <= a <= b <= lens.len(),
        forall|u: int| a <= u < b ==> lens[u] != len,
    ensures
        count_len(lens, len, a) == count_len(lens, len, b),
    decreases b - a,
{
    if a < b {
        lemma_count_len_skip(lens, len, a, b - 1);
    }
}

/// Codes of one length are consecutive integers in symbol order: the code of
/// `t` exceeds that of `s` by the number of symbols of that length from `s` up
/// to `t`, and by exactly one when none lies between them.
pub proof fn lemma_codes_consecutive(lens: Seq<usize>, s: int, t: int)
    requires
        0 <= s < t < lens.len(),
        lens[s] == lens[t],
        lens[s] > 0,
    ensures
        code_of(lens, t) == code_of(lens, s) + count_len(lens, lens[s] as nat, t) - count_len(
            lens,
            lens[s] as nat,
            s,
        ),
        count_len(lens, lens[s] as nat, t) > count_len(lens, lens[s] as nat, s),
        (forall|u: int| s < u < t ==> lens[u] != lens[s]) ==> code_of(lens, t) == code_of(lens, s)
            + 1,
{
    let l = lens[s] as nat;
    lemma_count_len_mono(lens, l, s + 1, t);
    if forall|u: int| s < u < t ==> lens[u] != lens[s] {
        lemma_count_len_skip(lens, l, s + 1, t);
    }
}

pub proof fn lemma_first_code_grows(lens: Seq<usize>, l: nat, m: nat)
    requires
        1 <= l < m,
    ensures
        first_code(lens, m) >= two_pow((m - l) as nat) * (first_code(lens, l) + count_len(
            lens,
            l,
            lens.len() as int,
        )),
    decreases m - l,
{
    let x = first_code(lens, l) + count_len(lens, l, lens.len() as int);
    if m == l + 1 {
        lemma_two_pow_grows(0);
    } else {
        let prev = (m - 1) as nat;
        lemma_first_code_grows(lens, l, prev);
        lemma_two_pow_grows((prev - l) as nat);
        let p = two_pow((prev - l) as nat);
        let f = first_code(lens, prev);
        assert(first_code(lens, m) >= 2 * f);
        assert(2 * f >= 2 * p * x) by (nonlinear_arith)
            requires
                f >= p * x,
        ;
    }
}

/// Shorter codes come first: the code of `t`, cut to the length of the
/// shorter code of `s`, is above the code of `s`; that is, the code of `s` plus
/// one, shifted left by the difference in length, is at most the code of `t`.
pub proof fn lemma_shorter_codes_precede(lens: Seq<usize>, s: int, t: int)
    requires
        0 <= s < lens.len(),
        0 <= t < lens.len(),
        0 < lens[s] < lens[t],
    ensures
        (code_of(lens, s) + 1) * two_pow((lens[t] - lens[s]) as nat) <= code_of(lens, t),
{
    let l = lens[s] as nat;
    let m = lens[t] as nat;
    lemma_count_len_mono(lens, l, s + 1, lens.len() as int);
    lemma_first_code_grows(lens, l, m);
    let p = two_pow((m - l) as nat);
    let x = first_code(lens, l) + count_len(lens, l, lens.len() as int);
    assert((code_of(lens, s) + 1) * p <= x * p) by (nonlinear_arith)
        requires
            code_of(lens, s) + 1 <= x,
    ;
}

} // verus!
