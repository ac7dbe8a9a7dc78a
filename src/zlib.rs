use vstd::prelude::*;

use crate::bits::{align_up, bits_lsb, lemma_bits_lsb_small, two_pow, BitStream};
use crate::error::InflateError;
use crate::huffman::{decode_from, decode_spec, find_symbol, huffman_from_bit_length, process_symbol, HuffmanCode};

verus! {

/// Base copy length of length symbols 257 to 285.
pub open spec fn length_base() -> Seq<usize> {
    seq![
        3usize, 4, 5, 6, 7, 8, 9, 10, 11, 13, 15, 17, 19, 23, 27, 31, 35, 43, 51, 59, 67, 83, 99,
        115, 131, 163, 195, 227, 258,
    ]
}

/// Extra bits of length symbols 257 to 285.
pub open spec fn length_extra() -> Seq<usize> {
    seq![
        0usize, 0, 0, 0, 0, 0, 0, 0, 1, 1, 1, 1, 2, 2, 2, 2, 3, 3, 3, 3, 4, 4, 4, 4, 5, 5, 5, 5, 0,
    ]
}

/// Base distance of distance symbols 0 to 29.
pub open spec fn dist_base() -> Seq<usize> {
    seq![
        1usize, 2, 3, 4, 5, 7, 9, 13, 17, 25, 33, 49, 65, 97, 129, 193, 257, 385, 513, 769, 1025,
        1537, 2049, 3073, 4097, 6145, 8193, 12289, 16385, 24577,
    ]
}

/// Extra bits of distance symbols 0 to 29.
pub open spec fn dist_extra() -> Seq<usize> {
    seq![
        0usize, 0, 0, 0, 1, 1, 2, 2, 3, 3, 4, 4, 5, 5, 6, 6, 7, 7, 8, 8, 9, 9, 10, 10, 11, 11, 12,
        12, 13, 13,
    ]
}

/// The order in which the code lengths of the code-length code are sent.
pub open spec fn cl_order() -> Seq<usize> {
    seq![16usize, 17, 18, 0, 8, 7, 9, 6, 10, 5, 11, 4, 12, 3, 13, 2, 14, 1, 15]
}

/// Code lengths of the fixed literal/length code.
pub open spec fn fixed_ll_lengths() -> Seq<usize> {
    Seq::new(
        288,
        |i: int|
            if i < 144 {
                8usize
            } else if i < 256 {
                9usize
            } else if i < 280 {
                7usize
            } else {
                8usize
            },
    )
}

/// Code lengths of the fixed distance code.
pub open spec fn fixed_dist_lengths() -> Seq<usize> {
    Seq::new(32, |i: int| 5usize)
}

/// `out` followed by `len` bytes, each copied from `dist` bytes before the
/// end of what has been written so far (so a copy may read its own output).
pub open spec fn copy_back(out: Seq<u8>, dist: nat, len: nat) -> Seq<u8>
    decreases len,
{
    if len == 0 {
        out
    } else {
        let prev = copy_back(out, dist, (len - 1) as nat);
        prev.push(prev[prev.len() - dist])
    }
}

/// Number of decodable symbols of a code built with the bound 285.
pub open spec fn decodable(lens: Seq<usize>) -> int {
    if lens.len() < 286 {
        lens.len() as int
    } else {
        286
    }
}

pub proof fn lemma_decode_from_advances(lens: Seq<usize>, n: int, d: Seq<u8>, pos: int, len: nat)
    ensures
        decode_from(lens, n, d, pos, len) is Ok ==> pos < decode_from(lens, n, d, pos, len)->Ok_0.1
            <= 8 * d.len() && decode_from(lens, n, d, pos, len)->Ok_0.0 < n,
    decreases 16 - len,
{
    if len != 0 && len <= 15 && pos + len <= 8 * d.len() {
        lemma_find_symbol_below(lens, n, len, crate::bits::bits_msb(d, pos, len), 0);
        lemma_decode_from_advances(lens, n, d, pos, len + 1);
    }
}

pub proof fn lemma_find_symbol_below(lens: Seq<usize>, n: int, len: nat, code: nat, s: int)
    ensures
        find_symbol(lens, n, len, code, s) matches Some(t) ==> t < n,
    decreases n - s,
{
    if s < n && s >= 0 {
        lemma_find_symbol_below(lens, n, len, code, s + 1);
    }
}

pub proof fn lemma_decode_advances(lens: Seq<usize>, n: int, d: Seq<u8>, pos: int)
    ensures
        decode_spec(lens, n, d, pos) is Ok ==> pos < decode_spec(lens, n, d, pos)->Ok_0.1 <= 8
            * d.len() && decode_spec(lens, n, d, pos)->Ok_0.0 < n,
{
    lemma_decode_from_advances(lens, n, d, pos, 1);
}

/// Decoding the symbols of a Huffman-coded block from bit `pos`, up to and
/// including its end-of-block symbol: the position after it and the output.
#[verifier::opaque]
pub open spec fn run_codes(
    ll: Seq<usize>,
    lln: int,
    dl: Seq<usize>,
    dn: int,
    d: Seq<u8>,
    pos: int,
    out: Seq<u8>,
) -> Result<(int, Seq<u8>), InflateError>
    decreases 8 * d.len() - pos,
    via run_codes_decreases
{
    match decode_spec(ll, lln, d, pos) {
        Err(e) => Err(e),
        Ok((sym, next)) => {
            if sym < 256 {
                run_codes(ll, lln, dl, dn, d, next, out.push(sym as u8))
            } else if sym == 256 {
                Ok((next, out))
            } else if sym > 285 {
                Err(InflateError::InvalidSymbol)
            } else {
                let i = sym - 257;
                let le = length_extra()[i] as nat;
                if next + le > 8 * d.len() {
                    Err(InflateError::Truncated)
                } else {
                    let length = (length_base()[i] + bits_lsb(d, next, le)) as nat;
                    match decode_spec(dl, dn, d, next + le) {
                        Err(e) => Err(e),
                        Ok((ds, dnext)) => {
                            if ds >= 30 {
                                Err(InflateError::InvalidDistanceSymbol)
                            } else {
                                let de = dist_extra()[ds as int] as nat;
                                if dnext + de > 8 * d.len() {
                                    Err(InflateError::Truncated)
                                } else {
                                    let dist = (dist_base()[ds as int] + bits_lsb(d, dnext, de)) as nat;
                                    if dist > out.len() {
                                        Err(InflateError::DistanceTooFar)
                                    } else {
                                        run_codes(
                                            ll,
                                            lln,
                                            dl,
                                            dn,
                                            d,
                                            dnext + de,
                                            copy_back(out, dist, length),
                                        )
                                    }
                                }
                            }
                        },
                    }
                }
            }
        },
    }
}

#[via_fn]
proof fn run_codes_decreases(
    ll: Seq<usize>,
    lln: int,
    dl: Seq<usize>,
    dn: int,
    d: Seq<u8>,
    pos: int,
    out: Seq<u8>,
) {
    lemma_decode_advances(ll, lln, d, pos);
    match decode_spec(ll, lln, d, pos) {
        Ok((sym, next)) => {
            if 256 < sym <= 285 {
                let le = length_extra()[sym - 257] as nat;
                lemma_decode_advances(dl, dn, d, next + le);
            }
        },
        Err(_) => {},
    }
}

pub proof fn lemma_run_codes_advances(
    ll: Seq<usize>,
    lln: int,
    dl: Seq<usize>,
    dn: int,
    d: Seq<u8>,
    pos: int,
    out: Seq<u8>,
)
    ensures
        run_codes(ll, lln, dl, dn, d, pos, out) is Ok ==> pos < run_codes(
            ll,
            lln,
            dl,
            dn,
            d,
            pos,
            out,
        )->Ok_0.0 <= 8 * d.len(),
    decreases 8 * d.len() - pos,
{
    reveal(run_codes);
    lemma_decode_advances(ll, lln, d, pos);
    match decode_spec(ll, lln, d, pos) {
        Ok((sym, next)) => {
            if sym < 256 {
                lemma_run_codes_advances(ll, lln, dl, dn, d, next, out.push(sym as u8));
            } else if 256 < sym <= 285 {
                let i = sym - 257;
                let le = length_extra()[i] as nat;
                lemma_decode_advances(dl, dn, d, next + le);
                if next + le <= 8 * d.len() {
                    let length = (length_base()[i] + bits_lsb(d, next, le)) as nat;
                    match decode_spec(dl, dn, d, next + le) {
                        Ok((ds, dnext)) => {
                            let de = if ds < 30 {
                                dist_extra()[ds as int] as nat
                            } else {
                                0
                            };
                            if ds < 30 && dnext + de <= 8 * d.len() {
                                let dist = (dist_base()[ds as int] + bits_lsb(d, dnext, de)) as nat;
                                lemma_run_codes_advances(
                                    ll,
                                    lln,
                                    dl,
                                    dn,
                                    d,
                                    dnext + de,
                                    copy_back(out, dist, length),
                                );
                            }
                        },
                        Err(_) => {},
                    }
                }
            }
        },
        Err(_) => {},
    }
}

/// The code lengths of the code-length code after reading `k` of them, 3 bits
/// each from bit `pos`, in their order of transmission; the others are 0.
pub open spec fn cl_lengths(d: Seq<u8>, pos: int, k: nat) -> Seq<usize>
    decreases k,
{
    if k == 0 {
        Seq::new(19, |i: int| 0usize)
    } else {
        cl_lengths(d, pos, (k - 1) as nat).update(
            cl_order()[k - 1] as int,
            bits_lsb(d, pos + 3 * (k - 1), 3) as usize,
        )
    }
}

/// Decoding the run-length coded code lengths of a dynamic block from bit
/// `pos`, with `acc` read so far, until at least `total` are known.
#[verifier::opaque]
pub open spec fn read_lengths(cl: Seq<usize>, d: Seq<u8>, pos: int, acc: Seq<usize>, total: nat) -> Result<
    (int, Seq<usize>),
    InflateError,
>
    decreases 8 * d.len() - pos,
    via read_lengths_decreases
{
    if acc.len() >= total {
        Ok((pos, acc))
    } else {
        match decode_spec(cl, 19, d, pos) {
            Err(e) => Err(e),
            Ok((sym, next)) => {
                if sym <= 15 {
                    read_lengths(cl, d, next, acc.push(sym as usize), total)
                } else if sym == 16 {
                    if acc.len() == 0 {
                        Err(InflateError::RepeatWithoutLength)
                    } else if next + 2 > 8 * d.len() {
                        Err(InflateError::Truncated)
                    } else {
                        let times = bits_lsb(d, next, 2) + 3;
                        read_lengths(cl, d, next + 2, acc + Seq::new(times, |i: int| acc.last()), total)
                    }
                } else if sym == 17 {
                    if next + 3 > 8 * d.len() {
                        Err(InflateError::Truncated)
                    } else {
                        let times = bits_lsb(d, next, 3) + 3;
                        read_lengths(cl, d, next + 3, acc + Seq::new(times, |i: int| 0usize), total)
                    }
                } else {
                    if next + 7 > 8 * d.len() {
                        Err(InflateError::Truncated)
                    } else {
                        let times = bits_lsb(d, next, 7) + 11;
                        read_lengths(cl, d, next + 7, acc + Seq::new(times, |i: int| 0usize), total)
                    }
                }
            },
        }
    }
}

#[via_fn]
proof fn read_lengths_decreases(cl: Seq<usize>, d: Seq<u8>, pos: int, acc: Seq<usize>, total: nat) {
    lemma_decode_advances(cl, 19, d, pos);
}

pub proof fn lemma_read_lengths_advances(
    cl: Seq<usize>,
    d: Seq<u8>,
    pos: int,
    acc: Seq<usize>,
    total: nat,
)
    ensures
        read_lengths(cl, d, pos, acc, total) is Ok ==> pos <= read_lengths(
            cl,
            d,
            pos,
            acc,
            total,
        )->Ok_0.0,
    decreases 8 * d.len() - pos,
{
    reveal(read_lengths);
    if acc.len() < total {
        lemma_decode_advances(cl, 19, d, pos);
        match decode_spec(cl, 19, d, pos) {
            Ok((sym, next)) => {
                if sym <= 15 {
                    lemma_read_lengths_advances(cl, d, next, acc.push(sym as usize), total);
                } else if sym == 16 {
                    if acc.len() != 0 && next + 2 <= 8 * d.len() {
                        let times = bits_lsb(d, next, 2) + 3;
                        lemma_read_lengths_advances(
                            cl,
                            d,
                            next + 2,
                            acc + Seq::new(times, |i: int| acc.last()),
                            total,
                        );
                    }
                } else if sym == 17 {
                    if next + 3 <= 8 * d.len() {
                        let times = bits_lsb(d, next, 3) + 3;
                        lemma_read_lengths_advances(
                            cl,
                            d,
                            next + 3,
                            acc + Seq::new(times, |i: int| 0usize),
                            total,
                        );
                    }
                } else {
                    if next + 7 <= 8 * d.len() {
                        let times = bits_lsb(d, next, 7) + 11;
                        lemma_read_lengths_advances(
                            cl,
                            d,
                            next + 7,
                            acc + Seq::new(times, |i: int| 0usize),
                            total,
                        );
                    }
                }
            },
            Err(_) => {},
        }
    }
}

/// Reading the header of a dynamic block from bit `pos`: the position after
/// it, and the literal/length and distance code lengths.
pub open spec fn dynamic_header(d: Seq<u8>, pos: int) -> Result<
    (int, Seq<usize>, Seq<usize>),
    InflateError,
> {
    if pos + 14 > 8 * d.len() {
        Err(InflateError::Truncated)
    } else {
        let hlit = bits_lsb(d, pos, 5);
        let hdist = bits_lsb(d, pos + 5, 5);
        let hclen = bits_lsb(d, pos + 10, 4);
        let p = pos + 14;
        let k = hclen + 4;
        if p + 3 * k > 8 * d.len() {
            Err(InflateError::Truncated)
        } else {
            match read_lengths(cl_lengths(d, p, k), d, p + 3 * k, seq![], hlit + hdist + 258) {
                Err(e) => Err(e),
                Ok((q, all)) => Ok(
                    (q, all.subrange(0, hlit + 257 as int), all.subrange(hlit + 257 as int, all.len() as int)),
                ),
            }
        }
    }
}

/// Reading a stored block whose header ends at bit `pos`: skip to a byte
/// boundary, read the 16-bit length and its (unchecked) complement, then copy
/// that many bytes.
pub open spec fn stored_block(d: Seq<u8>, pos: int, out: Seq<u8>) -> Result<
    (int, Seq<u8>),
    InflateError,
> {
    let b = align_up(pos) / 8;
    if b + 4 > d.len() {
        Err(InflateError::Truncated)
    } else {
        let len = d[b] + 256 * d[b + 1];
        if b + 4 + len > d.len() {
            Err(InflateError::Truncated)
        } else {
            Ok((8 * (b + 4 + len), out + d.subrange(b + 4, b + 4 + len)))
        }
    }
}

/// Decoding one block from bit `pos`: the position after it, the output, and
/// whether it was marked as the last block.
pub open spec fn block(d: Seq<u8>, pos: int, out: Seq<u8>) -> Result<
    (int, Seq<u8>, bool),
    InflateError,
> {
    if pos + 3 > 8 * d.len() {
        Err(InflateError::Truncated)
    } else {
        let last = bits_lsb(d, pos, 1) == 1;
        let btype = bits_lsb(d, pos + 1, 2);
        let p = pos + 3;
        let body = if btype == 0 {
            stored_block(d, p, out)
        } else if btype == 1 {
            run_codes(fixed_ll_lengths(), 286, fixed_dist_lengths(), 30, d, p, out)
        } else if btype == 2 {
            match dynamic_header(d, p) {
                Err(e) => Err(e),
                Ok((q, ll, dl)) => run_codes(ll, decodable(ll), dl, decodable(dl), d, q, out),
            }
        } else {
            Err(InflateError::ReservedBlockType)
        };
        match body {
            Err(e) => Err(e),
            Ok((q, o)) => Ok((q, o, last)),
        }
    }
}

pub proof fn lemma_block_advances(d: Seq<u8>, pos: int, out: Seq<u8>)
    ensures
        block(d, pos, out) is Ok ==> pos < block(d, pos, out)->Ok_0.0 <= 8 * d.len(),
{
    if pos + 3 <= 8 * d.len() {
        let btype = bits_lsb(d, pos + 1, 2);
        let p = pos + 3;
        if btype == 1 {
            lemma_run_codes_advances(fixed_ll_lengths(), 286, fixed_dist_lengths(), 30, d, p, out);
        } else if btype == 2 {
            match dynamic_header(d, p) {
                Ok((q, ll, dl)) => {
                    let hclen = bits_lsb(d, pos + 3 + 10, 4);
                    let hlit = bits_lsb(d, p, 5);
                    let hdist = bits_lsb(d, p + 5, 5);
                    lemma_read_lengths_advances(
                        cl_lengths(d, p + 14, hclen + 4),
                        d,
                        p + 14 + 3 * (hclen + 4),
                        seq![],
                        hlit + hdist + 258,
                    );
                    lemma_run_codes_advances(ll, decodable(ll), dl, decodable(dl), d, q, out);
                },
                Err(_) => {},
            }
        }
    }
}

/// Decoding blocks from bit `pos` until one marked as the last.
#[verifier::opaque]
pub open spec fn blocks(d: Seq<u8>, pos: int, out: Seq<u8>) -> Result<Seq<u8>, InflateError>
    decreases 8 * d.len() - pos,
    via blocks_decreases
{
    match block(d, pos, out) {
        Err(e) => Err(e),
        Ok((q, o, last)) => if last {
            Ok(o)
        } else {
            blocks(d, q, o)
        },
    }
}

#[via_fn]
proof fn blocks_decreases(d: Seq<u8>, pos: int, out: Seq<u8>) {
    lemma_block_advances(d, pos, out);
}

/// The bytes that a raw DEFLATE stream decompresses to.
pub open spec fn deflate_spec(d: Seq<u8>) -> Result<Seq<u8>, InflateError> {
    blocks(d, 0, seq![])
}

/// The bytes that a zlib stream decompresses to: the DEFLATE data between
/// the 2-byte header and the 4-byte checksum, neither of which is checked.
pub open spec fn inflate_spec(data: Seq<u8>) -> Result<Seq<u8>, InflateError> {
    if data.len() < 6 {
        Err(InflateError::TooShort)
    } else {
        deflate_spec(data.subrange(2, data.len() - 4))
    }
}

pub proof fn lemma_copy_back_len(out: Seq<u8>, dist: nat, len: nat)
    ensures
        copy_back(out, dist, len).len() == out.len() + len,
    decreases len,
{
    if len > 0 {
        lemma_copy_back_len(out, dist, (len - 1) as nat);
    }
}

fn length_base_at(i: usize) -> (r: usize)
    requires
        i < 29,
    ensures
        r == length_base()[i as int],
{
    let t: [usize; 29] = [
        3, 4, 5, 6, 7, 8, 9, 10, 11, 13, 15, 17, 19, 23, 27, 31, 35, 43, 51, 59, 67, 83, 99, 115,
        131, 163, 195, 227, 258,
    ];
    assert(t@ =~= length_base());
    t[i]
}

fn length_extra_at(i: usize) -> (r: usize)
    requires
        i < 29,
    ensures
        r == length_extra()[i as int],
        r <= 5,
{
    let t: [usize; 29] = [
        0, 0, 0, 0, 0, 0, 0, 0, 1, 1, 1, 1, 2, 2, 2, 2, 3, 3, 3, 3, 4, 4, 4, 4, 5, 5, 5, 5, 0,
    ];
    assert(t@ =~= length_extra());
    t[i]
}

fn dist_base_at(i: usize) -> (r: usize)
    requires
        i < 30,
    ensures
        r == dist_base()[i as int],
        r <= 24577,
{
    let t: [usize; 30] = [
        1, 2, 3, 4, 5, 7, 9, 13, 17, 25, 33, 49, 65, 97, 129, 193, 257, 385, 513, 769, 1025, 1537,
        2049, 3073, 4097, 6145, 8193, 12289, 16385, 24577,
    ];
    assert(t@ =~= dist_base());
    t[i]
}

fn dist_extra_at(i: usize) -> (r: usize)
    requires
        i < 30,
    ensures
        r == dist_extra()[i as int],
        r <= 13,
{
    let t: [usize; 30] = [
        0, 0, 0, 0, 1, 1, 2, 2, 3, 3, 4, 4, 5, 5, 6, 6, 7, 7, 8, 8, 9, 9, 10, 10, 11, 11, 12, 12,
        13, 13,
    ];
    assert(t@ =~= dist_extra());
    t[i]
}

/// Decodes the symbols of a Huffman-coded block, appending to `out`, up to and
/// including the end-of-block symbol.
fn decode_codes(
    it: &mut BitStream,
    ll: &HuffmanCode,
    dl: &HuffmanCode,
    out: &mut Vec<u8>,
) -> (r: Result<(), InflateError>)
    requires
        old(it).wf(),
        ll.wf(),
        dl.wf(),
    ensures
        final(it).wf(),
        final(it).data@ == old(it).data@,
        match run_codes(
            ll.lens@,
            ll.n as int,
            dl.lens@,
            dl.n as int,
            old(it).data@,
            old(it).pos as int,
            old(out)@,
        ) {
            Ok((q, o)) => r is Ok && final(it).pos == q && final(out)@ == o,
            Err(e) => r == Err::<(), InflateError>(e),
        },
{
    let ghost d = it.data@;
    let ghost goal = run_codes(
        ll.lens@,
        ll.n as int,
        dl.lens@,
        dl.n as int,
        d,
        it.pos as int,
        out@,
    );
    loop
        invariant
            it.wf(),
            ll.wf(),
            dl.wf(),
            it.data@ == d,
            d == old(it).data@,
            goal == run_codes(
                ll.lens@,
                ll.n as int,
                dl.lens@,
                dl.n as int,
                old(it).data@,
                old(it).pos as int,
                old(out)@,
            ),
            goal == run_codes(ll.lens@, ll.n as int, dl.lens@, dl.n as int, d, it.pos as int, out@),
        decreases 8 * d.len() - it.pos,
    {
        let ghost pos0 = it.pos as int;
        proof {
            reveal(run_codes);
            lemma_decode_advances(ll.lens@, ll.n as int, d, pos0);
        }
        let sym = match process_symbol(it, ll) {
            Ok(s) => s,
            Err(e) => {
                return Err(e);
            },
        };
        if sym < 256 {
            out.push(sym as u8);
        } else if sym == 256 {
            return Ok(());
        } else if sym > 285 {
            return Err(InflateError::InvalidSymbol);
        } else {
            let i = sym - 257;
            let extra = match it.next_bits(length_extra_at(i)) {
                Ok(v) => v,
                Err(e) => {
                    return Err(e);
                },
            };
            proof {
                lemma_bits_lsb_small(d, it.pos - length_extra()[i as int], length_extra()[i as int] as nat);
            }
            let length = length_base_at(i) + extra;
            let ghost dpos = it.pos as int;
            proof {
                lemma_decode_advances(dl.lens@, dl.n as int, d, dpos);
            }
            let ds = match process_symbol(it, dl) {
                Ok(s) => s,
                Err(e) => {
                    return Err(e);
                },
            };
            if ds >= 30 {
                return Err(InflateError::InvalidDistanceSymbol);
            }
            let dextra = match it.next_bits(dist_extra_at(ds)) {
                Ok(v) => v,
                Err(e) => {
                    return Err(e);
                },
            };
            proof {
                lemma_bits_lsb_small(d, it.pos - dist_extra()[ds as int], dist_extra()[ds as int] as nat);
            }
            let dist = dist_base_at(ds) + dextra;
            if dist > out.len() {
                return Err(InflateError::DistanceTooFar);
            }
            let ghost before = out@;
            let mut k: usize = 0;
            while k < length
                invariant
                    k <= length,
                    1 <= dist <= before.len(),
                    out@ == copy_back(before, dist as nat, k as nat),
                decreases length - k,
            {
                proof {
                    lemma_copy_back_len(before, dist as nat, k as nat);
                }
                let byte = out[out.len() - dist];
                out.push(byte);
                k = k + 1;
            }
        }
    }
}

fn cl_order_at(i: usize) -> (r: usize)
    requires
        i < 19,
    ensures
        r == cl_order()[i as int],
        r < 19,
{
    let t: [usize; 19] = [16, 17, 18, 0, 8, 7, 9, 6, 10, 5, 11, 4, 12, 3, 13, 2, 14, 1, 15];
    assert(t@ =~= cl_order());
    t[i]
}

/// The fixed literal/length and distance codes.
fn fixed_trees() -> (r: (HuffmanCode, HuffmanCode))
    ensures
        r.0.wf(),
        r.0.lens@ == fixed_ll_lengths(),
        r.0.n == 286,
        r.1.wf(),
        r.1.lens@ == fixed_dist_lengths(),
        r.1.n == 30,
{
    let mut literal_length: Vec<usize> = Vec::new();
    let mut x: usize = 0;
    while x < 288
        invariant
            x <= 288,
            literal_length@ == fixed_ll_lengths().subrange(0, x as int),
        decreases 288 - x,
    {
        let l: usize = if x < 144 {
            8
        } else if x < 256 {
            9
        } else if x < 280 {
            7
        } else {
            8
        };
        literal_length.push(l);
        x = x + 1;
        assert(literal_length@ =~= fixed_ll_lengths().subrange(0, x as int));
    }
    let mut back_distance: Vec<usize> = Vec::new();
    let mut y: usize = 0;
    while y < 32
        invariant
            y <= 32,
            back_distance@ == fixed_dist_lengths().subrange(0, y as int),
        decreases 32 - y,
    {
        back_distance.push(5);
        y = y + 1;
        assert(back_distance@ =~= fixed_dist_lengths().subrange(0, y as int));
    }
    assert(literal_length@ =~= fixed_ll_lengths());
    assert(back_distance@ =~= fixed_dist_lengths());
    (
        huffman_from_bit_length(literal_length.as_slice(), 285),
        huffman_from_bit_length(back_distance.as_slice(), 29),
    )
}

/// Copies the body of a stored block to `out`.
fn copy_stored(it: &mut BitStream, out: &mut Vec<u8>) -> (r: Result<(), InflateError>)
    requires
        old(it).wf(),
    ensures
        final(it).wf(),
        final(it).data@ == old(it).data@,
        match stored_block(old(it).data@, old(it).pos as int, old(out)@) {
            Ok((q, o)) => r is Ok && final(it).pos == q && final(out)@ == o,
            Err(e) => r == Err::<(), InflateError>(e),
        },
{
    let ghost d = it.data@;
    let ghost b = align_up(old(it).pos as int) / 8;
    let ghost o0 = out@;
    let mut bytes: [u8; 4] = [0; 4];
    let mut k: usize = 0;
    while k < 4
        invariant
            it.wf(),
            it.data@ == d,
            d == old(it).data@,
            b == align_up(old(it).pos as int) / 8,
            k <= 4,
            k > 0 ==> it.pos == 8 * (b + k),
            k == 0 ==> it.pos == old(it).pos,
            b + k <= d.len(),
            forall|j: int| 0 <= j < k ==> bytes[j] == d[b + j],
        decreases 4 - k,
    {
        bytes[k] = match it.next_byte() {
            Ok(v) => v,
            Err(e) => {
                return Err(e);
            },
        };
        k = k + 1;
    }
    let len = bytes[0] as usize + 256 * bytes[1] as usize;
    let mut n: usize = 0;
    while n < len
        invariant
            it.wf(),
            it.data@ == d,
            d == old(it).data@,
            b == align_up(old(it).pos as int) / 8,
            b + 4 <= d.len(),
            len == d[b] + 256 * d[b + 1],
            n <= len,
            it.pos == 8 * (b + 4 + n),
            out@ == o0 + d.subrange(b + 4, b + 4 + n),
            o0 == old(out)@,
        decreases len - n,
    {
        let v = match it.next_byte() {
            Ok(v) => v,
            Err(e) => {
                return Err(e);
            },
        };
        out.push(v);
        n = n + 1;
        assert(out@ =~= o0 + d.subrange(b + 4, b + 4 + n));
    }
    Ok(())
}

pub proof fn lemma_cl_lengths_small(d: Seq<u8>, pos: int, k: nat)
    requires
        k <= 19,
    ensures
        cl_lengths(d, pos, k).len() == 19,
        forall|i: int| 0 <= i < 19 ==> cl_lengths(d, pos, k)[i] < 8,
    decreases k,
{
    if k > 0 {
        lemma_cl_lengths_small(d, pos, (k - 1) as nat);
        crate::bits::lemma_bits_lsb_bound(d, pos + 3 * (k - 1), 3);
        assert(crate::bits::two_pow(3) == 8) by {
            reveal_with_fuel(crate::bits::two_pow, 4);
        }
    }
}

/// Appends `times` copies of `v` to `all`.
fn push_repeated(all: &mut Vec<usize>, v: usize, times: usize)
    ensures
        final(all)@ == old(all)@ + Seq::new(times as nat, |i: int| v),
{
    let ghost a0 = all@;
    let mut k: usize = 0;
    while k < times
        invariant
            k <= times,
            all@ == a0 + Seq::new(k as nat, |i: int| v),
        decreases times - k,
    {
        all.push(v);
        k = k + 1;
        assert(all@ =~= a0 + Seq::new(k as nat, |i: int| v));
    }
}

/// Reads the header of a dynamic block and builds its literal/length and
/// distance codes.
fn read_dynamic_header(it: &mut BitStream) -> (r: Result<(HuffmanCode, HuffmanCode), InflateError>)
    requires
        old(it).wf(),
    ensures
        final(it).wf(),
        final(it).data@ == old(it).data@,
        match dynamic_header(old(it).data@, old(it).pos as int) {
            Ok((q, ll, dl)) => r matches Ok((lt, dt)) && final(it).pos == q && lt.wf() && dt.wf()
                && lt.lens@ == ll && lt.n == decodable(ll) && dt.lens@ == dl && dt.n == decodable(dl),
            Err(e) => r == Err::<(HuffmanCode, HuffmanCode), InflateError>(e),
        },
{
    let ghost d = it.data@;
    let ghost pos = it.pos as int;
    let hlit = match it.next_bits(5) {
        Ok(v) => v,
        Err(e) => {
            return Err(e);
        },
    };
    let hdist = match it.next_bits(5) {
        Ok(v) => v,
        Err(e) => {
            return Err(e);
        },
    };
    let hclen = match it.next_bits(4) {
        Ok(v) => v,
        Err(e) => {
            return Err(e);
        },
    };
    proof {
        crate::bits::lemma_bits_lsb_bound(d, pos, 5);
        crate::bits::lemma_bits_lsb_bound(d, pos + 5, 5);
        crate::bits::lemma_bits_lsb_bound(d, pos + 10, 4);
        reveal_with_fuel(crate::bits::two_pow, 6);
    }
    let ghost p = pos + 14;
    let mut cl_list: Vec<usize> = vec![0; 19];
    assert(cl_list@ =~= cl_lengths(d, p, 0));
    let mut i: usize = 0;
    while i < hclen + 4
        invariant
            it.wf(),
            it.data@ == d,
            d == old(it).data@,
            pos == old(it).pos,
            p == pos + 14,
            hclen < 16,
            hclen == bits_lsb(d, pos + 10, 4),
            pos + 14 <= 8 * d.len(),
            i <= hclen + 4,
            it.pos == p + 3 * i,
            cl_list@ == cl_lengths(d, p, i as nat),
        decreases hclen + 4 - i,
    {
        let v = match it.next_bits(3) {
            Ok(v) => v,
            Err(e) => {
                return Err(e);
            },
        };
        proof {
            lemma_cl_lengths_small(d, p, i as nat);
        }
        cl_list.set(cl_order_at(i), v);
        i = i + 1;
    }
    proof {
        lemma_cl_lengths_small(d, p, (hclen + 4) as nat);
    }
    let cl_tree = huffman_from_bit_length(cl_list.as_slice(), 18);
    let total = hlit + hdist + 258;
    let mut all: Vec<usize> = Vec::new();
    let ghost goal = read_lengths(cl_list@, d, it.pos as int, seq![], total as nat);
    loop
        invariant
            it.wf(),
            it.data@ == d,
            d == old(it).data@,
            cl_tree.wf(),
            cl_tree.n == 19,
            pos == old(it).pos,
            p == pos + 14,
            hlit == bits_lsb(d, pos, 5),
            hdist == bits_lsb(d, pos + 5, 5),
            hclen == bits_lsb(d, pos + 10, 4),
            hlit < 32,
            hdist < 32,
            hclen < 16,
            p + 3 * (hclen + 4) <= 8 * d.len(),
            cl_tree.lens@ == cl_lengths(d, p, (hclen + 4) as nat),
            total == hlit + hdist + 258,
            goal == read_lengths(cl_tree.lens@, d, p + 3 * (hclen + 4), seq![], total as nat),
            total <= 320,
            all.len() < total + 138,
            forall|j: int| 0 <= j < all.len() ==> all[j] <= 15,
            goal == read_lengths(cl_tree.lens@, d, it.pos as int, all@, total as nat),
        ensures
            all.len() >= total,
        decreases 8 * d.len() - it.pos,
    {
        if all.len() >= total {
            break;
        }
        proof {
            reveal(read_lengths);
            lemma_decode_advances(cl_tree.lens@, 19, d, it.pos as int);
        }
        let symbol = match process_symbol(it, &cl_tree) {
            Ok(s) => s,
            Err(e) => {
                return Err(e);
            },
        };
        let ghost a0 = all@;
        if symbol <= 15 {
            all.push(symbol);
        } else if symbol == 16 {
            if all.len() == 0 {
                return Err(InflateError::RepeatWithoutLength);
            }
            let prev = all[all.len() - 1];
            let times = match it.next_bits(2) {
                Ok(v) => v,
                Err(e) => {
                    return Err(e);
                },
            };
            proof {
                crate::bits::lemma_bits_lsb_bound(d, it.pos - 2, 2);
                reveal_with_fuel(crate::bits::two_pow, 3);
            }
            push_repeated(&mut all, prev, times + 3);
        } else if symbol == 17 {
            let times = match it.next_bits(3) {
                Ok(v) => v,
                Err(e) => {
                    return Err(e);
                },
            };
            proof {
                crate::bits::lemma_bits_lsb_bound(d, it.pos - 3, 3);
                reveal_with_fuel(crate::bits::two_pow, 4);
            }
            push_repeated(&mut all, 0, times + 3);
        } else {
            let times = match it.next_bits(7) {
                Ok(v) => v,
                Err(e) => {
                    return Err(e);
                },
            };
            proof {
                crate::bits::lemma_bits_lsb_bound(d, it.pos - 7, 7);
                reveal_with_fuel(crate::bits::two_pow, 8);
            }
            push_repeated(&mut all, 0, times + 11);
        }
    }
    proof {
        reveal(read_lengths);
    }
    let split = hlit + 257;
    let mut ll_lens: Vec<usize> = Vec::new();
    let mut dist_lens: Vec<usize> = Vec::new();
    let mut j: usize = 0;
    while j < all.len()
        invariant
            j <= all.len(),
            split <= all.len(),
            ll_lens@ == all@.subrange(0, if j < split { j as int } else { split as int }),
            dist_lens@ == all@.subrange(split as int, if j < split { split as int } else { j as int }),
        decreases all.len() - j,
    {
        if j < split {
            ll_lens.push(all[j]);
        } else {
            dist_lens.push(all[j]);
        }
        j = j + 1;
        assert(ll_lens@ =~= all@.subrange(0, if j < split { j as int } else { split as int }));
        assert(dist_lens@ =~= all@.subrange(split as int, if j < split { split as int } else { j as int }));
    }
    let ll_tree = huffman_from_bit_length(ll_lens.as_slice(), 285);
    let dist_tree = huffman_from_bit_length(dist_lens.as_slice(), 285);
    Ok((ll_tree, dist_tree))
}

/// Decodes one block, appending to `out`; tells whether it was the last.
fn decode_block(it: &mut BitStream, out: &mut Vec<u8>) -> (r: Result<bool, InflateError>)
    requires
        old(it).wf(),
    ensures
        final(it).wf(),
        final(it).data@ == old(it).data@,
        match block(old(it).data@, old(it).pos as int, old(out)@) {
            Ok((q, o, last)) => r == Ok::<bool, InflateError>(last) && final(it).pos == q
                && final(out)@ == o,
            Err(e) => r == Err::<bool, InflateError>(e),
        },
{
    let bfinal = match it.next_bits(1) {
        Ok(v) => v,
        Err(e) => {
            return Err(e);
        },
    };
    let btype = match it.next_bits(2) {
        Ok(v) => v,
        Err(e) => {
            return Err(e);
        },
    };
    let body = if btype == 0 {
        copy_stored(it, out)
    } else if btype == 1 {
        let (ll_tree, d_tree) = fixed_trees();
        decode_codes(it, &ll_tree, &d_tree, out)
    } else if btype == 2 {
        match read_dynamic_header(it) {
            Ok((ll_tree, d_tree)) => decode_codes(it, &ll_tree, &d_tree, out),
            Err(e) => Err(e),
        }
    } else {
        Err(InflateError::ReservedBlockType)
    };
    match body {
        Ok(()) => Ok(bfinal == 1),
        Err(e) => Err(e),
    }
}

/// Decompresses a raw DEFLATE stream.
fn decompress(stream: Vec<u8>) -> (r: Result<Vec<u8>, InflateError>)
    requires
        8 * stream.len() <= usize::MAX,
    ensures
        match deflate_spec(stream@) {
            Ok(o) => r matches Ok(v) && v@ == o,
            Err(e) => r == Err::<Vec<u8>, InflateError>(e),
        },
{
    let ghost d = stream@;
    let mut res: Vec<u8> = Vec::new();
    let mut it = BitStream::new(stream);
    loop
        invariant
            it.wf(),
            it.data@ == d,
            d == stream@,
            deflate_spec(d) == blocks(d, it.pos as int, res@),
        decreases 8 * d.len() - it.pos,
    {
        proof {
            reveal(blocks);
            lemma_block_advances(d, it.pos as int, res@);
        }
        let ghost pos = it.pos as int;
        let ghost out0 = res@;
        let last = match decode_block(&mut it, &mut res) {
            Ok(l) => l,
            Err(e) => {
                proof {
                    reveal(blocks);
                }
                return Err(e);
            },
        };
        proof {
            reveal(blocks);
            assert(blocks(d, pos, out0) == if last {
                Ok::<Seq<u8>, InflateError>(res@)
            } else {
                blocks(d, it.pos as int, res@)
            });
        }
        if last {
            return Ok(res);
        }
    }
}

/// Decompresses a zlib stream: the DEFLATE data between its 2-byte header and
/// its 4-byte Adler-32 checksum, neither of which is checked.
pub fn inflate(data: &[u8]) -> (r: Result<Vec<u8>, InflateError>)
    requires
        8 * data.len() <= usize::MAX,
    ensures
        match inflate_spec(data@) {
            Ok(o) => r matches Ok(v) && v@ == o,
            Err(e) => r == Err::<Vec<u8>, InflateError>(e),
        },
{
    if data.len() < 6 {
        return Err(InflateError::TooShort);
    }
    let mut compressed_data: Vec<u8> = Vec::new();
    let end = data.len() - 4;
    let mut i: usize = 2;
    while i < end
        invariant
            2 <= i <= end,
            end == data.len() - 4,
            compressed_data@ == data@.subrange(2, i as int),
        decreases end - i,
    {
        compressed_data.push(data[i]);
        i = i + 1;
        assert(compressed_data@ =~= data@.subrange(2, i as int));
    }
    decompress(compressed_data)
}

/// A back-reference copies byte by byte, reading what it has just written:
/// with distance `dist`, the copied bytes repeat the last `dist` bytes of the
/// output before it, as often as the length asks (distance 1 repeats the last
/// byte).
pub proof fn lemma_copy_back_overlap(out: Seq<u8>, dist: nat, len: nat)
    requires
        1 <= dist <= out.len(),
    ensures
        copy_back(out, dist, len).len() == out.len() + len,
        copy_back(out, dist, len).subrange(0, out.len() as int) == out,
        forall|i: int|
            0 <= i < len ==> #[trigger] copy_back(out, dist, len)[out.len() + i] == out[out.len()
                - dist + i % (dist as int)],
    decreases len,
{
    if len > 0 {
        let prev = copy_back(out, dist, (len - 1) as nat);
        lemma_copy_back_overlap(out, dist, (len - 1) as nat);
        let cur = copy_back(out, dist, len);
        assert(cur == prev.push(prev[prev.len() - dist]));
        let k = len - 1;
        if k < dist {
            vstd::arithmetic::div_mod::lemma_fundamental_div_mod_converse(k, dist as int, 0, k);
        } else {
            let q = k / (dist as int);
            let r = k % (dist as int);
            vstd::arithmetic::div_mod::lemma_fundamental_div_mod(k, dist as int);
            vstd::arithmetic::div_mod::lemma_mod_pos_bound(k, dist as int);
            assert(k - dist == (q - 1) * dist + r) by (nonlinear_arith)
                requires
                    k == dist * q + r,
            ;
            vstd::arithmetic::div_mod::lemma_fundamental_div_mod_converse(k - dist, dist as int, q - 1, r);
            assert(prev[out.len() + (k - dist)] == out[out.len() - dist + (k - dist) % (dist as int)]);
        }
        assert forall|i: int| 0 <= i < len implies #[trigger] cur[out.len() + i] == out[out.len()
            - dist + i % (dist as int)] by {
            if i < k {
                assert(cur[out.len() + i] == prev[out.len() + i]);
            }
        }
        assert(cur.subrange(0, out.len() as int) =~= prev.subrange(0, out.len() as int));
    }
}

/// Distance 1 and length `len` repeat the last byte `len` times.
pub proof fn lemma_copy_back_repeats_last(out: Seq<u8>, len: nat)
    requires
        out.len() >= 1,
    ensures
        copy_back(out, 1, len) == out + Seq::new(len, |i: int| out.last()),
{
    lemma_copy_back_overlap(out, 1, len);
    let c = copy_back(out, 1, len);
    assert forall|i: int| 0 <= i < c.len() implies c[i] == (out + Seq::new(len, |j: int| out.last()))[i] by {
        if i >= out.len() {
            assert(c[out.len() + (i - out.len())] == out[out.len() - 1 + (i - out.len()) % 1]);
        } else {
            assert(c[i] == c.subrange(0, out.len() as int)[i]);
        }
    }
    assert(c =~= out + Seq::new(len, |i: int| out.last()));
}

/// A DEFLATE stream of one final stored block holding `b` (at most 65535
/// bytes): the block header bits, the length and its complement, then `b`.
pub open spec fn stored_stream(b: Seq<u8>) -> Seq<u8> {
    seq![
        1u8,
        (b.len() % 256) as u8,
        (b.len() / 256) as u8,
        (255 - b.len() % 256) as u8,
        (255 - b.len() / 256) as u8,
    ] + b
}

/// Bytes stored in a single final stored block, inside a zlib envelope with
/// any header and checksum bytes, decompress to themselves.
pub proof fn lemma_stored_round_trip(b: Seq<u8>, header: Seq<u8>, checksum: Seq<u8>)
    requires
        b.len() < 65536,
        header.len() == 2,
        checksum.len() == 4,
    ensures
        deflate_spec(stored_stream(b)) == Ok::<Seq<u8>, InflateError>(b),
        inflate_spec(header + stored_stream(b) + checksum) == Ok::<Seq<u8>, InflateError>(b),
{
    let d = stored_stream(b);
    assert(d[0] == 1u8);
    assert((1u8 >> 0u8) & 1u8 == 1u8) by (bit_vector);
    assert((1u8 >> 1u8) & 1u8 == 0u8) by (bit_vector);
    assert((1u8 >> 2u8) & 1u8 == 0u8) by (bit_vector);
    assert(crate::bits::bit_at(d, 0) == 1);
    assert(crate::bits::bit_at(d, 1) == 0);
    assert(crate::bits::bit_at(d, 2) == 0);
    assert(two_pow(0) == 1);
    assert(two_pow(1) == 2 * two_pow(0));
    assert(bits_lsb(d, 0, 0) == 0);
    assert(bits_lsb(d, 0, 1) == bits_lsb(d, 0, 0) + crate::bits::bit_at(d, 0) * two_pow(0));
    assert(bits_lsb(d, 1, 0) == 0);
    assert(bits_lsb(d, 1, 1) == bits_lsb(d, 1, 0) + crate::bits::bit_at(d, 1) * two_pow(0));
    assert(bits_lsb(d, 1, 2) == bits_lsb(d, 1, 1) + crate::bits::bit_at(d, 2) * two_pow(1));
    let b1 = crate::bits::bit_at(d, 1);
    let b2 = crate::bits::bit_at(d, 2);
    assert(b1 * two_pow(0) == 0 && b2 * two_pow(1) == 0) by (nonlinear_arith)
        requires
            b1 == 0,
            b2 == 0,
    ;
    assert(align_up(3) == 8);
    assert(d[1] + 256 * d[2] == b.len());
    assert(d.subrange(5, 5 + b.len() as int) =~= b);
    assert(seq![] + b =~= b);
    assert(block(d, 0, seq![]) == Ok::<(int, Seq<u8>, bool), InflateError>((8 * (5 + b.len()) as int, b, true)));
    reveal(blocks);
    let z = header + stored_stream(b) + checksum;
    assert(z.subrange(2, z.len() - 4) =~= d);
}

} // verus!
