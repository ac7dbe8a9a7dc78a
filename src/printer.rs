use vstd::prelude::*;

use crate::png::{channels, ColorType};

verus! {

/// A colour for the terminal; samples deeper than 8 bits keep their high byte.
#[derive(Default, Debug, Clone, Copy)]
pub struct Pixel {
    pub r: usize,
    pub g: usize,
    pub b: usize,
}

impl Pixel {
    pub fn from_u8(r: u8, g: u8, b: u8) -> (p: Pixel)
        ensures
            p.r == r && p.g == g && p.b == b,
    {
        Pixel { r: r as usize, g: g as usize, b: b as usize }
    }
}

/// Pixels ready to print, row-major, `w` per row.
pub struct ImgData {
    pub h: u32,
    pub w: u32,
    pub pixels: Vec<Pixel>,
}

/// Number of groups of `n` items among `len`, the last one possibly partial.
pub open spec fn groups(len: nat, n: nat) -> nat {
    ((len + n - 1) / (n as int)) as nat
}

/// The first byte of each sample: samples of `step` bytes are big-endian, so
/// this keeps the high byte of deeper samples.
pub open spec fn high_bytes(bytes: Seq<u8>, step: nat) -> Seq<u8> {
    Seq::new(groups(bytes.len(), step), |i: int| bytes[i * step])
}

/// Whether the colour type carries red, green and blue (else a grey level).
pub open spec fn is_rgb(typ: ColorType) -> bool {
    typ == ColorType::Truecolour || typ == ColorType::TruecolourA
}

/// Pixel `i` of the samples `s`: a grey level is copied to the three colours;
/// alpha is dropped.
pub open spec fn pixel_at(s: Seq<u8>, typ: ColorType, i: int) -> Pixel {
    let base = i * channels(typ);
    if is_rgb(typ) {
        Pixel { r: s[base] as usize, g: s[base + 1] as usize, b: s[base + 2] as usize }
    } else {
        Pixel { r: s[base] as usize, g: s[base] as usize, b: s[base] as usize }
    }
}

/// The pixels of the samples `s`, one per group of channels.
pub open spec fn pixels_of(s: Seq<u8>, typ: ColorType) -> Seq<Pixel> {
    Seq::new(groups(s.len(), channels(typ)), |i: int| pixel_at(s, typ, i))
}

proof fn lemma_groups(len: nat, n: nat, count: nat)
    requires
        n > 0,
        count * n >= len,
        count == 0 || (count - 1) * n < len,
    ensures
        groups(len, n) == count,
{
    if count == 0 {
        assert(len == 0) by (nonlinear_arith)
            requires
                count * n >= len,
                count == 0,
        ;
        vstd::arithmetic::div_mod::lemma_fundamental_div_mod_converse(
            (len + n - 1) as int,
            n as int,
            0,
            (n - 1) as int,
        );
    } else {
        assert((count - 1) * n == count * n - n) by (nonlinear_arith);
        vstd::arithmetic::div_mod::lemma_fundamental_div_mod_converse(
            (len + n - 1) as int,
            n as int,
            count as int,
            (len + n - 1 - count * n) as int,
        );
    }
}

fn take_high_bytes(bytes: &[u8], step: usize) -> (r: Vec<u8>)
    requires
        step > 0,
    ensures
        r@ == high_bytes(bytes@, step as nat),
{
    let mut r: Vec<u8> = Vec::new();
    let mut k: usize = 0;
    assert(r.len() * step == 0) by (nonlinear_arith)
        requires
            r.len() == 0,
    ;
    while k < bytes.len()
        invariant
            step > 0,
            k == r.len() * step,
            r.len() == 0 || (r.len() - 1) * step < bytes.len(),
            forall|i: int| 0 <= i < r.len() ==> r[i] == bytes@[i * step],
        decreases bytes.len() - k,
    {
        proof {
            assert((r.len() + 1) * step == r.len() * step + step) by (nonlinear_arith);
        }
        r.push(bytes[k]);
        if bytes.len() - k <= step {
            k = bytes.len();
            proof {
                assert(r.len() * step >= bytes.len());
                lemma_groups(bytes.len() as nat, step as nat, r.len() as nat);
                assert(r@ =~= high_bytes(bytes@, step as nat));
            }
            return r;
        }
        k = k + step;
    }
    proof {
        lemma_groups(bytes.len() as nat, step as nat, r.len() as nat);
    }
    assert(r@ =~= high_bytes(bytes@, step as nat));
    r
}

/// Samples per pixel that `ImgData::new` can take: a colour pixel needs its
/// red, green and blue samples, also in a last partial group.
pub open spec fn complete_groups(s: Seq<u8>, typ: ColorType) -> bool {
    is_rgb(typ) ==> (s.len() % channels(typ) == 0 || s.len() % channels(typ) >= 3)
}

impl ImgData {
    /// Turns unfiltered image bytes into pixels: the high byte of each sample,
    /// then one pixel per group of channels.
    pub fn new(w: u32, h: u32, pixels: &[u8], typ: ColorType, bit_depth: u8) -> (r: ImgData)
        requires
            bit_depth > 0,
            complete_groups(high_bytes(pixels@, ((bit_depth + 7) / 8) as nat), typ),
        ensures
            r.w == w,
            r.h == h,
            r.pixels@ == pixels_of(high_bytes(pixels@, ((bit_depth + 7) / 8) as nat), typ),
    {
        let step = (bit_depth as usize + 7) / 8;
        let s = take_high_bytes(pixels, step);
        let n: usize = match typ {
            ColorType::Greyscale => 1,
            ColorType::GreyscaleA => 2,
            ColorType::Truecolour => 3,
            ColorType::TruecolourA => 4,
        };
        let rgb = match typ {
            ColorType::Truecolour | ColorType::TruecolourA => true,
            _ => false,
        };
        let mut out: Vec<Pixel> = Vec::new();
        let mut base: usize = 0;
        assert(out.len() * n == 0) by (nonlinear_arith)
            requires
                out.len() == 0,
        ;
        while base < s.len()
            invariant
                n == channels(typ),
                rgb == is_rgb(typ),
                step == (bit_depth + 7) / 8,
                s@ == high_bytes(pixels@, step as nat),
                complete_groups(s@, typ),
                base == out.len() * n,
                out.len() == 0 || (out.len() - 1) * n < s.len(),
                forall|i: int| 0 <= i < out.len() ==> out[i] == pixel_at(s@, typ, i),
            decreases s.len() - base,
        {
            proof {
                assert((out.len() + 1) * n == out.len() * n + n) by (nonlinear_arith);
                if s.len() - base < n {
                    vstd::arithmetic::div_mod::lemma_fundamental_div_mod_converse(
                        s.len() as int,
                        n as int,
                        out.len() as int,
                        (s.len() - base) as int,
                    );
                }
            }
            let p = if rgb {
                Pixel::from_u8(s[base], s[base + 1], s[base + 2])
            } else {
                Pixel::from_u8(s[base], s[base], s[base])
            };
            out.push(p);
            if s.len() - base <= n {
                proof {
                    lemma_groups(s.len() as nat, n as nat, out.len() as nat);
                }
                assert(out@ =~= pixels_of(s@, typ));
                return ImgData { h, w, pixels: out };
            }
            base = base + n;
        }
        proof {
            lemma_groups(s.len() as nat, n as nat, out.len() as nat);
        }
        assert(out@ =~= pixels_of(s@, typ));
        ImgData { h, w, pixels: out }
    }
}

} // verus!
