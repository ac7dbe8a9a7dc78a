use vstd::prelude::*;

verus! {

/// Why the markers of a JPEG file could not be read.
#[derive(Debug, Clone, Copy, PartialEq, Eq, Structural)]
pub enum JpgError {
    /// A read went past the end of the file.
    Truncated,
    /// A byte other than 0xFF where a marker should start.
    NotAMarker(u8),
    /// A marker this reader does not handle.
    UnknownMarker(u8),
    /// A segment whose length field disagrees with what it holds.
    BadLength,
    /// A quantization table number above 3.
    BadTableId(u8),
    /// A frame with four components (CMYK).
    CmykNotSupported,
    /// A frame component numbered 4 or 5 (YIQ).
    YiqNotSupported,
}

/// A reader of bytes, and of bits most significant first.
pub struct BitStream {
    pub data: Vec<u8>,
    /// The next byte to read.
    pub i: usize,
    /// The bits of byte `i` already read by `next_bit` (0 to 7).
    pub bit_position: u8,
}

/// Bit `k` (0 = most significant) of byte `b`.
pub open spec fn msb_bit(b: u8, k: u8) -> u8 {
    (b >> (7 - k) as u8) & 1u8
}

/// Bit `k` of the stream `d`, bytes in order, each most significant bit first.
pub open spec fn stream_bit(d: Seq<u8>, k: int) -> u8 {
    msb_bit(d[k / 8], (k % 8) as u8)
}

/// The `n` bits of `d` from bit `k`, the first read being the most significant.
pub open spec fn stream_bits(d: Seq<u8>, k: int, n: nat) -> nat
    decreases n,
{
    if n == 0 {
        0
    } else {
        2 * stream_bits(d, k, (n - 1) as nat) + stream_bit(d, k + n - 1) as nat
    }
}

proof fn lemma_stream_bits_bound(d: Seq<u8>, k: int, n: nat)
    ensures
        stream_bits(d, k, n) < crate::bits::two_pow(n),
    decreases n,
{
    if n > 0 {
        lemma_stream_bits_bound(d, k, (n - 1) as nat);
        crate::bits::lemma_two_pow_grows((n - 1) as nat);
        let b = d[(k + n - 1) / 8];
        let s = ((k + n - 1) % 8) as u8;
        assert((b >> (7 - s) as u8) & 1u8 <= 1u8) by (bit_vector);
    }
}

impl BitStream {
    /// The position of the next bit, counted in bits.
    pub open spec fn cursor(&self) -> int {
        8 * self.i + self.bit_position
    }

    pub open spec fn wf(&self) -> bool {
        self.i <= self.data.len() && self.bit_position < 8 && (self.bit_position > 0 ==> self.i
            < self.data.len())
    }

    pub fn new(data: Vec<u8>) -> (r: BitStream)
        ensures
            r.wf(),
            r.data@ == data@,
            r.i == 0,
            r.bit_position == 0,
    {
        BitStream { data, i: 0, bit_position: 0 }
    }

    /// Skips what is left of a partly read byte and reads the next whole one.
    pub fn next_byte(&mut self) -> (r: Result<u8, JpgError>)
        requires
            old(self).wf(),
        ensures
            final(self).wf(),
            final(self).data@ == old(self).data@,
            ({
                let at = if old(self).bit_position > 0 {
                    old(self).i + 1
                } else {
                    old(self).i as int
                };
                if at < old(self).data.len() {
                    r == Ok::<u8, JpgError>(old(self).data@[at]) && final(self).i == at + 1
                        && final(self).bit_position == 0
                } else {
                    r == Err::<u8, JpgError>(JpgError::Truncated) && final(self).i == old(self).i
                        && final(self).bit_position == old(self).bit_position
                }
            }),
    {
        let at = if self.bit_position > 0 {
            self.i + 1
        } else {
            self.i
        };
        if at >= self.data.len() {
            return Err(JpgError::Truncated);
        }
        self.i = at + 1;
        self.bit_position = 0;
        Ok(self.data[at])
    }

    /// Reads one bit, the most significant of each byte first.
    pub fn next_bit(&mut self) -> (r: Result<u8, JpgError>)
        requires
            old(self).wf(),
        ensures
            final(self).wf(),
            final(self).data@ == old(self).data@,
            old(self).i < old(self).data.len() ==> r == Ok::<u8, JpgError>(
                msb_bit(old(self).data@[old(self).i as int], old(self).bit_position),
            ) && if old(self).bit_position == 7 {
                final(self).i == old(self).i + 1 && final(self).bit_position == 0
            } else {
                final(self).i == old(self).i && final(self).bit_position == old(self).bit_position
                    + 1
            },
            old(self).i >= old(self).data.len() ==> r == Err::<u8, JpgError>(JpgError::Truncated),
    {
        if self.i >= self.data.len() {
            return Err(JpgError::Truncated);
        }
        let byte = self.data[self.i];
        let b = (byte >> (7 - self.bit_position)) & 1u8;
        if self.bit_position == 7 {
            self.i = self.i + 1;
            self.bit_position = 0;
        } else {
            self.bit_position = self.bit_position + 1;
        }
        Ok(b)
    }

    /// Reads `n` bits, the first read being the most significant.
    pub fn next_bits(&mut self, n: usize) -> (r: Result<usize, JpgError>)
        requires
            old(self).wf(),
            n <= 16,
        ensures
            final(self).wf(),
            final(self).data@ == old(self).data@,
            old(self).cursor() + n <= 8 * old(self).data.len() ==> r is Ok && r->Ok_0
                == stream_bits(old(self).data@, old(self).cursor(), n as nat) && final(self).cursor()
                == old(self).cursor() + n,
            old(self).cursor() + n > 8 * old(self).data.len() ==> r == Err::<usize, JpgError>(
                JpgError::Truncated,
            ),
    {
        let ghost d = self.data@;
        let ghost start = self.cursor();
        let mut acc: usize = 0;
        let mut k: usize = 0;
        while k < n
            invariant
                self.wf(),
                self.data@ == d,
                d == old(self).data@,
                start == old(self).cursor(),
                self.cursor() == start + k,
                k <= n,
                n <= 16,
                acc == stream_bits(d, start, k as nat),
            decreases n - k,
        {
            let b = match self.next_bit() {
                Ok(b) => b,
                Err(e) => {
                    return Err(e);
                },
            };
            proof {
                lemma_stream_bits_bound(d, start, (k + 1) as nat);
                crate::bits::lemma_two_pow_mono((k + 1) as nat, 16);
                crate::bits::lemma_two_pow_16();
            }
            acc = 2 * acc + b as usize;
            k = k + 1;
        }
        Ok(acc)
    }
}

/// The entries of a Huffman table of a JPEG file (not filled in by this reader).
#[derive(Clone, Debug)]
pub struct HuffmanTable {
    pub symbol: Vec<u8>,
    pub code: Vec<u8>,
}

impl HuffmanTable {
    pub fn new() -> (r: HuffmanTable)
        ensures
            r.symbol@ == Seq::new(176, |i: int| 0u8),
            r.code@ == Seq::new(176, |i: int| 0u8),
    {
        let symbol: Vec<u8> = vec![0; 176];
        let code: Vec<u8> = vec![0; 176];
        assert(symbol@ =~= Seq::new(176, |i: int| 0u8));
        assert(code@ =~= Seq::new(176, |i: int| 0u8));
        HuffmanTable { symbol, code }
    }
}

/// Colour information of a frame.
#[derive(Clone, Copy, Debug, PartialEq, Eq, Structural)]
pub struct CromaticData {
    pub rgb: bool,
    /// The quantization table of the last component read.
    pub qt_id: u8,
}

/// What the markers of a JPEG file have told so far.
#[derive(Debug)]
pub struct JpgImg {
    pub height: u16,
    pub width: u16,
    /// Four tables of 64 entries, table `t` entry `z` at `64 * t + z`.
    pub quantization_table: Vec<u16>,
    pub dct_table: Vec<HuffmanTable>,
    pub act_table: Vec<HuffmanTable>,
    pub color: CromaticData,
    /// Restart the DC coefficients every this many MCUs.
    pub restart_interval: u16,
}

/// The fields of a `JpgImg` that reading markers sets.
pub struct JpgModel {
    pub height: u16,
    pub width: u16,
    pub qt: Seq<u16>,
    pub color: CromaticData,
    pub restart_interval: u16,
}

impl View for JpgImg {
    type V = JpgModel;

    open spec fn view(&self) -> JpgModel {
        JpgModel {
            height: self.height,
            width: self.width,
            qt: self.quantization_table@,
            color: self.color,
            restart_interval: self.restart_interval,
        }
    }
}

/// An image before any marker: all zero, colour assumed RGB.
pub open spec fn empty_model() -> JpgModel {
    JpgModel {
        height: 0,
        width: 0,
        qt: Seq::new(256, |i: int| 0u16),
        color: CromaticData { rgb: true, qt_id: 0 },
        restart_interval: 0,
    }
}

impl JpgImg {
    pub fn new() -> (r: JpgImg)
        ensures
            r@ == empty_model(),
            r.dct_table.len() == 4,
            r.act_table.len() == 4,
    {
        let quantization_table: Vec<u16> = vec![0; 256];
        assert(quantization_table@ =~= Seq::new(256, |i: int| 0u16));
        let dct_table = vec![HuffmanTable::new(), HuffmanTable::new(), HuffmanTable::new(), HuffmanTable::new()];
        let act_table = vec![HuffmanTable::new(), HuffmanTable::new(), HuffmanTable::new(), HuffmanTable::new()];
        JpgImg {
            height: 0,
            width: 0,
            quantization_table,
            dct_table,
            act_table,
            color: CromaticData { rgb: true, qt_id: 0 },
            restart_interval: 0,
        }
    }
}

/// The big-endian 16-bit number in the two bytes from `p`.
pub open spec fn be16(d: Seq<u8>, p: int) -> int {
    d[p] * 256 + d[p + 1]
}

/// Skipping an application segment whose length field is at `p`.
pub open spec fn appn_spec(d: Seq<u8>, p: int) -> Result<int, JpgError> {
    if p + 2 > d.len() {
        Err(JpgError::Truncated)
    } else if be16(d, p) < 2 {
        Err(JpgError::BadLength)
    } else if p + be16(d, p) > d.len() {
        Err(JpgError::Truncated)
    } else {
        Ok(p + be16(d, p))
    }
}

/// Reading a restart interval segment whose length field is at `p`.
pub open spec fn restart_spec(d: Seq<u8>, p: int, m: JpgModel) -> Result<(int, JpgModel), JpgError> {
    if p + 4 > d.len() {
        Err(JpgError::Truncated)
    } else if be16(d, p) < 4 {
        Err(JpgError::BadLength)
    } else {
        Ok((p + 4, JpgModel { restart_interval: be16(d, p + 2) as u16, ..m }))
    }
}

fn read_be16(it: &mut BitStream) -> (r: Result<u16, JpgError>)
    requires
        old(it).wf(),
        old(it).bit_position == 0,
    ensures
        final(it).wf(),
        final(it).bit_position == 0,
        final(it).data@ == old(it).data@,
        old(it).i + 2 <= old(it).data.len() ==> r == Ok::<u16, JpgError>(
            be16(old(it).data@, old(it).i as int) as u16,
        ) && final(it).i == old(it).i + 2,
        old(it).i + 2 > old(it).data.len() ==> r == Err::<u16, JpgError>(JpgError::Truncated),
{
    let hi = match it.next_byte() {
        Ok(b) => b,
        Err(e) => {
            return Err(e);
        },
    };
    let lo = match it.next_byte() {
        Ok(b) => b,
        Err(e) => {
            return Err(e);
        },
    };
    Ok(hi as u16 * 256 + lo as u16)
}

fn process_appn(it: &mut BitStream) -> (r: Result<(), JpgError>)
    requires
        old(it).wf(),
        old(it).bit_position == 0,
    ensures
        final(it).wf(),
        final(it).bit_position == 0,
        final(it).data@ == old(it).data@,
        match appn_spec(old(it).data@, old(it).i as int) {
            Ok(q) => r is Ok && final(it).i == q,
            Err(e) => r == Err::<(), JpgError>(e),
        },
{
    let ghost p = it.i as int;
    let length = match read_be16(it) {
        Ok(l) => l,
        Err(e) => {
            return Err(e);
        },
    };
    if length < 2 {
        return Err(JpgError::BadLength);
    }
    let mut k: u16 = 0;
    while k < length - 2
        invariant
            it.wf(),
            it.bit_position == 0,
            it.data@ == old(it).data@,
            p == old(it).i,
            length == be16(old(it).data@, p),
            2 <= length,
            k <= length - 2,
            it.i == p + 2 + k,
        decreases length - 2 - k,
    {
        match it.next_byte() {
            Ok(_) => {},
            Err(e) => {
                return Err(e);
            },
        }
        k = k + 1;
    }
    Ok(())
}

fn process_retart_interval(it: &mut BitStream, img: &mut JpgImg) -> (r: Result<(), JpgError>)
    requires
        old(it).wf(),
        old(it).bit_position == 0,
    ensures
        final(it).wf(),
        final(it).bit_position == 0,
        final(it).data@ == old(it).data@,
        final(img).dct_table.len() == old(img).dct_table.len(),
        final(img).act_table.len() == old(img).act_table.len(),
        match restart_spec(old(it).data@, old(it).i as int, old(img)@) {
            Ok((q, m)) => r is Ok && final(it).i == q && final(img)@ == m,
            Err(e) => r == Err::<(), JpgError>(e),
        },
{
    let length = match read_be16(it) {
        Ok(l) => l,
        Err(e) => {
            return Err(e);
        },
    };
    let interval = match read_be16(it) {
        Ok(l) => l,
        Err(e) => {
            return Err(e);
        },
    };
    if length < 4 {
        return Err(JpgError::BadLength);
    }
    img.restart_interval = interval;
    Ok(())
}

/// Where the entries of a quantization table go, in the order they are sent.
pub open spec fn zig_zag() -> Seq<usize> {
    seq![
        0usize, 1, 8, 16, 9, 2, 3, 10, 17, 24, 32, 25, 18, 11, 4, 5, 12, 19, 26, 33, 40, 48, 41, 34,
        27, 20, 13, 6, 7, 14, 21, 28, 35, 42, 49, 56, 57, 50, 43, 36, 29, 22, 15, 23, 30, 37, 44,
        51, 58, 59, 52, 45, 38, 31, 39, 46, 53, 60, 61, 54, 47, 55, 62, 63,
    ]
}

fn zig_zag_at(i: usize) -> (r: usize)
    requires
        i < 64,
    ensures
        r == zig_zag()[i as int],
        r < 64,
{
    let t: [usize; 64] = [
        0, 1, 8, 16, 9, 2, 3, 10, 17, 24, 32, 25, 18, 11, 4, 5, 12, 19, 26, 33, 40, 48, 41, 34, 27,
        20, 13, 6, 7, 14, 21, 28, 35, 42, 49, 56, 57, 50, 43, 36, 29, 22, 15, 23, 30, 37, 44, 51, 58,
        59, 52, 45, 38, 31, 39, 46, 53, 60, 61, 54, 47, 55, 62, 63,
    ];
    assert(t@ =~= zig_zag());
    t[i]
}

/// The quantization tables `qt` after table `id` takes its first `k` entries
/// from `p`: bytes, or big-endian 16-bit numbers when `wide`.
pub open spec fn qt_fill(qt: Seq<u16>, id: int, d: Seq<u8>, p: int, wide: bool, k: nat) -> Seq<u16>
    decreases k,
{
    if k == 0 {
        qt
    } else {
        qt_fill(qt, id, d, p, wide, (k - 1) as nat).update(
            64 * id + zig_zag()[k - 1],
            if wide {
                be16(d, p + 2 * (k - 1)) as u16
            } else {
                d[p + k - 1] as u16
            },
        )
    }
}

/// Reading the tables of a quantization segment from `p`, with `remaining`
/// bytes of it left by its length field.
pub open spec fn qt_spec(d: Seq<u8>, p: int, remaining: int, m: JpgModel) -> Result<
    (int, JpgModel),
    JpgError,
>
    decreases remaining,
{
    if remaining <= 0 {
        Ok((p, m))
    } else if p + 1 > d.len() {
        Err(JpgError::Truncated)
    } else {
        let th = d[p];
        let hi = th / 16;
        let id = th % 16;
        if id >= 4 {
            Err(JpgError::BadTableId(id as u8))
        } else {
            let wide = hi != 0;
            let n = if wide {
                128int
            } else {
                64int
            };
            let sub = 64 * (1 + hi);
            if p + 1 + n > d.len() {
                Err(JpgError::Truncated)
            } else if remaining - 1 < sub {
                Err(JpgError::BadLength)
            } else {
                qt_spec(
                    d,
                    p + 1 + n,
                    remaining - 1 - sub,
                    JpgModel { qt: qt_fill(m.qt, id as int, d, p + 1, wide, 64), ..m },
                )
            }
        }
    }
}

/// Reading a quantization segment whose length field is at `p`.
pub open spec fn qt_segment_spec(d: Seq<u8>, p: int, m: JpgModel) -> Result<(int, JpgModel), JpgError> {
    if p + 2 > d.len() {
        Err(JpgError::Truncated)
    } else if be16(d, p) < 2 {
        Err(JpgError::BadLength)
    } else {
        qt_spec(d, p + 2, be16(d, p) - 2, m)
    }
}

proof fn lemma_qt_fill_len(qt: Seq<u16>, id: int, d: Seq<u8>, p: int, wide: bool, k: nat)
    requires
        0 <= id < 4,
        qt.len() == 256,
        k <= 64,
    ensures
        qt_fill(qt, id, d, p, wide, k).len() == 256,
    decreases k,
{
    if k > 0 {
        lemma_qt_fill_len(qt, id, d, p, wide, (k - 1) as nat);
    }
}

fn process_qt(it: &mut BitStream, img: &mut JpgImg) -> (r: Result<(), JpgError>)
    requires
        old(it).wf(),
        old(it).bit_position == 0,
        old(img).quantization_table.len() == 256,
    ensures
        final(it).wf(),
        final(it).bit_position == 0,
        final(it).data@ == old(it).data@,
        final(img).quantization_table.len() == 256,
        final(img).dct_table.len() == old(img).dct_table.len(),
        final(img).act_table.len() == old(img).act_table.len(),
        match qt_segment_spec(old(it).data@, old(it).i as int, old(img)@) {
            Ok((q, m)) => r is Ok && final(it).i == q && final(img)@ == m,
            Err(e) => r == Err::<(), JpgError>(e),
        },
{
    let ghost d = it.data@;
    let ghost goal = qt_segment_spec(d, it.i as int, img@);
    let length = match read_be16(it) {
        Ok(l) => l,
        Err(e) => {
            return Err(e);
        },
    };
    if length < 2 {
        return Err(JpgError::BadLength);
    }
    let mut remaining: u16 = length - 2;
    while remaining > 0
        invariant
            it.wf(),
            it.bit_position == 0,
            it.data@ == d,
            d == old(it).data@,
            img.quantization_table.len() == 256,
            img.dct_table.len() == old(img).dct_table.len(),
            img.act_table.len() == old(img).act_table.len(),
            goal == qt_segment_spec(old(it).data@, old(it).i as int, old(img)@),
            goal == qt_spec(d, it.i as int, remaining as int, img@),
        decreases remaining,
    {
        let ghost p = it.i as int;
        let ghost m0 = img@;
        let th = match it.next_byte() {
            Ok(b) => b,
            Err(e) => {
                return Err(e);
            },
        };
        let hi = th / 16;
        let id = th % 16;
        if id >= 4 {
            return Err(JpgError::BadTableId(id));
        }
        let wide = hi != 0;
        let mut k: usize = 0;
        while k < 64
            invariant
                it.wf(),
                it.bit_position == 0,
                it.data@ == d,
                d == old(it).data@,
                goal == qt_segment_spec(old(it).data@, old(it).i as int, old(img)@),
                goal == qt_spec(d, p, remaining as int, m0),
                remaining > 0,
                th == d[p],
                hi == th / 16,
                id == th % 16,
                wide == (hi != 0),
                k <= 64,
                id < 4,
                p + 1 <= d.len(),
                it.i == p + 1 + if wide {
                    2 * k
                } else {
                    k as int
                },
                m0.qt.len() == 256,
                img.quantization_table.len() == 256,
                img.dct_table.len() == old(img).dct_table.len(),
                img.act_table.len() == old(img).act_table.len(),
                img@ == (JpgModel {
                    qt: qt_fill(m0.qt, id as int, d, p + 1, wide, k as nat),
                    ..m0
                }),
            decreases 64 - k,
        {
            let v: u16 = if wide {
                match read_be16(it) {
                    Ok(x) => x,
                    Err(e) => {
                        return Err(e);
                    },
                }
            } else {
                match it.next_byte() {
                    Ok(b) => b as u16,
                    Err(e) => {
                        return Err(e);
                    },
                }
            };
            let idx = 64 * (id as usize) + zig_zag_at(k);
            proof {
                lemma_qt_fill_len(m0.qt, id as int, d, p + 1, wide, k as nat);
            }
            img.quantization_table.set(idx, v);
            k = k + 1;
        }
        let sub: u16 = 64 * (1 + hi as u16);
        if remaining - 1 < sub {
            return Err(JpgError::BadLength);
        }
        remaining = remaining - 1 - sub;
    }
    Ok(())
}

/// Reading `c` frame components of 3 bytes from `q` (number, sampling
/// factors, quantization table): once a component is numbered 0, numbers
/// count from 0 and are taken one up. Gives the end and the last table number.
pub open spec fn components_spec(d: Seq<u8>, q: int, c: nat, from_zero: bool, qt_id: u8) -> Result<
    (int, u8),
    JpgError,
>
    decreases c,
{
    if c == 0 {
        Ok((q, qt_id))
    } else if q + 1 > d.len() {
        Err(JpgError::Truncated)
    } else {
        let zero = from_zero || d[q] == 0;
        let id = if zero {
            d[q] + 1
        } else {
            d[q] as int
        };
        if id == 4 || id == 5 {
            Err(JpgError::YiqNotSupported)
        } else if q + 3 > d.len() {
            Err(JpgError::Truncated)
        } else {
            components_spec(d, q + 3, (c - 1) as nat, zero, d[q + 2])
        }
    }
}

/// Reading a start-of-frame segment whose length field is at `p`: precision,
/// height, width, then the components.
pub open spec fn sof_spec(d: Seq<u8>, p: int, m: JpgModel) -> Result<(int, JpgModel), JpgError> {
    if p + 8 > d.len() {
        Err(JpgError::Truncated)
    } else {
        let n = d[p + 7];
        if n == 4 {
            Err(JpgError::CmykNotSupported)
        } else {
            match components_spec(d, p + 8, n as nat, false, m.color.qt_id) {
                Err(e) => Err(e),
                Ok((q, qt_id)) => if be16(d, p) != 8 + 3 * n {
                    Err(JpgError::BadLength)
                } else {
                    Ok(
                        (
                            q,
                            JpgModel {
                                height: be16(d, p + 3) as u16,
                                width: be16(d, p + 5) as u16,
                                color: CromaticData { qt_id, ..m.color },
                                ..m
                            },
                        ),
                    )
                },
            }
        }
    }
}

fn process_start_of_frame(it: &mut BitStream, img: &mut JpgImg) -> (r: Result<(), JpgError>)
    requires
        old(it).wf(),
        old(it).bit_position == 0,
    ensures
        final(it).wf(),
        final(it).bit_position == 0,
        final(it).data@ == old(it).data@,
        final(img).quantization_table@ == old(img).quantization_table@,
        final(img).dct_table.len() == old(img).dct_table.len(),
        final(img).act_table.len() == old(img).act_table.len(),
        match sof_spec(old(it).data@, old(it).i as int, old(img)@) {
            Ok((q, m)) => r is Ok && final(it).i == q && final(img)@ == m,
            Err(e) => r == Err::<(), JpgError>(e),
        },
{
    let ghost d = it.data@;
    let ghost p = it.i as int;
    let length = match read_be16(it) {
        Ok(l) => l,
        Err(e) => {
            return Err(e);
        },
    };
    let _precision = match it.next_byte() {
        Ok(b) => b,
        Err(e) => {
            return Err(e);
        },
    };
    let heigth = match read_be16(it) {
        Ok(l) => l,
        Err(e) => {
            return Err(e);
        },
    };
    let width = match read_be16(it) {
        Ok(l) => l,
        Err(e) => {
            return Err(e);
        },
    };
    let n_components = match it.next_byte() {
        Ok(b) => b,
        Err(e) => {
            return Err(e);
        },
    };
    if n_components == 4 {
        return Err(JpgError::CmykNotSupported);
    }
    let ghost goal = components_spec(d, p + 8, n_components as nat, false, img.color.qt_id);
    let mut start_with_zero = false;
    let mut qt_id = img.color.qt_id;
    let mut c: u8 = 0;
    while c < n_components
        invariant
            it.wf(),
            it.bit_position == 0,
            it.data@ == d,
            d == old(it).data@,
            p == old(it).i,
            p + 8 <= d.len(),
            n_components == d[p + 7],
            n_components != 4,
            goal == components_spec(d, p + 8, n_components as nat, false, old(img).color.qt_id),
            img@ == old(img)@,
            img.dct_table.len() == old(img).dct_table.len(),
            img.act_table.len() == old(img).act_table.len(),
            c <= n_components,
            goal == components_spec(
                d,
                it.i as int,
                (n_components - c) as nat,
                start_with_zero,
                qt_id,
            ),
        decreases n_components - c,
    {
        let id = match it.next_byte() {
            Ok(b) => b,
            Err(e) => {
                return Err(e);
            },
        };
        if id == 0 {
            start_with_zero = true;
        }
        let number: u16 = if start_with_zero {
            id as u16 + 1
        } else {
            id as u16
        };
        if number == 4 || number == 5 {
            return Err(JpgError::YiqNotSupported);
        }
        let _sampling_factor = match it.next_byte() {
            Ok(b) => b,
            Err(e) => {
                return Err(e);
            },
        };
        qt_id = match it.next_byte() {
            Ok(b) => b,
            Err(e) => {
                return Err(e);
            },
        };
        c = c + 1;
    }
    if length != 8 + 3 * (n_components as u16) {
        return Err(JpgError::BadLength);
    }
    img.height = heigth;
    img.width = width;
    img.color.qt_id = qt_id;
    Ok(())
}

proof fn lemma_components_advance(d: Seq<u8>, q: int, c: nat, from_zero: bool, qt_id: u8)
    requires
        q <= d.len(),
    ensures
        components_spec(d, q, c, from_zero, qt_id) is Ok ==> q <= components_spec(
            d,
            q,
            c,
            from_zero,
            qt_id,
        )->Ok_0.0 <= d.len(),
    decreases c,
{
    if c > 0 && q + 3 <= d.len() {
        let zero = from_zero || d[q] == 0;
        lemma_components_advance(d, q + 3, (c - 1) as nat, zero, d[q + 2]);
    }
}

proof fn lemma_qt_advance(d: Seq<u8>, p: int, remaining: int, m: JpgModel)
    requires
        p <= d.len(),
    ensures
        qt_spec(d, p, remaining, m) is Ok ==> p <= qt_spec(d, p, remaining, m)->Ok_0.0 <= d.len(),
    decreases remaining,
{
    if remaining > 0 && p + 1 <= d.len() {
        let th = d[p];
        let n0 = if th / 16 != 0 {
            128int
        } else {
            64int
        };
        if p + 1 + n0 > d.len() {
            return;
        }
        let hi = th / 16;
        let id = th % 16;
        let wide = hi != 0;
        let n = if wide {
            128int
        } else {
            64int
        };
        let sub = 64 * (1 + hi);
        if id < 4 && remaining - 1 >= sub {
            lemma_qt_advance(
                d,
                p + 1 + n,
                remaining - 1 - sub,
                JpgModel { qt: qt_fill(m.qt, id as int, d, p + 1, wide, 64), ..m },
            );
        }
    }
}

/// Reading the segment of marker `curr` whose length field is at `p`.
pub open spec fn segment_spec(d: Seq<u8>, p: int, curr: u8, m: JpgModel) -> Result<
    (int, JpgModel),
    JpgError,
> {
    if 0xE0 <= curr <= 0xEF {
        match appn_spec(d, p) {
            Ok(q) => Ok((q, m)),
            Err(e) => Err(e),
        }
    } else if curr == 0xDB {
        qt_segment_spec(d, p, m)
    } else if curr == 0xC0 || curr == 0xC2 {
        sof_spec(d, p, m)
    } else if curr == 0xDD {
        restart_spec(d, p, m)
    } else {
        Err(JpgError::UnknownMarker(curr))
    }
}

proof fn lemma_segment_advances(d: Seq<u8>, p: int, curr: u8, m: JpgModel)
    ensures
        segment_spec(d, p, curr, m) is Ok ==> p + 2 <= segment_spec(d, p, curr, m)->Ok_0.0
            <= d.len(),
{
    if p + 8 <= d.len() {
        lemma_components_advance(d, p + 8, d[p + 7] as nat, false, m.color.qt_id);
    }
    if p + 2 <= d.len() {
        lemma_qt_advance(d, p + 2, be16(d, p) - 2, m);
    }
}

/// Reading markers from `p` up to the end-of-image marker.
pub open spec fn markers_spec(d: Seq<u8>, p: int, m: JpgModel) -> Result<JpgModel, JpgError>
    decreases d.len() - p,
    via markers_decreases
{
    if p + 2 > d.len() {
        Err(JpgError::Truncated)
    } else if d[p] == 0xFF && d[p + 1] == 0xD9 {
        Ok(m)
    } else if d[p] != 0xFF {
        Err(JpgError::NotAMarker(d[p]))
    } else {
        match segment_spec(d, p + 2, d[p + 1], m) {
            Err(e) => Err(e),
            Ok((q, m2)) => markers_spec(d, q, m2),
        }
    }
}

#[via_fn]
proof fn markers_decreases(d: Seq<u8>, p: int, m: JpgModel) {
    if p + 2 <= d.len() {
        lemma_segment_advances(d, p + 2, d[p + 1], m);
    }
}

/// Reading a JPEG file: whether it starts with the start-of-image marker,
/// and what its markers up to the end-of-image marker tell.
pub open spec fn jpg_spec(d: Seq<u8>) -> Result<(bool, JpgModel), JpgError> {
    if d.len() < 2 {
        Err(JpgError::Truncated)
    } else {
        match markers_spec(d, 2, empty_model()) {
            Ok(m) => Ok((be16(d, 0) == 0xFFD8, m)),
            Err(e) => Err(e),
        }
    }
}

/// Reads the markers of a JPEG file up to its end-of-image marker; tells
/// whether the file starts with the start-of-image marker.
pub fn read_markers(data: &[u8]) -> (r: Result<(bool, JpgImg), JpgError>)
    ensures
        match jpg_spec(data@) {
            Ok((soi, m)) => r matches Ok((s, img)) && s == soi && img@ == m,
            Err(e) => r is Err && r->Err_0 == e,
        },
{
    let mut bytes: Vec<u8> = Vec::new();
    let mut k: usize = 0;
    while k < data.len()
        invariant
            k <= data.len(),
            bytes@ == data@.subrange(0, k as int),
        decreases data.len() - k,
    {
        bytes.push(data[k]);
        k = k + 1;
        assert(bytes@ =~= data@.subrange(0, k as int));
    }
    assert(bytes@ =~= data@);
    let ghost d = data@;
    let mut it = BitStream::new(bytes);
    let soi = match read_be16(&mut it) {
        Ok(v) => v,
        Err(e) => {
            return Err(e);
        },
    };
    let mut img = JpgImg::new();
    loop
        invariant
            it.wf(),
            it.bit_position == 0,
            it.data@ == d,
            d == data@,
            d.len() >= 2,
            soi == be16(d, 0),
            img.quantization_table.len() == 256,
            markers_spec(d, 2, empty_model()) == markers_spec(d, it.i as int, img@),
        decreases d.len() - it.i,
    {
        let ghost p = it.i as int;
        let ghost m0 = img@;
        proof {
            if p + 2 <= d.len() {
                lemma_segment_advances(d, p + 2, d[p + 1], m0);
            }
        }
        let prev = match it.next_byte() {
            Ok(b) => b,
            Err(e) => {
                return Err(e);
            },
        };
        let curr = match it.next_byte() {
            Ok(b) => b,
            Err(e) => {
                return Err(e);
            },
        };
        if prev == 0xFF && curr == 0xD9 {
            return Ok((soi == 0xFFD8, img));
        }
        if prev != 0xFF {
            return Err(JpgError::NotAMarker(prev));
        }
        let seg = if 0xE0 <= curr && curr <= 0xEF {
            process_appn(&mut it)
        } else if curr == 0xDB {
            process_qt(&mut it, &mut img)
        } else if curr == 0xC0 || curr == 0xC2 {
            process_start_of_frame(&mut it, &mut img)
        } else if curr == 0xDD {
            process_retart_interval(&mut it, &mut img)
        } else {
            Err(JpgError::UnknownMarker(curr))
        };
        if let Err(e) = seg {
            return Err(e);
        }
    }
}

} // verus!
