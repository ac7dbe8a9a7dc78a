use vstd::prelude::*;

use crate::error::InflateError;
use crate::zlib::{inflate, inflate_spec};

verus! {

/// The kinds of chunk this decoder tells apart.
#[derive(Clone, Copy, Debug, PartialEq, Eq, Structural)]
pub enum ChunkType {
    /// The image header, the first chunk of a PNG datastream.
    IHDR,
    /// Compressed image data.
    IDAT,
    /// The image trailer, the last chunk.
    IEND,
    /// Any other chunk; these are ignored.
    AncyllaryChunk,
}

/// Why a PNG datastream could not be decoded.
#[derive(Debug, Clone, Copy, PartialEq, Eq, Structural)]
pub enum PngError {
    /// The file does not start with the PNG signature.
    BadSignature,
    /// A chunk, the header or the image data is shorter than it must be.
    Truncated,
    /// There are no chunks, so no header.
    MissingHeader,
    /// The chunk handed over as the header is not an IHDR chunk.
    NotHeader,
    /// A colour type other than 0, 2, 4 or 6.
    InvalidColorType(u8),
    /// A scanline filter type other than 0 to 4.
    InvalidFilter(u8),
    /// The image data is too large to address in bits.
    TooLarge,
    /// The image data is not a valid zlib stream.
    Inflate(InflateError),
}

/// A chunk: its type and its data (the length and checksum fields are not kept).
#[derive(Clone, Debug, PartialEq)]
pub struct Chunk {
    pub typ: ChunkType,
    pub data: Vec<u8>,
}

impl View for Chunk {
    type V = (ChunkType, Seq<u8>);

    open spec fn view(&self) -> (ChunkType, Seq<u8>) {
        (self.typ, self.data@)
    }
}

/// The big-endian 32-bit number in the four bytes from `i`.
pub open spec fn be_u32(b: Seq<u8>, i: int) -> nat {
    (b[i] * 16777216 + b[i + 1] * 65536 + b[i + 2] * 256 + b[i + 3]) as nat
}

/// The chunk type named by four type bytes.
pub open spec fn chunk_type_of(t: Seq<u8>) -> ChunkType {
    if t == seq![73u8, 72, 68, 82] {
        ChunkType::IHDR
    } else if t == seq![73u8, 68, 65, 84] {
        ChunkType::IDAT
    } else if t == seq![73u8, 69, 78, 68] {
        ChunkType::IEND
    } else {
        ChunkType::AncyllaryChunk
    }
}

/// The chunk at the start of `b`: a 4-byte length, 4 type bytes, then data.
pub open spec fn chunk_spec(b: Seq<u8>) -> Result<(ChunkType, Seq<u8>), PngError> {
    if b.len() < 8 || 8 + be_u32(b, 0) > b.len() {
        Err(PngError::Truncated)
    } else {
        Ok((chunk_type_of(b.subrange(4, 8)), b.subrange(8, 8 + be_u32(b, 0) as int)))
    }
}

fn read_be_u32(b: &[u8], i: usize) -> (r: u32)
    requires
        i + 4 <= b.len(),
    ensures
        r == be_u32(b@, i as int),
{
    (b[i] as u32) * 16777216 + (b[i + 1] as u32) * 65536 + (b[i + 2] as u32) * 256 + (b[i + 3] as u32)
}

fn type_from_bytes(b: &[u8], at: usize) -> (r: ChunkType)
    requires
        at + 8 <= b.len(),
    ensures
        r == chunk_type_of(b@.subrange(at + 4, at + 8)),
{
    let ghost t = b@.subrange(at + 4, at + 8);
    let (t0, t1, t2, t3) = (b[at + 4], b[at + 5], b[at + 6], b[at + 7]);
    assert(t[0] == t0 && t[1] == t1 && t[2] == t2 && t[3] == t3);
    if t0 == 73 && t1 == 72 && t2 == 68 && t3 == 82 {
        assert(t =~= seq![73u8, 72, 68, 82]);
        ChunkType::IHDR
    } else if t0 == 73 && t1 == 68 && t2 == 65 && t3 == 84 {
        assert(t =~= seq![73u8, 68, 65, 84]);
        ChunkType::IDAT
    } else if t0 == 73 && t1 == 69 && t2 == 78 && t3 == 68 {
        assert(t =~= seq![73u8, 69, 78, 68]);
        ChunkType::IEND
    } else {
        ChunkType::AncyllaryChunk
    }
}

/// Reads the chunk that starts at byte `at` of `bytes`.
fn chunk_at(bytes: &[u8], at: usize) -> (r: Result<Chunk, PngError>)
    requires
        at <= bytes.len(),
    ensures
        match chunk_spec(bytes@.subrange(at as int, bytes.len() as int)) {
            Ok((t, d)) => r matches Ok(c) && c.typ == t && c.data@ == d,
            Err(e) => r == Err::<Chunk, PngError>(e),
        },
{
    let ghost b = bytes@.subrange(at as int, bytes.len() as int);
    if bytes.len() - at < 8 {
        return Err(PngError::Truncated);
    }
    let length = read_be_u32(bytes, at) as usize;
    assert(length == be_u32(b, 0));
    if length > bytes.len() - at - 8 {
        return Err(PngError::Truncated);
    }
    let typ = type_from_bytes(bytes, at);
    assert(b.subrange(4, 8) =~= bytes@.subrange(at + 4, at + 8));
    let mut data: Vec<u8> = Vec::new();
    let start = at + 8;
    let mut i: usize = start;
    while i < start + length
        invariant
            start == at + 8,
            start <= i <= start + length,
            start + length <= bytes.len(),
            data@ == bytes@.subrange(start as int, i as int),
        decreases start + length - i,
    {
        data.push(bytes[i]);
        i = i + 1;
        assert(data@ =~= bytes@.subrange(start as int, i as int));
    }
    assert(data@ =~= b.subrange(8, 8 + length as int));
    Ok(Chunk { typ, data })
}

impl Chunk {
    /// Reads the chunk at the start of `bytes`.
    pub fn from_slice(bytes: &[u8]) -> (r: Result<Chunk, PngError>)
        ensures
            match chunk_spec(bytes@) {
                Ok((t, d)) => r matches Ok(c) && c.typ == t && c.data@ == d,
                Err(e) => r == Err::<Chunk, PngError>(e),
            },
    {
        assert(bytes@.subrange(0, bytes.len() as int) =~= bytes@);
        chunk_at(bytes, 0)
    }
}

/// The colour types this decoder reads (indexed colour is not supported).
#[derive(Clone, Copy, Debug, PartialEq, Eq, Structural)]
pub enum ColorType {
    Greyscale,
    Truecolour,
    GreyscaleA,
    TruecolourA,
}

/// The fields of the IHDR chunk that decoding needs.
#[derive(Clone, Copy, Debug, PartialEq, Eq, Structural)]
pub struct ImageHeader {
    pub width: u32,
    pub height: u32,
    pub bit_depth: u8,
    pub color_type: ColorType,
}

/// The colour type with code `v`.
pub open spec fn color_type_of(v: u8) -> Option<ColorType> {
    if v == 0 {
        Some(ColorType::Greyscale)
    } else if v == 2 {
        Some(ColorType::Truecolour)
    } else if v == 4 {
        Some(ColorType::GreyscaleA)
    } else if v == 6 {
        Some(ColorType::TruecolourA)
    } else {
        None
    }
}

/// The header held by a chunk of type `t` with data `d`: width, height, bit
/// depth and colour type, in that order.
pub open spec fn header_spec(t: ChunkType, d: Seq<u8>) -> Result<ImageHeader, PngError> {
    if t != ChunkType::IHDR {
        Err(PngError::NotHeader)
    } else if d.len() < 10 {
        Err(PngError::Truncated)
    } else {
        match color_type_of(d[9]) {
            None => Err(PngError::InvalidColorType(d[9])),
            Some(c) => Ok(
                ImageHeader {
                    width: be_u32(d, 0) as u32,
                    height: be_u32(d, 4) as u32,
                    bit_depth: d[8],
                    color_type: c,
                },
            ),
        }
    }
}

/// Number of channels of a colour type.
pub open spec fn channels(c: ColorType) -> nat {
    match c {
        ColorType::Greyscale => 1,
        ColorType::GreyscaleA => 2,
        ColorType::Truecolour => 3,
        ColorType::TruecolourA => 4,
    }
}

/// Bytes per pixel: the channels, each rounded up to whole bytes.
pub open spec fn bytes_per_pixel_of(h: ImageHeader) -> nat {
    channels(h.color_type) * ((h.bit_depth + 7) / 8) as nat
}

fn header_of(header: &Chunk) -> (r: Result<ImageHeader, PngError>)
    ensures
        r == header_spec(header.typ, header.data@),
{
    if header.typ != ChunkType::IHDR {
        return Err(PngError::NotHeader);
    }
    let data = &header.data;
    if data.len() < 10 {
        return Err(PngError::Truncated);
    }
    let width = read_be_u32(data.as_slice(), 0);
    let height = read_be_u32(data.as_slice(), 4);
    let bit_depth = data[8];
    let color_type = if data[9] == 0 {
        ColorType::Greyscale
    } else if data[9] == 2 {
        ColorType::Truecolour
    } else if data[9] == 4 {
        ColorType::GreyscaleA
    } else if data[9] == 6 {
        ColorType::TruecolourA
    } else {
        return Err(PngError::InvalidColorType(data[9]));
    };
    Ok(ImageHeader { width, height, bit_depth, color_type })
}

impl ImageHeader {
    /// Reads the header from an IHDR chunk.
    pub fn from_chunk(header: Chunk) -> (r: Result<ImageHeader, PngError>)
        ensures
            r == header_spec(header.typ, header.data@),
    {
        header_of(&header)
    }

    /// Bytes per pixel of the image this header describes.
    pub fn bytes_per_pixel(&self) -> (r: u8)
        ensures
            r == bytes_per_pixel_of(*self),
    {
        let per_channel: u8 = ((self.bit_depth as usize + 7) / 8) as u8;
        let n: u8 = match self.color_type {
            ColorType::Greyscale => 1,
            ColorType::GreyscaleA => 2,
            ColorType::Truecolour => 3,
            ColorType::TruecolourA => 4,
        };
        n * per_channel
    }
}

pub open spec fn abs(x: int) -> int {
    if x < 0 {
        -x
    } else {
        x
    }
}

/// The Paeth predictor: whichever of `a`, `b`, `c` is closest to `a + b - c`,
/// ties going to `a`, then `b`.
pub open spec fn paeth(a: int, b: int, c: int) -> int {
    let p = a + b - c;
    if abs(p - a) <= abs(p - b) && abs(p - a) <= abs(p - c) {
        a
    } else if abs(p - b) <= abs(p - c) {
        b
    } else {
        c
    }
}

/// What filter type `typ` predicts from the left, upper and upper-left bytes.
pub open spec fn predictor(typ: u8, a: u8, b: u8, c: u8) -> int {
    if typ == 1 {
        a as int
    } else if typ == 2 {
        b as int
    } else if typ == 3 {
        (a + b) / 2
    } else if typ == 4 {
        paeth(a as int, b as int, c as int)
    } else {
        0
    }
}

/// The byte that filtered byte `x` stands for.
pub open spec fn recon(typ: u8, x: u8, a: u8, b: u8, c: u8) -> u8 {
    ((x + predictor(typ, a, b, c)) % 256) as u8
}

/// The byte `bpp` bytes to the left of output byte `k` in its row, or 0.
pub open spec fn left_of(out: Seq<u8>, k: int, cols: int, bpp: int) -> u8 {
    if k % cols >= bpp {
        out[k - bpp]
    } else {
        0
    }
}

/// The byte above output byte `k`, or 0 in the first row.
pub open spec fn above(out: Seq<u8>, k: int, cols: int) -> u8 {
    if k >= cols {
        out[k - cols]
    } else {
        0
    }
}

/// The byte above and `bpp` bytes to the left of output byte `k`, or 0.
pub open spec fn above_left(out: Seq<u8>, k: int, cols: int, bpp: int) -> u8 {
    if k >= cols && k % cols >= bpp {
        out[k - cols - bpp]
    } else {
        0
    }
}

/// The filter type of the row of output byte `k`; each encoded row is its
/// filter type followed by `cols` filtered bytes.
pub open spec fn filter_type_at(raw: Seq<u8>, cols: int, k: int) -> u8 {
    raw[(k / cols) * (cols + 1)]
}

/// The filtered byte that output byte `k` is reconstructed from.
pub open spec fn filtered_at(raw: Seq<u8>, cols: int, k: int) -> u8 {
    raw[(k / cols) * (cols + 1) + k % cols + 1]
}

/// The first `n` bytes of the unfiltered image, row-major: each reconstructed
/// from its filtered byte and the bytes reconstructed before it.
pub open spec fn unfiltered(raw: Seq<u8>, cols: int, bpp: int, n: nat) -> Seq<u8>
    decreases n,
{
    if n == 0 {
        seq![]
    } else {
        let prev = unfiltered(raw, cols, bpp, (n - 1) as nat);
        let k = n - 1;
        prev.push(
            recon(
                filter_type_at(raw, cols, k),
                filtered_at(raw, cols, k),
                left_of(prev, k, cols, bpp),
                above(prev, k, cols),
                above_left(prev, k, cols, bpp),
            ),
        )
    }
}

/// The first filter type above 4 among rows `i` to `rows - 1`.
pub open spec fn first_bad_filter(raw: Seq<u8>, rows: int, cols: int, i: int) -> Option<u8>
    decreases rows - i,
{
    if i >= rows || i < 0 {
        None
    } else if raw[i * (cols + 1)] > 4 {
        Some(raw[i * (cols + 1)])
    } else {
        first_bad_filter(raw, rows, cols, i + 1)
    }
}

/// Undoing the scanline filters of `rows` rows of `cols` bytes.
pub open spec fn unfilter_spec(raw: Seq<u8>, rows: nat, cols: nat, bpp: nat) -> Result<
    Seq<u8>,
    PngError,
> {
    if raw.len() < rows * (cols + 1) {
        Err(PngError::Truncated)
    } else {
        match first_bad_filter(raw, rows as int, cols as int, 0) {
            Some(t) => Err(PngError::InvalidFilter(t)),
            None => Ok(unfiltered(raw, cols as int, bpp as int, rows * cols)),
        }
    }
}

/// A decoded image: its header, its bytes per pixel, and its unfiltered
/// pixel bytes, row-major.
pub struct PNGImage {
    pub header: ImageHeader,
    pub bytes_per_pixel: u8,
    pub data: Vec<u8>,
}

impl PNGImage {
    /// The Paeth predictor of the left, upper and upper-left bytes.
    #[allow(non_snake_case)]
    pub fn PaethPredictor(a: i32, b: i32, c: i32) -> (r: i32)
        requires
            -0x1000_0000 <= a <= 0x1000_0000,
            -0x1000_0000 <= b <= 0x1000_0000,
            -0x1000_0000 <= c <= 0x1000_0000,
        ensures
            r == paeth(a as int, b as int, c as int),
    {
        let p = a + b - c;
        let pa = if p - a < 0 { a - p } else { p - a };
        let pb = if p - b < 0 { b - p } else { p - b };
        let pc = if p - c < 0 { c - p } else { p - c };
        if pa <= pb && pa <= pc {
            a
        } else if pb <= pc {
            b
        } else {
            c
        }
    }

    /// Undoes the scanline filters of the decompressed image data: `height`
    /// rows, each a filter-type byte followed by `width * bytes_per_pixel` bytes.
    pub fn unfilter(&self, decompressed_data: &[u8]) -> (r: Result<Vec<u8>, PngError>)
        ensures
            match unfilter_spec(
                decompressed_data@,
                self.header.height as nat,
                (self.header.width * self.bytes_per_pixel) as nat,
                self.bytes_per_pixel as nat,
            ) {
                Ok(o) => r matches Ok(v) && v@ == o,
                Err(e) => r == Err::<Vec<u8>, PngError>(e),
            },
    {
        let ghost raw = decompressed_data@;
        let len = decompressed_data.len();
        assert(raw.len() == len);
        let rows = self.header.height as usize;
        let bpp = self.bytes_per_pixel as usize;
        if rows == 0 {
            assert(unfiltered(raw, (self.header.width * self.bytes_per_pixel) as int, bpp as int, 0)
                =~= seq![]);
            return Ok(Vec::new());
        }
        let cols = match (self.header.width as usize).checked_mul(bpp) {
            Some(c) => c,
            None => {
                proof {
                    let w = self.header.width * self.bytes_per_pixel;
                    assert(rows * (w + 1) >= w + 1) by (nonlinear_arith)
                        requires
                            rows >= 1,
                            w >= 0,
                    ;
                }
                return Err(PngError::Truncated);
            },
        };
        let stride = match cols.checked_add(1) {
            Some(c) => c,
            None => {
                proof {
                    assert(rows * (cols + 1) >= cols + 1) by (nonlinear_arith)
                        requires
                            rows >= 1,
                    ;
                }
                return Err(PngError::Truncated);
            },
        };
        let need = match rows.checked_mul(stride) {
            Some(c) => c,
            None => {
                return Err(PngError::Truncated);
            },
        };
        if need > decompressed_data.len() {
            return Err(PngError::Truncated);
        }
        let mut data: Vec<u8> = Vec::new();
        let mut i: usize = 0;
        while i < rows
            invariant
                raw == decompressed_data@,
                rows == self.header.height,
                bpp == self.bytes_per_pixel,
                cols == self.header.width * self.bytes_per_pixel,
                stride == cols + 1,
                rows * stride <= raw.len(),
                raw.len() == len,
                i <= rows,
                data.len() == i * cols,
                data@ == unfiltered(raw, cols as int, bpp as int, (i * cols) as nat),
                first_bad_filter(raw, rows as int, cols as int, 0) == first_bad_filter(
                    raw,
                    rows as int,
                    cols as int,
                    i as int,
                ),
            decreases rows - i,
        {
            proof {
                assert(i * stride + stride <= rows * stride) by (nonlinear_arith)
                    requires
                        i < rows,
                ;
                assert((i + 1) * cols == i * cols + cols) by (nonlinear_arith);
                assert(i * cols <= i * stride) by (nonlinear_arith)
                    requires
                        stride == cols + 1,
                ;
            }
            let row = i * stride;
            let typ = decompressed_data[row];
            if typ > 4 {
                return Err(PngError::InvalidFilter(typ));
            }
            let mut j: usize = 0;
            while j < cols
                invariant
                    raw == decompressed_data@,
                    bpp == self.bytes_per_pixel,
                    cols == self.header.width * self.bytes_per_pixel,
                    stride == cols + 1,
                    row == i * stride,
                    row + stride <= raw.len(),
                    raw.len() == len,
                    typ == raw[row as int],
                    i * cols + cols <= raw.len(),
                    j <= cols,
                    data.len() == i * cols + j,
                    data@ == unfiltered(raw, cols as int, bpp as int, (i * cols + j) as nat),
                decreases cols - j,
            {
                let xi = i * cols + j;
                proof {
                    vstd::arithmetic::div_mod::lemma_fundamental_div_mod_converse(
                        xi as int,
                        cols as int,
                        i as int,
                        j as int,
                    );
                    assert(i * cols == cols * i) by (nonlinear_arith);
                    assert(xi >= cols <==> i > 0) by (nonlinear_arith)
                        requires
                            xi == i * cols + j,
                            j < cols,
                    ;
                    assert(i > 0 ==> xi - cols >= j) by (nonlinear_arith)
                        requires
                            xi == i * cols + j,
                    ;
                    assert(bpp > 0) by (nonlinear_arith)
                        requires
                            cols == self.header.width * bpp,
                            j < cols,
                    ;
                }
                let x = decompressed_data[row + j + 1];
                let a: u8 = if j >= bpp {
                    data[xi - bpp]
                } else {
                    0
                };
                let b: u8 = if i > 0 {
                    data[xi - cols]
                } else {
                    0
                };
                let c: u8 = if j >= bpp && i > 0 {
                    data[xi - cols - bpp]
                } else {
                    0
                };
                let v = recon_byte(typ, x, a, b, c);
                data.push(v);
                j = j + 1;
            }
            i = i + 1;
        }
        Ok(data)
    }
}

fn recon_byte(typ: u8, x: u8, a: u8, b: u8, c: u8) -> (r: u8)
    ensures
        r == recon(typ, x, a, b, c),
{
    let pred: u16 = if typ == 1 {
        a as u16
    } else if typ == 2 {
        b as u16
    } else if typ == 3 {
        (a as u16 + b as u16) / 2
    } else if typ == 4 {
        PNGImage::PaethPredictor(a as i32, b as i32, c as i32) as u16
    } else {
        0
    };
    ((x as u16 + pred) % 256) as u8
}

/// The data of the IDAT chunks among `cs`, concatenated in order.
pub open spec fn idat_data(cs: Seq<(ChunkType, Seq<u8>)>) -> Seq<u8>
    decreases cs.len(),
{
    if cs.len() == 0 {
        seq![]
    } else {
        let last = cs[cs.len() - 1];
        idat_data(cs.drop_last()) + if last.0 == ChunkType::IDAT {
            last.1
        } else {
            seq![]
        }
    }
}

/// The image held by the chunks `cs`: the header read from the first chunk,
/// and the pixel bytes got by inflating the IDAT data and undoing its filters.
pub open spec fn image_spec(cs: Seq<(ChunkType, Seq<u8>)>) -> Result<(ImageHeader, Seq<u8>), PngError> {
    if cs.len() == 0 {
        Err(PngError::MissingHeader)
    } else {
        match header_spec(cs[0].0, cs[0].1) {
            Err(e) => Err(e),
            Ok(h) => {
                let bpp = bytes_per_pixel_of(h);
                let compressed = idat_data(cs);
                if 8 * compressed.len() > usize::MAX {
                    Err(PngError::TooLarge)
                } else {
                    match inflate_spec(compressed) {
                        Err(e) => Err(PngError::Inflate(e)),
                        Ok(raw) => match unfilter_spec(raw, h.height as nat, (h.width * bpp) as nat, bpp) {
                            Err(e) => Err(e),
                            Ok(px) => Ok((h, px)),
                        },
                    }
                }
            },
        }
    }
}

/// The PNG file signature.
pub open spec fn png_signature() -> Seq<u8> {
    seq![0x89u8, 0x50, 0x4e, 0x47, 0x0d, 0x0a, 0x1a, 0x0a]
}

/// The chunks of `f` from byte `i` to its end, each a chunk followed by a
/// 4-byte checksum (which is not checked).
pub open spec fn chunks_from(f: Seq<u8>, i: int) -> Result<Seq<(ChunkType, Seq<u8>)>, PngError>
    decreases f.len() - i,
{
    if i >= f.len() || i < 0 {
        Ok(seq![])
    } else {
        match chunk_spec(f.subrange(i, f.len() as int)) {
            Err(e) => Err(e),
            Ok(c) => {
                let next = i + 12 + c.1.len();
                if next > f.len() {
                    Err(PngError::Truncated)
                } else {
                    match chunks_from(f, next) {
                        Err(e) => Err(e),
                        Ok(rest) => Ok(seq![c] + rest),
                    }
                }
            },
        }
    }
}

/// The image in the PNG file `f`.
pub open spec fn png_file_spec(f: Seq<u8>) -> Result<(ImageHeader, Seq<u8>), PngError> {
    if f.len() < 8 || f.subrange(0, 8) != png_signature() {
        Err(PngError::BadSignature)
    } else {
        match chunks_from(f, 8) {
            Err(e) => Err(e),
            Ok(cs) => image_spec(cs),
        }
    }
}

impl PNGImage {
    /// Builds the image from its chunks, the first of which must be the header.
    pub fn from_chunks(chunks: Vec<Chunk>) -> (r: Result<PNGImage, PngError>)
        ensures
            match image_spec(chunks@.map_values(|c: Chunk| c@)) {
                Ok((h, px)) => r matches Ok(img) && img.header == h && img.bytes_per_pixel
                    == bytes_per_pixel_of(h) && img.data@ == px,
                Err(e) => r is Err && r->Err_0 == e,
            },
    {
        let ghost cs = chunks@.map_values(|c: Chunk| c@);
        if chunks.len() == 0 {
            return Err(PngError::MissingHeader);
        }
        let header = match header_of(&chunks[0]) {
            Ok(h) => h,
            Err(e) => {
                return Err(e);
            },
        };
        let bytes_per_pixel = header.bytes_per_pixel();
        let mut compressed_data: Vec<u8> = Vec::new();
        let mut k: usize = 0;
        while k < chunks.len()
            invariant
                cs == chunks@.map_values(|c: Chunk| c@),
                k <= chunks.len(),
                compressed_data@ == idat_data(cs.subrange(0, k as int)),
            decreases chunks.len() - k,
        {
            let chunk = &chunks[k];
            if chunk.typ == ChunkType::IDAT {
                let mut m: usize = 0;
                let ghost before = compressed_data@;
                while m < chunk.data.len()
                    invariant
                        m <= chunk.data.len(),
                        compressed_data@ == before + chunk.data@.subrange(0, m as int),
                    decreases chunk.data.len() - m,
                {
                    compressed_data.push(chunk.data[m]);
                    m = m + 1;
                    assert(compressed_data@ =~= before + chunk.data@.subrange(0, m as int));
                }
                assert(chunk.data@.subrange(0, m as int) =~= chunk.data@);
            }
            assert(cs.subrange(0, k + 1).drop_last() =~= cs.subrange(0, k as int));
            k = k + 1;
            assert(compressed_data@ =~= idat_data(cs.subrange(0, k as int)));
        }
        assert(cs.subrange(0, k as int) =~= cs);
        if compressed_data.len() > usize::MAX / 8 {
            return Err(PngError::TooLarge);
        }
        let decompressed_data = match inflate(compressed_data.as_slice()) {
            Ok(v) => v,
            Err(e) => {
                return Err(PngError::Inflate(e));
            },
        };
        let image = PNGImage { header, bytes_per_pixel, data: Vec::new() };
        let data = match image.unfilter(decompressed_data.as_slice()) {
            Ok(v) => v,
            Err(e) => {
                return Err(e);
            },
        };
        Ok(PNGImage { header, bytes_per_pixel, data })
    }

    /// Decodes a whole PNG file: the signature, then its chunks.
    pub fn from_bytes(f: &[u8]) -> (r: Result<PNGImage, PngError>)
        ensures
            match png_file_spec(f@) {
                Ok((h, px)) => r matches Ok(img) && img.header == h && img.bytes_per_pixel
                    == bytes_per_pixel_of(h) && img.data@ == px,
                Err(e) => r is Err && r->Err_0 == e,
            },
    {
        if f.len() < 8 || f[0] != 0x89 || f[1] != 0x50 || f[2] != 0x4e || f[3] != 0x47 || f[4]
            != 0x0d || f[5] != 0x0a || f[6] != 0x1a || f[7] != 0x0a {
            proof {
                if f@.len() >= 8 {
                    let s = f@.subrange(0, 8);
                    assert(s[0] == f@[0] && s[1] == f@[1] && s[2] == f@[2] && s[3] == f@[3]);
                    assert(s[4] == f@[4] && s[5] == f@[5] && s[6] == f@[6] && s[7] == f@[7]);
                }
            }
            return Err(PngError::BadSignature);
        }
        assert(f@.subrange(0, 8) =~= png_signature());
        let mut chunks: Vec<Chunk> = Vec::new();
        let mut i: usize = 8;
        while i < f.len()
            invariant
                8 <= i <= f.len(),
                f@.subrange(0, 8) == png_signature(),
                chunks_from(f@, 8) == match chunks_from(f@, i as int) {
                    Ok(rest) => Ok(chunks@.map_values(|c: Chunk| c@) + rest),
                    Err(e) => Err(e),
                },
            decreases f.len() - i,
        {
            let chunk = match chunk_at(f, i) {
                Ok(c) => c,
                Err(e) => {
                    assert(chunks_from(f@, i as int) == Err::<Seq<(ChunkType, Seq<u8>)>, PngError>(e));
                    return Err(e);
                },
            };
            if f.len() - i < 12 || chunk.data.len() > f.len() - i - 12 {
                assert(chunks_from(f@, i as int) == Err::<Seq<(ChunkType, Seq<u8>)>, PngError>(
                    PngError::Truncated,
                ));
                return Err(PngError::Truncated);
            }
            let next = i + 12 + chunk.data.len();
            let ghost before = chunks@.map_values(|c: Chunk| c@);
            let ghost c = chunk@;
            chunks.push(chunk);
            proof {
                assert(chunks@.map_values(|c: Chunk| c@) =~= before.push(c));
                match chunks_from(f@, next as int) {
                    Ok(rest) => {
                        assert(before + (seq![c] + rest) =~= before.push(c) + rest);
                    },
                    Err(_) => {},
                }
            }
            i = next;
        }
        assert(chunks@.map_values(|c: Chunk| c@) + seq![] =~= chunks@.map_values(|c: Chunk| c@));
        PNGImage::from_chunks(chunks)
    }
}

/// What filter type `typ` turns byte `x` into, given its left, upper and
/// upper-left neighbours in the image itself.
pub open spec fn filter_byte(typ: u8, x: u8, a: u8, b: u8, c: u8) -> u8 {
    ((x - predictor(typ, a, b, c)) % 256) as u8
}

/// The scanline encoding of `img`, `rows` rows of `cols` bytes, with filter
/// type `types[i]` on row `i`: each row is its filter type, then its bytes as
/// that filter turns them, predicted from the image itself.
pub open spec fn filtered_image(img: Seq<u8>, rows: nat, cols: nat, bpp: nat, types: Seq<u8>) -> Seq<u8> {
    Seq::new(
        rows * (cols + 1),
        |e: int|
            {
                let i = e / (cols + 1) as int;
                let j = e % (cols + 1) as int;
                let k = i * cols + j - 1;
                if j == 0 {
                    types[i]
                } else {
                    filter_byte(
                        types[i],
                        img[k],
                        left_of(img, k, cols as int, bpp as int),
                        above(img, k, cols as int),
                        above_left(img, k, cols as int, bpp as int),
                    )
                }
            },
    )
}

proof fn lemma_recon_inverts_filter(typ: u8, x: u8, a: u8, b: u8, c: u8)
    ensures
        recon(typ, filter_byte(typ, x, a, b, c), a, b, c) == x,
{
    let p = predictor(typ, a, b, c);
    let d = x - p;
    vstd::arithmetic::div_mod::lemma_fundamental_div_mod(d, 256);
    let q = d / 256;
    let r = d % 256;
    assert(r + p == (-q) * 256 + x) by (nonlinear_arith)
        requires
            d == 256 * q + r,
            d == x - p,
    ;
    vstd::arithmetic::div_mod::lemma_fundamental_div_mod_converse(r + p, 256, -q, x as int);
}

proof fn lemma_row_start(i: int, cols: int)
    requires
        i >= 0,
        cols >= 0,
    ensures
        (i * (cols + 1)) / (cols + 1) == i,
        (i * (cols + 1)) % (cols + 1) == 0,
{
    vstd::arithmetic::div_mod::lemma_fundamental_div_mod_converse(i * (cols + 1), cols + 1, i, 0);
}

proof fn lemma_no_bad_filter(img: Seq<u8>, rows: nat, cols: nat, bpp: nat, types: Seq<u8>, i: int)
    requires
        types.len() == rows,
        forall|t: int| 0 <= t < rows ==> types[t] <= 4,
        0 <= i,
    ensures
        first_bad_filter(filtered_image(img, rows, cols, bpp, types), rows as int, cols as int, i)
            is None,
    decreases rows - i,
{
    if i < rows {
        lemma_row_start(i, cols as int);
        assert(i * (cols + 1) < rows * (cols + 1)) by (nonlinear_arith)
            requires
                i < rows,
        ;
        lemma_no_bad_filter(img, rows, cols, bpp, types, i + 1);
    }
}

proof fn lemma_unfiltered_prefix(img: Seq<u8>, rows: nat, cols: nat, bpp: nat, types: Seq<u8>, n: nat)
    requires
        img.len() == rows * cols,
        types.len() == rows,
        bpp >= 1,
        n <= rows * cols,
    ensures
        unfiltered(filtered_image(img, rows, cols, bpp, types), cols as int, bpp as int, n)
            == img.subrange(0, n as int),
    decreases n,
{
    let raw = filtered_image(img, rows, cols, bpp, types);
    if n == 0 {
        assert(img.subrange(0, 0) =~= seq![]);
    } else {
        let k = n - 1;
        lemma_unfiltered_prefix(img, rows, cols, bpp, types, k as nat);
        let prev = unfiltered(raw, cols as int, bpp as int, k as nat);
        assert(cols > 0) by (nonlinear_arith)
            requires
                0 <= k < rows * cols,
                rows >= 0,
                cols >= 0,
        ;
        let i = k / (cols as int);
        let j = k % (cols as int);
        vstd::arithmetic::div_mod::lemma_fundamental_div_mod(k, cols as int);
        vstd::arithmetic::div_mod::lemma_mod_pos_bound(k, cols as int);
        assert(0 <= i < rows) by (nonlinear_arith)
            requires
                k == cols * i + j,
                0 <= j < cols,
                0 <= k < rows * cols,
        ;
        let e = i * (cols + 1) + j + 1;
        vstd::arithmetic::div_mod::lemma_fundamental_div_mod_converse(e, cols + 1 as int, i, j + 1);
        lemma_row_start(i, cols as int);
        assert(e < rows * (cols + 1)) by (nonlinear_arith)
            requires
                i < rows,
                j < cols,
                e == i * (cols + 1) + j + 1,
        ;
        assert(i * (cols + 1) < rows * (cols + 1)) by (nonlinear_arith)
            requires
                i < rows,
        ;
        assert(i * cols + j == k) by (nonlinear_arith)
            requires
                k == cols * i + j,
        ;
        assert(k >= cols <==> i > 0) by (nonlinear_arith)
            requires
                k == cols * i + j,
                0 <= j < cols,
                i >= 0,
        ;
        assert(i > 0 ==> k - cols >= j) by (nonlinear_arith)
            requires
                k == cols * i + j,
                cols >= 0,
        ;
        assert(filter_type_at(raw, cols as int, k) == types[i]);
        assert(filtered_at(raw, cols as int, k) == raw[e]);
        let a = left_of(img, k, cols as int, bpp as int);
        let b = above(img, k, cols as int);
        let c = above_left(img, k, cols as int, bpp as int);
        assert(left_of(prev, k, cols as int, bpp as int) == a);
        assert(above(prev, k, cols as int) == b);
        assert(above_left(prev, k, cols as int, bpp as int) == c);
        lemma_recon_inverts_filter(types[i], img[k], a, b, c);
        assert(unfiltered(raw, cols as int, bpp as int, n) =~= img.subrange(0, n as int));
    }
}

/// Filtering an image with any filter types and then undoing the filters gives
/// the image back.
pub proof fn lemma_unfilter_inverts_filter(
    img: Seq<u8>,
    rows: nat,
    cols: nat,
    bpp: nat,
    types: Seq<u8>,
)
    requires
        img.len() == rows * cols,
        types.len() == rows,
        forall|t: int| 0 <= t < rows ==> types[t] <= 4,
        bpp >= 1,
    ensures
        unfilter_spec(filtered_image(img, rows, cols, bpp, types), rows, cols, bpp) == Ok::<
            Seq<u8>,
            PngError,
        >(img),
{
    lemma_no_bad_filter(img, rows, cols, bpp, types, 0);
    lemma_unfiltered_prefix(img, rows, cols, bpp, types, rows * cols);
    assert(img.subrange(0, (rows * cols) as int) =~= img);
}

} // verus!
