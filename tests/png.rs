use png_decode::{Chunk, ChunkType, ColorType, ImageHeader, InflateError, PNGImage, PngError};

fn chunk_bytes(typ: &[u8; 4], data: &[u8]) -> Vec<u8> {
    let mut v = (data.len() as u32).to_be_bytes().to_vec();
    v.extend_from_slice(typ);
    v.extend_from_slice(data);
    v.extend_from_slice(&[0, 0, 0, 0]);
    v
}

fn ihdr(width: u32, height: u32, depth: u8, color: u8) -> Vec<u8> {
    let mut d = width.to_be_bytes().to_vec();
    d.extend_from_slice(&height.to_be_bytes());
    d.extend_from_slice(&[depth, color, 0, 0, 0]);
    d
}

fn zlib_stored(data: &[u8]) -> Vec<u8> {
    let len = data.len();
    let mut v = vec![0x78, 0x01, 1, (len % 256) as u8, (len / 256) as u8];
    v.push(255 - (len % 256) as u8);
    v.push(255 - (len / 256) as u8);
    v.extend_from_slice(data);
    v.extend_from_slice(&[0, 0, 0, 0]);
    v
}

fn image(width: u32, height: u32, bpp: u8) -> PNGImage {
    PNGImage {
        header: ImageHeader { width, height, bit_depth: 8, color_type: ColorType::Truecolour },
        bytes_per_pixel: bpp,
        data: vec![],
    }
}

#[test]
fn paeth_tie_goes_to_a() {
    assert_eq!(PNGImage::PaethPredictor(10, 10, 10), 10);
    assert_eq!(PNGImage::PaethPredictor(1, 2, 3), 1);
    assert_eq!(PNGImage::PaethPredictor(10, 20, 10), 20);
    assert_eq!(PNGImage::PaethPredictor(50, 60, 100), 50);
    assert_eq!(PNGImage::PaethPredictor(100, 60, 50), 100);
    assert_eq!(PNGImage::PaethPredictor(0, 255, 255), 0);
    assert_eq!(PNGImage::PaethPredictor(255, 0, 255), 0);
    assert_eq!(PNGImage::PaethPredictor(80, 90, 40), 90);
    assert_eq!(PNGImage::PaethPredictor(10, 200, 100), 100);
}

#[test]
fn one_red_pixel_png() {
    let mut f = vec![0x89, b'P', b'N', b'G', 0x0d, 0x0a, 0x1a, 0x0a];
    f.extend(chunk_bytes(b"IHDR", &ihdr(1, 1, 8, 2)));
    f.extend(chunk_bytes(b"IDAT", &zlib_stored(&[0, 255, 0, 0])));
    f.extend(chunk_bytes(b"IEND", &[]));
    let img = PNGImage::from_bytes(&f).unwrap();
    assert_eq!(img.header, ImageHeader { width: 1, height: 1, bit_depth: 8, color_type: ColorType::Truecolour });
    assert_eq!(img.bytes_per_pixel, 3);
    assert_eq!(img.data, vec![255, 0, 0]);
}

#[test]
fn idat_split_over_chunks() {
    let z = zlib_stored(&[0, 1, 2, 3, 4]);
    let chunks = vec![
        Chunk { typ: ChunkType::IHDR, data: ihdr(2, 1, 8, 4) },
        Chunk { typ: ChunkType::IDAT, data: z[..5].to_vec() },
        Chunk { typ: ChunkType::AncyllaryChunk, data: vec![9, 9] },
        Chunk { typ: ChunkType::IDAT, data: z[5..].to_vec() },
        Chunk { typ: ChunkType::IEND, data: vec![] },
    ];
    let img = PNGImage::from_chunks(chunks).unwrap();
    assert_eq!(img.bytes_per_pixel, 2);
    // filter 0 on a 2x1 greyscale+alpha image
    assert_eq!(img.data, vec![1, 2, 3, 4]);
}

#[test]
fn unfilter_each_filter_type() {
    // 2 pixels per row, 1 byte per pixel, 5 rows: None, Sub, Up, Average, Paeth
    let raw = vec![
        0, 10, 20, //
        1, 5, 7, //
        2, 1, 1, //
        3, 4, 8, //
        4, 1, 2,
    ];
    let out = image(2, 5, 1).unfilter(&raw).unwrap();
    let mut expect = vec![10u8, 20];
    expect.extend([5, 12]); // sub: 5, 7 + 5
    expect.extend([6, 13]); // up: 1 + 5, 1 + 12
    expect.extend([7, 18]); // average: 4 + 6 / 2, 8 + (7 + 13) / 2
    expect.extend([8, 20]); // paeth: 1 + paeth(0, 7, 0) = 1 + 7, 2 + paeth(8, 18, 7) = 2 + 18
    assert_eq!(out, expect);
}

#[test]
fn unfilter_wraps_modulo_256() {
    let raw = vec![1, 200, 100];
    assert_eq!(image(2, 1, 1).unfilter(&raw), Ok(vec![200, 44]));
}

#[test]
fn unfilter_uses_bytes_per_pixel() {
    // 2 pixels of 3 bytes, Sub: each byte adds the byte 3 back
    let raw = vec![1, 1, 2, 3, 10, 10, 10];
    assert_eq!(image(2, 1, 3).unfilter(&raw), Ok(vec![1, 2, 3, 11, 12, 13]));
}

#[test]
fn filter_then_unfilter_is_identity() {
    // a 2x2 image of 1-byte pixels, filtered with Paeth on both rows
    let img = [3u8, 250, 7, 100];
    let paeth = |a: u8, b: u8, c: u8| PNGImage::PaethPredictor(a as i32, b as i32, c as i32) as u8;
    let mut raw = vec![4u8];
    raw.push(img[0].wrapping_sub(paeth(0, 0, 0)));
    raw.push(img[1].wrapping_sub(paeth(img[0], 0, 0)));
    raw.push(4);
    raw.push(img[2].wrapping_sub(paeth(0, img[0], 0)));
    raw.push(img[3].wrapping_sub(paeth(img[2], img[1], img[0])));
    assert_eq!(image(2, 2, 1).unfilter(&raw), Ok(img.to_vec()));
}

#[test]
fn unfilter_errors() {
    assert_eq!(image(2, 1, 1).unfilter(&[5, 1, 2]), Err(PngError::InvalidFilter(5)));
    assert_eq!(image(2, 2, 1).unfilter(&[0, 1, 2, 0]), Err(PngError::Truncated));
    assert_eq!(image(0, 0, 1).unfilter(&[]), Ok(vec![]));
}

#[test]
fn chunk_from_slice() {
    let bytes = chunk_bytes(b"IDAT", &[1, 2, 3]);
    assert_eq!(Chunk::from_slice(&bytes), Ok(Chunk { typ: ChunkType::IDAT, data: vec![1, 2, 3] }));
    let bytes = chunk_bytes(b"tEXt", &[7]);
    assert_eq!(Chunk::from_slice(&bytes).unwrap().typ, ChunkType::AncyllaryChunk);
    assert_eq!(Chunk::from_slice(&[0, 0, 0, 9, b'I', b'D', b'A', b'T', 1]), Err(PngError::Truncated));
    assert_eq!(Chunk::from_slice(&[0, 0, 0]), Err(PngError::Truncated));
}

#[test]
fn header_from_chunk() {
    let h = ImageHeader::from_chunk(Chunk { typ: ChunkType::IHDR, data: ihdr(640, 480, 16, 6) }).unwrap();
    assert_eq!(h, ImageHeader { width: 640, height: 480, bit_depth: 16, color_type: ColorType::TruecolourA });
    assert_eq!(h.bytes_per_pixel(), 8);
    let g = ImageHeader::from_chunk(Chunk { typ: ChunkType::IHDR, data: ihdr(1, 2, 8, 0) }).unwrap();
    assert_eq!(g.color_type, ColorType::Greyscale);
    assert_eq!(g.bytes_per_pixel(), 1);
    assert_eq!(
        ImageHeader::from_chunk(Chunk { typ: ChunkType::IHDR, data: ihdr(1, 1, 8, 3) }),
        Err(PngError::InvalidColorType(3))
    );
    assert_eq!(
        ImageHeader::from_chunk(Chunk { typ: ChunkType::IDAT, data: ihdr(1, 1, 8, 2) }),
        Err(PngError::NotHeader)
    );
    assert_eq!(
        ImageHeader::from_chunk(Chunk { typ: ChunkType::IHDR, data: vec![0; 9] }),
        Err(PngError::Truncated)
    );
}

#[test]
fn file_errors() {
    assert_eq!(PNGImage::from_bytes(b"GIF89a..").err(), Some(PngError::BadSignature));
    let sig = vec![0x89, b'P', b'N', b'G', 0x0d, 0x0a, 0x1a, 0x0a];
    assert_eq!(PNGImage::from_bytes(&sig).err(), Some(PngError::MissingHeader));
    let mut f = sig.clone();
    f.extend(chunk_bytes(b"IHDR", &ihdr(1, 1, 8, 2)));
    f.extend(chunk_bytes(b"IDAT", &[0x78, 0x01, 7, 0, 0, 0, 0]));
    assert_eq!(PNGImage::from_bytes(&f).err(), Some(PngError::Inflate(InflateError::ReservedBlockType)));
    let mut g = sig.clone();
    g.extend(chunk_bytes(b"IHDR", &ihdr(1, 1, 8, 2)));
    g.pop();
    assert_eq!(PNGImage::from_bytes(&g).err(), Some(PngError::Truncated));
}

#[test]
fn png_compressed_with_real_encoder() {
    // 3x2 truecolour, rows filtered with Sub and Up
    let raw = vec![1u8, 10, 20, 30, 1, 1, 1, 2, 2, 2, 2, 5, 5, 5, 5, 5, 5, 5, 5, 5];
    let z = miniz_oxide::deflate::compress_to_vec_zlib(&raw, 6);
    let chunks = vec![
        Chunk { typ: ChunkType::IHDR, data: ihdr(3, 2, 8, 2) },
        Chunk { typ: ChunkType::IDAT, data: z },
    ];
    let img = PNGImage::from_chunks(chunks).unwrap();
    assert_eq!(img.data, vec![10, 20, 30, 11, 21, 31, 13, 23, 33, 15, 25, 35, 16, 26, 36, 18, 28, 38]);
}
