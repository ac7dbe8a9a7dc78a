use png_decode::{ColorType, ImgData, Pixel};

fn rgb(p: &Pixel) -> (usize, usize, usize) {
    (p.r, p.g, p.b)
}

#[test]
fn pixel_from_u8() {
    let p = Pixel::from_u8(1, 2, 255);
    assert_eq!(rgb(&p), (1, 2, 255));
}

#[test]
fn greyscale_pixels() {
    let img = ImgData::new(3, 1, &[0, 128, 255], ColorType::Greyscale, 8);
    assert_eq!((img.w, img.h), (3, 1));
    let px: Vec<_> = img.pixels.iter().map(rgb).collect();
    assert_eq!(px, vec![(0, 0, 0), (128, 128, 128), (255, 255, 255)]);
}

#[test]
fn greyscale_alpha_drops_alpha() {
    let img = ImgData::new(2, 1, &[7, 99, 8, 99], ColorType::GreyscaleA, 8);
    let px: Vec<_> = img.pixels.iter().map(rgb).collect();
    assert_eq!(px, vec![(7, 7, 7), (8, 8, 8)]);
}

#[test]
fn truecolour_pixels() {
    let img = ImgData::new(2, 1, &[1, 2, 3, 4, 5, 6], ColorType::Truecolour, 8);
    let px: Vec<_> = img.pixels.iter().map(rgb).collect();
    assert_eq!(px, vec![(1, 2, 3), (4, 5, 6)]);
}

#[test]
fn sixteen_bit_keeps_high_byte() {
    let img = ImgData::new(1, 1, &[0x12, 0x34, 0x56, 0x78, 0x9a, 0xbc, 0xff, 0xff], ColorType::TruecolourA, 16);
    let px: Vec<_> = img.pixels.iter().map(rgb).collect();
    assert_eq!(px, vec![(0x12, 0x56, 0x9a)]);
}
