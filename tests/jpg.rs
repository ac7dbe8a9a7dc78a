use png_decode::jpg::{read_markers, BitStream, JpgError};

const ZIG_ZAG: [usize; 64] = [
    0, 1, 8, 16, 9, 2, 3, 10, 17, 24, 32, 25, 18, 11, 4, 5, 12, 19, 26, 33, 40, 48, 41, 34, 27, 20,
    13, 6, 7, 14, 21, 28, 35, 42, 49, 56, 57, 50, 43, 36, 29, 22, 15, 23, 30, 37, 44, 51, 58, 59,
    52, 45, 38, 31, 39, 46, 53, 60, 61, 54, 47, 55, 62, 63,
];

fn sof(n: u8, comps: &[[u8; 3]]) -> Vec<u8> {
    let len = 8 + 3 * comps.len() as u16;
    let mut v = vec![0xFF, 0xC0];
    v.extend_from_slice(&len.to_be_bytes());
    v.extend_from_slice(&[8, 0x00, 0x10, 0x00, 0x20, n]);
    for c in comps {
        v.extend_from_slice(c);
    }
    v
}

fn sample_file() -> Vec<u8> {
    let mut v = vec![0xFF, 0xD8];
    v.extend_from_slice(&[0xFF, 0xE0, 0x00, 0x04, 0xAA, 0xBB]);
    v.extend_from_slice(&[0xFF, 0xDB, 0x00, 67, 0x01]);
    v.extend((0u8..64).collect::<Vec<u8>>());
    v.extend(sof(3, &[[1, 0x22, 0], [2, 0x11, 1], [3, 0x11, 1]]));
    v.extend_from_slice(&[0xFF, 0xDD, 0x00, 0x04, 0x00, 0x05]);
    v.extend_from_slice(&[0xFF, 0xD9]);
    v
}

#[test]
fn markers_of_a_small_file() {
    let (soi, img) = read_markers(&sample_file()).unwrap();
    assert!(soi);
    assert_eq!((img.height, img.width), (16, 32));
    assert_eq!(img.color.qt_id, 1);
    assert!(img.color.rgb);
    assert_eq!(img.restart_interval, 5);
    for i in 0..64 {
        assert_eq!(img.quantization_table[64 + ZIG_ZAG[i]], i as u16);
        assert_eq!(img.quantization_table[ZIG_ZAG[i]], 0);
    }
    assert_eq!(img.dct_table.len(), 4);
}

#[test]
fn sixteen_bit_quantization_table() {
    let mut v = vec![0xFF, 0xD8, 0xFF, 0xDB, 0x00, 131, 0x12];
    for i in 0..64u16 {
        v.extend_from_slice(&(1000 + i).to_be_bytes());
    }
    v.extend_from_slice(&[0xFF, 0xD9]);
    let (_, img) = read_markers(&v).unwrap();
    assert_eq!(img.quantization_table[128 + ZIG_ZAG[5]], 1005);
}

#[test]
fn missing_start_of_image_is_reported() {
    let mut v = sample_file();
    v[1] = 0xD7;
    let (soi, _) = read_markers(&v).unwrap();
    assert!(!soi);
}

#[test]
fn marker_errors() {
    let mut v = vec![0xFF, 0xD8];
    v.extend(sof(4, &[[1, 0, 0], [2, 0, 0], [3, 0, 0], [4, 0, 0]]));
    assert_eq!(read_markers(&v).err(), Some(JpgError::CmykNotSupported));

    let mut v = vec![0xFF, 0xD8];
    v.extend(sof(2, &[[0, 0, 0], [3, 0, 0]]));
    assert_eq!(read_markers(&v).err(), Some(JpgError::YiqNotSupported));

    let mut v = vec![0xFF, 0xD8];
    let mut s = sof(1, &[[1, 0, 0]]);
    s[3] = 12;
    v.extend(s);
    v.extend_from_slice(&[0xFF, 0xD9]);
    assert_eq!(read_markers(&v).err(), Some(JpgError::BadLength));

    assert_eq!(read_markers(&[0xFF, 0xD8, 0x12, 0x34]).err(), Some(JpgError::NotAMarker(0x12)));
    assert_eq!(read_markers(&[0xFF, 0xD8, 0xFF, 0xC4]).err(), Some(JpgError::UnknownMarker(0xC4)));
    assert_eq!(read_markers(&[0xFF, 0xD8, 0xFF]).err(), Some(JpgError::Truncated));
    assert_eq!(read_markers(&[0xFF, 0xD8, 0xFF, 0xE1, 0x00, 0x09, 1]).err(), Some(JpgError::Truncated));
    assert_eq!(read_markers(&[0xFF, 0xD8, 0xFF, 0xDB, 0x00, 0x03, 0x04]).err(), Some(JpgError::BadTableId(4)));
    assert_eq!(read_markers(&[0xFF, 0xD8, 0xFF, 0xDD, 0x00, 0x03, 0x00, 0x01]).err(), Some(JpgError::BadLength));
}

#[test]
fn bits_most_significant_first() {
    let mut it = BitStream::new(vec![0b1010_0000, 0xFF, 0x0F]);
    assert_eq!(it.next_bit(), Ok(1));
    assert_eq!(it.next_bit(), Ok(0));
    assert_eq!(it.next_bits(2), Ok(0b10));
    // the rest of the first byte is skipped
    assert_eq!(it.next_byte(), Ok(0xFF));
    assert_eq!(it.next_bits(8), Ok(0x0F));
    assert_eq!(it.next_bit(), Err(JpgError::Truncated));
}
