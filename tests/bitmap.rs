use qoi::bmp::{bmp_header, encode_bmp, encode_bmp_quads, encode_bmp_with, PixelFormat};

fn identity_table() -> [u8; 256] {
    let mut t = [0u8; 256];
    for (i, v) in t.iter_mut().enumerate() {
        *v = i as u8;
    }
    t
}

#[test]
fn bmp_header_fields() {
    let mut data = Vec::new();
    bmp_header(&mut data, 2, 3);
    assert_eq!(data.len(), 54);
    assert_eq!(&data[0..2], b"BM");
    assert_eq!(&data[2..6], &(2u32 * 4 * 3 + 54).to_le_bytes());
    assert_eq!(&data[10..14], &54u32.to_le_bytes());
    assert_eq!(&data[14..18], &40u32.to_le_bytes());
    assert_eq!(&data[18..22], &2u32.to_le_bytes());
    assert_eq!(&data[22..26], &3u32.to_le_bytes());
    assert_eq!(&data[26..28], &1u16.to_le_bytes());
    assert_eq!(&data[28..30], &32u16.to_le_bytes());
    assert_eq!(&data[38..42], &2835u32.to_le_bytes());
}

#[test]
fn bmp_rows_bottom_up() {
    let pixels = [[1, 1, 1, 1], [2, 2, 2, 2], [3, 3, 3, 3], [4, 4, 4, 4]];
    let data = encode_bmp_quads(2, 2, &pixels);
    assert_eq!(data.len(), 54 + 16);
    assert_eq!(&data[54..], &[3, 3, 3, 3, 4, 4, 4, 4, 1, 1, 1, 1, 2, 2, 2, 2]);
}

#[test]
fn bmp_with_pixel_map() {
    let pixels: [u16; 3] = [0x0102, 0x0304, 0x0506];
    let data = encode_bmp_with(3, 1, &pixels, |p: u16| [(p & 0xff) as u8, (p >> 8) as u8, 0, 255]);
    let mut head = Vec::new();
    bmp_header(&mut head, 3, 1);
    assert_eq!(&data[0..54], &head[..]);
    assert_eq!(&data[54..], &[2, 1, 0, 255, 4, 3, 0, 255, 6, 5, 0, 255]);
}

#[test]
fn bmp_formats() {
    let t = identity_table();
    let rgb = encode_bmp(2, 1, PixelFormat::Rgb8, &[1, 2, 3, 4, 5, 6], &t);
    assert_eq!(&rgb[54..], &[3, 2, 1, 255, 6, 5, 4, 255]);
    let rgba = encode_bmp(1, 1, PixelFormat::Rgba8, &[1, 2, 3, 4], &t);
    assert_eq!(&rgba[54..], &[3, 2, 1, 4]);
    let bgra = encode_bmp(1, 1, PixelFormat::Bgra8, &[1, 2, 3, 4], &t);
    assert_eq!(&bgra[54..], &[1, 2, 3, 4]);
    let mut halve = [0u8; 256];
    for (i, v) in halve.iter_mut().enumerate() {
        *v = (i / 2) as u8;
    }
    let srgb = encode_bmp(1, 1, PixelFormat::Rgba8Srgb, &[10, 20, 30, 40], &halve);
    assert_eq!(&srgb[54..], &[15, 10, 5, 40]);
    let srgb = encode_bmp(1, 1, PixelFormat::Rgb8Srgb, &[10, 20, 30, 40], &halve);
    assert_eq!(&srgb[54..], &[15, 10, 5, 255]);
    let srgb = encode_bmp(1, 1, PixelFormat::Bgra8Srgb, &[10, 20, 30, 40], &halve);
    assert_eq!(&srgb[54..], &[5, 10, 15, 40]);
}
