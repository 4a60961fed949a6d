use jpeg_tutorial::image::{Color, Image};
use jpeg_tutorial::marker::{marker_info, scan_markers, MarkerEntry};
use jpeg_tutorial::primitives::JpegError;
use jpeg_tutorial::ppm::{ppm_bytes, push_decimal};

#[test]
fn color_rgb_holds_its_channels() {
    let c = Color::RGB(1, 2, 3);
    assert_eq!((c.r, c.g, c.b), (1, 2, 3));
}

#[test]
fn new_image_is_black() {
    let image = Image::new(3, 2);
    assert_eq!((image.width, image.height), (3, 2));
    assert_eq!(image.pixels.len(), 2);
    for row in &image.pixels {
        assert_eq!(row.len(), 3);
        for p in row {
            assert_eq!(*p, Color::RGB(0, 0, 0));
        }
    }
    let empty = Image::new(0, 0);
    assert!(empty.pixels.is_empty());
}

#[test]
fn marker_descriptions() {
    assert_eq!(marker_info(0xE0), "APP0, JFIF 的額外資訊");
    assert_eq!(marker_info(0xDB), "DQT, define quantization table, 定義量化表");
    assert_eq!(marker_info(0xC4), "DHT, define huffman table, 定義霍夫曼表");
    assert_eq!(marker_info(0xC0), "SOF0, start of frame(baseline)");
    assert_eq!(marker_info(0xDA), "SOS, start of scan, 壓縮的數據由此開始");
    assert_eq!(marker_info(0xFE), "本程式不支援");
}

#[test]
fn marker_scan_lists_markers_up_to_the_end() {
    let data = [0x00u8, 0xFF, 0xD8, 0xFF, 0xE0, 0x00, 0x10, 0x12, 0xFF, 0x00, 0xFF, 0xD9, 0xFF, 0xDB];
    let (entries, result) = scan_markers(&data);
    assert_eq!(result, Ok(()));
    assert_eq!(entries, vec![
        MarkerEntry::StartOfImage,
        MarkerEntry::Segment { marker: 0xE0, length: 0x10 },
        MarkerEntry::EndOfImage,
    ]);
}

#[test]
fn marker_scan_without_end() {
    let data = [0xFFu8, 0xD8, 0xFF, 0xC0, 0x00];
    let (entries, result) = scan_markers(&data);
    assert_eq!(result, Err(JpegError::UnexpectedEof));
    assert_eq!(entries, vec![MarkerEntry::StartOfImage]);
}

#[test]
fn decimal_digits() {
    let mut out = Vec::new();
    push_decimal(&mut out, 0);
    out.push(b' ');
    push_decimal(&mut out, 4096);
    out.push(b' ');
    push_decimal(&mut out, 4294967295);
    assert_eq!(out, b"0 4096 4294967295".to_vec());
}

#[test]
fn ppm_file_of_a_small_image() {
    let mut image = Image::new(2, 1);
    image.pixels[0][1] = Color::RGB(10, 20, 30);
    let bytes = ppm_bytes(&image);
    let mut expected = b"P6\n2 1\n255\n".to_vec();
    expected.extend_from_slice(&[0, 0, 0, 10, 20, 30]);
    assert_eq!(bytes, expected);
}

#[test]
fn ppm_size_is_header_and_three_bytes_per_pixel() {
    let image = Image::new(12, 7);
    let bytes = ppm_bytes(&image);
    assert_eq!(bytes.len(), b"P6\n12 7\n255\n".len() + 3 * 12 * 7);
}

#[test]
fn ppm_file_leaves_out_pixels_beyond_the_size() {
    let mut image = Image::new(3, 3);
    image.pixels[0][0] = Color::RGB(1, 2, 3);
    image.pixels[1][1] = Color::RGB(4, 5, 6);
    image.pixels[0][2] = Color::RGB(9, 9, 9);
    image.pixels[2][0] = Color::RGB(8, 8, 8);
    image.width = 2;
    image.height = 2;
    let bytes = ppm_bytes(&image);
    let mut expected = b"P6\n2 2\n255\n".to_vec();
    expected.extend_from_slice(&[1, 2, 3, 0, 0, 0, 0, 0, 0, 4, 5, 6]);
    assert_eq!(bytes, expected);
}
