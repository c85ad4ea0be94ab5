use softrender::image::{Color, Format, Image};
use softrender::rle::{read_rle, write_rle};
use softrender::tga;
use softrender::tga::TgaError;

const FOOTER: [u8; 26] = [
    0, 0, 0, 0, 0, 0, 0, 0, b'T', b'R', b'U', b'E', b'V', b'I', b'S', b'I', b'O', b'N', b'-',
    b'X', b'F', b'I', b'L', b'E', b'.', 0,
];

fn header(code: u8, width: u16, height: u16, bits: u8, descriptor: u8) -> Vec<u8> {
    let mut h = vec![0u8; 18];
    h[2] = code;
    h[12] = (width & 0xff) as u8;
    h[13] = (width >> 8) as u8;
    h[14] = (height & 0xff) as u8;
    h[15] = (height >> 8) as u8;
    h[16] = bits;
    h[17] = descriptor;
    h
}

fn numbered(width: usize, height: usize, format: Format) -> Image {
    let n = width * height * format.bytes_per_pixel();
    let data: Vec<u8> = (0..n).map(|i| (i * 7 % 253) as u8).collect();
    Image::from_data(width, height, format, data)
}

fn synthetic_runs() -> Vec<u8> {
    let mut data = vec![10u8];
    data.extend([1, 2, 3]);
    data.extend([20; 2]);
    data.extend([4, 5]);
    data.extend([30; 127]);
    data.extend([6, 7]);
    data.extend([40; 128]);
    data.extend([8, 9]);
    data.extend([50; 129]);
    data.push(11);
    data
}

#[test]
fn write_plain_rgb_is_header_pixels_footer() {
    let img = Image::from_data(2, 1, Format::Rgb, vec![1, 2, 3, 4, 5, 6]);
    let mut expected = header(2, 2, 1, 24, 0x20);
    expected.extend([1, 2, 3, 4, 5, 6]);
    expected.extend(FOOTER);
    assert_eq!(tga::write(&img, false), expected);
}

#[test]
fn write_header_fields_by_format() {
    let rgba = tga::write(&Image::new(300, 2, Format::Rgba), false);
    assert_eq!(&rgba[..18], &header(2, 300, 2, 32, 0x28)[..]);
    assert_eq!(rgba.len(), 18 + 300 * 2 * 4 + 26);
    let gray = tga::write(&Image::new(3, 258, Format::Gray), false);
    assert_eq!(&gray[..18], &header(3, 3, 258, 8, 0x20)[..]);
    let rgb_rle = tga::write(&Image::new(1, 1, Format::Rgb), true);
    assert_eq!(&rgb_rle[..18], &header(10, 1, 1, 24, 0x20)[..]);
    let rgba_rle = tga::write(&Image::new(1, 1, Format::Rgba), true);
    assert_eq!(&rgba_rle[..18], &header(10, 1, 1, 32, 0x28)[..]);
    let gray_rle = tga::write(&Image::new(1, 1, Format::Gray), true);
    assert_eq!(&gray_rle[..18], &header(11, 1, 1, 8, 0x20)[..]);
    assert_eq!(&gray_rle[gray_rle.len() - 26..], &FOOTER[..]);
}

#[test]
fn write_rle_rgb_packets() {
    let img = Image::from_data(
        6,
        1,
        Format::Rgb,
        vec![1, 2, 3, 1, 2, 3, 1, 2, 3, 4, 5, 6, 7, 8, 9, 7, 8, 9],
    );
    let mut expected = header(10, 6, 1, 24, 0x20);
    expected.extend([130, 1, 2, 3, 0, 4, 5, 6, 129, 7, 8, 9]);
    expected.extend(FOOTER);
    assert_eq!(tga::write(&img, true), expected);
}

#[test]
fn write_keeps_the_low_sixteen_bits_of_the_size() {
    let img = Image::new(65536 + 5, 0, Format::Gray);
    let bytes = tga::write(&img, false);
    assert_eq!(&bytes[..18], &header(3, 5, 0, 8, 0x20)[..]);
}

#[test]
fn read_plain_rgb() {
    let mut bytes = header(2, 2, 2, 24, 0x20);
    bytes.extend(1u8..=12);
    bytes.extend(FOOTER);
    let img = tga::read(&bytes).unwrap();
    assert_eq!(img.get_width(), 2);
    assert_eq!(img.get_height(), 2);
    assert_eq!(img.get_format(), Format::Rgb);
    assert_eq!(img.get_data(), &(1u8..=12).collect::<Vec<u8>>());
    assert_eq!(img.get(1, 1), Color::new(12, 11, 10, 0));
}

#[test]
fn read_does_not_need_a_footer() {
    let mut bytes = header(3, 2, 1, 8, 0x20);
    bytes.extend([7, 8]);
    let img = tga::read(&bytes).unwrap();
    assert_eq!(img.get_format(), Format::Gray);
    assert_eq!(img.get_data(), &vec![7, 8]);
}

#[test]
fn read_turns_rows_round_without_the_top_bit() {
    let mut bytes = header(3, 2, 3, 8, 0x00);
    bytes.extend([1, 2, 3, 4, 5, 6]);
    let img = tga::read(&bytes).unwrap();
    assert_eq!(img.get_data(), &vec![5, 6, 3, 4, 1, 2]);
}

#[test]
fn read_turns_columns_round_with_the_right_to_left_bit() {
    let mut bytes = header(3, 3, 2, 8, 0x30);
    bytes.extend([1, 2, 3, 4, 5, 6]);
    let img = tga::read(&bytes).unwrap();
    assert_eq!(img.get_data(), &vec![3, 2, 1, 6, 5, 4]);
    let mut bytes = header(3, 3, 2, 8, 0x10);
    bytes.extend([1, 2, 3, 4, 5, 6]);
    let img = tga::read(&bytes).unwrap();
    assert_eq!(img.get_data(), &vec![6, 5, 4, 3, 2, 1]);
}

#[test]
fn read_rle_gray_file() {
    let mut bytes = header(11, 4, 2, 8, 0x20);
    bytes.extend([130, 9, 1, 1, 2, 130, 5]);
    bytes.extend(FOOTER);
    let img = tga::read(&bytes).unwrap();
    assert_eq!(img.get_data(), &vec![9, 9, 9, 1, 2, 5, 5, 5]);
}

fn error_of(bytes: &[u8]) -> TgaError {
    match tga::read(bytes) {
        Ok(_) => panic!("bytes were read as an image"),
        Err(e) => e,
    }
}

#[test]
fn read_short_header_is_unexpected_eof() {
    assert_eq!(error_of(&[]), TgaError::UnexpectedEof);
    assert_eq!(error_of(&header(2, 1, 1, 24, 0x20)[..17]), TgaError::UnexpectedEof);
}

#[test]
fn read_unknown_type_is_invalid_image_type() {
    for (code, bits) in [(0, 24), (1, 8), (2, 8), (2, 16), (3, 24), (10, 8), (11, 32), (9, 24)] {
        let mut bytes = header(code, 1, 1, bits, 0x20);
        bytes.extend([0; 8]);
        assert_eq!(error_of(&bytes), TgaError::InvalidImageType);
    }
}

#[test]
fn read_short_pixels_is_unexpected_eof() {
    let mut bytes = header(2, 2, 2, 24, 0x20);
    bytes.extend([0; 11]);
    assert_eq!(error_of(&bytes), TgaError::UnexpectedEof);
    let mut bytes = header(2, 0xffff, 0xffff, 32, 0x20);
    bytes.extend([0; 100]);
    assert_eq!(error_of(&bytes), TgaError::UnexpectedEof);
}

#[test]
fn read_long_run_is_invalid_rle_length() {
    let mut bytes = header(11, 2, 2, 8, 0x20);
    bytes.extend([132, 9]);
    assert_eq!(error_of(&bytes), TgaError::InvalidRleLength);
    let mut bytes = header(11, 2, 2, 8, 0x20);
    bytes.extend([1, 1, 2, 2, 3, 4, 5]);
    assert_eq!(error_of(&bytes), TgaError::InvalidRleLength);
}

#[test]
fn read_short_packets_is_unexpected_eof() {
    let mut bytes = header(10, 2, 2, 24, 0x20);
    bytes.extend([131, 9, 9]);
    assert_eq!(error_of(&bytes), TgaError::UnexpectedEof);
    let mut bytes = header(10, 2, 2, 24, 0x20);
    bytes.extend([1, 1, 2, 3, 4, 5]);
    assert_eq!(error_of(&bytes), TgaError::UnexpectedEof);
    let mut bytes = header(10, 2, 2, 24, 0x20);
    bytes.extend([129, 1, 2, 3]);
    assert_eq!(error_of(&bytes), TgaError::UnexpectedEof);
}

#[test]
fn error_messages() {
    assert_eq!(TgaError::InvalidImageType.message(), "invalid image_type");
    assert_eq!(TgaError::InvalidRleLength.message(), "invalid rle length");
    assert_eq!(TgaError::UnexpectedEof.message(), "unexpected end of data");
}

#[test]
fn write_then_read_gives_the_image_back() {
    for format in [Format::Gray, Format::Rgb, Format::Rgba] {
        for (w, h) in [(0, 0), (1, 1), (3, 2), (17, 5), (130, 3), (0, 4), (4, 0)] {
            for rle in [false, true] {
                let img = numbered(w, h, format);
                let back = tga::read(&tga::write(&img, rle)).unwrap();
                assert_eq!(back.get_width(), w);
                assert_eq!(back.get_height(), h);
                assert_eq!(back.get_format(), format);
                assert_eq!(back.get_data(), img.get_data());
            }
        }
    }
}

#[test]
fn write_then_read_flat_and_striped_images() {
    for format in [Format::Gray, Format::Rgb, Format::Rgba] {
        let bpp = format.bytes_per_pixel();
        let flat = Image::from_data(40, 10, format, vec![77; 400 * bpp]);
        let packets = tga::write(&flat, true);
        assert_eq!(packets.len(), 18 + 4 * (1 + bpp) + 26);
        assert_eq!(tga::read(&packets).unwrap().get_data(), flat.get_data());
        let mut data = Vec::new();
        for i in 0..400 {
            for _ in 0..bpp {
                data.push(if i / 3 % 2 == 0 { 1 } else { 200 });
            }
        }
        let striped = Image::from_data(40, 10, format, data);
        assert_eq!(tga::read(&tga::write(&striped, true)).unwrap().get_data(), striped.get_data());
    }
}

#[test]
fn rle_packets_of_runs_of_1_2_127_128_129() {
    let data = synthetic_runs();
    assert_eq!(data.len(), 397);
    let packets = write_rle(&data, Format::Gray);
    let mut expected: Vec<u8> = vec![3, 10, 1, 2, 3];
    expected.extend([129, 20]);
    expected.extend([1, 4, 5]);
    expected.extend([254, 30]);
    expected.extend([1, 6, 7]);
    expected.extend([255, 40]);
    expected.extend([1, 8, 9]);
    expected.extend([255, 50]);
    expected.extend([1, 50, 11]);
    assert_eq!(packets, expected);
    assert_eq!(read_rle(&packets, 397, Format::Gray), Ok(data));
}

#[test]
fn rle_round_trip_of_runs_in_every_format() {
    for format in [Format::Gray, Format::Rgb, Format::Rgba] {
        let bpp = format.bytes_per_pixel();
        let mut data = Vec::new();
        for v in synthetic_runs() {
            for c in 0..bpp {
                data.push(if c == bpp - 1 { v } else { 3 });
            }
        }
        let packets = write_rle(&data, format);
        assert_eq!(read_rle(&packets, 397, format), Ok(data));
    }
}

#[test]
fn rle_small_cases() {
    assert_eq!(write_rle(&vec![], Format::Gray), Vec::<u8>::new());
    assert_eq!(write_rle(&vec![7], Format::Gray), vec![0, 7]);
    assert_eq!(write_rle(&vec![1, 2, 2, 3], Format::Gray), vec![0, 1, 129, 2, 0, 3]);
    assert_eq!(write_rle(&vec![1, 2, 3, 3], Format::Gray), vec![1, 1, 2, 129, 3]);
    assert_eq!(write_rle(&vec![5; 300], Format::Gray), vec![255, 5, 255, 5, 171, 5]);
    let ramp: Vec<u8> = (0u8..130).collect();
    let packets = write_rle(&ramp, Format::Gray);
    assert_eq!(packets.len(), 132);
    assert_eq!(&packets[..3], &[127, 0, 1]);
    assert_eq!(packets[129], 1);
    assert_eq!(write_rle(&vec![1, 2, 3, 4, 5], Format::Rgb), vec![0, 1, 2, 3]);
}

#[test]
fn read_rle_decodes_both_kinds_of_packet() {
    assert_eq!(read_rle(&[], 0, Format::Rgb), Ok(vec![]));
    assert_eq!(read_rle(&[1, 2, 3], 0, Format::Rgb), Ok(vec![]));
    assert_eq!(
        read_rle(&[129, 1, 2, 3, 0, 4, 5, 6, 99], 3, Format::Rgb),
        Ok(vec![1, 2, 3, 1, 2, 3, 4, 5, 6])
    );
    assert_eq!(read_rle(&[], 1, Format::Gray), Err(TgaError::UnexpectedEof));
    assert_eq!(read_rle(&[0], 1, Format::Gray), Err(TgaError::UnexpectedEof));
    assert_eq!(read_rle(&[128], 1, Format::Gray), Err(TgaError::UnexpectedEof));
    assert_eq!(read_rle(&[129, 5], 1, Format::Gray), Err(TgaError::InvalidRleLength));
    assert_eq!(read_rle(&[1, 5, 6], 1, Format::Gray), Err(TgaError::InvalidRleLength));
    assert_eq!(read_rle(&[0, 5], 2, Format::Gray), Err(TgaError::UnexpectedEof));
}
