use softrender::image::{Color, Format, Image};

#[test]
fn color_new_takes_red_green_blue_alpha() {
    let c = Color::new(1, 2, 3, 4);
    assert_eq!(c.r, 1);
    assert_eq!(c.g, 2);
    assert_eq!(c.b, 3);
    assert_eq!(c.a, 4);
}

#[test]
fn color_default_is_all_zero() {
    assert_eq!(Color::default(), Color::new(0, 0, 0, 0));
}

#[test]
fn color_from_u8_reads_blue_green_red_alpha() {
    assert_eq!(Color::from_u8(&[10, 20, 30, 40]), Color::new(30, 20, 10, 40));
    assert_eq!(Color::from_u8(&[10, 20, 30]), Color::new(30, 20, 10, 0));
    assert_eq!(Color::from_u8(&[10]), Color::new(0, 0, 10, 0));
    assert_eq!(Color::from_u8(&[]), Color::new(0, 0, 0, 0));
}

#[test]
fn color_to_u8_writes_the_channels_that_fit() {
    let c = Color::new(30, 20, 10, 40);
    let mut four = [9u8; 4];
    c.to_u8(&mut four);
    assert_eq!(four, [10, 20, 30, 40]);
    let mut three = [9u8; 3];
    c.to_u8(&mut three);
    assert_eq!(three, [10, 20, 30]);
    let mut one = [9u8; 1];
    c.to_u8(&mut one);
    assert_eq!(one, [10]);
    let mut six = [9u8; 6];
    c.to_u8(&mut six);
    assert_eq!(six, [10, 20, 30, 40, 9, 9]);
}

#[test]
fn format_sizes() {
    assert_eq!(Format::Gray.bytes_per_pixel(), 1);
    assert_eq!(Format::Rgb.bytes_per_pixel(), 3);
    assert_eq!(Format::Rgba.bytes_per_pixel(), 4);
    assert_eq!(Format::Gray.alpha_bytes_per_pixel(), 0);
    assert_eq!(Format::Rgb.alpha_bytes_per_pixel(), 0);
    assert_eq!(Format::Rgba.alpha_bytes_per_pixel(), 1);
}

#[test]
fn new_image_is_zeroed() {
    let img = Image::new(3, 2, Format::Rgb);
    assert_eq!(img.get_width(), 3);
    assert_eq!(img.get_height(), 2);
    assert_eq!(img.get_format(), Format::Rgb);
    assert_eq!(img.get_data(), &vec![0u8; 18]);
    let img = Image::new(5, 7, Format::Rgba);
    assert_eq!(img.get_data().len(), 140);
    let img = Image::new(0, 7, Format::Gray);
    assert_eq!(img.get_data().len(), 0);
}

#[test]
fn from_data_keeps_the_buffer() {
    let data: Vec<u8> = (0u8..12).collect();
    let img = Image::from_data(2, 2, Format::Rgb, data.clone());
    assert_eq!(img.get_width(), 2);
    assert_eq!(img.get_height(), 2);
    assert_eq!(img.get_format(), Format::Rgb);
    assert_eq!(img.get_data(), &data);
    assert_eq!(img.get(1, 0), Color::new(5, 4, 3, 0));
    assert_eq!(img.get(0, 1), Color::new(8, 7, 6, 0));
}

#[test]
fn set_then_get_rgba() {
    let mut img = Image::new(4, 4, Format::Rgba);
    let c = Color::new(10, 20, 30, 40);
    img.set(1, 2, &c);
    assert_eq!(img.get(1, 2), c);
    assert_eq!(img.get(2, 1), Color::new(0, 0, 0, 0));
    let offset = (1 + 2 * 4) * 4;
    assert_eq!(&img.get_data()[offset..offset + 4], &[30, 20, 10, 40]);
    let touched = img.get_data().iter().filter(|b| **b != 0).count();
    assert_eq!(touched, 4);
}

#[test]
fn set_then_get_rgb_drops_alpha() {
    let mut img = Image::new(3, 3, Format::Rgb);
    img.set(2, 1, &Color::new(10, 20, 30, 40));
    assert_eq!(img.get(2, 1), Color::new(10, 20, 30, 0));
    let offset = (2 + 1 * 3) * 3;
    assert_eq!(&img.get_data()[offset..offset + 3], &[30, 20, 10]);
    assert_eq!(img.get_data()[offset + 3], 0);
}

#[test]
fn set_then_get_gray_keeps_the_first_channel() {
    let mut img = Image::new(3, 2, Format::Gray);
    img.set(1, 1, &Color::new(10, 20, 30, 40));
    assert_eq!(img.get(1, 1), Color::new(0, 0, 30, 0));
    assert_eq!(img.get_data(), &vec![0, 0, 0, 0, 30, 0]);
}

#[test]
fn get_outside_is_opaque_black() {
    let mut img = Image::new(3, 2, Format::Rgba);
    for y in 0..2 {
        for x in 0..3 {
            img.set(x, y, &Color::new(9, 9, 9, 9));
        }
    }
    let black = Color::new(0, 0, 0, 255);
    assert_eq!(img.get(3, 0), black);
    assert_eq!(img.get(0, 2), black);
    assert_eq!(img.get(3, 2), black);
    assert_eq!(img.get(usize::MAX, 0), black);
    assert_eq!(img.get(0, usize::MAX), black);
    assert_eq!(img.get(2, 1), Color::new(9, 9, 9, 9));
}

#[test]
fn set_outside_changes_nothing() {
    let mut img = Image::new(3, 2, Format::Rgb);
    img.set(1, 1, &Color::new(1, 2, 3, 4));
    let before = img.get_data().clone();
    let c = Color::new(200, 201, 202, 203);
    img.set(3, 0, &c);
    img.set(0, 2, &c);
    img.set(3, 2, &c);
    img.set(usize::MAX, 1, &c);
    img.set(1, usize::MAX, &c);
    assert_eq!(img.get_data(), &before);
}

fn numbered(width: usize, height: usize, format: Format) -> Image {
    let n = width * height * format.bytes_per_pixel();
    let data: Vec<u8> = (0..n).map(|i| (i % 251) as u8).collect();
    Image::from_data(width, height, format, data)
}

#[test]
fn flip_horizontally_mirrors_columns() {
    let mut img = Image::from_data(
        3,
        2,
        Format::Rgb,
        vec![1, 2, 3, 4, 5, 6, 7, 8, 9, 11, 12, 13, 14, 15, 16, 17, 18, 19],
    );
    img.flip_horizontally();
    assert_eq!(
        img.get_data(),
        &vec![7, 8, 9, 4, 5, 6, 1, 2, 3, 17, 18, 19, 14, 15, 16, 11, 12, 13]
    );
}

#[test]
fn flip_vertically_mirrors_rows() {
    let mut img = Image::from_data(
        2,
        3,
        Format::Rgb,
        vec![1, 2, 3, 4, 5, 6, 7, 8, 9, 11, 12, 13, 14, 15, 16, 17, 18, 19],
    );
    img.flip_vertically();
    assert_eq!(
        img.get_data(),
        &vec![14, 15, 16, 17, 18, 19, 7, 8, 9, 11, 12, 13, 1, 2, 3, 4, 5, 6]
    );
}

#[test]
fn flip_horizontally_twice_restores() {
    for format in [Format::Gray, Format::Rgb, Format::Rgba] {
        for (w, h) in [(0, 0), (1, 1), (2, 3), (5, 4), (7, 1), (1, 6), (0, 3), (4, 0)] {
            let mut img = numbered(w, h, format);
            let before = img.get_data().clone();
            img.flip_horizontally();
            if w >= 2 && h >= 1 {
                assert_ne!(img.get_data(), &before);
            }
            img.flip_horizontally();
            assert_eq!(img.get_data(), &before);
        }
    }
}

#[test]
fn flip_vertically_twice_restores() {
    for format in [Format::Gray, Format::Rgb, Format::Rgba] {
        for (w, h) in [(0, 0), (1, 1), (2, 3), (5, 4), (7, 1), (1, 6), (0, 3), (4, 0)] {
            let mut img = numbered(w, h, format);
            let before = img.get_data().clone();
            img.flip_vertically();
            if w >= 1 && h >= 2 {
                assert_ne!(img.get_data(), &before);
            }
            img.flip_vertically();
            assert_eq!(img.get_data(), &before);
        }
    }
}

#[test]
fn flips_move_pixels_as_get_sees_them() {
    let unflipped = numbered(5, 4, Format::Rgba);
    let mut h = numbered(5, 4, Format::Rgba);
    h.flip_horizontally();
    let mut v = numbered(5, 4, Format::Rgba);
    v.flip_vertically();
    for y in 0..4 {
        for x in 0..5 {
            assert_eq!(h.get(x, y), unflipped.get(4 - x, y));
            assert_eq!(v.get(x, y), unflipped.get(x, 3 - y));
        }
    }
}
