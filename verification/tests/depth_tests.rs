use softrender::depth::DepthBuffer;
use softrender::image::{Color, Format, Image};

#[test]
fn new_depth_buffer_is_far_away() {
    let depth = DepthBuffer::new(3, 2);
    assert_eq!(depth.get_width(), 3);
    assert_eq!(depth.get_height(), 2);
    for y in 0..2 {
        for x in 0..3 {
            assert_eq!(depth.get(x, y), i64::MIN);
        }
    }
}

#[test]
fn depth_outside_is_nearest() {
    let mut depth = DepthBuffer::new(3, 2);
    assert_eq!(depth.get(3, 0), i64::MAX);
    assert_eq!(depth.get(0, 2), i64::MAX);
    assert!(!depth.offer(3, 0, i64::MAX));
    assert!(!depth.offer(0, 2, 5));
    assert!(!depth.offer(usize::MAX, usize::MAX, 5));
    for y in 0..2 {
        for x in 0..3 {
            assert_eq!(depth.get(x, y), i64::MIN);
        }
    }
}

#[test]
fn offer_takes_the_nearer_key() {
    let mut depth = DepthBuffer::new(4, 4);
    assert!(depth.offer(1, 2, -7));
    assert_eq!(depth.get(1, 2), -7);
    assert!(!depth.offer(1, 2, -7));
    assert!(!depth.offer(1, 2, -8));
    assert_eq!(depth.get(1, 2), -7);
    assert!(depth.offer(1, 2, 100));
    assert_eq!(depth.get(1, 2), 100);
    assert_eq!(depth.get(2, 1), i64::MIN);
    assert!(!depth.offer(0, 0, i64::MIN));
    assert!(depth.offer(0, 0, i64::MIN + 1));
}

fn draw(image: &mut Image, depth: &mut DepthBuffer, square: (usize, usize, usize), key: i64, c: &Color) {
    let (left, top, size) = square;
    for y in top..top + size {
        for x in left..left + size {
            if depth.offer(x, y, key + (x + y) as i64) {
                image.set(x, y, c);
            }
        }
    }
}

#[test]
fn the_nearer_surface_shows_whichever_is_drawn_first() {
    let red = Color::new(255, 0, 0, 255);
    let blue = Color::new(0, 0, 255, 255);
    let near = ((1, 1, 4), 1000, &red);
    let far = ((3, 2, 4), 10, &blue);
    let mut first = Image::new(8, 8, Format::Rgba);
    let mut first_depth = DepthBuffer::new(8, 8);
    draw(&mut first, &mut first_depth, near.0, near.1, near.2);
    draw(&mut first, &mut first_depth, far.0, far.1, far.2);
    let mut second = Image::new(8, 8, Format::Rgba);
    let mut second_depth = DepthBuffer::new(8, 8);
    draw(&mut second, &mut second_depth, far.0, far.1, far.2);
    draw(&mut second, &mut second_depth, near.0, near.1, near.2);
    assert_eq!(first.get_data(), second.get_data());
    for y in 0..8 {
        for x in 0..8 {
            assert_eq!(first_depth.get(x, y), second_depth.get(x, y));
            let in_near = (1..5).contains(&x) && (1..5).contains(&y);
            let in_far = (3..7).contains(&x) && (2..6).contains(&y);
            let expected = if in_near {
                red
            } else if in_far {
                blue
            } else {
                Color::new(0, 0, 0, 0)
            };
            assert_eq!(first.get(x, y), expected);
        }
    }
}
