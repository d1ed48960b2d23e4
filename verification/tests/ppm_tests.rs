use raytracer::ppm::Ppm;

#[test]
fn new_is_black() {
    let image = Ppm::new(3, 2);
    assert_eq!(image.width(), 3);
    assert_eq!(image.height(), 2);
    assert_eq!(image.pixel_count(), 6);
    for y in 0..2 {
        for x in 0..3 {
            assert_eq!(image.get(x, y), (0, 0, 0));
        }
    }
}

#[test]
fn new_may_be_empty() {
    let image = Ppm::new(0, 5);
    assert_eq!(image.width(), 0);
    assert_eq!(image.height(), 5);
    assert_eq!(image.pixel_count(), 0);
}

#[test]
fn from_fills_in_reverse() {
    let colors = vec![(1, 1, 1), (2, 2, 2), (3, 3, 3), (4, 4, 4)];
    let image = Ppm::from(2, 2, &colors);
    assert_eq!(image.get(0, 0), (4, 4, 4));
    assert_eq!(image.get(1, 0), (3, 3, 3));
    assert_eq!(image.get(0, 1), (2, 2, 2));
    assert_eq!(image.get(1, 1), (1, 1, 1));
}

#[test]
fn from_leaves_black_what_the_colours_do_not_reach() {
    let colors = vec![(9, 8, 7), (6, 5, 4)];
    let image = Ppm::from(3, 2, &colors);
    assert_eq!(image.width(), 3);
    assert_eq!(image.height(), 2);
    assert_eq!(image.get(0, 0), (6, 5, 4));
    assert_eq!(image.get(1, 0), (9, 8, 7));
    assert_eq!(image.get(2, 0), (0, 0, 0));
    assert_eq!(image.get(0, 1), (0, 0, 0));
    assert_eq!(image.get(2, 1), (0, 0, 0));
}

#[test]
fn from_no_colours_is_black() {
    let image = Ppm::from(2, 1, &Vec::new());
    assert_eq!(image.get(0, 0), (0, 0, 0));
    assert_eq!(image.get(1, 0), (0, 0, 0));
}

#[test]
fn set_changes_one_pixel() {
    let mut image = Ppm::new(3, 2);
    image.set(1, 1, (10, 20, 30));
    for y in 0..2 {
        for x in 0..3 {
            let expected = if (x, y) == (1, 1) { (10, 20, 30) } else { (0, 0, 0) };
            assert_eq!(image.get(x, y), expected);
        }
    }
    assert_eq!(image.width(), 3);
    assert_eq!(image.height(), 2);
}

#[test]
fn set_and_get_go_by_the_place_in_the_buffer() {
    let mut image = Ppm::new(3, 2);
    image.set(4, 0, (7, 7, 7));
    assert_eq!(image.get(1, 1), (7, 7, 7));
    image.set(0, 1, (8, 8, 8));
    assert_eq!(image.get(3, 0), (8, 8, 8));
}

#[test]
fn set_overwrites() {
    let mut image = Ppm::new(1, 1);
    image.set(0, 0, (1, 2, 3));
    image.set(0, 0, (255, 254, 253));
    assert_eq!(image.get(0, 0), (255, 254, 253));
}

#[test]
fn encode_writes_a_plain_ppm() {
    let mut image = Ppm::new(2, 2);
    image.set(0, 0, (255, 0, 0));
    image.set(1, 0, (0, 128, 9));
    image.set(0, 1, (10, 100, 200));
    let expected = "P3\n2 2\n255\n255 0 0\n0 128 9\n10 100 200\n0 0 0\n";
    assert_eq!(image.encode(), expected.as_bytes().to_vec());
}

#[test]
fn encode_of_an_empty_image_is_its_header() {
    assert_eq!(Ppm::new(0, 0).encode(), "P3\n0 0\n255\n".as_bytes().to_vec());
    assert_eq!(Ppm::new(12, 0).encode(), "P3\n12 0\n255\n".as_bytes().to_vec());
}

#[test]
fn encode_writes_sizes_of_several_digits() {
    let image = Ppm::new(1234, 1);
    let bytes = image.encode();
    let mut expected = String::from("P3\n1234 1\n255\n");
    for _ in 0..1234 {
        expected.push_str("0 0 0\n");
    }
    assert_eq!(bytes, expected.into_bytes());
}

#[test]
fn encode_agrees_with_formatting() {
    let colors: Vec<(u8, u8, u8)> =
        (0..=255u32).map(|v| (v as u8, (255 - v) as u8, ((v * 7) % 256) as u8)).collect();
    let image = Ppm::from(16, 16, &colors);
    let mut expected = format!("P3\n{} {}\n255\n", 16, 16);
    for (r, g, b) in colors.iter().rev() {
        expected.push_str(&format!("{} {} {}\n", r, g, b));
    }
    assert_eq!(image.encode(), expected.into_bytes());
}

#[test]
fn fits_asks_for_room() {
    assert!(Ppm::fits(3, 2, 6));
    assert!(Ppm::fits(3, 2, 0));
    assert!(!Ppm::fits(3, 2, 7));
    assert!(Ppm::fits(0, 0, 0));
    assert!(!Ppm::fits(0, 9, 1));
}

#[test]
fn fits_refuses_what_no_buffer_holds() {
    assert!(!Ppm::fits(usize::MAX, 2, 0));
    assert!(Ppm::fits(usize::MAX, 1, usize::MAX));
}

#[test]
fn has_pixel_goes_by_the_place_in_the_buffer() {
    let image = Ppm::new(3, 2);
    assert!(image.has_pixel(0, 0));
    assert!(image.has_pixel(2, 1));
    assert!(image.has_pixel(5, 0));
    assert!(image.has_pixel(3, 0));
    assert!(!image.has_pixel(0, 2));
    assert!(!image.has_pixel(3, 1));
    assert!(!image.has_pixel(6, 0));
    assert!(!image.has_pixel(usize::MAX, 0));
    assert!(!image.has_pixel(0, usize::MAX));
    assert!(!image.has_pixel(usize::MAX, usize::MAX));
    assert!(!Ppm::new(0, 0).has_pixel(0, 0));
}
