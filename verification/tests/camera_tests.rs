use raytracer::camera::Camera;

#[test]
fn new_keeps_the_resolution() {
    let camera = Camera::new(640, 480);
    assert_eq!(camera.resolution, (640, 480));
}

#[test]
fn pixel_count_is_width_times_height() {
    assert_eq!(Camera::new(640, 480).pixel_count(), 307_200);
    assert_eq!(Camera::new(0, 480).pixel_count(), 0);
    assert_eq!(Camera::new(7, 1).pixel_count(), 7);
}

#[test]
fn checked_pixel_count_is_width_times_height() {
    assert_eq!(Camera::new(640, 480).checked_pixel_count(), Some(307_200));
    assert_eq!(Camera::new(0, usize::MAX).checked_pixel_count(), Some(0));
    assert_eq!(Camera::new(usize::MAX, 1).checked_pixel_count(), Some(usize::MAX));
}

#[test]
fn checked_pixel_count_refuses_what_no_buffer_holds() {
    assert_eq!(Camera::new(usize::MAX, 2).checked_pixel_count(), None);
    assert_eq!(Camera::new(usize::MAX / 2 + 1, 2).checked_pixel_count(), None);
}

#[test]
fn pixel_splits_an_index_into_column_and_row() {
    let camera = Camera::new(4, 3);
    assert_eq!(camera.pixel(0), (0, 0));
    assert_eq!(camera.pixel(3), (3, 0));
    assert_eq!(camera.pixel(4), (0, 1));
    assert_eq!(camera.pixel(6), (2, 1));
    assert_eq!(camera.pixel(11), (3, 2));
}

#[test]
fn pixel_visits_every_place_of_the_image_once() {
    let camera = Camera::new(5, 3);
    let mut seen = vec![false; 15];
    for index in 0..camera.pixel_count() {
        let (x, y) = camera.pixel(index);
        assert!(x < 5 && y < 3);
        assert_eq!(x + y * 5, index);
        assert!(!seen[x + y * 5]);
        seen[x + y * 5] = true;
    }
    assert!(seen.iter().all(|s| *s));
}

#[test]
fn pixel_of_a_wide_image_stays_in_its_rows() {
    let camera = Camera::new(8, 2);
    assert_eq!(camera.pixel(7), (7, 0));
    assert_eq!(camera.pixel(8), (0, 1));
    assert_eq!(camera.pixel(15), (7, 1));
}

#[test]
fn pixel_offset_is_measured_from_the_centre() {
    let camera = Camera::new(640, 480);
    assert_eq!(camera.pixel_offset(320, 240), (0, 0));
    assert_eq!(camera.pixel_offset(0, 0), (-320, -240));
    assert_eq!(camera.pixel_offset(639, 479), (319, 239));
    assert_eq!(camera.pixel_offset(330, 200), (10, -40));
}

#[test]
fn pixel_offset_rounds_the_centre_down() {
    let camera = Camera::new(5, 3);
    assert_eq!(camera.pixel_offset(0, 0), (-2, -1));
    assert_eq!(camera.pixel_offset(2, 1), (0, 0));
    assert_eq!(camera.pixel_offset(4, 2), (2, 1));
}

#[test]
fn pixel_offset_at_the_limits() {
    let big = i32::MAX as usize;
    let camera = Camera::new(big, big);
    assert_eq!(camera.pixel_offset(0, 0), (-(i32::MAX / 2), -(i32::MAX / 2)));
    assert_eq!(camera.pixel_offset(big, big), (i32::MAX - i32::MAX / 2, i32::MAX - i32::MAX / 2));
    assert_eq!(Camera::new(0, 0).pixel_offset(big, 0), (i32::MAX, 0));
}

#[test]
fn in_reach_asks_for_what_a_signed_word_holds() {
    let big = i32::MAX as usize;
    assert!(Camera::new(640, 480).in_reach(0, 0));
    assert!(Camera::new(big, big).in_reach(big, big));
    assert!(!Camera::new(big + 1, 1).in_reach(0, 0));
    assert!(!Camera::new(1, big + 1).in_reach(0, 0));
    assert!(!Camera::new(1, 1).in_reach(big + 1, 0));
    assert!(!Camera::new(1, 1).in_reach(0, usize::MAX));
}
