use raytracer::image::{image_text, pixel_line, ppm_header, Rgb};

#[test]
fn header_of_default_image() {
    assert_eq!(ppm_header(400, 225), b"P3\n400 225\n255\n".to_vec());
}

#[test]
fn header_with_zero_and_large_sizes() {
    assert_eq!(ppm_header(0, 4294967295), b"P3\n0 4294967295\n255\n".to_vec());
}

#[test]
fn pixel_lines() {
    assert_eq!(pixel_line(Rgb { r: 255, g: 0, b: 7 }), b"255 0 7\n".to_vec());
    assert_eq!(pixel_line(Rgb { r: 10, g: 99, b: 100 }), b"10 99 100\n".to_vec());
}

#[test]
fn rows_are_written_top_down() {
    // bottom row: a b c, top row: d e f
    let px = |v: u8| Rgb { r: v, g: v, b: v };
    let pixels = vec![px(1), px(2), px(3), px(4), px(5), px(6)];
    let text = String::from_utf8(image_text(3, 2, &pixels)).unwrap();
    assert_eq!(text, "P3\n3 2\n255\n4 4 4\n5 5 5\n6 6 6\n1 1 1\n2 2 2\n3 3 3\n");
}

#[test]
fn empty_image_is_header_only() {
    assert_eq!(image_text(0, 5, &Vec::new()), b"P3\n0 5\n255\n".to_vec());
}
