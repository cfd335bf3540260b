use raytracer::canvas::Canvas;

/// Clamp-and-scale a float colour channel to its 8-bit value, the way
/// the renderer feeds the canvas.
fn scale(r: f64, g: f64, b: f64) -> (u8, u8, u8) {
    (
        ((r * 255.0) as u8).max(0).min(255),
        ((g * 255.0) as u8).max(0).min(255),
        ((b * 255.0) as u8).max(0).min(255),
    )
}

fn ppm_text(c: &Canvas) -> String {
    String::from_utf8(c.to_ppm()).unwrap()
}

#[test]
fn test_can_create_canvas() {
    let c = Canvas::new(10, 20);

    assert_eq!(c.width(), 10);
    assert_eq!(c.height(), 20);

    for y in 0..20 {
        for x in 0..10 {
            let (r, g, b) = c.pixel_rgb_at((x, y)).unwrap();
            assert_eq!(r, 0);
            assert_eq!(g, 0);
            assert_eq!(b, 0);
        }
    }
}

#[test]
fn test_can_write_to_canvas() {
    let mut c = Canvas::new(10, 20);
    let red = scale(1.0, 0.0, 0.0);
    c.set_pixel_rgb((2, 3), red);
    let (r, g, b) = c.pixel_rgb_at((2, 3)).unwrap();
    assert!(((r as f64) / 255.0 - 1.0).abs() < 1.0e-5);
    assert!(((g as f64) / 255.0).abs() < 1.0e-5);
    assert!(((b as f64) / 255.0).abs() < 1.0e-5);
}

#[test]
fn test_can_construct_ppm_header() {
    let c = Canvas::new(5, 3);
    let text = ppm_text(&c);
    let mut line_count = 0;
    for line in text.lines() {
        if line_count == 0 {
            assert_eq!(line, "P3")
        } else if line_count == 1 {
            assert_eq!(line, "5 3")
        } else if line_count == 2 {
            assert_eq!(line, "255")
        } else if line_count > 3 {
            break;
        }
        line_count += 1;
    }
}

#[test]
fn test_can_construct_ppm_body() {
    let mut c = Canvas::new(5, 3);

    c.set_pixel_rgb((0, 0), scale(1.5, 0.0, 0.0));
    c.set_pixel_rgb((2, 1), scale(0.0, 0.5, 0.0));
    c.set_pixel_rgb((4, 2), scale(-0.5, 0.0, 1.0));

    let text = ppm_text(&c);
    let mut line_count = 0;
    for line in text.lines() {
        if line_count == 3 {
            assert_eq!(line, "255 0 0 0 0 0 0 0 0 0 0 0 0 0 0 ")
        } else if line_count == 4 {
            assert_eq!(line, "0 0 0 0 0 0 0 127 0 0 0 0 0 0 0 ")
        } else if line_count == 5 {
            assert_eq!(line, "0 0 0 0 0 0 0 0 0 0 0 0 0 0 255 ")
        } else if line_count > 6 {
            break;
        }
        line_count += 1;
    }
}

#[test]
fn test_ppm_long_lines_are_split() {
    let mut c = Canvas::new(10, 2);
    let color = scale(1.0, 0.8, 0.6);

    for y in 0..2 {
        for x in 0..10 {
            c.set_pixel_rgb((x, y), color);
        }
    }

    let text = ppm_text(&c);
    let mut line_count = 0;
    for line in text.lines() {
        if line_count == 3 {
            assert_eq!(
                line,
                "255 204 153 255 204 153 255 204 153 255 204 153 255 204 153 "
            )
        } else if line_count == 4 {
            assert_eq!(line, "255 204 153 255 204 153 255 204 153 255 204 153 ")
        } else if line_count == 5 {
            assert_eq!(
                line,
                "255 204 153 255 204 153 255 204 153 255 204 153 255 204 153 255 204 153 "
            )
        } else if line_count == 6 {
            assert_eq!(line, "255 204 153 255 204 153 255 204 153 255 204 153 ")
        } else if line_count > 7 {
            break;
        }
        line_count += 1;
    }
}

#[test]
fn ppm_of_single_pixel_canvas_is_exact() {
    let c = Canvas::new(1, 1);
    assert_eq!(ppm_text(&c), "P3\n1 1\n255\n0 0 0 ");
}

#[test]
fn ppm_channels_are_clamped_at_both_ends() {
    let mut c = Canvas::new(1, 1);
    c.set_pixel_rgb((0, 0), scale(-1.0, 2.0, 0.5));
    assert_eq!(ppm_text(&c), "P3\n1 1\n255\n0 255 127 ");
}

#[test]
fn out_of_range_write_is_ignored() {
    let mut c = Canvas::new(2, 2);
    c.set_pixel_rgb((0, 5), (9, 9, 9));
    for y in 0..2 {
        for x in 0..2 {
            assert_eq!(c.pixel_rgb_at((x, y)).unwrap(), (0, 0, 0));
        }
    }
}

#[test]
fn wrapping_write_lands_on_the_next_row() {
    // The flat layout means column overflow spills into the row below,
    // exactly as the index arithmetic says.
    let mut c = Canvas::new(2, 2);
    c.set_pixel_rgb((2, 0), (7, 8, 9));
    assert_eq!(c.pixel_rgb_at((0, 1)).unwrap(), (7, 8, 9));
}

#[test]
fn to_index_is_row_major() {
    let c = Canvas::new(4, 3);
    assert_eq!(c.to_index(&(0, 0)), 0);
    assert_eq!(c.to_index(&(1, 0)), 3);
    assert_eq!(c.to_index(&(0, 1)), 12);
    assert_eq!(c.to_index(&(3, 2)), 33);
}
