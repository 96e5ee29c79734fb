use watchrs::draw::{color_rgb, Canvas, Dimensions, Point};

const WHITE: u32 = 0x00ff_ffff;

fn canvas_buf(w: usize, h: usize, fill: u32) -> Vec<u32> {
    vec![fill; w * h]
}

fn set_pixels(buf: &[u32], w: usize, color: u32) -> Vec<(usize, usize)> {
    let mut out = Vec::new();
    for (i, &p) in buf.iter().enumerate() {
        if p == color {
            out.push((i % w, i / w));
        }
    }
    out
}

#[test]
fn color_rgb_packs_channels() {
    assert_eq!(color_rgb(75, 95, 100), 0x004b_5f64);
    assert_eq!(color_rgb(255, 255, 255), 0x00ff_ffff);
    assert_eq!(color_rgb(0, 0, 0), 0);
    assert_eq!(color_rgb(1, 2, 3), 0x0001_0203);
    assert_eq!(color_rgb(75, 95, 100), color_rgb(75, 95, 100));
}

#[test]
fn color_rgb_round_trips() {
    for &(r, g, b) in &[(0u8, 0u8, 0u8), (255, 0, 0), (0, 255, 0), (0, 0, 255), (12, 200, 7), (255, 255, 255)] {
        let c = color_rgb(r, g, b);
        assert_eq!((c >> 16) & 0xff, r as u32);
        assert_eq!((c >> 8) & 0xff, g as u32);
        assert_eq!(c & 0xff, b as u32);
        assert_eq!(c >> 24, 0);
    }
}

#[test]
fn point_new_keeps_coordinates() {
    let p = Point::new(-3, 7);
    assert_eq!(p.x, -3);
    assert_eq!(p.y, 7);
}

#[test]
fn geometry_queries() {
    let mut buf = canvas_buf(7, 4, 0);
    let c = Canvas::new(&mut buf, Dimensions { width: 7, height: 4 });
    assert_eq!(c.width(), 7);
    assert_eq!(c.height(), 4);
    assert_eq!(c.max_x(), 6);
    assert_eq!(c.max_y(), 3);
    assert_eq!(c.center(), Point::new(3, 2));
    assert_eq!(c.min_dim(), 4);
}

#[test]
fn clear_fills_every_pixel() {
    let mut buf = canvas_buf(100, 100, WHITE);
    {
        let mut c = Canvas::new(&mut buf, Dimensions { width: 100, height: 100 });
        c.clear(0x00ff_0000);
    }
    assert!(buf.iter().all(|&p| p == 0x00ff_0000));
    assert_eq!(buf.len(), 100 * 100);
}

#[test]
fn put_pixel_in_bounds_writes_index() {
    let mut buf = canvas_buf(5, 4, 0);
    {
        let mut c = Canvas::new(&mut buf, Dimensions { width: 5, height: 4 });
        c.put_pixel(3, 2, 9);
        c.put_pixel(0, 0, 8);
        c.put_pixel(4, 3, 7);
    }
    assert_eq!(buf[2 * 5 + 3], 9);
    assert_eq!(buf[0], 8);
    assert_eq!(buf[3 * 5 + 4], 7);
    assert_eq!(buf.iter().filter(|&&p| p != 0).count(), 3);
}

#[test]
fn put_pixel_out_of_bounds_is_ignored() {
    let mut buf = canvas_buf(5, 4, 1);
    {
        let mut c = Canvas::new(&mut buf, Dimensions { width: 5, height: 4 });
        c.put_pixel(-1, 0, 9);
        c.put_pixel(0, -1, 9);
        c.put_pixel(5, 0, 9);
        c.put_pixel(0, 4, 9);
        c.put_pixel(isize::MIN, isize::MAX, 9);
    }
    assert!(buf.iter().all(|&p| p == 1));
}

#[test]
fn circle_of_radius_zero_sets_one_pixel() {
    let mut buf = canvas_buf(9, 9, 0);
    {
        let mut c = Canvas::new(&mut buf, Dimensions { width: 9, height: 9 });
        c.draw_filled_circle(Point::new(4, 5), 0, 3);
    }
    assert_eq!(set_pixels(&buf, 9, 3), vec![(4, 5)]);
}

#[test]
fn circle_of_radius_zero_off_canvas_sets_nothing() {
    let mut buf = canvas_buf(9, 9, 0);
    {
        let mut c = Canvas::new(&mut buf, Dimensions { width: 9, height: 9 });
        c.draw_filled_circle(Point::new(-1, 5), 0, 3);
    }
    assert!(buf.iter().all(|&p| p == 0));
}

#[test]
fn circle_of_negative_radius_draws_nothing() {
    let mut buf = canvas_buf(9, 9, 0);
    {
        let mut c = Canvas::new(&mut buf, Dimensions { width: 9, height: 9 });
        c.draw_filled_circle(Point::new(4, 4), -2, 3);
    }
    assert!(buf.iter().all(|&p| p == 0));
}

#[test]
fn circle_of_radius_two_covers_its_disk() {
    let mut buf = canvas_buf(9, 9, 0);
    {
        let mut c = Canvas::new(&mut buf, Dimensions { width: 9, height: 9 });
        c.draw_filled_circle(Point::new(4, 4), 2, 3);
    }
    let mut expected = Vec::new();
    for y in 0..9isize {
        for x in 0..9isize {
            if (x - 4) * (x - 4) + (y - 4) * (y - 4) <= 4 {
                expected.push((x as usize, y as usize));
            }
        }
    }
    assert_eq!(set_pixels(&buf, 9, 3), expected);
    assert_eq!(expected.len(), 13);
}

#[test]
fn circle_at_corner_is_clipped() {
    let mut buf = canvas_buf(6, 6, 0);
    {
        let mut c = Canvas::new(&mut buf, Dimensions { width: 6, height: 6 });
        c.draw_filled_circle(Point::new(0, 0), 1, 3);
    }
    assert_eq!(set_pixels(&buf, 6, 3), vec![(0, 0), (1, 0), (0, 1)]);
}

#[test]
fn circle_with_huge_radius_fills_canvas() {
    let mut buf = canvas_buf(4, 3, 0);
    {
        let mut c = Canvas::new(&mut buf, Dimensions { width: 4, height: 3 });
        c.draw_filled_circle(Point::new(1, 1), isize::MAX, 3);
    }
    assert!(buf.iter().all(|&p| p == 3));
}

fn line_pixels(w: usize, h: usize, a: Point, b: Point, t: isize) -> Vec<(usize, usize)> {
    let mut buf = canvas_buf(w, h, 0);
    {
        let mut c = Canvas::new(&mut buf, Dimensions { width: w, height: h });
        c.draw_line(a, b, t, 5);
    }
    set_pixels(&buf, w, 5)
}

fn circle_pixels(w: usize, h: usize, center: Point, r: isize) -> Vec<(usize, usize)> {
    let mut buf = canvas_buf(w, h, 0);
    {
        let mut c = Canvas::new(&mut buf, Dimensions { width: w, height: h });
        c.draw_filled_circle(center, r, 5);
    }
    set_pixels(&buf, w, 5)
}

#[test]
fn line_to_itself_is_one_circle() {
    let a = Point::new(10, 9);
    for &(t, r) in &[(0isize, 1isize), (1, 1), (2, 1), (3, 2), (4, 2), (5, 3), (-4, 1)] {
        assert_eq!(line_pixels(21, 21, a, a, t), circle_pixels(21, 21, a, r));
    }
}

#[test]
fn line_sets_both_endpoints_in_either_direction() {
    let cases = [
        (Point::new(1, 1), Point::new(17, 6)),
        (Point::new(17, 6), Point::new(1, 1)),
        (Point::new(3, 18), Point::new(12, 0)),
        (Point::new(0, 0), Point::new(19, 19)),
        (Point::new(5, 2), Point::new(5, 15)),
    ];
    for &(a, b) in &cases {
        let mut buf = canvas_buf(20, 20, 0);
        {
            let mut c = Canvas::new(&mut buf, Dimensions { width: 20, height: 20 });
            c.draw_line(a, b, 1, 5);
        }
        assert_eq!(buf[a.y as usize * 20 + a.x as usize], 5);
        assert_eq!(buf[b.y as usize * 20 + b.x as usize], 5);
    }
}

#[test]
fn horizontal_and_vertical_lines_are_symmetric() {
    let a = Point::new(2, 7);
    let b = Point::new(15, 7);
    assert_eq!(line_pixels(20, 20, a, b, 3), line_pixels(20, 20, b, a, 3));
    let c = Point::new(4, 1);
    let d = Point::new(4, 18);
    assert_eq!(line_pixels(20, 20, c, d, 2), line_pixels(20, 20, d, c, 2));
}

#[test]
fn diagonal_lines_are_symmetric() {
    let a = Point::new(2, 3);
    let b = Point::new(14, 15);
    assert_eq!(line_pixels(20, 20, a, b, 3), line_pixels(20, 20, b, a, 3));
    let c = Point::new(17, 1);
    let d = Point::new(3, 15);
    assert_eq!(line_pixels(20, 20, c, d, 1), line_pixels(20, 20, d, c, 1));
    for i in 0..=14usize {
        assert!(line_pixels(20, 20, c, d, 1).contains(&(17 - i, 1 + i)));
    }
}

#[test]
fn swapped_end_points_give_the_same_pixels() {
    let a = Point::new(0, 0);
    let b = Point::new(2, 1);
    assert_eq!(line_pixels(4, 4, a, b, 1), line_pixels(4, 4, b, a, 1));
    let ends = [(1isize, 1isize), (17, 6), (3, 18), (12, 0), (9, 9), (0, 13), (19, 2)];
    for &(ax, ay) in &ends {
        for &(bx, by) in &ends {
            for t in 0..4isize {
                let (p, q) = (Point::new(ax, ay), Point::new(bx, by));
                assert_eq!(line_pixels(20, 20, p, q, t), line_pixels(20, 20, q, p, t));
            }
        }
    }
}

#[test]
fn horizontal_line_scenario() {
    let black = 0x0000_0000;
    let mut buf = canvas_buf(100, 100, WHITE);
    {
        let mut c = Canvas::new(&mut buf, Dimensions { width: 100, height: 100 });
        c.draw_line(Point::new(10, 10), Point::new(90, 10), 1, black);
    }
    for x in 10..=90 {
        assert_eq!(buf[10 * 100 + x], black);
    }
    for y in 0..100usize {
        for x in 0..100usize {
            let p = buf[y * 100 + x];
            if y < 9 || y > 11 {
                assert_eq!(p, WHITE);
            }
            if (y == 9 || y == 11) && p == black {
                assert!((10..=90).contains(&x));
            }
            if y == 10 && (x < 9 || x > 91) {
                assert_eq!(p, WHITE);
            }
        }
    }
}

#[test]
fn line_off_canvas_does_not_panic() {
    let mut buf = canvas_buf(10, 10, 0);
    {
        let mut c = Canvas::new(&mut buf, Dimensions { width: 10, height: 10 });
        c.draw_line(Point::new(-50, -50), Point::new(-20, -40), 3, 5);
        c.draw_line(Point::new(-5, 5), Point::new(15, 5), 1, 5);
    }
    for x in 0..10 {
        assert_eq!(buf[5 * 10 + x], 5);
    }
    assert_eq!(buf[0], 0);
}

#[test]
fn frame_corners_hold_stroke_color() {
    let (w, h, pad) = (40usize, 30usize, 4isize);
    let mut buf = canvas_buf(w, h, 0);
    {
        let mut c = Canvas::new(&mut buf, Dimensions { width: w, height: h });
        c.draw_frame(pad, 2, 7);
    }
    let p = pad as usize;
    for &(x, y) in &[(p, p), (w - 1 - p, p), (p, h - 1 - p), (w - 1 - p, h - 1 - p)] {
        assert_eq!(buf[y * w + x], 7);
    }
    // the middle of the canvas and its outer corner stay untouched
    assert_eq!(buf[(h / 2) * w + w / 2], 0);
    assert_eq!(buf[0], 0);
    // sides are continuous
    for x in p..=(w - 1 - p) {
        assert_eq!(buf[p * w + x], 7);
        assert_eq!(buf[(h - 1 - p) * w + x], 7);
    }
    for y in p..=(h - 1 - p) {
        assert_eq!(buf[y * w + p], 7);
        assert_eq!(buf[y * w + (w - 1 - p)], 7);
    }
}

#[test]
fn frame_with_oversized_padding_does_not_panic() {
    let mut buf = canvas_buf(8, 8, 0);
    {
        let mut c = Canvas::new(&mut buf, Dimensions { width: 8, height: 8 });
        c.draw_frame(100, 3, 7);
        c.draw_frame(4, 1, 9);
        c.draw_frame(-3, 2, 7);
    }
    assert_eq!(buf.len(), 64);
    // padding 4 on an 8 by 8 canvas puts all four corners near the middle
    assert_eq!(buf[4 * 8 + 3], 9);
}

#[test]
fn empty_canvas_draws_nothing() {
    let mut buf: Vec<u32> = Vec::new();
    {
        let mut c = Canvas::new(&mut buf, Dimensions { width: 0, height: 5 });
        c.clear(1);
        c.draw_frame(1, 1, 2);
        c.draw_line(Point::new(0, 0), Point::new(3, 3), 2, 2);
        c.put_pixel(0, 0, 3);
        assert_eq!(c.min_dim(), 0);
    }
    assert!(buf.is_empty());
}
