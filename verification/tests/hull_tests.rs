use collision2d::convex::{BoundaryIterator, LineIterator, calculate_convex, is_points_on_line};
use collision2d::pixels::PixelBuffer;
use collision2d::util::Point;

/// An RGBA buffer whose alpha channel is given per pixel.
fn buffer_from_alpha(width: u32, height: u32, alpha: &[u8]) -> PixelBuffer {
    assert_eq!(alpha.len(), (width * height) as usize);
    let mut data = Vec::new();
    for a in alpha {
        data.push(0);
        data.push(0);
        data.push(0);
        data.push(*a);
    }
    PixelBuffer::new(data, width, height).expect("consistent dimensions")
}

fn solid_buffer(width: u32, height: u32) -> PixelBuffer {
    let alpha = vec![255u8; (width * height) as usize];
    buffer_from_alpha(width, height, &alpha)
}

#[test]
fn pixel_buffer_rejects_wrong_length() {
    assert!(PixelBuffer::new(vec![0u8; 15], 2, 2).is_none());
    assert!(PixelBuffer::new(vec![0u8; 16], 2, 2).is_some());
}

#[test]
fn hull_of_filled_rectangle_is_four_corners() {
    // An opaque W x H rectangle reduces to exactly its four corners,
    // clockwise from the top-right anchor, for several sizes.
    for (w, h) in [(2u32, 2u32), (2, 5), (5, 2), (4, 4), (7, 3)] {
        let pb = solid_buffer(w, h);
        let hull = calculate_convex(&pb, Point::new(0, 0), Point::new(w, h));
        assert_eq!(hull.len(), 4, "size {}x{}", w, h);
        let mx = (w - 1) as i32;
        let my = (h - 1) as i32;
        assert_eq!((hull[0].0.x(), hull[0].0.y()), (mx, 0));
        assert_eq!((hull[1].0.x(), hull[1].0.y()), (mx, my));
        assert_eq!((hull[2].0.x(), hull[2].0.y()), (0, my));
        assert_eq!((hull[3].0.x(), hull[3].0.y()), (0, 0));
    }
}

#[test]
fn hull_of_filled_rectangle_inside_larger_image() {
    // The sub-rectangle is what counts, not the whole image.
    let mut alpha = vec![0u8; 8 * 8];
    for y in 2..6 {
        for x in 3..6 {
            alpha[y * 8 + x] = 128;
        }
    }
    let pb = buffer_from_alpha(8, 8, &alpha);
    let hull = calculate_convex(&pb, Point::new(3, 2), Point::new(3, 4));
    assert_eq!(hull.len(), 4);
    assert_eq!((hull[0].0.x(), hull[0].0.y()), (2, 0));
    assert_eq!((hull[1].0.x(), hull[1].0.y()), (2, 3));
    assert_eq!((hull[2].0.x(), hull[2].0.y()), (0, 3));
    assert_eq!((hull[3].0.x(), hull[3].0.y()), (0, 0));
    // The direction markers push the far corners outward, so that the
    // downstream conversion spans the full pixel rectangle.
    assert_eq!((hull[0].1.x(), hull[0].1.y()), (1, 0));
    assert_eq!((hull[1].1.x(), hull[1].1.y()), (1, 1));
    assert_eq!((hull[2].1.x(), hull[2].1.y()), (0, 1));
    assert_eq!((hull[3].1.x(), hull[3].1.y()), (0, 0));
}

#[test]
fn hull_of_single_opaque_pixel_is_one_vertex() {
    let mut alpha = vec![0u8; 5 * 4];
    alpha[2 * 5 + 3] = 1;
    let pb = buffer_from_alpha(5, 4, &alpha);
    let hull = calculate_convex(&pb, Point::new(0, 0), Point::new(5, 4));
    assert_eq!(hull.len(), 1);
    assert_eq!((hull[0].0.x(), hull[0].0.y()), (3, 2));
}

#[test]
fn hull_of_transparent_sprite_is_empty() {
    let pb = buffer_from_alpha(6, 6, &vec![0u8; 36]);
    let hull = calculate_convex(&pb, Point::new(0, 0), Point::new(6, 6));
    assert!(hull.is_empty());
}

#[test]
fn collinearity_of_vertical_horizontal_and_diagonal_runs() {
    let p = |x: i32, y: i32| Point::new(x, y);
    // Vertical, horizontal, and exact diagonal runs merge.
    assert!(is_points_on_line(p(2, 0), p(2, 3), p(2, 7)));
    assert!(is_points_on_line(p(0, 5), p(4, 5), p(6, 5)));
    assert!(is_points_on_line(p(0, 0), p(2, 2), p(5, 5)));
    assert!(is_points_on_line(p(5, 0), p(3, 2), p(2, 3)));
    // A bend, an unequal slope, or a direction reversal does not.
    assert!(!is_points_on_line(p(2, 0), p(2, 3), p(3, 7)));
    assert!(!is_points_on_line(p(0, 0), p(2, 2), p(5, 6)));
    assert!(!is_points_on_line(p(0, 0), p(2, 2), p(1, 1)));
}

#[test]
fn boundary_iterator_walks_the_rectangle_clockwise() {
    let mut it = BoundaryIterator::new(3, 3, Point::new(2, 1));
    let mut walk = Vec::new();
    while let Some(p) = it.next() {
        walk.push((p.x(), p.y()));
    }
    assert_eq!(walk, vec![(2, 2), (1, 2), (0, 2), (0, 1), (0, 0), (1, 0), (2, 0)]);
}

#[test]
fn line_iterator_rasterizes_toward_its_target() {
    // From (0,0) toward (5,3): five pixels, interleaving the secondary
    // axis in proportion, the target itself excluded.
    let mut it = LineIterator::new(Point::new(0, 0), Point::new(5, 3));
    let mut pts = Vec::new();
    while let Some(p) = it.next() {
        pts.push((p.x(), p.y()));
    }
    assert_eq!(pts, vec![(0, 0), (1, 1), (2, 1), (3, 2), (4, 2)]);
}

#[test]
fn line_iterator_handles_axis_aligned_and_empty_lines() {
    let mut it = LineIterator::new(Point::new(4, 2), Point::new(1, 2));
    let mut pts = Vec::new();
    while let Some(p) = it.next() {
        pts.push((p.x(), p.y()));
    }
    assert_eq!(pts, vec![(4, 2), (3, 2), (2, 2)]);

    let mut empty = LineIterator::new(Point::new(3, 3), Point::new(3, 3));
    assert!(empty.next().is_none());
}
