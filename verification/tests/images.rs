use wave_function::image::all_transformations;
use wave_function::{ArgsFault, Direction, Image, Pixel, Transformation, WfcError};

fn grey(v: u8) -> Pixel {
    Pixel { r: v, g: v, b: v, a: 255 }
}

/// An image whose pixel in row `y`, column `x` is grey `10 * y + x`.
fn numbered(height: usize, width: usize) -> Image {
    Image::new(
        (0..height).map(|y| (0..width).map(|x| grey((10 * y + x) as u8)).collect()).collect(),
    )
    .unwrap()
}

fn values(image: &Image) -> Vec<Vec<u8>> {
    (0..image.height())
        .map(|y| (0..image.width()).map(|x| image.pixel(y, x).r).collect())
        .collect()
}

#[test]
fn images_are_made_from_rows() {
    let image = numbered(2, 3);
    assert_eq!(image.height(), 2);
    assert_eq!(image.width(), 3);
    assert_eq!(image.pixel(1, 2), grey(12));
    assert_eq!(values(&image), vec![vec![0, 1, 2], vec![10, 11, 12]]);
    let refused = Some(WfcError::InvalidArgs(ArgsFault::ImageTooSmall));
    assert_eq!(Image::new(vec![]).err(), refused);
    assert_eq!(Image::new(vec![vec![]]).err(), refused);
    assert_eq!(Image::new(vec![vec![grey(1)], vec![]]).err(), refused);
}

#[test]
fn filled_images_hold_one_pixel() {
    let pixel = Pixel { r: 1, g: 2, b: 3, a: 4 };
    let image = Image::filled(2, 2, pixel);
    for y in 0..2 {
        for x in 0..2 {
            assert_eq!(image.pixel(y, x), pixel);
        }
    }
}

#[test]
fn parts_and_interiors_are_cut_out() {
    let image = numbered(4, 5);
    assert_eq!(values(&image.extract((1, 2), (2, 3))), vec![vec![12, 13, 14], vec![22, 23, 24]]);
    assert_eq!(values(&image.interior(1)), vec![vec![11, 12, 13], vec![21, 22, 23]]);
    assert_eq!(values(&image.duplicate()), values(&image));
}

#[test]
fn images_are_compared_pixel_by_pixel() {
    let image = numbered(3, 3);
    assert!(image.same_pixels(&numbered(3, 3)));
    assert!(!image.same_pixels(&numbered(3, 4)));
    assert!(!image.same_pixels(&numbered(4, 3)));
    let mut rows: Vec<Vec<Pixel>> =
        (0..3).map(|y| (0..3).map(|x| grey((10 * y + x) as u8)).collect()).collect();
    rows[2][1].a = 254;
    assert!(!image.same_pixels(&Image::new(rows).unwrap()));
    assert!(image.part_equals((0, 0), &numbered(5, 5), (0, 0), (3, 3)));
    assert!(!image.part_equals((0, 0), &numbered(5, 5), (1, 0), (3, 3)));
    assert!(image.part_equals((0, 0), &numbered(5, 5), (5, 5), (0, 0)));
}

#[test]
fn borders_meet_where_the_strips_agree() {
    // Two squares cut side by side from one image share what lies between.
    let sheet = numbered(3, 5);
    let left = sheet.extract((0, 0), (3, 3));
    let right = sheet.extract((0, 2), (3, 3));
    assert!(left.border_meets(Direction::East, 1, &right));
    assert!(right.border_meets(Direction::West, 1, &left));
    assert!(!right.border_meets(Direction::East, 1, &left));
    assert!(!left.border_meets(Direction::East, 2, &right));
    let sheet = numbered(5, 3);
    let top = sheet.extract((0, 0), (3, 3));
    let bottom = sheet.extract((2, 0), (3, 3));
    assert!(bottom.border_meets(Direction::North, 1, &top));
    assert!(top.border_meets(Direction::South, 1, &bottom));
    assert!(!top.border_meets(Direction::North, 1, &bottom));
}

#[test]
fn bytes_go_out_and_come_back() {
    let image = Image::new(vec![vec![
        Pixel { r: 1, g: 2, b: 3, a: 4 },
        Pixel { r: 5, g: 6, b: 7, a: 8 },
    ]])
    .unwrap();
    let bytes = image.to_bytes();
    assert_eq!(bytes, vec![1, 2, 3, 4, 5, 6, 7, 8]);
    assert!(Image::from_bytes(1, 2, &bytes).same_pixels(&image));
    let column = Image::from_bytes(2, 1, &bytes);
    assert_eq!(column.pixel(1, 0), Pixel { r: 5, g: 6, b: 7, a: 8 });
}

#[test]
fn transformations_turn_and_flip() {
    let image = numbered(2, 2);
    let turned = |t| values(&image.transform(t));
    assert_eq!(turned(Transformation::Identity), vec![vec![0, 1], vec![10, 11]]);
    assert_eq!(turned(Transformation::Rotate90), vec![vec![10, 0], vec![11, 1]]);
    assert_eq!(turned(Transformation::Rotate180), vec![vec![11, 10], vec![1, 0]]);
    assert_eq!(turned(Transformation::Rotate270), vec![vec![1, 11], vec![0, 10]]);
    assert_eq!(turned(Transformation::FlipHorizontal), vec![vec![1, 0], vec![11, 10]]);
    assert_eq!(turned(Transformation::FlipVertical), vec![vec![10, 11], vec![0, 1]]);
    assert_eq!(turned(Transformation::FlipDiagonal), vec![vec![0, 10], vec![1, 11]]);
    assert_eq!(turned(Transformation::FlipAntiDiagonal), vec![vec![11, 1], vec![10, 0]]);
}

#[test]
fn transformations_of_oblong_images_change_their_shape() {
    let image = numbered(2, 3);
    let turned = image.transform(Transformation::Rotate90);
    assert_eq!((turned.height(), turned.width()), (3, 2));
    assert_eq!(values(&turned), vec![vec![10, 0], vec![11, 1], vec![12, 2]]);
    let flipped = image.transform(Transformation::FlipHorizontal);
    assert_eq!((flipped.height(), flipped.width()), (2, 3));
    assert_eq!(values(&flipped), vec![vec![2, 1, 0], vec![12, 11, 10]]);
    let transposed = image.transform(Transformation::FlipDiagonal);
    assert_eq!(values(&transposed), vec![vec![0, 10], vec![1, 11], vec![2, 12]]);
}

#[test]
fn there_are_eight_transformations() {
    let all = all_transformations();
    assert_eq!(all.len(), 8);
    assert_eq!(all[0], Transformation::Identity);
    for (i, a) in all.iter().enumerate() {
        for b in &all[i + 1..] {
            assert_ne!(a, b);
        }
    }
}

#[test]
fn images_are_set_side_by_side() {
    let sheet = numbered(4, 6);
    let tiles: Vec<Vec<Image>> = (0..2)
        .map(|r| (0..3).map(|c| sheet.extract((2 * r, 2 * c), (2, 2))).collect())
        .collect();
    let whole = Image::from_tiles(&tiles).unwrap();
    assert!(whole.same_pixels(&sheet));
    let mismatch = Some(WfcError::InvalidArgs(ArgsFault::DimensionMismatch));
    assert_eq!(Image::from_tiles(&vec![]).err(), mismatch);
    assert_eq!(Image::from_tiles(&vec![vec![]]).err(), mismatch);
    assert_eq!(
        Image::from_tiles(&vec![vec![numbered(2, 2)], vec![numbered(2, 2), numbered(2, 2)]]).err(),
        mismatch
    );
    assert_eq!(
        Image::from_tiles(&vec![vec![numbered(2, 2), numbered(2, 3)]]).err(),
        mismatch
    );
}
