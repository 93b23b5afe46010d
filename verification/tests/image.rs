use hilbert_grid::error::Error;
use hilbert_grid::image::{resave, Color, Image};
use hilbert_grid::pos::Pos2;

const BLACK: Color = Color { r: 0, g: 0, b: 0 };

fn rgb(r: u8, g: u8, b: u8) -> Color {
    Color { r, g, b }
}

fn parse(values: &[u8], width: usize, fill: Color, trim_start: usize, trim_end: usize) -> Image {
    match Image::parse(values, width, fill, trim_start, trim_end) {
        Ok(image) => image,
        Err(e) => panic!("parse failed: {:?}", e),
    }
}

/// A grid of the given side whose pixel number `i` has red channel `i`.
fn numbered(side: usize) -> Image {
    let mut bytes = Vec::new();
    for i in 0..side * side {
        bytes.push(i as u8);
        bytes.push(0);
        bytes.push(0);
    }
    parse(&bytes, side, BLACK, 0, 0)
}

fn reds(image: &Image) -> Vec<u8> {
    image.data().iter().map(|c| c.r).collect()
}

#[test]
fn ceiling_sizing() {
    let bytes = vec![7u8; 30];
    let image = parse(&bytes, 4, BLACK, 0, 0);
    assert_eq!(image.width(), 4);
    assert_eq!(image.height(), 3);
    assert_eq!(image.data().len(), 12);
    for i in 0..10 {
        assert_eq!(image.data()[i], rgb(7, 7, 7));
    }
    assert_eq!(image.data()[10], BLACK);
    assert_eq!(image.data()[11], BLACK);
}

#[test]
fn exact_rows_need_no_padding() {
    let bytes = vec![1u8; 24];
    let image = parse(&bytes, 4, rgb(9, 9, 9), 0, 0);
    assert_eq!(image.height(), 2);
    assert_eq!(image.data().len(), 8);
    assert!(image.data().iter().all(|c| *c == rgb(1, 1, 1)));
}

#[test]
fn short_final_chunk_of_one_byte() {
    let fill = rgb(10, 20, 30);
    let image = parse(&[1, 2, 3, 99], 2, fill, 0, 0);
    assert_eq!(image.data().len(), 2);
    assert_eq!(image.data()[0], rgb(1, 2, 3));
    assert_eq!(image.data()[1], rgb(99, 20, 30));
}

#[test]
fn short_final_chunk_of_two_bytes() {
    let fill = rgb(10, 20, 30);
    let image = parse(&[1, 2, 3, 98, 99], 1, fill, 0, 0);
    assert_eq!(image.width(), 1);
    assert_eq!(image.height(), 2);
    assert_eq!(image.data()[1], rgb(98, 99, 30));
}

#[test]
fn padding_uses_the_fill_color() {
    let fill = rgb(10, 20, 30);
    let image = parse(&[1, 2, 3, 4], 3, fill, 0, 0);
    assert_eq!(image.height(), 1);
    assert_eq!(image.data().as_slice(), &[rgb(1, 2, 3), rgb(4, 20, 30), fill]);
}

#[test]
fn empty_input_gives_an_empty_grid() {
    let image = parse(&[], 4, BLACK, 0, 0);
    assert_eq!(image.width(), 4);
    assert_eq!(image.height(), 0);
    assert!(image.data().is_empty());
    assert!(image.save().is_empty());
}

#[test]
fn width_beyond_the_pixels_gives_one_row() {
    let image = parse(&[1, 2, 3, 4, 5, 6], 5, rgb(8, 8, 8), 0, 0);
    assert_eq!(image.height(), 1);
    assert_eq!(image.data().len(), 5);
    assert_eq!(image.data()[1], rgb(4, 5, 6));
    assert_eq!(image.data()[4], rgb(8, 8, 8));
}

#[test]
fn trims_both_ends() {
    let bytes: Vec<u8> = (0..10).collect();
    let image = parse(&bytes, 2, BLACK, 2, 1);
    // bytes 2..9 are kept: 2 3 4 | 5 6 7 | 8
    assert_eq!(image.height(), 2);
    assert_eq!(image.data().as_slice(), &[rgb(2, 3, 4), rgb(5, 6, 7), rgb(8, 0, 0), BLACK]);
}

#[test]
fn trims_may_meet() {
    let bytes = vec![5u8; 10];
    let image = parse(&bytes, 3, BLACK, 4, 6);
    assert_eq!(image.height(), 0);
    assert!(image.data().is_empty());
}

#[test]
fn trim_bounds() {
    let bytes = vec![5u8; 10];
    assert_eq!(Image::parse(&bytes, 3, BLACK, 6, 5).err(), Some(Error::InvalidRange));
    assert_eq!(Image::parse(&bytes, 3, BLACK, 11, 0).err(), Some(Error::InvalidRange));
    assert_eq!(Image::parse(&bytes, 3, BLACK, 0, 11).err(), Some(Error::InvalidRange));
    assert_eq!(Image::parse(&[], 3, BLACK, 1, 0).err(), Some(Error::InvalidRange));
}

#[test]
fn trim_bounds_do_not_overflow() {
    let bytes = vec![5u8; 10];
    assert_eq!(
        Image::parse(&bytes, 3, BLACK, usize::MAX, usize::MAX).err(),
        Some(Error::InvalidRange)
    );
    assert_eq!(Image::parse(&bytes, 3, BLACK, 1, usize::MAX).err(), Some(Error::InvalidRange));
}

#[test]
fn sixteen_bytes_on_width_two() {
    let bytes: Vec<u8> = (1..=16).collect();
    let mut image = parse(&bytes, 2, BLACK, 0, 0);
    assert_eq!(image.width(), 2);
    assert_eq!(image.height(), 3);
    assert_eq!(image.data().len(), 6);
    assert_eq!(image.data()[4], rgb(13, 14, 15));
    assert_eq!(image.data()[5], rgb(16, 0, 0));
    let before = image.data().clone();
    assert_eq!(image.hilbertify(), Err(Error::InvalidDimensions));
    assert_eq!(*image.data(), before);
    assert_eq!(image.unhilbertify(), Err(Error::InvalidDimensions));
    assert_eq!(*image.data(), before);
    assert_eq!(resave(image).err(), Some(Error::InvalidDimensions));
}

#[test]
fn square_of_side_three_is_rejected() {
    let bytes = vec![1u8; 27];
    let mut image = parse(&bytes, 3, BLACK, 0, 0);
    assert_eq!(image.height(), 3);
    assert_eq!(image.hilbertify(), Err(Error::InvalidDimensions));
    assert_eq!(image.unhilbertify(), Err(Error::InvalidDimensions));
}

#[test]
fn empty_grid_is_rejected_by_the_curve() {
    let mut image = parse(&[], 2, BLACK, 0, 0);
    assert_eq!(image.hilbertify(), Err(Error::InvalidDimensions));
}

#[test]
fn save_flattens_in_order() {
    let image = parse(&[1, 2, 3, 4], 3, rgb(10, 20, 30), 0, 0);
    assert_eq!(image.save(), vec![1, 2, 3, 4, 20, 30, 10, 20, 30]);
}

#[test]
fn save_gives_back_whole_pixels() {
    let bytes: Vec<u8> = (0..48).collect();
    let image = parse(&bytes, 4, BLACK, 0, 0);
    assert_eq!(image.save(), bytes);
}

#[test]
fn hilbertify_two_by_two() {
    let mut image = numbered(2);
    assert_eq!(image.hilbertify(), Ok(()));
    assert_eq!(reds(&image), vec![0, 2, 3, 1]);
    assert_eq!(image.width(), 2);
    assert_eq!(image.height(), 2);
}

#[test]
fn unhilbertify_two_by_two() {
    let mut image = numbered(2);
    assert_eq!(image.unhilbertify(), Ok(()));
    assert_eq!(reds(&image), vec![0, 3, 1, 2]);
}

#[test]
fn hilbertify_four_by_four() {
    let mut image = numbered(4);
    assert_eq!(image.hilbertify(), Ok(()));
    assert_eq!(reds(&image), vec![0, 1, 5, 4, 8, 12, 13, 9, 10, 14, 15, 11, 7, 6, 2, 3]);
}

#[test]
fn unhilbertify_four_by_four() {
    let mut image = numbered(4);
    assert_eq!(image.unhilbertify(), Ok(()));
    assert_eq!(reds(&image), vec![0, 1, 14, 15, 3, 2, 13, 12, 4, 7, 8, 11, 5, 6, 9, 10]);
}

#[test]
fn one_by_one_stays() {
    let mut image = parse(&[4, 5, 6], 1, BLACK, 0, 0);
    assert_eq!(image.hilbertify(), Ok(()));
    assert_eq!(image.data().as_slice(), &[rgb(4, 5, 6)]);
    assert_eq!(image.unhilbertify(), Ok(()));
    assert_eq!(image.data().as_slice(), &[rgb(4, 5, 6)]);
}

#[test]
fn grid_round_trip() {
    for side in [1usize, 2, 4, 8, 16] {
        let mut image = numbered(side);
        let before = image.data().clone();
        assert_eq!(image.hilbertify(), Ok(()));
        assert_eq!(image.unhilbertify(), Ok(()));
        assert_eq!(*image.data(), before, "side {}", side);
    }
}

#[test]
fn grid_round_trip_the_other_way() {
    for side in [1usize, 2, 4, 8, 16] {
        let mut image = numbered(side);
        let before = image.data().clone();
        assert_eq!(image.unhilbertify(), Ok(()));
        assert_eq!(image.hilbertify(), Ok(()));
        assert_eq!(*image.data(), before, "side {}", side);
    }
}

#[test]
fn hilbertify_keeps_every_pixel() {
    let mut image = numbered(8);
    assert_eq!(image.hilbertify(), Ok(()));
    let mut seen = reds(&image);
    seen.sort();
    let all: Vec<u8> = (0..64).collect();
    assert_eq!(seen, all);
}

#[test]
fn resave_is_hilbertify_then_save() {
    let bytes: Vec<u8> = (0..12).collect();
    let image = parse(&bytes, 2, BLACK, 0, 0);
    // pixels 0 1 2 3 go to positions 0 3 1 2
    assert_eq!(resave(image), Ok(vec![0, 1, 2, 6, 7, 8, 9, 10, 11, 3, 4, 5]));
}

#[test]
fn remap_positions_reverses() {
    let mut image = numbered(2);
    image.remap_positions(|i| 3 - i);
    assert_eq!(reds(&image), vec![3, 2, 1, 0]);
}

#[test]
fn remap_positions_later_pixel_wins() {
    let mut image = numbered(2);
    image.remap_positions(|i| i / 2);
    // 0 and 1 go to position 0, 2 and 3 to position 1; positions 2 and 3 keep theirs
    assert_eq!(reds(&image), vec![1, 3, 2, 3]);
}

#[test]
fn remap_positions_reads_the_old_grid() {
    let mut image = numbered(2);
    image.remap_positions(|i| (i + 1) % 4);
    assert_eq!(reds(&image), vec![3, 0, 1, 2]);
}

#[test]
fn index_and_position() {
    assert_eq!(Image::to_index_assoc(4, Pos2 { x: 3, y: 2 }), 11);
    assert_eq!(Image::index_to_pos_assoc(4, 11), Pos2 { x: 3, y: 2 });
    assert_eq!(Image::index_to_pos_assoc(4, 0), Pos2 { x: 0, y: 0 });
    assert_eq!(Image::index_to_pos_assoc(1, 5), Pos2 { x: 0, y: 5 });
    let image = numbered(4);
    assert_eq!(image.to_index(Pos2 { x: 1, y: 3 }), 13);
    for i in 0..16 {
        assert_eq!(image.to_index(Image::index_to_pos_assoc(4, i)), i);
    }
}

#[test]
fn get_checks_bounds() {
    let image = parse(&[1, 2, 3, 4, 5, 6, 7, 8, 9], 2, rgb(0, 1, 2), 0, 0);
    assert_eq!(image.get(0, 0), Some(rgb(1, 2, 3)));
    assert_eq!(image.get(1, 0), Some(rgb(4, 5, 6)));
    assert_eq!(image.get(0, 1), Some(rgb(7, 8, 9)));
    assert_eq!(image.get(1, 1), Some(rgb(0, 1, 2)));
    assert_eq!(image.get(2, 0), None);
    assert_eq!(image.get(0, 2), None);
    assert_eq!(image.get(usize::MAX, usize::MAX), None);
}

#[test]
fn set_checks_bounds() {
    let mut image = numbered(2);
    assert!(image.set(1, 1, rgb(50, 60, 70)));
    assert_eq!(image.get(1, 1), Some(rgb(50, 60, 70)));
    assert_eq!(reds(&image), vec![0, 1, 2, 50]);
    assert!(!image.set(2, 0, rgb(1, 1, 1)));
    assert!(!image.set(0, 2, rgb(1, 1, 1)));
    assert_eq!(reds(&image), vec![0, 1, 2, 50]);
}
