use raytracer::texture::ImageTexture;

fn two_by_two() -> ImageTexture {
    // row 0: red, green; row 1: blue, white
    let data = vec![255, 0, 0, 0, 255, 0, 0, 0, 255, 255, 255, 255];
    ImageTexture::new(data, 2, 2).expect("three bytes per pixel")
}

#[test]
fn new_accepts_matching_data() {
    let t = two_by_two();
    assert_eq!(t.width, 2);
    assert_eq!(t.height, 2);
    assert_eq!(t.data.len(), 12);
}

#[test]
fn new_rejects_wrong_length() {
    assert!(ImageTexture::new(vec![0; 11], 2, 2).is_none());
    assert!(ImageTexture::new(vec![0; 3], 0, 1).is_none());
}

#[test]
fn new_rejects_overflowing_size() {
    assert!(ImageTexture::new(vec![0; 3], usize::MAX, 2).is_none());
}

#[test]
fn texel_reads_rows_and_columns() {
    let t = two_by_two();
    assert_eq!(t.texel(0, 0), Some((255, 0, 0)));
    assert_eq!(t.texel(1, 0), Some((0, 255, 0)));
    assert_eq!(t.texel(0, 1), Some((0, 0, 255)));
    assert_eq!(t.texel(1, 1), Some((255, 255, 255)));
}

#[test]
fn texel_clamps_to_last_row_and_column() {
    let t = two_by_two();
    assert_eq!(t.texel(5, 0), Some((0, 255, 0)));
    assert_eq!(t.texel(0, 9), Some((0, 0, 255)));
    assert_eq!(t.texel(usize::MAX, usize::MAX), Some((255, 255, 255)));
}

#[test]
fn texel_of_empty_image_is_none() {
    let t = ImageTexture::new(Vec::new(), 0, 0).unwrap();
    assert_eq!(t.texel(0, 0), None);
}

#[test]
fn texel_of_empty_data_with_dimensions_is_none() {
    let t = ImageTexture { data: Vec::new(), width: 4, height: 3 };
    assert_eq!(t.texel(1, 1), None);
}
