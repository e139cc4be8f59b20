use mhf_runtime::texture::{Bgra, Texture};

#[test]
fn converts_premultiplied_rgba_to_d3d_bgra() {
    let pixel = Bgra::from_rgba(10, 20, 30, 40);
    assert_eq!([pixel.blue, pixel.green, pixel.red, pixel.alpha], [30, 20, 10, 40]);
}

#[test]
fn patches_texture_rows_without_touching_neighbors() {
    let black = Bgra::from_rgba(0, 0, 0, 255);
    let white = Bgra::from_rgba(255, 255, 255, 255);
    let mut texture = Texture::filled(3, 2, black);
    texture.uploaded = true;
    texture.patch(1, 0, 1, 2, &[white, white]).unwrap();
    assert_eq!(texture.pixels[0].red, 0);
    assert_eq!(texture.pixels[1].red, 255);
    assert_eq!(texture.pixels[4].red, 255);
    assert_eq!(texture.pixels[5].red, 0);
    assert!(!texture.uploaded);
}

#[test]
fn refused_patches_leave_the_texture_unchanged() {
    let black = Bgra::from_rgba(0, 0, 0, 255);
    let white = Bgra::from_rgba(255, 255, 255, 255);
    let mut texture = Texture::filled(3, 2, black);
    texture.uploaded = true;
    assert_eq!(
        texture.patch(2, 1, 2, 1, &[white, white]).unwrap_err(),
        "egui texture patch [2, 1]..[4, 2] exceeds 3x2 texture"
    );
    assert_eq!(texture.patch(0, 0, 2, 1, &[white]).unwrap_err(), "egui texture patch has an invalid pixel count");
    assert_eq!(texture.patch(usize::MAX, 0, 1, 1, &[white]).unwrap_err(), "egui texture patch overflows horizontally");
    assert_eq!(texture.patch(0, usize::MAX, 1, 1, &[white]).unwrap_err(), "egui texture patch overflows vertically");
    assert!(texture.pixels.iter().all(|pixel| *pixel == black));
    assert!(texture.uploaded);
    texture.patch(0, 0, 3, 2, &[white; 6]).unwrap();
    assert!(texture.pixels.iter().all(|pixel| *pixel == white));
}
