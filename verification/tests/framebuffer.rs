use raycaster::framebuffer::{Framebuffer, Image};

fn fb_image(width: u32, height: u32, pixels: &[[u8; 4]]) -> Image {
    let mut data: Vec<u8> = Vec::new();
    for pixel in pixels {
        data.extend_from_slice(pixel);
    }
    Image { width, height, data }
}

#[test]
fn new_surface_is_black_and_draws_in_white() {
    let fb = Framebuffer::new(4, 3);
    assert_eq!(fb.width, 4);
    assert_eq!(fb.height, 3);
    assert_eq!(fb.buffer, vec![0u32; 12]);
    assert_eq!(fb.background_color, 0x000000);
    assert_eq!(fb.current_color, 0xFFFFFF);
    assert!(fb.background_image.is_none());
    assert!(fb.wall_texture.is_none());
}

#[test]
fn new_surface_may_be_empty() {
    let fb = Framebuffer::new(0, 7);
    assert_eq!(fb.buffer.len(), 0);
    let mut other = Framebuffer::new(7, 0);
    other.point(0, 0);
    other.clear();
    other.fill_rect(0, 0, 10, 10);
    assert_eq!(other.buffer.len(), 0);
}

#[test]
fn point_sets_one_pixel_in_the_drawing_colour() {
    let mut fb = Framebuffer::new(4, 3);
    fb.point(1, 2);
    let mut expected = vec![0u32; 12];
    expected[2 * 4 + 1] = 0xFFFFFF;
    assert_eq!(fb.buffer, expected);
    fb.set_current_color(0x123456);
    fb.point(3, 0);
    expected[3] = 0x123456;
    assert_eq!(fb.buffer, expected);
    assert_eq!(fb.current_color, 0x123456);
}

#[test]
fn point_outside_the_surface_does_nothing() {
    let mut fb = Framebuffer::new(4, 3);
    fb.point(4, 0);
    fb.point(0, 3);
    fb.point(usize::MAX, usize::MAX);
    fb.point(5, 1);
    assert_eq!(fb.buffer, vec![0u32; 12]);
}

#[test]
fn clear_fills_with_the_background_colour() {
    let mut fb = Framebuffer::new(3, 2);
    fb.point(1, 1);
    fb.set_background_color(0x336699);
    assert_eq!(fb.background_color, 0x336699);
    fb.clear();
    assert_eq!(fb.buffer, vec![0x336699u32; 6]);
    assert_eq!(fb.current_color, 0xFFFFFF);
    assert_eq!(fb.width, 3);
    assert_eq!(fb.height, 2);
}

#[test]
fn clear_fills_with_the_background_image() {
    let mut fb = Framebuffer::new(2, 2);
    let image = fb_image(
        2,
        2,
        &[[1, 2, 3, 255], [0x10, 0x20, 0x30, 0], [255, 255, 255, 9], [0, 0, 0, 0]],
    );
    fb.set_background_image(&image);
    fb.set_background_color(0x777777);
    fb.clear();
    assert_eq!(fb.buffer, vec![0x010203, 0x102030, 0xFFFFFF, 0x000000]);
}

#[test]
fn background_image_is_resampled_to_the_surface() {
    let mut fb = Framebuffer::new(4, 4);
    let image = fb_image(
        2,
        2,
        &[[255, 0, 0, 255], [0, 255, 0, 255], [0, 0, 255, 255], [9, 8, 7, 255]],
    );
    fb.set_background_image(&image);
    let background = fb.background_image.clone().unwrap();
    assert_eq!(background.width, 4);
    assert_eq!(background.height, 4);
    assert_eq!(background.data.len(), 64);
    fb.clear();
    let r: u32 = 0xFF0000;
    let g: u32 = 0x00FF00;
    let b: u32 = 0x0000FF;
    let o: u32 = 0x090807;
    assert_eq!(fb.buffer, vec![r, r, g, g, r, r, g, g, b, b, o, o, b, b, o, o]);
}

#[test]
fn background_image_is_shrunk_to_the_surface() {
    let mut fb = Framebuffer::new(1, 1);
    let image = fb_image(1, 3, &[[1, 1, 1, 255], [2, 2, 2, 255], [3, 3, 3, 255]]);
    fb.set_background_image(&image);
    let background = fb.background_image.clone().unwrap();
    assert_eq!((background.width, background.height), (1, 1));
    assert_eq!(background.data, vec![2, 2, 2, 255]);
}

#[test]
fn background_image_that_is_malformed_is_not_taken() {
    let mut fb = Framebuffer::new(2, 2);
    let short = Image { width: 2, height: 2, data: vec![0u8; 15] };
    assert!(!short.is_well_formed());
    fb.set_background_image(&short);
    assert!(fb.background_image.is_none());
    let long = Image { width: 2, height: 2, data: vec![0u8; 17] };
    fb.set_background_image(&long);
    assert!(fb.background_image.is_none());
    let good = Image { width: 2, height: 2, data: vec![7u8; 16] };
    assert!(good.is_well_formed());
    fb.set_background_image(&good);
    assert_eq!(fb.background_image.clone().unwrap().data, vec![7u8; 16]);
    // A later failure keeps the image that is there.
    fb.set_background_image(&short);
    assert_eq!(fb.background_image.clone().unwrap().data, vec![7u8; 16]);
    let huge = Image { width: u32::MAX, height: u32::MAX, data: Vec::new() };
    assert!(!huge.is_well_formed());
    fb.set_background_image(&huge);
    assert_eq!(fb.background_image.clone().unwrap().data, vec![7u8; 16]);
}

#[test]
fn background_image_without_pixels_gives_a_blank_background() {
    let mut fb = Framebuffer::new(2, 1);
    let empty = Image { width: 0, height: 0, data: Vec::new() };
    fb.set_background_image(&empty);
    fb.set_background_color(0xABCDEF);
    fb.point(0, 0);
    fb.clear();
    assert_eq!(fb.buffer, vec![0u32, 0u32]);
}

#[test]
fn wall_texture_is_kept() {
    let mut fb = Framebuffer::new(2, 2);
    let image = fb_image(1, 1, &[[5, 6, 7, 8]]);
    fb.set_wall_texture(image.clone());
    let kept = fb.wall_texture.clone().unwrap();
    assert_eq!((kept.width, kept.height), (1, 1));
    assert_eq!(kept.data, vec![5, 6, 7, 8]);
    assert!(fb.background_image.is_none());
    assert_eq!(fb.buffer, vec![0u32; 4]);
}

#[test]
fn fill_rect_covers_the_half_open_rectangle() {
    let mut fb = Framebuffer::new(5, 4);
    fb.set_current_color(9);
    fb.fill_rect(1, 1, 4, 3);
    let expected: Vec<u32> = vec![
        0, 0, 0, 0, 0,
        0, 9, 9, 9, 0,
        0, 9, 9, 9, 0,
        0, 0, 0, 0, 0,
    ];
    assert_eq!(fb.buffer, expected);
}

#[test]
fn fill_rect_is_cut_off_at_the_edges() {
    let mut fb = Framebuffer::new(3, 3);
    fb.set_current_color(1);
    fb.fill_rect(2, 1, 10, usize::MAX);
    assert_eq!(fb.buffer, vec![0, 0, 0, 0, 0, 1, 0, 0, 1]);
    fb.fill_rect(3, 0, 10, 10);
    fb.fill_rect(0, 3, 10, 10);
    fb.fill_rect(2, 2, 2, 3);
    fb.fill_rect(2, 2, 1, 3);
    fb.fill_rect(0, 2, 3, 1);
    assert_eq!(fb.buffer, vec![0, 0, 0, 0, 0, 1, 0, 0, 1]);
    fb.set_current_color(2);
    fb.fill_rect(0, 0, usize::MAX, usize::MAX);
    assert_eq!(fb.buffer, vec![2u32; 9]);
}
