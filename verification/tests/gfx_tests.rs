//! The software framebuffer.

use dungeon_core::gfx::Framebuffer;
use dungeon_core::gfx::c_imul;
use dungeon_core::gfx::shade;

#[test]
fn a_new_framebuffer_is_black_and_transparent() {
    let fb = Framebuffer::new(4, 3);
    assert_eq!(fb.width, 4);
    assert_eq!(fb.height, 3);
    assert_eq!(fb.buffer.len(), 4 * 3 * 4);
    assert!(fb.buffer.iter().all(|b| *b == 0));
}

#[test]
fn set_pix_writes_exactly_one_pixel() {
    let mut fb = Framebuffer::new(4, 4);
    fb.set_pix(2, 1, [10, 20, 30, 40]);
    let base = ((1 * 4 + 2) * 4) as usize;
    assert_eq!(&fb.buffer[base..base + 4], &[10, 20, 30, 40]);
    let untouched = ((0 * 4 + 0) * 4) as usize;
    assert_eq!(&fb.buffer[untouched..untouched + 4], &[0, 0, 0, 0]);
}

#[test]
fn blend_pix_mixes_by_source_alpha() {
    let mut fb = Framebuffer::new(1, 1);
    fb.set_pix(0, 0, [100, 100, 100, 255]);
    fb.blend_pix(0, 0, [200, 0, 50, 128]);
    // channel = (src * a + dst * (255 - a) + 255) >> 8
    assert_eq!(fb.buffer[0], ((200 * 128 + 100 * 127 + 255) >> 8) as u8);
    assert_eq!(fb.buffer[1], ((0 * 128 + 100 * 127 + 255) >> 8) as u8);
    assert_eq!(fb.buffer[2], ((50 * 128 + 100 * 127 + 255) >> 8) as u8);
    assert_eq!(fb.buffer[3], 255);
}

#[test]
fn hline_fills_one_row_segment() {
    let mut fb = Framebuffer::new(5, 2);
    fb.hline(1, 1, 3, [9, 9, 9, 9]);
    for x in 1..4 {
        let base = ((1 * 5 + x) * 4) as usize;
        assert_eq!(&fb.buffer[base..base + 4], &[9, 9, 9, 9]);
    }
    let before = ((1 * 5 + 0) * 4) as usize;
    assert_eq!(fb.buffer[before], 0);
    let after = ((1 * 5 + 4) * 4) as usize;
    assert_eq!(fb.buffer[after], 0);
}

#[test]
fn fill_box_covers_its_rectangle() {
    let mut fb = Framebuffer::new(4, 4);
    fb.fill_box(1, 1, 2, 2, [7, 8, 9, 10]);
    for y in 1..3 {
        for x in 1..3 {
            let base = ((y * 4 + x) * 4) as usize;
            assert_eq!(&fb.buffer[base..base + 4], &[7, 8, 9, 10]);
        }
    }
    assert_eq!(fb.buffer[0], 0);
}

#[test]
fn vball_paints_the_centre_brightest() {
    let mut fb = Framebuffer::new(8, 8);
    fb.vball(4, 4, 6, [200, 100, 50, 255]);
    let base = ((4 * 8 + 4) * 4) as usize;
    assert_eq!(&fb.buffer[base..base + 4], &[200, 100, 50, 255]);
    let left = ((4 * 8 + 3) * 4) as usize;
    assert_eq!(fb.buffer[left], ((200 * 224) >> 8) as u8);
}

#[test]
fn shade_scales_colour_channels_and_keeps_alpha() {
    assert_eq!(shade([255, 128, 0, 77], 128), [127, 64, 0, 77]);
    assert_eq!(shade([10, 20, 30, 40], 256), [10, 20, 30, 40]);
    assert_eq!(shade([10, 20, 30, 40], 0), [0, 0, 0, 40]);
}

#[test]
fn c_imul_multiplies_channel_fractions() {
    assert_eq!(c_imul(255, 255), 254);
    assert_eq!(c_imul(0, 255), 0);
    assert_eq!(c_imul(128, 128), 64);
}

#[test]
fn fill_circle_paints_the_centre_row_fully() {
    let mut fb = Framebuffer::new(16, 16);
    fb.fill_circle(8, 8, 4, [5, 5, 5, 5]);
    for x in 4..=12 {
        let base = ((8 * 16 + x) * 4) as usize;
        assert_eq!(fb.buffer[base], 5);
    }
    let outside = ((8 * 16 + 2) * 4) as usize;
    assert_eq!(fb.buffer[outside], 0);
}

#[test]
fn sample_region_averages_the_clipped_region() {
    let mut fb = Framebuffer::new(4, 4);
    fb.set_pix(0, 0, [10, 0, 0, 255]);
    fb.set_pix(1, 0, [20, 0, 0, 255]);
    fb.set_pix(0, 1, [30, 0, 0, 255]);
    fb.set_pix(1, 1, [60, 0, 0, 255]);
    let avg = fb.sample_region(0, 0, 2, 2);
    assert_eq!(avg, [30, 0, 0, 255]);
    // a region reaching past the edge is clipped to what exists
    let clipped = fb.sample_region(3, 3, 2, 2);
    assert_eq!(clipped, [0, 0, 0, 0]);
}

#[test]
fn vball_of_size_zero_draws_nothing() {
    let mut fb = Framebuffer::new(8, 8);
    let before = fb.buffer.clone();
    fb.vball(4, 4, 0, [9, 9, 9, 9]);
    assert_eq!(fb.buffer, before);
}

#[test]
fn vball_touches_nothing_beyond_its_reach() {
    let mut fb = Framebuffer::new(8, 8);
    fb.vball(4, 4, 7, [200, 100, 50, 255]);
    // a pixel three columns away stays black
    let far = ((4 * 8 + 1) * 4) as usize;
    assert_eq!(&fb.buffer[far..far + 4], &[0, 0, 0, 0]);
}

#[test]
fn fill_circle_stays_inside_its_bounding_box() {
    let mut fb = Framebuffer::new(16, 16);
    fb.fill_circle(8, 8, 3, [5, 5, 5, 5]);
    // corners outside the box stay black
    let outside = ((8 * 16 + 4) * 4) as usize;
    assert_eq!(fb.buffer[outside], 0);
    let above = ((4 * 16 + 8) * 4) as usize;
    assert_eq!(fb.buffer[above], 0);
}

#[test]
fn hline_and_fill_box_ignore_non_positive_spans() {
    let mut fb = Framebuffer::new(4, 4);
    fb.hline(2, 1, -3, [9, 9, 9, 9]);
    fb.fill_box(1, 1, 0, 2, [9, 9, 9, 9]);
    fb.fill_box(1, 1, 2, -1, [9, 9, 9, 9]);
    assert!(fb.buffer.iter().all(|b| *b == 0));
}
