use bootmem::font::Font;
use bootmem::graphics::{FrameBuffer, COLOR_BLUE, COLOR_GREEN, COLOR_RED, COLOR_WHITE};
use bootmem::ui::home;

const BG: u32 = 0x123456;
const INK: u32 = 0xABCDEF;

fn at(fb: &FrameBuffer, x: usize, y: usize) -> u32 {
    fb.vram[y * fb.width + x]
}

fn count(fb: &FrameBuffer, color: u32) -> usize {
    fb.vram.iter().filter(|p| **p == color).count()
}

#[test]
fn draw_pixel_paints_visible_pixels_only() {
    let mut vram = vec![BG; 12];
    let mut fb = FrameBuffer::new(&mut vram, 4, 3);
    fb.draw_pixel(1, 2, INK);
    fb.draw_pixel(4, 0, INK);
    fb.draw_pixel(0, 3, INK);
    assert_eq!(at(&fb, 1, 2), INK);
    assert_eq!(count(&fb, INK), 1);
}

#[test]
fn clear_paints_every_pixel() {
    let mut vram = vec![BG; 10];
    let mut fb = FrameBuffer::new(&mut vram, 3, 3);
    fb.clear(INK);
    assert_eq!(count(&fb, INK), 10);
}

#[test]
fn fill_rect_is_clipped_to_the_screen() {
    let mut vram = vec![BG; 20];
    let mut fb = FrameBuffer::new(&mut vram, 5, 4);
    fb.fill_rect(3, 2, 10, usize::MAX, INK);
    assert_eq!(count(&fb, INK), 4);
    assert_eq!(at(&fb, 3, 2), INK);
    assert_eq!(at(&fb, 4, 3), INK);
    assert_eq!(at(&fb, 2, 2), BG);
}

#[test]
fn stroke_rect_paints_the_outline_only() {
    let mut vram = vec![BG; 36];
    let mut fb = FrameBuffer::new(&mut vram, 6, 6);
    fb.stroke_rect(1, 1, 4, 3, INK);
    assert_eq!(count(&fb, INK), 10);
    assert_eq!(at(&fb, 1, 1), INK);
    assert_eq!(at(&fb, 4, 3), INK);
    assert_eq!(at(&fb, 2, 2), BG);
    assert_eq!(at(&fb, 3, 2), BG);
    fb.stroke_rect(0, 0, 0, 5, COLOR_RED);
    assert_eq!(count(&fb, COLOR_RED), 0);
}

#[test]
fn draw_line_joins_its_end_points() {
    let mut vram = vec![BG; 64];
    let mut fb = FrameBuffer::new(&mut vram, 8, 8);
    fb.draw_line(0, 0, 7, 3, INK);
    assert_eq!(at(&fb, 0, 0), INK);
    assert_eq!(at(&fb, 7, 3), INK);
    assert_eq!(count(&fb, INK), 8);
    fb.draw_line(2, 7, 2, 4, COLOR_RED);
    assert_eq!(count(&fb, COLOR_RED), 4);
    fb.draw_line(-5, 1, 1, 1, COLOR_GREEN);
    assert_eq!(at(&fb, 0, 1), COLOR_GREEN);
    assert_eq!(at(&fb, 1, 1), COLOR_GREEN);
}

#[test]
fn fill_circle_covers_a_symmetric_disc() {
    let mut vram = vec![BG; 121];
    let mut fb = FrameBuffer::new(&mut vram, 11, 11);
    fb.fill_circle(5, 5, 3, INK);
    assert_eq!(at(&fb, 5, 5), INK);
    assert_eq!(at(&fb, 8, 5), INK);
    assert_eq!(at(&fb, 5, 2), INK);
    assert_eq!(at(&fb, 9, 5), BG);
    assert_eq!(at(&fb, 8, 8), BG);
    for y in 0..11 {
        for x in 0..11 {
            assert_eq!(at(&fb, x, y), at(&fb, 10 - x, y));
            assert_eq!(at(&fb, x, y), at(&fb, y, x));
        }
    }
    fb.fill_circle(5, 5, 0, COLOR_RED);
    assert_eq!(count(&fb, COLOR_RED), 0);
}

fn test_font() -> Font {
    Font {
        glyphs: vec![
            ('A', [0x80, 0, 0, 0, 0, 0, 0, 0x01]),
            ('B', [0xFF, 0, 0, 0, 0, 0, 0, 0]),
            ('A', [0xFF; 8]),
        ],
    }
}

#[test]
fn draw_char_uses_the_first_glyph_of_the_font() {
    let font = test_font();
    assert_eq!(font.glyph('A'), Some([0x80, 0, 0, 0, 0, 0, 0, 0x01]));
    assert_eq!(font.glyph('Z'), None);
    let mut vram = vec![BG; 100];
    let mut fb = FrameBuffer::new(&mut vram, 10, 10);
    fb.draw_char(&font, 1, 1, 'A', INK);
    assert_eq!(count(&fb, INK), 2);
    assert_eq!(at(&fb, 1, 1), INK);
    assert_eq!(at(&fb, 8, 8), INK);
    fb.draw_char(&font, 0, 0, 'Z', COLOR_RED);
    assert_eq!(count(&fb, COLOR_RED), 0);
}

#[test]
fn draw_text_advances_ten_pixels_per_character() {
    let font = test_font();
    let mut vram = vec![BG; 30 * 10];
    let mut fb = FrameBuffer::new(&mut vram, 30, 10);
    fb.draw_text(&font, 0, 0, "BB?B", INK);
    assert_eq!(count(&fb, INK), 16);
    assert_eq!(at(&fb, 0, 0), INK);
    assert_eq!(at(&fb, 7, 0), INK);
    assert_eq!(at(&fb, 8, 0), BG);
    assert_eq!(at(&fb, 10, 0), INK);
    assert_eq!(at(&fb, 29, 0), BG);
}

#[test]
fn home_screen_uses_four_colours() {
    let font = Font { glyphs: vec![('H', [0xFF; 8]), ('!', [0x18; 8])] };
    let mut vram = vec![0u32; 200 * 150];
    let mut fb = FrameBuffer::new(&mut vram, 200, 150);
    home(&mut fb, &font);
    assert!(fb.vram.iter().all(|p| [COLOR_BLUE, COLOR_WHITE, COLOR_RED, COLOR_GREEN].contains(p)));
    assert_eq!(at(&fb, 0, 0), COLOR_BLUE);
    assert_eq!(at(&fb, 20, 20), COLOR_RED);
    assert_eq!(at(&fb, 99, 69), COLOR_RED);
    assert_eq!(at(&fb, 60, 30), COLOR_GREEN);
    assert_eq!(at(&fb, 100, 112), COLOR_GREEN);
    // The 'H' of the greeting stands at ((200 - 128) / 2, 150 / 2 - 4).
    assert_eq!(at(&fb, 36, 71), COLOR_WHITE);
}

#[test]
fn format_hex_writes_upper_case_digits() {
    assert_eq!(bootmem::graphics::format_hex(0), b"0x0".to_vec());
    assert_eq!(bootmem::graphics::format_hex(0x1A2B), b"0x1A2B".to_vec());
    assert_eq!(bootmem::graphics::format_hex(10), b"0xA".to_vec());
    assert_eq!(bootmem::graphics::format_hex(usize::MAX), format!("{:#X}", usize::MAX).replace("0X", "0x").into_bytes());
}

#[test]
fn draw_hex_draws_one_glyph_per_character() {
    let font = Font { glyphs: vec![('0', [0x80, 0, 0, 0, 0, 0, 0, 0]), ('F', [0x01, 0, 0, 0, 0, 0, 0, 0])] };
    let mut vram = vec![BG; 60 * 8];
    let mut fb = FrameBuffer::new(&mut vram, 60, 8);
    fb.draw_hex(&font, 0, 0, 0xF0F, INK);
    // "0xF0F": '0' at 0, 'x' missing, 'F' at 20, '0' at 30, 'F' at 40.
    assert_eq!(count(&fb, INK), 4);
    assert_eq!(at(&fb, 0, 0), INK);
    assert_eq!(at(&fb, 27, 0), INK);
    assert_eq!(at(&fb, 30, 0), INK);
    assert_eq!(at(&fb, 47, 0), INK);
}

#[test]
fn steep_reversed_line_reaches_its_end() {
    let mut vram = vec![BG; 64];
    let mut fb = FrameBuffer::new(&mut vram, 8, 8);
    fb.draw_line(7, 7, 1, 0, INK);
    assert_eq!(at(&fb, 7, 7), INK);
    assert_eq!(at(&fb, 1, 0), INK);
    assert_eq!(count(&fb, INK), 8);
    for y in 0..8 {
        assert_eq!((0..8).filter(|x| at(&fb, *x, y) == INK).count(), 1);
    }
}

#[test]
fn diagonal_line_paints_the_diagonal() {
    let mut vram = [0u32; 16];
    let mut fb = FrameBuffer::new(&mut vram, 4, 4);
    fb.draw_line(0, 0, 3, 3, 9);
    assert_eq!(vram, [9, 0, 0, 0, 0, 9, 0, 0, 0, 0, 9, 0, 0, 0, 0, 9]);
}

#[test]
fn unit_disc_fills_a_three_by_three_square() {
    let mut vram = [0u32; 25];
    let mut fb = FrameBuffer::new(&mut vram, 5, 5);
    fb.fill_circle(2, 2, 1, 5);
    assert_eq!(vram, [0, 0, 0, 0, 0, 0, 5, 5, 5, 0, 0, 5, 5, 5, 0, 0, 5, 5, 5, 0, 0, 0, 0, 0, 0]);
}

#[test]
fn short_home_screen_keeps_the_corner_blue() {
    let font = Font { glyphs: vec![('H', [0xFF; 8])] };
    let mut vram = vec![0u32; 140 * 8];
    let mut fb = FrameBuffer::new(&mut vram, 140, 8);
    home(&mut fb, &font);
    assert_eq!(at(&fb, 0, 0), COLOR_BLUE);
    // The greeting's first glyph stands at column (140 - 128) / 2.
    assert_eq!(at(&fb, 6, 0), COLOR_WHITE);
}
