//! The home screen.
use vstd::prelude::*;
use crate::font::Font;
use vstd::string::StringSliceAdditionalSpecFns;
use crate::graphics::{FrameBuffer, COLOR_BLUE, COLOR_GREEN, COLOR_RED, COLOR_WHITE};

verus! {

/// Draws the home screen on a `w` x `h` buffer: a blue background, a white
/// greeting centred at row `h / 2 - 4`, a red 80 x 50 rectangle at (20, 20),
/// the green outline of a 120 x 80 rectangle at (`w - 140`, 30) and a green
/// disc of radius 40 centred on (`w / 2`, `3h / 4`), each drawn over the
/// ones before. Every pixel ends up in one of those four colours; every
/// pixel outside the greeting's box, the two rectangles and the disc's
/// square stays blue; the red rectangle and the green outline show wherever
/// later shapes leave them, and the disc's centre is green.
pub fn home(fb: &mut FrameBuffer, font: &Font)
    requires
        old(fb).wf(),
        old(fb).width >= 140,
        old(fb).height >= 8,
    ensures
        final(fb).wf(),
        final(fb).same_shape(old(fb)),
        forall|k: int|
            0 <= k < final(fb).pixels().len() ==> #[trigger] final(fb).pixels()[k] == COLOR_BLUE
                || final(fb).pixels()[k] == COLOR_WHITE || final(fb).pixels()[k] == COLOR_RED
                || final(fb).pixels()[k] == COLOR_GREEN,
        final(fb).pixels()[0] == COLOR_BLUE,
        forall|k: int|
            0 <= k < final(fb).pixels().len() ==> {
                let (w, h) = (old(fb).width as int, old(fb).height as int);
                let (tx, ty) = ((w - 128) / 2, h / 2 - 4);
                let in_disc_square = final(fb).in_box(
                    k,
                    w / 2 - 40,
                    h * 3 / 4 - 40,
                    w / 2 + 41,
                    h * 3 / 4 + 41,
                );
                let on_frame = final(fb).on_outline(k, w - 140, 30, 120, 80);
                &&& #[trigger] final(fb).pixels()[k] != COLOR_BLUE ==> {
                    ||| final(fb).in_box(k, tx, ty, tx + 128, ty + 8)
                    ||| final(fb).in_box(k, 20, 20, 100, 70)
                    ||| on_frame
                    ||| in_disc_square
                }
                &&& final(fb).in_box(k, 20, 20, 100, 70) && !on_frame && !in_disc_square
                    ==> final(fb).pixels()[k] == COLOR_RED
                &&& on_frame && !in_disc_square ==> final(fb).pixels()[k] == COLOR_GREEN
                &&& final(fb).is_cell(k, w / 2, h * 3 / 4) ==> final(fb).pixels()[k] == COLOR_GREEN
            },
{
    let ghost (w0, h0) = (fb.width as int, fb.height as int);
    proof {
        assert(w0 * 8 <= w0 * h0) by (nonlinear_arith)
            requires
                h0 >= 8,
                w0 >= 0,
        ;
        assert(h0 * 140 <= w0 * h0) by (nonlinear_arith)
            requires
                w0 >= 140,
                h0 >= 0,
        ;
    }
    fb.clear(COLOR_BLUE);
    let ghost background = fb.pixels();

    let label = "Hello, World!";
    proof {
        reveal_strlit("Hello, World!");
        assert(vstd::string::is_ascii(label));
        vstd::string::is_ascii_spec_bytes(label);
        assert(label.spec_bytes().len() == 13);
    }
    // Glyphs of 8 pixels with 2 pixels between neighbours.
    let text_width = label.len() * 8 + (label.len() - 1) * 2;
    let x = (fb.width - text_width) / 2;
    let y = fb.height / 2 - 4;
    let ghost text_fb = *fb;
    fb.draw_text(font, x, y, label, COLOR_WHITE);
    let ghost texted = fb.pixels();

    fb.fill_rect(20, 20, 80, 50, COLOR_RED);
    let ghost boxed = fb.pixels();
    let w = fb.width;
    fb.stroke_rect(w - 140, 30, 120, 80, COLOR_GREEN);
    let ghost outlined = fb.pixels();
    let cx = (fb.width / 2) as isize;
    let cy = (fb.height * 3 / 4) as isize;
    let ghost circle_fb = *fb;
    fb.fill_circle(cx, cy, 40, COLOR_GREEN);
    proof {
        let (w, h) = (fb.width as int, fb.height as int);
        assert forall|k: int| 0 <= k < fb.pixels().len() implies #[trigger] fb.pixels()[k] == COLOR_BLUE
            || fb.pixels()[k] == COLOR_WHITE || fb.pixels()[k] == COLOR_RED || fb.pixels()[k]
            == COLOR_GREEN by {
            assert(background[k] == COLOR_BLUE);
            assert(texted[k] == background[k] || texted[k] == COLOR_WHITE);
            assert(outlined[k] == boxed[k] || outlined[k] == COLOR_GREEN);
        }
        assert forall|k: int| 0 <= k < fb.pixels().len() implies {
            let (tx, ty) = ((w - 128) / 2, h / 2 - 4);
            let in_disc_square = fb.in_box(k, w / 2 - 40, h * 3 / 4 - 40, w / 2 + 41, h * 3 / 4 + 41);
            let on_frame = fb.on_outline(k, w - 140, 30, 120, 80);
            &&& #[trigger] fb.pixels()[k] != COLOR_BLUE ==> {
                ||| fb.in_box(k, tx, ty, tx + 128, ty + 8)
                ||| fb.in_box(k, 20, 20, 100, 70)
                ||| on_frame
                ||| in_disc_square
            }
            &&& fb.in_box(k, 20, 20, 100, 70) && !on_frame && !in_disc_square ==> fb.pixels()[k] == COLOR_RED
            &&& on_frame && !in_disc_square ==> fb.pixels()[k] == COLOR_GREEN
            &&& fb.is_cell(k, w / 2, h * 3 / 4) ==> fb.pixels()[k] == COLOR_GREEN
        } by {
            assert(background[k] == COLOR_BLUE);
            if texted[k] != background[k] {
                let i = choose|i: int|
                    0 <= i < label@.len() && #[trigger] text_fb.char_covers(
                        k,
                        x + 10 * i,
                        y as int,
                        font,
                        label@[i],
                    );
                assert(0 <= i < 13);
            }
            if fb.pixels()[k] != outlined[k] {
                assert(circle_fb.in_box(k, w / 2 - 40, h * 3 / 4 - 40, w / 2 + 41, h * 3 / 4 + 41));
            }
            if fb.is_cell(k, w / 2, h * 3 / 4) {
                assert(circle_fb.is_cell(k, cx as int, cy as int));
            }
        }
        assert(fb.pixels().len() > 0) by (nonlinear_arith)
            requires
                w >= 140,
                h >= 8,
                w * h <= fb.pixels().len(),
        ;
        assert(0int % w == 0 && 0int / w == 0);
        assert(fb.pixels()[0] == COLOR_BLUE) by {
            if fb.pixels()[0] != COLOR_BLUE {
                assert(fb.pixels()[0int] != COLOR_BLUE);
            }
        }
    }
}

} // verus!
