use vstd::prelude::*;
use crate::cloth::Window;
use crate::mode::Mode;

verus! {

/// Width of a mode symbol, in pixels.
pub const SYMBOL_WIDTH: usize = 9;

/// Height of a mode symbol, in pixels.
pub const SYMBOL_HEIGHT: usize = 12;

/// The hand tool: an open hand. Row by row, `true` where a pixel is drawn.
pub const HAND_MODE_SYMBOL: [bool; 108] = [
    false, false, false, false, true, false, false, false, false,
    false, false, true, false, true, false, true, false, false,
    false, false, true, false, true, false, true, false, true,
    false, false, true, false, true, false, true, false, true,
    false, false, true, false, true, false, true, false, true,
    true, false, true, false, true, false, true, false, true,
    true, false, true, true, true, true, true, true, true,
    true, true, true, true, true, true, true, true, true,
    false, true, true, true, true, true, true, true, true,
    false, true, true, true, true, true, true, true, true,
    false, false, true, true, true, true, true, true, false,
    false, false, true, true, true, true, true, true, false,
];

/// The cutting tool: a pair of scissors. Row by row, `true` where a pixel is drawn.
pub const CUT_MODE_SYMBOL: [bool; 108] = [
    false, true, false, false, false, false, false, true, false,
    false, true, false, false, false, false, false, true, false,
    false, false, true, false, false, false, true, false, false,
    false, false, true, false, false, false, true, false, false,
    false, false, false, true, false, true, false, false, false,
    false, false, false, true, false, true, false, false, false,
    false, false, false, false, true, false, false, false, false,
    false, false, false, true, false, true, false, false, false,
    false, false, false, true, false, true, false, false, false,
    true, true, true, false, false, false, true, true, true,
    true, false, true, false, false, false, true, false, true,
    true, true, true, false, false, false, true, true, true,
];

/// The place tool: a point with rays. Row by row, `true` where a pixel is drawn.
pub const PLACE_MODE_SYMBOL: [bool; 108] = [
    false, false, false, false, false, false, false, false, false,
    false, false, false, false, true, false, false, false, false,
    false, true, false, false, true, false, false, true, false,
    false, false, false, false, false, false, false, false, false,
    false, false, false, true, true, true, false, false, false,
    true, true, false, true, true, true, false, true, true,
    false, false, false, true, true, true, false, false, false,
    false, false, false, false, false, false, false, false, false,
    false, true, false, false, true, false, false, true, false,
    false, false, false, false, true, false, false, false, false,
    false, false, false, false, false, false, false, false, false,
    false, false, false, false, false, false, false, false, false,
];

/// The force tool: a blast of wind. Row by row, `true` where a pixel is drawn.
pub const FORCE_MODE_SYMBOL: [bool; 108] = [
    false, false, false, false, false, false, false, false, false,
    false, false, false, false, false, false, false, false, false,
    false, false, true, true, true, false, false, true, true,
    false, false, true, true, true, false, false, false, false,
    false, false, true, true, true, false, false, true, true,
    false, false, false, false, false, false, true, false, false,
    false, false, true, false, false, true, false, true, false,
    false, false, true, false, false, true, false, false, false,
    false, false, false, false, false, false, false, false, false,
    false, false, false, false, false, false, false, false, false,
    false, false, false, false, false, false, false, false, false,
    false, false, false, false, false, false, false, false, false,
];

/// The colour of a pixel of the mode symbol: the symbol itself is white;
/// its frame is light above the diagonal and dark below it.
#[derive(PartialEq, Eq, Structural, Clone, Copy, Debug)]
pub enum Shade {
    White,
    Light,
    Dark,
}

/// A pixel to draw.
#[derive(PartialEq, Eq, Structural, Clone, Copy, Debug)]
pub struct SymbolPixel {
    pub x: i32,
    pub y: i32,
    pub shade: Shade,
}

/// The symbol of a tool.
pub open spec fn symbol_of(mode: Mode) -> Seq<bool> {
    match mode {
        Mode::Hand => HAND_MODE_SYMBOL@,
        Mode::Cut => CUT_MODE_SYMBOL@,
        Mode::Place => PLACE_MODE_SYMBOL@,
        Mode::Force => FORCE_MODE_SYMBOL@,
    }
}

/// The pixels of the first `t` cells of `sym` (row by row, 9 to a row),
/// each drawn 5 pixels in from the corner.
pub open spec fn symbol_upto(sym: Seq<bool>, t: int) -> Seq<SymbolPixel>
    decreases t,
{
    if t <= 0 {
        Seq::empty()
    } else {
        let s = symbol_upto(sym, t - 1);
        if sym[t - 1] {
            s.push(SymbolPixel { x: ((t - 1) % 9 + 5) as i32, y: ((t - 1) / 9 + 5) as i32, shade: Shade::White })
        } else {
            s
        }
    }
}

/// Cell (`x`, `y`) of the 15 by 18 box round the symbol is on its two-pixel frame.
pub open spec fn on_frame(x: int, y: int) -> bool {
    x <= 1 || y <= 1 || x >= 13 || y >= 16
}

/// The shade of frame cell (`x`, `y`): light on and above the diagonal.
pub open spec fn frame_shade(x: int, y: int) -> Shade {
    if x * 12 >= y * 9 {
        Shade::Light
    } else {
        Shade::Dark
    }
}

/// The pixels of the frame among the first `t` cells of the box (row by
/// row, 15 to a row), each drawn 2 pixels in from the corner.
pub open spec fn frame_upto(t: int) -> Seq<SymbolPixel>
    decreases t,
{
    if t <= 0 {
        Seq::empty()
    } else {
        let s = frame_upto(t - 1);
        let (x, y) = ((t - 1) % 15, (t - 1) / 15);
        if on_frame(x, y) {
            s.push(SymbolPixel { x: (x + 2) as i32, y: (y + 2) as i32, shade: frame_shade(x, y) })
        } else {
            s
        }
    }
}

/// The symbol of `mode`, one cell.
fn symbol_cell(mode: Mode, index: usize) -> (b: bool)
    requires
        index < 108,
    ensures
        b == symbol_of(mode)[index as int],
{
    let sym: [bool; 108] = match mode {
        Mode::Hand => HAND_MODE_SYMBOL,
        Mode::Cut => CUT_MODE_SYMBOL,
        Mode::Place => PLACE_MODE_SYMBOL,
        Mode::Force => FORCE_MODE_SYMBOL,
    };
    sym[index]
}

impl<P: Copy, L: Copy> Window<P, L> {
    /// The pixels of the symbol of the current tool, in the top left corner,
    /// then those of its frame, each in row-major order.
    pub fn render_mode_symbol(&self) -> (r: Vec<SymbolPixel>)
        ensures
            r@ == symbol_upto(symbol_of(self@.mode), 108) + frame_upto(270),
    {
        let mode = self.mode();
        let mut r: Vec<SymbolPixel> = Vec::new();
        let mut y: usize = 0;
        while y < SYMBOL_HEIGHT
            invariant
                y <= 12,
                mode == self@.mode,
                r@ == symbol_upto(symbol_of(mode), (y * 9) as int),
            decreases 12 - y,
        {
            let mut x: usize = 0;
            while x < SYMBOL_WIDTH
                invariant
                    y < 12,
                    x <= 9,
                    mode == self@.mode,
                    r@ == symbol_upto(symbol_of(mode), (y * 9 + x) as int),
                decreases 9 - x,
            {
                let index = y * SYMBOL_WIDTH + x;
                let should_draw = symbol_cell(mode, index);
                if should_draw {
                    r.push(SymbolPixel { x: x as i32 + 5, y: y as i32 + 5, shade: Shade::White });
                }
                proof {
                    let t = (y * 9 + x) as int;
                    assert(t % 9 == x && t / 9 == y);
                }
                x += 1;
            }
            y += 1;
        }
        let ghost sym_part = r@;
        let mut y: usize = 0;
        while y < SYMBOL_HEIGHT + 6
            invariant
                y <= 18,
                r@ == sym_part + frame_upto((y * 15) as int),
            decreases 18 - y,
        {
            let mut x: usize = 0;
            while x < SYMBOL_WIDTH + 6
                invariant
                    y < 18,
                    x <= 15,
                    r@ == sym_part + frame_upto((y * 15 + x) as int),
                decreases 15 - x,
            {
                let low = if x < y {
                    x
                } else {
                    y
                };
                let ghost before = r@;
                if low <= 1 || (x >= SYMBOL_WIDTH + 4 || y >= SYMBOL_HEIGHT + 4) {
                    let shade = if x * SYMBOL_HEIGHT >= y * SYMBOL_WIDTH {
                        Shade::Light
                    } else {
                        Shade::Dark
                    };
                    r.push(SymbolPixel { x: x as i32 + 2, y: y as i32 + 2, shade });
                }
                proof {
                    let t = (y * 15 + x) as int;
                    assert(t % 15 == x && t / 15 == y);
                    if on_frame(x as int, y as int) {
                        assert(r@ == before.push(
                            SymbolPixel { x: (x + 2) as i32, y: (y + 2) as i32, shade: frame_shade(x as int, y as int) },
                        ));
                        assert((sym_part + frame_upto(t)).push(
                            SymbolPixel { x: (x + 2) as i32, y: (y + 2) as i32, shade: frame_shade(x as int, y as int) },
                        ) =~= sym_part + frame_upto(t + 1));
                    }
                }
                x += 1;
            }
            y += 1;
        }
        r
    }
}

} // verus!
