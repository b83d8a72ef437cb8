//! Geometry of the ticket prompt: its size and where the cursor goes.

use vstd::prelude::*;

use crate::frontend::log::sat_sub;

verus! {

/// The prompt takes this percentage of the screen's width.
pub const POPUP_WIDTH_PERCENT: u16 = 60;

/// The size of the ticket prompt and the cursor's place in it.
#[derive(Debug, Clone, Copy, PartialEq, Eq, Structural)]
pub struct PopupGeometry {
    /// The prompt's width, as a percentage of the screen.
    pub width_percent: u16,
    /// The prompt's height in rows, borders included.
    pub height: u16,
    /// The cursor's column and row inside the border, when the prompt has
    /// room for text.
    pub cursor_col: u16,
    pub cursor_row: u16,
    pub has_cursor: bool,
}

/// The prompt's width in columns on a screen `screen_width` wide.
pub open spec fn popup_width(screen_width: nat) -> nat {
    screen_width * 60 / 100
}

/// The prompt's text width: two columns less, for the border.
pub open spec fn popup_inner_width(screen_width: nat) -> nat {
    sat_sub(popup_width(screen_width), 2)
}

/// The rows the text needs: the input's length divided by the text width,
/// rounded up, at least one; one where there is no room for text.
pub open spec fn popup_text_rows(screen_width: nat, input_len: nat) -> nat {
    let w = popup_inner_width(screen_width);
    if w > 0 {
        let r: nat = ((input_len + w - 1) as nat) / w;
        if r < 1 {
            1
        } else {
            r
        }
    } else {
        1
    }
}

/// Lays out the ticket prompt for a screen `screen_width` wide holding an
/// input of `input_len` bytes: the text rows plus two border rows (kept to
/// the low 16 bits), and the cursor after the last byte when there is room
/// for text. `screen_width * 60` must fit in 16 bits and the rounding up and the
/// border rows must fit in a `usize`.
pub fn popup_geometry(screen_width: u16, input_len: usize) -> (g: PopupGeometry)
    requires
        screen_width * 60 <= u16::MAX,
        input_len + popup_inner_width(screen_width as nat) <= usize::MAX,
        popup_text_rows(screen_width as nat, input_len as nat) + 2 <= usize::MAX,
    ensures
        g.width_percent == POPUP_WIDTH_PERCENT,
        g.height == ((popup_text_rows(screen_width as nat, input_len as nat) + 2) as u16),
        g.has_cursor == (popup_inner_width(screen_width as nat) > 0),
        g.has_cursor ==> g.cursor_col == ((input_len as nat % popup_inner_width(
            screen_width as nat,
        )) as u16) && g.cursor_row == ((input_len as nat / popup_inner_width(
            screen_width as nat,
        )) as u16),
        !g.has_cursor ==> g.cursor_col == 0 && g.cursor_row == 0,
{
    let popup_w = (screen_width * POPUP_WIDTH_PERCENT) / 100;
    let inner = popup_w.saturating_sub(2) as usize;
    let rows: usize = if inner > 0 {
        let r = (input_len + inner - 1) / inner;
        if r < 1 {
            1
        } else {
            r
        }
    } else {
        1
    };
    let height = #[verifier::truncate] ((rows + 2) as u16);
    if inner > 0 {
        let col = #[verifier::truncate] ((input_len % inner) as u16);
        let row = #[verifier::truncate] ((input_len / inner) as u16);
        PopupGeometry { width_percent: POPUP_WIDTH_PERCENT, height, cursor_col: col, cursor_row: row, has_cursor: true }
    } else {
        PopupGeometry { width_percent: POPUP_WIDTH_PERCENT, height, cursor_col: 0, cursor_row: 0, has_cursor: false }
    }
}

/// The parts of a centred box: the padding rows above and below it (half of
/// what the base's height leaves), and the width percentage on each side
/// (half of what `percent_x` leaves). `percent_x` is at most 100.
pub fn centered_rect_margins(percent_x: u16, height_y: u16, base_height: u16) -> (r: (u16, u16))
    requires
        percent_x <= 100,
    ensures
        r.0 == sat_sub(base_height as nat, height_y as nat) / 2,
        r.1 == (100 - percent_x) / 2,
{
    (base_height.saturating_sub(height_y) / 2, (100 - percent_x) / 2)
}

proof fn lemma_ceil_div(n: int, w: int)
    requires
        n >= 0,
        w > 0,
    ensures
        ({
            let r = (n + w - 1) / w;
            &&& r >= 0
            &&& r * w >= n
            &&& (n > 0 ==> r >= 1 && (r - 1) * w < n)
            &&& (n == 0 ==> r == 0)
        }),
{
    let x = n + w - 1;
    vstd::arithmetic::div_mod::lemma_fundamental_div_mod(x, w);
    vstd::arithmetic::div_mod::lemma_mod_pos_bound(x, w);
    let q = x / w;
    let m = x % w;
    assert(w * q == q * w) by (nonlinear_arith);
    assert((q - 1) * w == q * w - w) by (nonlinear_arith);
    assert(q * w == n + w - 1 - m);
    assert(q * w >= 0 && w > 0 ==> q >= 0) by (nonlinear_arith);
    if n > 0 {
        assert(q * w > 0 && w > 0 ==> q > 0) by (nonlinear_arith);
    } else {
        assert(q * w < w && w > 0 ==> q < 1) by (nonlinear_arith);
    }
}

proof fn lemma_row_of(n: int, w: int, r: int)
    requires
        n >= 0,
        w > 0,
        r >= 0,
        r * w >= n,
    ensures
        n / w <= r,
        n % w != 0 ==> n / w < r,
{
    vstd::arithmetic::div_mod::lemma_fundamental_div_mod(n, w);
    vstd::arithmetic::div_mod::lemma_mod_pos_bound(n, w);
    let q = n / w;
    assert(w * q == q * w) by (nonlinear_arith);
    assert(q * w <= r * w && w > 0 ==> q <= r) by (nonlinear_arith);
    assert(q * w < r * w && w > 0 ==> q < r) by (nonlinear_arith);
}

/// Law: the prompt has room for the whole ticket. With `w` the columns
/// inside the border (`screen_width * 60 / 100` less two), when `w` is
/// positive the text rows are the fewest (at least one) that hold `input_len`
/// characters at `w` per row, and the cursor's row `input_len / w` lies
/// within them, or just after them when the ticket fills its last row
/// exactly.
pub proof fn popup_rows_hold_text(screen_width: nat, input_len: nat)
    requires
        screen_width * 60 / 100 >= 3,
    ensures
        ({
            let w = (screen_width * 60 / 100 - 2) as nat;
            let r = popup_text_rows(screen_width, input_len);
            &&& r >= 1
            &&& r * w >= input_len
            &&& (r == 1 || (r - 1) * w < input_len)
            &&& input_len / w <= r
            &&& (input_len % w != 0 ==> input_len / w < r)
        }),
{
    let w = (screen_width * 60 / 100 - 2) as nat;
    assert(popup_inner_width(screen_width) == w);
    lemma_ceil_div(input_len as int, w as int);
    let r = popup_text_rows(screen_width, input_len);
    if input_len == 0 {
        assert(r == 1);
        assert(r * w >= 0) by (nonlinear_arith)
            requires
                r == 1,
        ;
    }
    lemma_row_of(input_len as int, w as int, r as int);
}

} // verus!
