//! The ANSI byte sequences the terminal output is made of: truecolor
//! foreground and background, the upper half block glyph, cursor
//! positioning, style reset and screen clear.
use vstd::prelude::*;

use crate::geometry::Color;

verus! {

/// The decimal digits of n, most significant first, without leading zeros.
pub open spec fn decimal(n: nat) -> Seq<u8>
    decreases n,
{
    if n < 10 {
        seq![(48 + n) as u8]
    } else {
        decimal(n / 10).push((48 + n % 10) as u8)
    }
}

/// The decimal form of an integer, with a minus sign when it is negative.
pub open spec fn signed_decimal(n: int) -> Seq<u8> {
    if n < 0 {
        seq![45u8] + decimal((-n) as nat)
    } else {
        decimal(n as nat)
    }
}

/// The control sequence introducer, ESC [.
pub open spec fn csi() -> Seq<u8> {
    seq![0x1bu8, 0x5bu8]
}

/// The UTF-8 encoding of the upper half block, U+2580.
pub open spec fn half_block() -> Seq<u8> {
    seq![0xe2u8, 0x96u8, 0x80u8]
}

/// The three channels of a color as decimals separated by ';'.
pub open spec fn rgb_fields(c: Color) -> Seq<u8> {
    decimal(c.r as nat) + seq![59u8] + decimal(c.g as nat) + seq![59u8] + decimal(c.b as nat)
}

/// ESC [ 38;2;R;G;B m: set the foreground color.
pub open spec fn fg(c: Color) -> Seq<u8> {
    csi() + seq![51u8, 56u8, 59u8, 50u8, 59u8] + rgb_fields(c) + seq![109u8]
}

/// ESC [ 48;2;R;G;B m: set the background color.
pub open spec fn bg(c: Color) -> Seq<u8> {
    csi() + seq![52u8, 56u8, 59u8, 50u8, 59u8] + rgb_fields(c) + seq![109u8]
}

/// One terminal cell showing two stacked pixels: the upper one as the
/// foreground of the half block glyph, the lower one as its background.
pub open spec fn cell(upper: Color, lower: Color) -> Seq<u8> {
    fg(upper) + bg(lower) + half_block()
}

/// ESC [ row ; col H: move the cursor (both 1-based).
pub open spec fn cursor_to(row: int, col: int) -> Seq<u8> {
    csi() + signed_decimal(row) + seq![59u8] + signed_decimal(col) + seq![72u8]
}

/// ESC [ 0 m: reset all styles.
pub open spec fn reset() -> Seq<u8> {
    csi() + seq![48u8, 109u8]
}

/// ESC [ 2 J ESC [ H: clear the screen and move the cursor home.
pub open spec fn clear_screen() -> Seq<u8> {
    csi() + seq![50u8, 74u8] + csi() + seq![72u8]
}

pub fn push_decimal(out: &mut Vec<u8>, n: u64)
    ensures
        final(out)@ == old(out)@ + decimal(n as nat),
    decreases n,
{
    if n >= 10 {
        push_decimal(out, n / 10);
    }
    out.push(48u8 + (n % 10) as u8);
    proof {
        if n >= 10 {
            assert(old(out)@ + decimal((n / 10) as nat) + seq![(48 + n % 10) as u8] =~= old(out)@
                + decimal(n as nat));
        }
    }
    assert(out@ =~= old(out)@ + decimal(n as nat));
}

pub fn push_signed(out: &mut Vec<u8>, n: i64)
    ensures
        final(out)@ == old(out)@ + signed_decimal(n as int),
{
    if n < 0 {
        out.push(45u8);
        let m: u64 = if n == i64::MIN {
            0x8000_0000_0000_0000
        } else {
            (-n) as u64
        };
        push_decimal(out, m);
        assert(out@ =~= old(out)@ + signed_decimal(n as int));
    } else {
        push_decimal(out, n as u64);
    }
}

fn push_csi(out: &mut Vec<u8>)
    ensures
        final(out)@ == old(out)@ + csi(),
{
    out.push(0x1b);
    out.push(0x5b);
    assert(out@ =~= old(out)@ + csi());
}

fn push_rgb(out: &mut Vec<u8>, c: Color)
    ensures
        final(out)@ == old(out)@ + rgb_fields(c),
{
    let ghost o = out@;
    push_decimal(out, c.r as u64);
    out.push(59);
    push_decimal(out, c.g as u64);
    out.push(59);
    push_decimal(out, c.b as u64);
    assert(out@ =~= o + rgb_fields(c));
}

/// Appends the sequence that sets the foreground color.
pub fn push_fg(out: &mut Vec<u8>, c: Color)
    ensures
        final(out)@ == old(out)@ + fg(c),
{
    let ghost o = out@;
    push_csi(out);
    out.push(51);
    out.push(56);
    out.push(59);
    out.push(50);
    out.push(59);
    push_rgb(out, c);
    out.push(109);
    assert(out@ =~= o + fg(c));
}

fn push_bg(out: &mut Vec<u8>, c: Color)
    ensures
        final(out)@ == old(out)@ + bg(c),
{
    let ghost o = out@;
    push_csi(out);
    out.push(52);
    out.push(56);
    out.push(59);
    out.push(50);
    out.push(59);
    push_rgb(out, c);
    out.push(109);
    assert(out@ =~= o + bg(c));
}

/// Appends one half block cell with the two colors.
pub fn push_cell(out: &mut Vec<u8>, upper: Color, lower: Color)
    ensures
        final(out)@ == old(out)@ + cell(upper, lower),
{
    let ghost o = out@;
    push_fg(out, upper);
    push_bg(out, lower);
    out.push(0xe2);
    out.push(0x96);
    out.push(0x80);
    assert(out@ =~= o + cell(upper, lower));
}

/// Appends the cursor movement to (row, col).
pub fn push_cursor(out: &mut Vec<u8>, row: i64, col: i64)
    ensures
        final(out)@ == old(out)@ + cursor_to(row as int, col as int),
{
    let ghost o = out@;
    push_csi(out);
    push_signed(out, row);
    out.push(59);
    push_signed(out, col);
    out.push(72);
    assert(out@ =~= o + cursor_to(row as int, col as int));
}

/// Appends the style reset.
pub fn push_reset(out: &mut Vec<u8>)
    ensures
        final(out)@ == old(out)@ + reset(),
{
    let ghost o = out@;
    push_csi(out);
    out.push(48);
    out.push(109);
    assert(out@ =~= o + reset());
}

/// Appends the screen clear and cursor home.
pub fn push_clear_screen(out: &mut Vec<u8>)
    ensures
        final(out)@ == old(out)@ + clear_screen(),
{
    let ghost o = out@;
    push_csi(out);
    out.push(50);
    out.push(74);
    push_csi(out);
    out.push(72);
    assert(out@ =~= o + clear_screen());
}

} // verus!
