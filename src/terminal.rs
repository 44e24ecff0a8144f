use vstd::prelude::*;

verus! {

/// The width assumed when the terminal's cannot be determined.
pub const FALLBACK_WIDTH: usize = 50;

/// Relies on `terminal_size::terminal_size`: the column count of the
/// terminal on stdout, stderr or stdin, whichever is one first; `None` when
/// none of them is a terminal. Nothing is promised of the number.
#[verifier::external_body]
fn measured_width() -> (r: Option<u16>) {
    terminal_size::terminal_size().map(|(terminal_size::Width(w), _)| w)
}

/// The width to lay out for, given what measuring the terminal gave.
pub fn width_or_default(measured: Option<u16>) -> (r: usize)
    ensures
        r == (match measured {
            Some(w) => w as usize,
            None => FALLBACK_WIDTH,
        }),
{
    match measured {
        Some(w) => w as usize,
        None => FALLBACK_WIDTH,
    }
}

/// The width of the terminal in characters, or the fallback width when it
/// cannot be determined.
pub fn console_width() -> (r: usize)
    ensures
        r <= u16::MAX,
{
    width_or_default(measured_width())
}

} // verus!
