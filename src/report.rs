//! Arithmetic for progress reporting.
use vstd::prelude::*;

verus! {

/// Share of `total` done after `current`, in whole percent (0 when `total`
/// is 0).
pub fn progress_percent(current: usize, total: usize) -> (r: u128)
    ensures
        total > 0 ==> r == (current * 100) / (total as int),
        total == 0 ==> r == 0,
{
    if total == 0 {
        0
    } else {
        let scaled: u128 = (current as u128) * 100;
        scaled / (total as u128)
    }
}

/// The left padding that centers a text of `text_len` columns in `width`
/// columns; 0 when the text is as wide or wider.
pub fn center_padding(text_len: usize, width: usize) -> (r: usize)
    ensures
        text_len >= width ==> r == 0,
        text_len < width ==> r == (width - text_len) / 2,
{
    if text_len >= width {
        0
    } else {
        (width - text_len) / 2
    }
}

} // verus!
