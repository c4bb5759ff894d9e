use vstd::prelude::*;

verus! {

/// The colour for a mine counter: entry `counter - 1` of `colors` (entry 0
/// for a zero counter), the last entry for counters beyond the list, and
/// `fallback` when the list is empty.
pub fn mine_counter_color<T: Copy>(colors: &Vec<T>, counter: u8, fallback: T) -> (r: T)
    ensures
        r == if colors@.len() == 0 {
            fallback
        } else if (if counter == 0 {
            0
        } else {
            counter - 1
        }) < colors@.len() {
            colors@[if counter == 0 {
                0
            } else {
                counter - 1
            }]
        } else {
            colors@[colors@.len() - 1]
        },
{
    let index: usize = counter.saturating_sub(1) as usize;
    if index < colors.len() {
        colors[index]
    } else if colors.len() > 0 {
        colors[colors.len() - 1]
    } else {
        fallback
    }
}

} // verus!
