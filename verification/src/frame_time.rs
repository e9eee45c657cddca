//! When the next frame is due: the earliest deadline asked for.
use vstd::prelude::*;
use std::time::Instant;

verus! {

#[verifier::external_type_specification]
#[verifier::external_body]
pub struct ExInstant(std::time::Instant);

/// Whether instant `a` comes before instant `b`.
pub uninterp spec fn instant_before(a: Instant, b: Instant) -> bool;

/// Trusted: `<` on `std::time::Instant` (its `PartialOrd`) says whether
/// the first instant is earlier; the answer depends on the two instants
/// alone and is named `instant_before`.
#[verifier::external_body]
fn is_before(a: &Instant, b: &Instant) -> (r: bool)
    ensures
        r == instant_before(*a, *b),
{
    *a < *b
}

/// The deadline after `next_due` is asked for: the stored one unless
/// there is none or `next_due` comes before it.
pub open spec fn next_frame_time(stored: Option<Instant>, next_due: Option<Instant>) -> Option<
    Instant,
> {
    match next_due {
        None => stored,
        Some(n) => match stored {
            None => Some(n),
            Some(t) => if instant_before(n, t) {
                Some(n)
            } else {
                Some(t)
            },
        },
    }
}

/// Keep the earlier of the stored deadline and `next_due`.
pub fn update_next_frame_time(storage: &mut Option<Instant>, next_due: Option<Instant>)
    ensures
        *final(storage) == next_frame_time(*old(storage), next_due),
{
    if let Some(next_due) = next_due {
        match *storage {
            None => {
                *storage = Some(next_due);
            },
            Some(t) => {
                if is_before(&next_due, &t) {
                    *storage = Some(next_due);
                }
            },
        }
    }
}

} // verus!
