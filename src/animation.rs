//! How much animation a layout of a given size can afford.

use vstd::prelude::*;

verus! {

/// Performance tier based on item count.
#[derive(Clone, Copy, Debug, PartialEq, Eq, Structural)]
pub enum AnimationTier {
    /// Up to 300 items: full animation.
    Full,
    /// 301 to 1000 items: degraded animation.
    Degraded,
    /// Over 1000 items: no animation.
    Skip,
}

impl AnimationTier {
    pub fn from_item_count(count: usize) -> (r: Self)
        ensures
            r == if count > 1000 {
                AnimationTier::Skip
            } else if count > 300 {
                AnimationTier::Degraded
            } else {
                AnimationTier::Full
            },
    {
        if count > 1000 {
            AnimationTier::Skip
        } else if count > 300 {
            AnimationTier::Degraded
        } else {
            AnimationTier::Full
        }
    }
}

} // verus!
