//! Local time.

use vstd::prelude::*;

verus! {

/// A length of time, in milliseconds.
pub type LocalDuration = u128;

/// Time to wait for something to happen.
pub type Timeout = LocalDuration;

/// A point in local time.
#[derive(Debug, Clone, Copy, PartialEq, Eq, PartialOrd, Ord, Hash, Structural)]
pub struct LocalTime {
    /// Milliseconds since the Unix epoch.
    pub millis: u128,
}

impl LocalTime {
    /// The time that has passed since `earlier`, which must not be later than
    /// this time.
    pub fn duration_since(&self, earlier: LocalTime) -> (elapsed: LocalDuration)
        requires
            earlier.millis <= self.millis,
        ensures
            elapsed == self.millis - earlier.millis,
    {
        self.millis - earlier.millis
    }
}

impl Default for LocalTime {
    /// The epoch.
    fn default() -> (time: LocalTime)
        ensures
            time == (LocalTime { millis: 0 }),
    {
        LocalTime { millis: 0 }
    }
}

} // verus!
