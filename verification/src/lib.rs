//! A generational arena ("slot map"): a container that hands out small,
//! copyable keys to the values put into it and notices when a key is used
//! after its value has been removed.
//!
//! Two storage layouts share one abstract state, [`model::Arena`], and with it
//! one contract: [`standard::SlotMap`] keeps each value in its slot, and
//! [`indirection::SlotMap`] keeps the values packed in a dense array that the
//! slots point into. What holds of every map, whatever it went through, is
//! proved of the abstract state in [`laws`].
//!
//! ```
//! use slotmap::SlotMap;
//!
//! let mut readings = SlotMap::new();
//! let morning = readings.insert(17);
//! let noon = readings.insert(24);
//!
//! // A live key reaches its value, by `get` or by indexing.
//! assert_eq!(readings.get(noon), Some(&24));
//! assert_eq!(readings[morning], 17);
//!
//! // A removed value comes back once; after that its key reaches nothing,
//! // even when the position is in use again.
//! assert_eq!(readings.remove(morning), Some(17));
//! assert_eq!(readings.remove(morning), None);
//! let evening = readings.insert(19);
//! assert_eq!(evening.index, morning.index);
//! assert_eq!(readings.get(morning), None);
//! assert_eq!(readings.len(), 2);
//! ```

use vstd::prelude::*;

pub mod indirection;
pub mod laws;
pub mod model;
pub mod standard;

pub use indirection::IntoIter;
pub use indirection::IntoValues;
pub use indirection::Iter;
pub use indirection::IterMut;
pub use indirection::Keys;
pub use indirection::SlotMap;
pub use indirection::SlotMap as IndirectionSlotMap;
pub use indirection::Values;
pub use indirection::ValuesMut;
pub use standard::SlotMap as StandardSlotMap;

verus! {

/// Counts the occupants that one storage position has had.
#[derive(Clone, Copy, Debug, PartialEq, Eq, Structural)]
pub struct Generation(pub u64);

/// A handle to a value in a slot map: a storage position and the generation
/// that is expected to be live there.
///
/// A key is a capability, not a guarantee: the maps check it on every use.
#[derive(Clone, Copy, Debug, PartialEq, Eq, Structural)]
pub struct Key {
    pub index: usize,
    pub generation: Generation,
}

impl Generation {
    /// The generation after this one.
    pub open spec fn successor(self) -> Generation {
        Generation((self.0 + 1) as u64)
    }

    /// The generation that a position gets when its occupant leaves.
    pub fn next(self) -> (r: Generation)
        requires
            self.0 < u64::MAX,
        ensures
            r == self.successor(),
            r.0 == self.0 + 1,
    {
        Generation(self.0 + 1)
    }
}

} // verus!
