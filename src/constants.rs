//! Fixed limits of the supply-chain rules.

use vstd::prelude::*;

verus! {

/// Smallest volume of a registrable unit, in millilitres.
pub const MIN_QUANTITY_ML: u32 = 50;

/// Largest volume of a registrable unit, in millilitres.
pub const MAX_QUANTITY_ML: u32 = 500;

/// A unit must keep at least this many days of shelf life when registered.
pub const MIN_SHELF_LIFE_DAYS: u64 = 1;

/// Whole blood may not be kept longer than this many days.
pub const MAX_SHELF_LIFE_DAYS: u64 = 42;

/// Seconds in one day.
pub const SECONDS_PER_DAY: u64 = 86_400;

/// Smallest volume of a blood request, in millilitres.
pub const MIN_REQUEST_ML: u32 = 50;

/// Largest volume of a blood request, in millilitres.
pub const MAX_REQUEST_ML: u32 = 5000;

/// Largest number of units handled by one batch operation.
pub const MAX_BATCH_SIZE: u32 = 100;

/// Largest number of units that one batch expiry may name.
pub const MAX_BATCH_EXPIRY_SIZE: u32 = 50;

/// Time a receiver has to confirm a custody transfer, in seconds.
pub const TRANSFER_EXPIRY_SECONDS: u64 = 1_800;

/// Largest number of status-change records held by one audit page.
pub const MAX_EVENTS_PER_PAGE: u32 = 20;

/// Largest length of a textual unit identifier.
pub const MAX_UNIT_ID_LENGTH: u32 = 64;

/// Length of a hex-encoded 32-byte digest.
pub const HEX_HASH_LENGTH: usize = 64;

/// Largest number of readings held by one temperature page.
pub const PAGE_SIZE: u32 = 20;

/// Number of consecutive out-of-range readings that compromises a unit.
pub const COMPROMISE_STREAK_THRESHOLD: u32 = 3;

} // verus!
