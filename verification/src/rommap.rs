//! Where the top-level pointer tables lie in the image.
//!
//! The three tables follow one another; each holds one pointer per area and
//! one more for the end game area, which is not modelled.

use vstd::prelude::*;

verus! {

/// The number of areas that the model holds.
pub const AREA_COUNT: usize = 0x10;

/// The number of rooms in an area.
pub const ROOMS_PER_AREA: usize = 0x40;

/// The offset of the table of area pointers.
pub const AREA_TABLE: usize = 0x40000;

/// The number of area pointers that are decoded.
pub const AREA_TABLE_COUNT: usize = 0x10;

/// The offset of the table of room order pointers.
pub const ROOM_ORDER_TABLE: usize = 0x40033;

/// The number of room order pointers that are decoded.
pub const ROOM_ORDER_TABLE_COUNT: usize = 0x10;

/// The offset of the table of chest table pointers.
pub const CHEST_TABLE: usize = 0x40066;

/// The number of chest table pointers that are decoded.
pub const CHEST_TABLE_COUNT: usize = 0x10;

/// The slot of the area table that holds the end game area's pointer.
pub const END_GAME_AREA: usize = 0x10;

} // verus!
