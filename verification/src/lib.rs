//! A model of the Neutopia cartridge image: its bank-relative pointers, its
//! room tables and chests, and the gated placement of items into checks.

pub mod asm_build;
pub mod draw;
pub mod error;
pub mod game;
pub mod interval;
pub mod password;
pub mod patch;
pub mod rando;
pub mod rom;
pub mod rommap;
pub mod select;
pub mod semver;
pub mod state;
pub mod text;
pub mod util;
pub mod verify;
pub mod writer;

pub use draw::Generator;
pub use error::{FormatError, NeutopiaError};
pub use game::{area_name, Area, Chest, Conditional, Neutopia, Room};
pub use rando::{randomize, Config, RandoType, RandomizedGame};
pub use rom::NeutopiaRom;
pub use state::{Check, Gate, Item, LocationId, State};
pub use verify::{verify, Region, RomInfo};
