//! A verified codec for the DMI sprite-sheet container format: the
//! `key = value` metadata block embedded in a PNG, the packed frame-sheet
//! layout, the staging directory representation, and the clipboard
//! transcoding of single animations.

use vstd::prelude::*;

pub mod bitmap;
pub mod clipboard;
pub mod container;
pub mod input;
pub mod layout;
pub mod meta;
pub mod roundtrip;
pub mod staging;
pub mod text;
pub mod transform;
pub mod types;
pub mod version;

verus! {

} // verus!
