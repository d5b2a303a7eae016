//! The keycap drawing placed behind each key.
use vstd::prelude::*;

verus! {

/// A rounded keycap, 100 by 100 units.
pub const KEY: &'static str = "<svg xmlns=\"http://www.w3.org/2000/svg\" viewBox=\"0 0 100 100\"><rect x=\"3\" y=\"3\" width=\"94\" height=\"94\" rx=\"12\" ry=\"12\" fill=\"#fafafa\" stroke=\"#9a9a9a\" stroke-width=\"2\"/></svg>";

} // verus!
