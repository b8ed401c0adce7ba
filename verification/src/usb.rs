//! How the board shows itself on the bus.

use vstd::prelude::*;

verus! {

/// Vendor identifier of the board.
pub const VENDOR_ID: u16 = 0x1209;

/// Product identifier of the board.
pub const PROD_ID: u16 = 0x0001;

} // verus!
