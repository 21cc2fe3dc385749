//! Marker comments that delimit sections inside a four-section fat file.
use vstd::prelude::*;

verus! {

/// Opens the STATE section.
pub const STATE: &'static str = "// === STATE ===";

/// Opens the TEMPLATE section.
pub const TEMPLATE: &'static str = "// === TEMPLATE ===";

/// Opens the DOCUMENT section.
pub const DOCUMENT: &'static str = "// === DOCUMENT ===";

/// Opens the IMAGES section.
pub const IMAGES: &'static str = "// === IMAGES ===";

} // verus!
