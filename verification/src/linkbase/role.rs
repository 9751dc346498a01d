//! Standard XBRL label roles.

use vstd::prelude::*;

verus! {

/// The standard label role.
pub const LABEL: &'static str = "http://www.xbrl.org/2003/role/label";

/// The verbose label role.
pub const VERBOSE_LABEL: &'static str = "http://www.xbrl.org/2003/role/verboseLabel";

/// The terse label role.
pub const TERSE_LABEL: &'static str = "http://www.xbrl.org/2003/role/terseLabel";

/// The documentation role.
pub const DOCUMENTATION: &'static str = "http://www.xbrl.org/2003/role/documentation";

} // verus!
