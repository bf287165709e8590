//! Icons that the application ships beside the bundled icon set.

use vstd::prelude::*;

verus! {

/// The asset path of the save icon.
pub open spec fn save_icon_path() -> Seq<char> {
    "icons/save.svg"@
}

/// The floppy-disk save icon.
#[derive(Clone, Copy, Debug, PartialEq, Eq)]
pub enum SaveIcon {
    Save,
}

impl SaveIcon {
    /// Where the icon's SVG is found among the application's assets.
    pub fn path(self) -> (r: &'static str)
        ensures
            r@ == save_icon_path(),
    {
        "icons/save.svg"
    }
}

} // verus!
