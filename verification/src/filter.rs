//! Which on-screen windows are captured.
//!
//! System surfaces (the Dock, the menu bar, notification and control
//! centers and the like) are never captured, whatever the case of their
//! owner's name. The geometry checks (on screen, opaque, at least 80 by 60
//! points) are made by the caller on the window's frame.

use vstd::prelude::*;

use crate::text::{eq_ignore_ascii_case, eq_ignore_ascii_case_spec};

verus! {

/// Owners whose windows are system surfaces.
pub open spec fn skipped_owners() -> Seq<Seq<char>> {
    seq![
        "Dock"@,
        "Window Server"@,
        "WindowServer"@,
        "SystemUIServer"@,
        "Notification Center"@,
        "Control Center"@,
        "Spotlight"@,
        "loginwindow"@,
        "TextInputMenuAgent"@,
        "Universal Control"@,
    ]
}

/// The owner is one of the system surfaces, ignoring ASCII case.
pub open spec fn spec_is_skipped_owner(owner: Seq<char>) -> bool {
    exists|k: int| 0 <= k < skipped_owners().len() && eq_ignore_ascii_case_spec(skipped_owners()[k], owner)
}

/// Whether windows of this owner are system surfaces.
pub fn is_skipped_owner(owner_name: &str) -> (r: bool)
    ensures
        r == spec_is_skipped_owner(owner_name@),
{
    let owners: [&str; 10] = [
        "Dock",
        "Window Server",
        "WindowServer",
        "SystemUIServer",
        "Notification Center",
        "Control Center",
        "Spotlight",
        "loginwindow",
        "TextInputMenuAgent",
        "Universal Control",
    ];
    assert(owners@.map_values(|s: &str| s@) =~= skipped_owners());
    let mut k: usize = 0;
    while k < 10
        invariant
            k <= 10,
            owners@.map_values(|s: &str| s@) == skipped_owners(),
            forall|j: int| 0 <= j < k ==> !eq_ignore_ascii_case_spec(skipped_owners()[j], owner_name@),
        decreases 10 - k,
    {
        assert(owners@.map_values(|s: &str| s@)[k as int] == owners@[k as int]@);
        if eq_ignore_ascii_case(owners[k], owner_name) {
            return true;
        }
        k = k + 1;
    }
    false
}

/// A window is captured when it is on screen, in the normal window layer,
/// visible, of a reasonable size, and not a system surface.
pub fn should_capture(is_onscreen: bool, layer: i32, visible: bool, reasonable_size: bool, owner_name: &str) -> (r: bool)
    ensures
        r == (is_onscreen && layer == 0 && visible && reasonable_size && !spec_is_skipped_owner(owner_name@)),
{
    is_onscreen && layer == 0 && visible && reasonable_size && !is_skipped_owner(owner_name)
}

} // verus!
