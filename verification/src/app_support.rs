//! The restore allowlist: which applications the planner will touch, and
//! which of them get browser-tab capture and restore.

use vstd::prelude::*;

use crate::model::WindowSnapshot;
use crate::text::{opt_view, str_eq};

verus! {

/// Whether windows of an application are restored.
#[derive(Debug, Copy, Clone, PartialEq, Eq, Structural)]
pub enum SupportLevel {
    FullRestore,
    Unsupported,
}

/// Support level of an application and the reason shown to the user.
#[derive(Debug, Copy, Clone)]
pub struct AppSupport {
    pub level: SupportLevel,
    pub reason: &'static str,
}

/// An application on the allowlist.
#[derive(Debug, Copy, Clone)]
pub struct KnownApp {
    pub bundle_id: &'static str,
    pub name: &'static str,
    pub support: AppSupport,
}

/// The characters of a support record.
pub struct AppSupportView {
    pub level: SupportLevel,
    pub reason: Seq<char>,
}

impl View for AppSupport {
    type V = AppSupportView;

    open spec fn view(&self) -> AppSupportView {
        AppSupportView { level: self.level, reason: self.reason@ }
    }
}

/// The characters of an allowlist entry.
pub struct KnownAppView {
    pub bundle_id: Seq<char>,
    pub name: Seq<char>,
    pub level: SupportLevel,
    pub reason: Seq<char>,
}

impl View for KnownApp {
    type V = KnownAppView;

    open spec fn view(&self) -> KnownAppView {
        KnownAppView {
            bundle_id: self.bundle_id@,
            name: self.name@,
            level: self.support.level,
            reason: self.support.reason@,
        }
    }
}

/// The allowlist, in its fixed order.
pub open spec fn spec_known_apps() -> Seq<KnownAppView> {
    seq![
        KnownAppView { bundle_id: "com.microsoft.VSCode"@, name: "Visual Studio Code"@, level: SupportLevel::FullRestore, reason: "VS Code window geometry and z-order restore are currently supported"@ },
        KnownAppView { bundle_id: "com.google.Chrome"@, name: "Google Chrome"@, level: SupportLevel::FullRestore, reason: "Chrome window geometry and z-order restore are enabled"@ },
        KnownAppView { bundle_id: "com.apple.Safari"@, name: "Safari"@, level: SupportLevel::FullRestore, reason: "Safari window geometry and z-order restore are enabled"@ },
        KnownAppView { bundle_id: "com.apple.Terminal"@, name: "Terminal"@, level: SupportLevel::FullRestore, reason: "Terminal window geometry and z-order restore are enabled"@ },
        KnownAppView { bundle_id: "com.googlecode.iterm2"@, name: "iTerm2"@, level: SupportLevel::FullRestore, reason: "iTerm2 window geometry and z-order restore are enabled"@ },
        KnownAppView { bundle_id: "dev.warp.Warp-Stable"@, name: "Warp"@, level: SupportLevel::FullRestore, reason: "Warp window geometry and z-order restore are enabled"@ },
        KnownAppView { bundle_id: "com.todesktop.230313mzl4w4u92"@, name: "Cursor"@, level: SupportLevel::FullRestore, reason: "Cursor window geometry and z-order restore are enabled"@ },
        KnownAppView { bundle_id: "com.apple.dt.Xcode"@, name: "Xcode"@, level: SupportLevel::FullRestore, reason: "Xcode window geometry and z-order restore are enabled"@ },
        KnownAppView { bundle_id: "com.apple.finder"@, name: "Finder"@, level: SupportLevel::FullRestore, reason: "Finder window geometry and z-order restore are enabled"@ },
        KnownAppView { bundle_id: "com.apple.Notes"@, name: "Notes"@, level: SupportLevel::FullRestore, reason: "Notes window geometry and z-order restore are enabled"@ },
        KnownAppView { bundle_id: "com.apple.Music"@, name: "Music"@, level: SupportLevel::FullRestore, reason: "Music window geometry and z-order restore are enabled"@ },
        KnownAppView { bundle_id: "com.apple.MobileSMS"@, name: "Messages"@, level: SupportLevel::FullRestore, reason: "Messages window geometry and z-order restore are enabled"@ },
        KnownAppView { bundle_id: "com.google.Chrome.canary"@, name: "Google Chrome Canary"@, level: SupportLevel::FullRestore, reason: "Chrome Canary window geometry, z-order and tab restore are enabled"@ },
        KnownAppView { bundle_id: "com.brave.Browser"@, name: "Brave Browser"@, level: SupportLevel::FullRestore, reason: "Brave window geometry, z-order and tab restore are enabled"@ },
        KnownAppView { bundle_id: "com.microsoft.edgemac"@, name: "Microsoft Edge"@, level: SupportLevel::FullRestore, reason: "Edge window geometry, z-order and tab restore are enabled"@ },
        KnownAppView { bundle_id: "org.chromium.Chromium"@, name: "Chromium"@, level: SupportLevel::FullRestore, reason: "Chromium window geometry, z-order and tab restore are enabled"@ }
    ]
}

/// Support given to a bundle identifier that is not on the allowlist.
pub open spec fn unknown_bundle_support() -> AppSupportView {
    AppSupportView {
        level: SupportLevel::Unsupported,
        reason: "this app is not in the supported restore allowlist yet"@,
    }
}

/// Support given to a window without a bundle identifier.
pub open spec fn missing_bundle_support() -> AppSupportView {
    AppSupportView {
        level: SupportLevel::Unsupported,
        reason: "windows without bundle identifiers are not restored yet"@,
    }
}

/// The first entry of `apps` with bundle identifier `id`.
pub open spec fn find_app(apps: Seq<KnownAppView>, id: Seq<char>) -> Option<KnownAppView>
    decreases apps.len(),
{
    if apps.len() == 0 {
        None
    } else if apps[0].bundle_id == id {
        Some(apps[0])
    } else {
        find_app(apps.drop_first(), id)
    }
}

/// Support for an optional bundle identifier: the allowlist entry's support
/// when there is one, else the unknown or missing-bundle support.
pub open spec fn spec_support_for(bundle_id: Option<Seq<char>>) -> AppSupportView {
    match bundle_id {
        Some(id) => match find_app(spec_known_apps(), id) {
            Some(app) => AppSupportView { level: app.level, reason: app.reason },
            None => unknown_bundle_support(),
        },
        None => missing_bundle_support(),
    }
}

/// The allowlist entries, in order.
pub fn known_apps() -> (r: Vec<KnownApp>)
    ensures
        r@.map_values(|a: KnownApp| a@) == spec_known_apps(),
{
    let mut apps: Vec<KnownApp> = Vec::new();
    apps.push(KnownApp { bundle_id: "com.microsoft.VSCode", name: "Visual Studio Code", support: AppSupport { level: SupportLevel::FullRestore, reason: "VS Code window geometry and z-order restore are currently supported" } });
    apps.push(KnownApp { bundle_id: "com.google.Chrome", name: "Google Chrome", support: AppSupport { level: SupportLevel::FullRestore, reason: "Chrome window geometry and z-order restore are enabled" } });
    apps.push(KnownApp { bundle_id: "com.apple.Safari", name: "Safari", support: AppSupport { level: SupportLevel::FullRestore, reason: "Safari window geometry and z-order restore are enabled" } });
    apps.push(KnownApp { bundle_id: "com.apple.Terminal", name: "Terminal", support: AppSupport { level: SupportLevel::FullRestore, reason: "Terminal window geometry and z-order restore are enabled" } });
    apps.push(KnownApp { bundle_id: "com.googlecode.iterm2", name: "iTerm2", support: AppSupport { level: SupportLevel::FullRestore, reason: "iTerm2 window geometry and z-order restore are enabled" } });
    apps.push(KnownApp { bundle_id: "dev.warp.Warp-Stable", name: "Warp", support: AppSupport { level: SupportLevel::FullRestore, reason: "Warp window geometry and z-order restore are enabled" } });
    apps.push(KnownApp { bundle_id: "com.todesktop.230313mzl4w4u92", name: "Cursor", support: AppSupport { level: SupportLevel::FullRestore, reason: "Cursor window geometry and z-order restore are enabled" } });
    apps.push(KnownApp { bundle_id: "com.apple.dt.Xcode", name: "Xcode", support: AppSupport { level: SupportLevel::FullRestore, reason: "Xcode window geometry and z-order restore are enabled" } });
    apps.push(KnownApp { bundle_id: "com.apple.finder", name: "Finder", support: AppSupport { level: SupportLevel::FullRestore, reason: "Finder window geometry and z-order restore are enabled" } });
    apps.push(KnownApp { bundle_id: "com.apple.Notes", name: "Notes", support: AppSupport { level: SupportLevel::FullRestore, reason: "Notes window geometry and z-order restore are enabled" } });
    apps.push(KnownApp { bundle_id: "com.apple.Music", name: "Music", support: AppSupport { level: SupportLevel::FullRestore, reason: "Music window geometry and z-order restore are enabled" } });
    apps.push(KnownApp { bundle_id: "com.apple.MobileSMS", name: "Messages", support: AppSupport { level: SupportLevel::FullRestore, reason: "Messages window geometry and z-order restore are enabled" } });
    apps.push(KnownApp { bundle_id: "com.google.Chrome.canary", name: "Google Chrome Canary", support: AppSupport { level: SupportLevel::FullRestore, reason: "Chrome Canary window geometry, z-order and tab restore are enabled" } });
    apps.push(KnownApp { bundle_id: "com.brave.Browser", name: "Brave Browser", support: AppSupport { level: SupportLevel::FullRestore, reason: "Brave window geometry, z-order and tab restore are enabled" } });
    apps.push(KnownApp { bundle_id: "com.microsoft.edgemac", name: "Microsoft Edge", support: AppSupport { level: SupportLevel::FullRestore, reason: "Edge window geometry, z-order and tab restore are enabled" } });
    apps.push(KnownApp { bundle_id: "org.chromium.Chromium", name: "Chromium", support: AppSupport { level: SupportLevel::FullRestore, reason: "Chromium window geometry, z-order and tab restore are enabled" } });
    assert(apps@.map_values(|a: KnownApp| a@) =~= spec_known_apps());
    apps
}

/// Support for a bundle identifier.
pub fn support_for_bundle_id(bundle_id: Option<&str>) -> (r: AppSupport)
    ensures
        r@ == spec_support_for(match bundle_id { Some(s) => Some(s@), None => None }),
{
    match bundle_id {
        None => AppSupport {
            level: SupportLevel::Unsupported,
            reason: "windows without bundle identifiers are not restored yet",
        },
        Some(id) => {
            let apps = known_apps();
            let ghost all = apps@.map_values(|a: KnownApp| a@);
            let mut i: usize = 0;
            assert(all.subrange(0, all.len() as int) =~= all);
            while i < apps.len()
                invariant
                    i <= apps.len(),
                    bundle_id == Some(id),
                    all == apps@.map_values(|a: KnownApp| a@),
                    all == spec_known_apps(),
                    find_app(all, id@) == find_app(all.subrange(i as int, all.len() as int), id@),
                decreases apps.len() - i,
            {
                let app = apps[i];
                let ghost rest = all.subrange(i as int, all.len() as int);
                assert(rest[0] == app@);
                assert(rest.drop_first() =~= all.subrange(i + 1, all.len() as int));
                if str_eq(app.bundle_id, id) {
                    assert(find_app(rest, id@) == Some(rest[0]));
                    assert(spec_support_for(Some(id@)) == app.support@);
                    return app.support;
                }
                i = i + 1;
            }
            assert(all.subrange(i as int, all.len() as int).len() == 0);
            AppSupport {
                level: SupportLevel::Unsupported,
                reason: "this app is not in the supported restore allowlist yet",
            }
        },
    }
}

/// Support for a saved window, by its bundle identifier.
pub fn support_for_window(window: &WindowSnapshot) -> (r: AppSupport)
    ensures
        r@ == spec_support_for(opt_view(window.bundle_id)),
{
    match &window.bundle_id {
        Some(b) => support_for_bundle_id(Some(b.as_str())),
        None => support_for_bundle_id(None),
    }
}

/// The allowlist entries whose support level is full restore, in order.
pub fn full_restore_apps() -> (r: Vec<KnownApp>)
    ensures
        r@.map_values(|a: KnownApp| a@) == spec_known_apps().filter(
            |a: KnownAppView| a.level == SupportLevel::FullRestore,
        ),
{
    let apps = known_apps();
    let ghost all = apps@.map_values(|a: KnownApp| a@);
    let ghost pred = |a: KnownAppView| a.level == SupportLevel::FullRestore;
    let mut out: Vec<KnownApp> = Vec::new();
    let mut i: usize = 0;
    while i < apps.len()
        invariant
            i <= apps.len(),
            all == apps@.map_values(|a: KnownApp| a@),
            all == spec_known_apps(),
            pred == (|a: KnownAppView| a.level == SupportLevel::FullRestore),
            out@.map_values(|a: KnownApp| a@) == all.subrange(0, i as int).filter(pred),
        decreases apps.len() - i,
    {
        let app = apps[i];
        let ghost next = all.subrange(0, i + 1);
        proof {
            reveal_with_fuel(Seq::<_>::filter, 1);
            assert(next.drop_last() =~= all.subrange(0, i as int));
            assert(next.last() == app@);
            assert(next.filter(pred) == if pred(app@) {
                all.subrange(0, i as int).filter(pred).push(app@)
            } else {
                all.subrange(0, i as int).filter(pred)
            });
        }
        let full = match app.support.level {
            SupportLevel::FullRestore => true,
            SupportLevel::Unsupported => false,
        };
        if full {
            assert(pred(app@));
            out.push(app);
            assert(out@.map_values(|a: KnownApp| a@) =~= all.subrange(0, i as int).filter(pred).push(app@));
            assert(out@.map_values(|a: KnownApp| a@) == next.filter(pred));
        } else {
            assert(!pred(app@));
            assert(out@.map_values(|a: KnownApp| a@) == next.filter(pred));
        }
        i = i + 1;
    }
    assert(all.subrange(0, apps.len() as int) =~= all);
    out
}

/// Chromium-family browsers: their windows' tabs are captured and restored.
pub open spec fn spec_is_tab_capable(bundle_id: Option<Seq<char>>) -> bool {
    match bundle_id {
        Some(id) => {
    ||| id == "com.google.Chrome"@
    ||| id == "com.google.Chrome.canary"@
    ||| id == "com.brave.Browser"@
    ||| id == "com.microsoft.edgemac"@
    ||| id == "org.chromium.Chromium"@
        },
        None => false,
    }
}

/// Whether a bundle identifier belongs to a Chromium-family browser.
pub fn is_tab_capable(bundle_id: Option<&str>) -> (r: bool)
    ensures
        r == spec_is_tab_capable(match bundle_id { Some(s) => Some(s@), None => None }),
{
    match bundle_id {
        Some(id) => str_eq(id, "com.google.Chrome") || str_eq(id, "com.google.Chrome.canary") || str_eq(id, "com.brave.Browser") || str_eq(id, "com.microsoft.edgemac") || str_eq(id, "org.chromium.Chromium"),
        None => false,
    }
}

} // verus!
