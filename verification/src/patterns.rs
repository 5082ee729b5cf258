//! Which items and functions the built-in CVE detectors look into.
use vstd::prelude::*;

verus! {

/// The kind of a top-level item, as far as the detectors tell kinds apart.
pub enum ItemKind {
    /// A trait declaration: whether it is an `auto` trait and whether it is
    /// declared `unsafe`.
    Trait { is_auto: bool, is_unsafe: bool },
    /// An `impl` block.
    Impl,
    /// A free function.
    Fn,
    /// Any other item.
    Other,
}

/// The fat-pointer layout detectors (CVE-2020-35881) walk non-auto traits,
/// impls and functions, and skip every other item.
pub fn fat_pointer_layout_walks_item(kind: &ItemKind) -> (walks: bool)
    ensures
        walks <==> match *kind {
            ItemKind::Trait { is_auto, .. } => !is_auto,
            ItemKind::Impl | ItemKind::Fn => true,
            ItemKind::Other => false,
        },
{
    match kind {
        ItemKind::Trait { is_auto: false, .. } | ItemKind::Impl | ItemKind::Fn => true,
        _ => false,
    }
}

/// The fat-pointer layout detectors (CVE-2020-35881) only check public
/// functions whose MIR is available.
pub fn fat_pointer_layout_checks_fn(is_public: bool, mir_available: bool) -> (checks: bool)
    ensures
        checks <==> is_public && mir_available,
{
    is_public && mir_available
}

/// The layout-compatibility detector (CVE-2021-27376) walks safe non-auto
/// traits, impls and functions, and skips every other item.
pub fn layout_compatibility_walks_item(kind: &ItemKind) -> (walks: bool)
    ensures
        walks <==> match *kind {
            ItemKind::Trait { is_auto, is_unsafe } => !is_auto && !is_unsafe,
            ItemKind::Impl | ItemKind::Fn => true,
            ItemKind::Other => false,
        },
{
    match kind {
        ItemKind::Trait { is_auto: false, is_unsafe: false } | ItemKind::Impl | ItemKind::Fn => true,
        _ => false,
    }
}

} // verus!
