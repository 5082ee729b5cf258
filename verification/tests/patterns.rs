use rpl_driver::patterns::{
    fat_pointer_layout_checks_fn, fat_pointer_layout_walks_item, layout_compatibility_walks_item,
    ItemKind,
};
use rpl_driver::ErrorFound;

#[test]
fn fat_pointer_detector_walks_traits_impls_and_fns() {
    assert!(fat_pointer_layout_walks_item(&ItemKind::Trait { is_auto: false, is_unsafe: false }));
    assert!(fat_pointer_layout_walks_item(&ItemKind::Trait { is_auto: false, is_unsafe: true }));
    assert!(!fat_pointer_layout_walks_item(&ItemKind::Trait { is_auto: true, is_unsafe: false }));
    assert!(fat_pointer_layout_walks_item(&ItemKind::Impl));
    assert!(fat_pointer_layout_walks_item(&ItemKind::Fn));
    assert!(!fat_pointer_layout_walks_item(&ItemKind::Other));
}

#[test]
fn layout_detector_skips_unsafe_traits() {
    assert!(layout_compatibility_walks_item(&ItemKind::Trait { is_auto: false, is_unsafe: false }));
    assert!(!layout_compatibility_walks_item(&ItemKind::Trait { is_auto: false, is_unsafe: true }));
    assert!(!layout_compatibility_walks_item(&ItemKind::Trait { is_auto: true, is_unsafe: false }));
    assert!(layout_compatibility_walks_item(&ItemKind::Impl));
    assert!(layout_compatibility_walks_item(&ItemKind::Fn));
    assert!(!layout_compatibility_walks_item(&ItemKind::Other));
}

#[test]
fn fat_pointer_detector_checks_public_fns_with_mir() {
    assert!(fat_pointer_layout_checks_fn(true, true));
    assert!(!fat_pointer_layout_checks_fn(false, true));
    assert!(!fat_pointer_layout_checks_fn(true, false));
    assert!(!fat_pointer_layout_checks_fn(false, false));
}

#[test]
fn error_found_message() {
    assert_eq!(ErrorFound.message(), "An error was found with input RPL pattern(s)");
}
