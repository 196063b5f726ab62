use pdf_android::dry_key::DryKey;
use pdf_android::ovl_budget::{OvlBudget, OVL_BYTE_BUDGET};

fn base() -> DryKey {
    DryKey {
        page: 3,
        zoom_bits: 0x3F800000,
        pan_x: 0,
        pan_y: 0,
        ann_count: 12,
        dark: false,
    }
}

#[test]
fn content_fields_invalidate() {
    let k = base();
    for other in [
        DryKey { page: 4, ..k },
        DryKey {
            zoom_bits: 0x40000000,
            ..k
        },
        DryKey { ann_count: 13, ..k },
        DryKey { dark: true, ..k },
        DryKey { pan_x: 1, ..k },
        DryKey { pan_y: 1, ..k },
    ] {
        assert!(k.invalidates(&other), "debe invalidar: {other:?}");
    }
}

#[test]
fn identical_keys_do_not_invalidate() {
    assert!(!base().invalidates(&base()));
}

#[test]
fn invalidation_is_symmetric() {
    let k = base();
    let other = DryKey { pan_y: -7, ..k };
    assert_eq!(k.invalidates(&other), other.invalidates(&k));
    assert!(other.invalidates(&k));
}

#[test]
fn evicts_lru_front_until_budget() {
    let mut b = OvlBudget::new(100);
    assert!(b.insert(1, 40).is_empty());
    assert!(b.insert(2, 40).is_empty());
    assert_eq!(b.insert(3, 40), vec![1]); // 40+40+40 > 100 → evict 1
}

#[test]
fn touch_promotes_recency() {
    let mut b = OvlBudget::new(100);
    b.insert(1, 40);
    b.insert(2, 40);
    b.touch(1); // 1 pasa a MRU
    assert_eq!(b.insert(3, 40), vec![2]); // víctima ahora 2
}

#[test]
fn oversized_entry_is_dropped() {
    let mut b = OvlBudget::new(50);
    assert!(b.insert(9, 80).is_empty()); // no cabe ni vacía: se descarta
    assert!(b.insert(1, 10).is_empty()); // sigue operativa
}

#[test]
fn contains_reflects_residency() {
    let mut b = OvlBudget::new(100);
    assert!(!b.contains(1));
    b.insert(1, 40);
    assert!(b.contains(1));
    assert!(b.insert(2, 80).contains(&1)); // 40+80 > 100 → evict 1
    assert!(!b.contains(1));
    assert!(b.contains(2));
    b.touch(1); // id no residente: no-op
    assert!(!b.contains(1));
}

#[test]
fn oversized_entry_evicts_everything_first() {
    let mut b = OvlBudget::new(100);
    b.insert(1, 30);
    b.insert(2, 30);
    assert_eq!(b.insert(3, 150), vec![1, 2]);
    assert!(!b.contains(1));
    assert!(!b.contains(2));
    assert!(!b.contains(3));
}

#[test]
fn reinserting_resident_id_replaces_its_entry() {
    let mut b = OvlBudget::new(100);
    b.insert(1, 40);
    b.insert(2, 40);
    // Re-inserting 1 moves it to the back and evicts from the front (2
    // first, then the old entry of 1 itself) until the new size fits.
    assert_eq!(b.insert(1, 90), vec![2, 1]);
    assert!(b.contains(1));
    assert!(!b.contains(2));
}

#[test]
fn overlay_budget_is_eight_mebibytes() {
    assert_eq!(OVL_BYTE_BUDGET, 8 * 1024 * 1024);
}
