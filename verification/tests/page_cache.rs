use pdf_android::bitmap::Bitmap;
use pdf_android::page_cache::{
    CachedPage, PageCache, CACHE_BYTE_BUDGET, CACHE_MAX_ENTRIES, EVICT_SLACK,
};

fn page(w: u32, h: u32, tag: u8) -> CachedPage {
    CachedPage {
        bitmap: Bitmap { width: w, height: h, data: vec![tag; (w * h * 4) as usize] },
        full_w: w * 2,
        full_h: h,
        crop_x: w / 2,
        crop_y: 0,
    }
}

#[test]
fn documented_limits() {
    assert_eq!(CACHE_BYTE_BUDGET, 48 * 1024 * 1024);
    assert_eq!(CACHE_MAX_ENTRIES, 5);
    assert_eq!(EVICT_SLACK, 32 * 1024 * 1024);
}

#[test]
fn insert_then_get_returns_page() {
    let mut c = PageCache::new(1000, 3);
    c.insert(7, page(2, 2, 9));
    assert_eq!(c.len(), 1);
    assert_eq!(c.resident_bytes(), 16);
    let got = c.get(7).expect("resident");
    assert_eq!(got.bitmap.data[0], 9);
    assert_eq!(got.crop_x, 1);
    assert!(c.get(8).is_none());
    assert_eq!(c.insert_count(), 1);
}

#[test]
fn entry_cap_evicts_least_recent() {
    let mut c = PageCache::new(1000, 2);
    c.insert(1, page(1, 1, 1));
    c.insert(2, page(1, 1, 2));
    c.insert(3, page(1, 1, 3));
    assert!(c.peek(1).is_none());
    assert_eq!(c.len(), 2);
    c.get(2); // 2 becomes most recent
    c.insert(4, page(1, 1, 4));
    assert!(c.peek(3).is_none());
    assert!(c.peek(2).is_some());
    assert!(c.peek(4).is_some());
    assert_eq!(c.insert_count(), 4);
}

#[test]
fn reinsert_replaces_bytes() {
    let mut c = PageCache::new(1000, 3);
    c.insert(1, page(2, 2, 1));
    c.insert(1, page(1, 1, 5));
    assert_eq!(c.len(), 1);
    assert_eq!(c.resident_bytes(), 4);
    assert_eq!(c.peek(1).unwrap().bitmap.data[0], 5);
}

#[test]
fn trim_reaches_strict_budget() {
    let mut c = PageCache::new(16, 5);
    c.insert(1, page(2, 1, 1));
    c.insert(2, page(2, 1, 2));
    c.insert(3, page(2, 1, 3));
    assert_eq!(c.resident_bytes(), 24); // insert defers eviction (slack)
    c.trim_to_budget();
    assert_eq!(c.resident_bytes(), 16);
    assert!(c.peek(1).is_none());
    assert!(c.peek(3).is_some());
}

#[test]
fn clear_empties() {
    let mut c = PageCache::new(100, 5);
    c.insert(1, page(1, 1, 1));
    c.clear();
    assert_eq!(c.len(), 0);
    assert_eq!(c.resident_bytes(), 0);
    assert!(c.peek(1).is_none());
}
