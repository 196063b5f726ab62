use pdf_android::textures::{FadeTexture, OverlayTextures};

#[test]
fn overlay_miss_then_hit() {
    let mut t = OverlayTextures::new();
    assert_eq!(t.lookup(1), None);
    let (gone, fits) = t.reserve(1, 400);
    assert!(gone.is_empty());
    assert!(fits);
    t.record(77);
    assert_eq!(t.lookup(1), Some(77));
}

#[test]
fn overlay_eviction_returns_textures_to_delete() {
    let mut t = OverlayTextures::new();
    let big = 3 * 1024 * 1024; // three of these exceed the 8 MiB budget
    for (id, tex) in [(1u64, 11u32), (2, 12)] {
        let (gone, fits) = t.reserve(id, big);
        assert!(gone.is_empty() && fits);
        t.record(tex);
    }
    assert_eq!(t.lookup(1), Some(11)); // 1 becomes most recent: 2 is the victim
    let (gone, fits) = t.reserve(3, big);
    assert_eq!(gone, vec![12]);
    assert!(fits);
    t.record(13);
    assert_eq!(t.lookup(2), None);
    assert_eq!(t.lookup(1), Some(11));
    assert_eq!(t.lookup(3), Some(13));
}

#[test]
fn oversized_overlay_is_not_uploaded() {
    let mut t = OverlayTextures::new();
    let (_, fits) = t.reserve(1, 100);
    assert!(fits);
    t.record(5);
    let (gone, fits) = t.reserve(2, 9 * 1024 * 1024);
    assert_eq!(gone, vec![5]);
    assert!(!fits);
    assert_eq!(t.lookup(1), None);
    assert_eq!(t.lookup(2), None);
}

#[test]
fn fade_texture_reuse_and_replace() {
    let mut f = FadeTexture::new();
    assert_eq!(f.cached(1), None);
    assert_eq!(f.replace(1, 40), None);
    assert_eq!(f.cached(1), Some(40));
    assert_eq!(f.cached(2), None);
    assert_eq!(f.replace(2, 41), Some(40));
    assert_eq!(f.take(), Some(41));
    assert_eq!(f.take(), None);
}
