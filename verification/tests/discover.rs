use pdf_android::discover::{ends_drain, CmdKind};
use pdf_android::discover::{
    feed_cache_key, feed_query, has_more, part_file_name, pdf_file_name, search_cache_key,
    search_key_with, search_query, search_text, ActiveMode, FeedCache, FEED_CACHE_MAX_BYTES,
    FEED_CACHE_TTL_SECS, PAGE_SIZE,
};

#[test]
fn feed_cache_key_stable() {
    assert_eq!(
        feed_cache_key(&["cs.AI".into()], 0),
        feed_cache_key(&["cs.AI".into()], 0)
    );
    assert_eq!(
        feed_cache_key(&["cs.LG".into(), "cs.AI".into()], 25),
        feed_cache_key(&["cs.AI".into(), "cs.LG".into()], 25)
    );
}

#[test]
fn search_cache_key_stable() {
    assert_eq!(
        search_cache_key("attention is all you need", 0),
        search_cache_key("attention is all you need", 0)
    );
}

#[test]
fn feed_key_sorts_and_joins_categories() {
    let cats: Vec<String> = vec!["cs.LG".into(), "cs.AI".into(), "cs.CV".into()];
    assert_eq!(feed_cache_key(&cats, 50), "feed_cs.AI,cs.CV,cs.LG_start_50");
    assert_eq!(feed_cache_key(&[], 0), "feed__start_0");
    assert_eq!(feed_cache_key(&["math.AG".into()], 1234567), "feed_math.AG_start_1234567");
}

#[test]
fn feed_key_orders_prefix_first_and_keeps_duplicates() {
    let cats: Vec<String> = vec!["cs".into(), "c".into(), "cs".into(), "b".into()];
    assert_eq!(feed_cache_key(&cats, 0), "feed_b,c,cs,cs_start_0");
}

#[test]
fn search_key_replaces_non_alphanumerics() {
    assert_eq!(
        search_cache_key("attention is all you need", 0),
        "search_attention_is_all_you_need_start_0"
    );
    assert_eq!(search_cache_key("au:Hinton-G (2006)", 25), "search_au_Hinton_G__2006__start_25");
    // Letters outside ASCII are alphanumeric too.
    assert_eq!(search_cache_key("Schrödinger ψ", 0), "search_Schrödinger_ψ_start_0");
}

#[test]
fn search_key_with_uses_the_given_flags() {
    assert_eq!(search_key_with("a b", &[true, true, false], 7), "search_a __start_7");
}

#[test]
fn feed_query_joins_categories_or_uses_default() {
    assert_eq!(feed_query(&[]), "cat:cs.AI OR cat:cs.LG");
    assert_eq!(feed_query(&["math.AG".into()]), "cat:math.AG");
    assert_eq!(
        feed_query(&["cs.LG".into(), "cs.AI".into()]),
        "cat:cs.LG OR cat:cs.AI"
    );
}

#[test]
fn search_query_adds_all_prefix_unless_field_given() {
    assert_eq!(search_query("graph neural networks"), "all:graph neural networks");
    assert_eq!(search_query("au:Hinton"), "au:Hinton");
}

#[test]
fn search_text_trims_and_drops_empty_requests() {
    assert_eq!(search_text("  transformers \n"), Some("transformers".to_string()));
    assert_eq!(search_text(" \t "), None);
    assert_eq!(search_text(""), None);
    assert_eq!(search_text("a b"), Some("a b".to_string()));
}

#[test]
fn download_names() {
    assert_eq!(pdf_file_name("2101.00001"), "arxiv_2101.00001.pdf");
    assert_eq!(pdf_file_name("hep-th/9901001"), "arxiv_hep-th_9901001.pdf");
    assert_eq!(part_file_name("hep-th/9901001"), "arxiv_hep-th_9901001.pdf.part");
}

#[test]
fn page_is_full_at_page_size() {
    assert_eq!(PAGE_SIZE, 25);
    assert!(has_more(25));
    assert!(has_more(40));
    assert!(!has_more(24));
    assert!(!has_more(0));
}

#[test]
fn feed_cache_limits_and_paths() {
    let c = FeedCache::new("/data/cache/feeds".to_string());
    assert_eq!(c.max_bytes, FEED_CACHE_MAX_BYTES);
    assert_eq!(c.ttl_secs, FEED_CACHE_TTL_SECS);
    assert_eq!(FEED_CACHE_MAX_BYTES, 4 * 1024 * 1024);
    assert_eq!(FEED_CACHE_TTL_SECS, 600);
    assert_eq!(c.file_path("feed_cs.AI_start_0"), "/data/cache/feeds/feed_cs.AI_start_0.json");
    let slash = FeedCache::new("/tmp/".to_string());
    assert_eq!(slash.file_path("k"), "/tmp/k.json");
    let empty = FeedCache::new(String::new());
    assert_eq!(empty.file_path("k"), "k.json");
    assert_eq!(c.file_path("/abs/k"), "/abs/k.json");
}

#[test]
fn expiry_after_ttl() {
    let c = FeedCache::new("d".to_string());
    assert!(!c.is_expired(1000, 400)); // exactly 600 s: still fresh
    assert!(c.is_expired(1001, 400));
    assert!(!c.is_expired(100, 5000)); // stamped in the future
    assert!(c.over_budget(FEED_CACHE_MAX_BYTES + 1));
    assert!(!c.over_budget(FEED_CACHE_MAX_BYTES));
}

#[test]
fn prune_plan_drops_expired_then_oldest() {
    let mut c = FeedCache::new("d".to_string());
    c.max_bytes = 100;
    // (length, mtime)
    let files = [(60, 900), (50, 100), (40, 950), (30, 700), (10, 950)];
    let plan = c.plan_prune(1000, &files);
    assert_eq!(plan.expired, vec![1]); // 1000 - 100 > 600
    assert_eq!(plan.total, 60 + 40 + 30 + 10);
    assert_eq!(plan.evict_order, vec![3, 0, 2, 4]); // oldest first, ties by listing
}

#[test]
fn prune_plan_within_budget_evicts_nothing() {
    let c = FeedCache::new("d".to_string());
    let files = [(1000, 10), (2000, 20)];
    let plan = c.plan_prune(30, &files);
    assert!(plan.expired.is_empty());
    assert_eq!(plan.total, 3000);
    assert!(plan.evict_order.is_empty());
}

#[test]
fn active_mode_pages_forward() {
    let mut m = ActiveMode::Feed { cats: vec!["cs.LG".into(), "cs.AI".into()], start: 25 };
    assert_eq!(m.more_key(), Some("feed_cs.AI,cs.LG_start_25".to_string()));
    assert_eq!(m.more_query(), Some("cat:cs.LG OR cat:cs.AI".to_string()));
    m.advance(25);
    assert_eq!(m.start(), 50);
    assert_eq!(m.more_key(), Some("feed_cs.AI,cs.LG_start_50".to_string()));

    let mut s = ActiveMode::Search { query: "deep learning".into(), start: 10 };
    assert_eq!(s.more_key(), Some("search_deep_learning_start_10".to_string()));
    assert_eq!(s.more_query(), Some("all:deep learning".to_string()));
    s.advance(3);
    assert_eq!(s.start(), 13);

    let mut idle = ActiveMode::Idle;
    assert_eq!(idle.more_key(), None);
    assert_eq!(idle.more_query(), None);
    idle.advance(5);
    assert_eq!(idle.start(), 0);
}

#[test]
fn stop_and_cancel_end_the_drain() {
    assert!(ends_drain(CmdKind::Stop));
    assert!(ends_drain(CmdKind::Cancel));
    for k in [CmdKind::Feed, CmdKind::Search, CmdKind::More, CmdKind::Download] {
        assert!(!ends_drain(k));
    }
}
