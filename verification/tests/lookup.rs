use ip_lookup::Error;
use ip_lookup::HotReloadState;
use ip_lookup::IPRangeDirectLookup;
use ip_lookup::IPRangeEntry;
use ip_lookup::IPRangeHashMap;
use ip_lookup::RangeIndex;
use ip_lookup::ReloadAction;
use ip_lookup::insert_dataset_line;
use ip_lookup::load_dataset;
use ip_lookup::mask_for;
use ip_lookup::parse_cidr;
use ip_lookup::parse_dataset_line;
use ip_lookup::parse_ipv4;
use ip_lookup::rebuild_generation;

#[test]
fn test_direct_lookup() {
    // Create the direct lookup with 20 index bits (~1 million entries).
    let mut lookup = IPRangeDirectLookup::new(20);
    lookup.insert_range("192.168.1.0/24", "ISP1", "ASN1").unwrap();
    lookup.build_table();

    // Lookup an IP address in the range, e.g. 192.168.1.42.
    let ip: u32 = 0xc0a8012a;
    let result = lookup.search(ip);
    assert!(result.is_some());
    let ip_range = result.unwrap();
    assert_eq!(ip_range.cidr_range, "192.168.1.0/24".to_string());
}

#[test]
fn parse_cidr_valid() {
    assert_eq!(parse_cidr("10.0.0.0/8"), Ok((0x0A000000, 8)));
    assert_eq!(parse_cidr("192.168.1.0/24"), Ok((0xC0A80100, 24)));
    assert_eq!(parse_cidr("0.0.0.0/0"), Ok((0, 0)));
    assert_eq!(parse_cidr("255.255.255.255/32"), Ok((0xFFFFFFFF, 32)));
}

#[test]
fn parse_cidr_rejects_malformed() {
    assert!(parse_cidr("not-a-cidr").is_err());
    assert!(parse_cidr("10.0.0.0").is_err());
    assert!(parse_cidr("10.0.0.0/8/9").is_err());
    assert!(parse_cidr("256.0.0.0/8").is_err());
    assert!(parse_cidr("10.0.0/8").is_err());
    assert!(parse_cidr("10.0.0.0.0/8").is_err());
    assert!(parse_cidr("10.0.0.0/33").is_err());
    assert!(parse_cidr("10.0.0.0/").is_err());
    assert!(parse_cidr("/8").is_err());
    assert!(parse_cidr("01.2.3.4/8").is_err());
    assert!(parse_cidr("1.2.3.4/ 8").is_err());
    assert!(parse_cidr("").is_err());
}

#[test]
fn parse_ipv4_values() {
    assert_eq!(parse_ipv4("192.168.1.42"), Some(0xC0A8012A));
    assert_eq!(parse_ipv4("0.0.0.0"), Some(0));
    assert_eq!(parse_ipv4("8.8.8.8"), Some(0x08080808));
    assert_eq!(parse_ipv4("1.2.3"), None);
    assert_eq!(parse_ipv4("1.2.3.4.5"), None);
    assert_eq!(parse_ipv4("1..2.3"), None);
    assert_eq!(parse_ipv4("999.1.1.1"), None);
}

#[test]
fn mask_values() {
    assert_eq!(mask_for(0), 0);
    assert_eq!(mask_for(8), 0xFF000000);
    assert_eq!(mask_for(16), 0xFFFF0000);
    assert_eq!(mask_for(24), 0xFFFFFF00);
    assert_eq!(mask_for(32), 0xFFFFFFFF);
}

#[test]
fn entry_construction() {
    let e = IPRangeEntry::new("10.1.0.0/16", "Acme", "AS64500").unwrap();
    assert_eq!(e.network, 0x0A010000);
    assert_eq!(e.prefix, 16);
    assert_eq!(e.mask(), 0xFFFF0000);
    assert_eq!(e.ip_range.isp, "Acme".to_string());
    assert_eq!(e.ip_range.asn, "AS64500".to_string());
    assert!(IPRangeEntry::new("10.1/16", "x", "y").is_err());
}

#[test]
fn overlap_longer_prefix_wins_direct() {
    let mut lookup = IPRangeDirectLookup::new(20);
    lookup.insert_range("10.0.0.0/8", "ISP_A", "AS1").unwrap();
    lookup.insert_range("10.1.0.0/16", "ISP_B", "AS2").unwrap();
    lookup.build_table();
    // 10.1.2.3 lies in both ranges; the /16 is more specific.
    let rec = lookup.search(0x0A010203).unwrap();
    assert_eq!(rec.cidr_range, "10.1.0.0/16".to_string());
    // 10.2.3.4 lies only in the /8.
    let rec8 = lookup.search(0x0A020304).unwrap();
    assert_eq!(rec8.cidr_range, "10.0.0.0/8".to_string());
}

#[test]
fn overlap_longer_prefix_wins_buckets() {
    let mut lookup = IPRangeHashMap::new();
    lookup.insert_range("10.0.0.0/8", "ISP_A", "AS1").unwrap();
    lookup.insert_range("10.1.0.0/16", "ISP_B", "AS2").unwrap();
    let rec = lookup.search(0x0A010203).unwrap();
    assert_eq!(rec.cidr_range, "10.1.0.0/16".to_string());
    let rec8 = lookup.search(0x0A020304).unwrap();
    assert_eq!(rec8.cidr_range, "10.0.0.0/8".to_string());
}

#[test]
fn insertion_order_does_not_change_overlap_winner() {
    let mut lookup = IPRangeHashMap::new();
    lookup.insert_range("10.1.0.0/16", "ISP_B", "AS2").unwrap();
    lookup.insert_range("10.0.0.0/8", "ISP_A", "AS1").unwrap();
    let rec = lookup.search(0x0A010203).unwrap();
    assert_eq!(rec.cidr_range, "10.1.0.0/16".to_string());
}

#[test]
fn disjoint_ranges_bucket_exactness() {
    let mut lookup = IPRangeHashMap::new();
    lookup.insert_range("10.0.0.0/8", "ISP_A", "AS1").unwrap();
    lookup.insert_range("192.168.0.0/16", "ISP_B", "AS2").unwrap();
    lookup.insert_range("172.16.0.0/12", "ISP_C", "AS3").unwrap();
    let a = lookup.search(0x0A123456).unwrap();
    assert_eq!(a.isp, "ISP_A".to_string());
    let b = lookup.search(0xC0A80101).unwrap();
    assert_eq!(b.isp, "ISP_B".to_string());
    let c = lookup.search(0xAC100001).unwrap();
    assert_eq!(c.isp, "ISP_C".to_string());
    // 8.8.8.8 lies in none of them.
    assert!(lookup.search(0x08080808).is_none());
}

#[test]
fn direct_lookup_miss_returns_none() {
    let mut lookup = IPRangeDirectLookup::new(8);
    lookup.insert_range("10.0.0.0/8", "ISP_A", "AS1").unwrap();
    lookup.build_table();
    assert!(lookup.search(0x0B000001).is_none());
    assert!(lookup.search(0x0A000001).is_some());
}

#[test]
fn direct_lookup_documented_approximation() {
    // With index_bits below the prefix length, a boundary slot claims
    // addresses just outside the range: 192.168.0.0 shares the 20-bit slot
    // of 192.168.1.0/24.
    let mut lookup = IPRangeDirectLookup::new(20);
    lookup.insert_range("192.168.1.0/24", "ISP1", "AS1").unwrap();
    lookup.build_table();
    assert!(lookup.search(0xC0A80000).is_some());
    // With index_bits at least the prefix length the table is exact.
    let mut exact = IPRangeDirectLookup::new(24);
    exact.insert_range("192.168.1.0/24", "ISP1", "AS1").unwrap();
    exact.build_table();
    assert!(exact.search(0xC0A80000).is_none());
    assert!(exact.search(0xC0A80100).is_some());
}

#[test]
fn malformed_insert_leaves_index_unchanged() {
    let mut direct = IPRangeDirectLookup::new(16);
    direct.insert_range("10.0.0.0/8", "ISP_A", "AS1").unwrap();
    assert!(direct.insert_range("not-a-cidr", "x", "y").is_err());
    direct.build_table();
    let rec = direct.search(0x0A000001).unwrap();
    assert_eq!(rec.isp, "ISP_A".to_string());

    let mut buckets = IPRangeHashMap::new();
    buckets.insert_range("10.0.0.0/8", "ISP_A", "AS1").unwrap();
    assert!(buckets.insert_range("not-a-cidr", "x", "y").is_err());
    let rec = buckets.search(0x0A000001).unwrap();
    assert_eq!(rec.isp, "ISP_A".to_string());
    assert!(buckets.search(0x08080808).is_none());
}

#[test]
fn build_table_idempotent() {
    let mut lookup = IPRangeDirectLookup::new(12);
    lookup.insert_range("10.0.0.0/8", "ISP_A", "AS1").unwrap();
    lookup.insert_range("10.1.0.0/16", "ISP_B", "AS2").unwrap();
    lookup.build_table();
    let before: Vec<Option<String>> = (0u32..4096)
        .map(|slot| lookup.search(slot << 20).map(|r| r.cidr_range.clone()))
        .collect();
    lookup.build_table();
    let after: Vec<Option<String>> = (0u32..4096)
        .map(|slot| lookup.search(slot << 20).map(|r| r.cidr_range.clone()))
        .collect();
    assert_eq!(before, after);
}

#[test]
fn dataset_line_parsing() {
    let r = parse_dataset_line("1.2.3.0/24, \"Acme Corp\" , AS13335 , extra").unwrap();
    assert_eq!(r.0, "1.2.3.0/24".to_string());
    assert_eq!(r.1, "Acme Corp".to_string());
    assert_eq!(r.2, "AS13335".to_string());
    // Fewer than four fields: skipped.
    assert!(parse_dataset_line("1.2.3.0/24, Acme, AS13335").is_none());
    assert!(parse_dataset_line("").is_none());
    // The fourth field may be empty.
    assert!(parse_dataset_line("1.2.3.0/24,Acme,AS13335,").is_some());
}

#[test]
fn dataset_loading_skips_bad_lines() {
    let lines: Vec<String> = vec![
        "10.0.0.0/8, ISP_A, AS1, note".to_string(),
        "short,line".to_string(),
        "bogus/99, ISP_X, AS9, note".to_string(),
        "192.168.0.0/16, \"ISP_B\", AS2, note".to_string(),
    ];
    let mut lookup = IPRangeDirectLookup::new(16);
    load_dataset(&mut lookup, &lines);
    lookup.build_table();
    assert_eq!(lookup.search(0x0A000001).unwrap().isp, "ISP_A".to_string());
    assert_eq!(lookup.search(0xC0A80001).unwrap().isp, "ISP_B".to_string());
    assert!(lookup.search(0x08080808).is_none());
}

#[test]
fn dataset_lines_into_buckets() {
    let mut lookup = IPRangeHashMap::new();
    assert!(insert_dataset_line(&mut lookup, "10.0.0.0/8, ISP_A, AS1, note"));
    assert!(!insert_dataset_line(&mut lookup, "short,line"));
    assert!(!insert_dataset_line(&mut lookup, "bogus/99, ISP_X, AS9, note"));
    assert!(insert_dataset_line(&mut lookup, "192.168.0.0/16, \"ISP_B\", AS2, note"));
    assert_eq!(lookup.search(0x0A000001).unwrap().isp, "ISP_A".to_string());
    assert_eq!(lookup.search(0xC0A80001).unwrap().isp, "ISP_B".to_string());
    assert!(lookup.search(0x08080808).is_none());
}

#[test]
fn reload_decisions() {
    let mut st = HotReloadState::new(None);
    // Unreadable timestamp: nothing changes.
    assert_eq!(st.observe(None), ReloadAction::Keep);
    // First observation is recorded without a rebuild.
    assert_eq!(st.observe(Some(100)), ReloadAction::Keep);
    // Unchanged timestamp: keep.
    assert_eq!(st.observe(Some(100)), ReloadAction::Keep);
    // A later timestamp asks for a rebuild; it is recorded only after a
    // successful publication.
    assert_eq!(st.observe(Some(150)), ReloadAction::Rebuild);
    assert_eq!(st.observe(Some(150)), ReloadAction::Rebuild);
    st.mark_published(150);
    assert_eq!(st.observe(Some(150)), ReloadAction::Keep);
}

#[test]
fn hot_swap_serves_one_generation() {
    // Generation A is built and published.
    let lines_a: Vec<String> = vec!["10.0.0.0/8, ISP_A, AS1, note".to_string()];
    let mut published = rebuild_generation(&lines_a, 16);
    assert_eq!(published.search(0x0A000001).unwrap().isp, "ISP_A".to_string());

    // The dataset changes; a replacement generation is built entirely off to
    // the side while the old one keeps serving.
    let lines_b: Vec<String> = vec!["10.0.0.0/8, ISP_B, AS1, note".to_string()];
    let gen_b = rebuild_generation(&lines_b, 16);
    assert_eq!(published.search(0x0A000001).unwrap().isp, "ISP_A".to_string());

    // One whole-value swap; every later search observes only the new data.
    published = gen_b;
    assert_eq!(published.search(0x0A000001).unwrap().isp, "ISP_B".to_string());
}

#[test]
fn strategy_selection() {
    let mut direct = RangeIndex::new_direct(20);
    direct.insert_range("10.1.0.0/16", "ISP_B", "AS2").unwrap();
    direct.insert_range("10.0.0.0/8", "ISP_A", "AS1").unwrap();
    direct.build();
    assert_eq!(direct.search(0x0A010203).unwrap().isp, "ISP_B".to_string());

    let mut buckets = RangeIndex::new_buckets();
    buckets.insert_range("10.1.0.0/16", "ISP_B", "AS2").unwrap();
    buckets.insert_range("10.0.0.0/8", "ISP_A", "AS1").unwrap();
    // The bucket index is queryable without a build.
    assert_eq!(buckets.search(0x0A010203).unwrap().isp, "ISP_B".to_string());
    buckets.build();
    assert_eq!(buckets.search(0x0A010203).unwrap().isp, "ISP_B".to_string());
    assert!(buckets.search(0x0B000001).is_none());
    assert!(buckets.insert_range("nonsense", "x", "y").is_err());
}

#[test]
fn error_messages() {
    assert_eq!(Error::NotFound.message(), "IP range not found");
    assert_eq!(Error::InvalidDate.message(), "Invalid IP address");
}
