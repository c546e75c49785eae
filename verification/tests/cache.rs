use hermes::authority::Authority;
use hermes::cache::Cache;
use hermes::context::ServerStatistics;
use hermes::filter::DnsFilter;
use hermes::protocol::{DnsPacket, DnsRecord, Ipv4Addr, QueryType, ResultCode};

#[test]
fn test_cache_ttl_decay() {
    let mut cache = Cache::new();
    let records = vec![DnsRecord::A {
        domain: "example.com".to_string(),
        addr: Ipv4Addr::new(10, 0, 0, 1),
        ttl: 300,
    }];
    let t0: u64 = 1_000_000;
    cache.store_at(&records, t0);

    // right away the record still carries its full TTL
    let hit = cache.lookup_at("example.com", QueryType::A, t0).unwrap();
    assert_eq!(1, hit.answers.len());
    assert_eq!(300, hit.answers[0].get_ttl());

    // two minutes later, two minutes less
    let hit = cache
        .lookup_at("example.com", QueryType::A, t0 + 120_000)
        .unwrap();
    assert_eq!(180, hit.answers[0].get_ttl());

    // after five minutes the entry is treated as absent
    assert!(cache
        .lookup_at("example.com", QueryType::A, t0 + 300_000)
        .is_none());
}

#[test]
fn test_cache_negative_entry() {
    let mut cache = Cache::new();
    let t0: u64 = 5_000;
    cache.store_nxdomain_at("gone.example.com", QueryType::A, 3600, t0);

    // the negative entry holds for its full TTL
    let hit = cache
        .lookup_at("gone.example.com", QueryType::A, t0 + 3_599_000)
        .unwrap();
    assert_eq!(ResultCode::NXDOMAIN, hit.header.rescode);
    assert_eq!(0, hit.answers.len());

    // and expires afterwards
    assert!(cache
        .lookup_at("gone.example.com", QueryType::A, t0 + 3_600_000)
        .is_none());
}

#[test]
fn test_cache_store_replaces_and_deduplicates() {
    let mut cache = Cache::new();
    let rec = DnsRecord::A {
        domain: "example.com".to_string(),
        addr: Ipv4Addr::new(10, 0, 0, 1),
        ttl: 300,
    };
    // the same record twice collapses to one
    cache.store_at(&vec![rec.clone(), rec.clone()], 0);
    let hit = cache.lookup_at("example.com", QueryType::A, 0).unwrap();
    assert_eq!(1, hit.answers.len());

    // a later store replaces the set instead of merging
    let newer = DnsRecord::A {
        domain: "example.com".to_string(),
        addr: Ipv4Addr::new(10, 0, 0, 2),
        ttl: 300,
    };
    cache.store_at(&vec![newer], 0);
    let hit = cache.lookup_at("example.com", QueryType::A, 0).unwrap();
    assert_eq!(1, hit.answers.len());
    match &hit.answers[0] {
        DnsRecord::A { addr, .. } => assert_eq!("10.0.0.2", addr.to_string()),
        _ => panic!(),
    }
}

#[test]
fn test_cache_list_is_sorted_by_domain() {
    let mut cache = Cache::new();
    let records = vec![
        DnsRecord::A {
            domain: "zebra.example".to_string(),
            addr: Ipv4Addr::new(10, 0, 0, 1),
            ttl: 300,
        },
        DnsRecord::A {
            domain: "alpha.example".to_string(),
            addr: Ipv4Addr::new(10, 0, 0, 2),
            ttl: 300,
        },
        DnsRecord::A {
            domain: "mid.example".to_string(),
            addr: Ipv4Addr::new(10, 0, 0, 3),
            ttl: 300,
        },
    ];
    cache.store_at(&records, 0);
    let list = cache.list().unwrap();
    assert_eq!(3, list.len());
    assert_eq!("alpha.example", &list[0].domain);
    assert_eq!("mid.example", &list[1].domain);
    assert_eq!("zebra.example", &list[2].domain);
}

#[test]
fn test_cache_root_zone_normalization() {
    let mut cache = Cache::new();
    // a record whose domain is empty is stored under the root zone name
    let records = vec![DnsRecord::NS {
        domain: "".to_string(),
        host: "a.root-servers.net".to_string(),
        ttl: 3600,
    }];
    cache.store_at(&records, 0);
    assert!(cache.lookup_at(".", QueryType::NS, 0).is_some());
    assert!(cache.lookup_at("", QueryType::NS, 0).is_some());
}

#[test]
fn test_filter_rules() {
    let mut filter = DnsFilter::new();
    filter.add_rule("! a comment".to_string());
    filter.add_rule("||ads.example.com^".to_string());
    filter.add_rule("http://tracker.example.com/".to_string());
    filter.add_rule("@@allowed.example.com".to_string());
    filter.add_rule("/banner".to_string());
    filter.add_rule("script.example.js".to_string());
    filter.add_rule("plain.example.com".to_string());

    assert!(filter.contains("ads.example.com"));
    assert!(filter.contains("tracker.example.com"));
    assert!(filter.contains("plain.example.com"));
    assert!(!filter.contains("allowed.example.com"));
    assert!(!filter.contains("script.example.js"));
    assert!(!filter.contains("banner"));
    assert!(!filter.contains("other.example.com"));
}

#[test]
fn test_statistics_counters() {
    let mut stats = ServerStatistics::new();
    assert_eq!(0, stats.get_udp_query_count());
    assert_eq!(0, stats.get_tcp_query_count());

    stats.add_request_time(10, true);
    stats.add_request_time(30, true);
    stats.add_request_time(5, false);

    assert_eq!(2, stats.get_udp_query_count());
    assert_eq!(1, stats.get_tcp_query_count());
    assert_eq!(5, stats.min_request_time);
    assert_eq!(30, stats.max_request_time);
    // the running average of 10, 30 and 5, rounded down at each step
    assert_eq!(15, stats.avg_request_time);
}

#[test]
fn test_authority_query() {
    let mut authority = Authority::new();
    assert!(authority.query("local.zone", QueryType::A).is_none());

    let mut packet = DnsPacket::new();
    packet.answers.push(DnsRecord::A {
        domain: "local.zone".to_string(),
        addr: Ipv4Addr::new(192, 168, 0, 1),
        ttl: 60,
    });
    authority.insert("local.zone".to_string(), QueryType::A, packet);

    let found = authority.query("local.zone", QueryType::A).unwrap();
    assert_eq!(1, found.answers.len());
    assert!(authority.query("local.zone", QueryType::NS).is_none());
}
