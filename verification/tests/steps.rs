use hermes::cache::Cache;
use hermes::protocol::{DnsPacket, DnsRecord, Ipv4Addr, QueryType, ResultCode};
use hermes::resolve::{cached_answer, forward_outcome, referral_step, seed_nameserver, ReferralStep};
use hermes::server::gather_sections;
use hermes::DnsError;

fn a_record(domain: &str, o3: u8) -> DnsRecord {
    DnsRecord::A {
        domain: domain.to_string(),
        addr: Ipv4Addr::new(127, 0, 0, o3),
        ttl: 3600,
    }
}

fn ns_record(domain: &str, host: &str) -> DnsRecord {
    DnsRecord::NS {
        domain: domain.to_string(),
        host: host.to_string(),
        ttl: 3600,
    }
}

#[test]
fn test_seed_nameserver_empty_cache() {
    let mut cache = Cache::new();
    assert!(seed_nameserver(&mut cache, "google.com", 0).is_none());
}

#[test]
fn test_seed_nameserver_longest_suffix_wins() {
    let mut cache = Cache::new();
    cache.store_at(
        &vec![
            ns_record("", "a.myroot.net"),
            a_record("a.myroot.net", 1),
            ns_record("com", "a.mytld.net"),
            a_record("a.mytld.net", 2),
            ns_record("google.com", "ns1.google.com"),
            a_record("ns1.google.com", 3),
        ],
        0,
    );
    // the longest suffix with a full chain is google.com itself
    let seed = seed_nameserver(&mut cache, "google.com", 0).unwrap();
    assert_eq!("127.0.0.3", seed);
}

#[test]
fn test_seed_nameserver_skips_hostless_suffix() {
    let mut cache = Cache::new();
    // google.com has an NS but its host has no address; com has both
    cache.store_at(
        &vec![
            ns_record("google.com", "ns1.google.com"),
            ns_record("com", "a.mytld.net"),
            a_record("a.mytld.net", 2),
        ],
        0,
    );
    let seed = seed_nameserver(&mut cache, "google.com", 0).unwrap();
    assert_eq!("127.0.0.2", seed);
}

#[test]
fn test_forward_outcome() {
    let mut cache = Cache::new();
    let mut reply = DnsPacket::new();
    reply.answers.push(a_record("example.com", 9));
    let out = forward_outcome(&mut cache, Ok(reply)).unwrap();
    assert_eq!(1, out.answers.len());
    // the answer was stored: a later lookup is served from the cache
    assert!(cache.lookup_at("example.com", QueryType::A, 0).is_some());

    let err = forward_outcome(&mut cache, Err(DnsError::TimedOut));
    assert!(matches!(err, Err(DnsError::TimedOut)));
}

#[test]
fn test_cached_answer_cname_fallback() {
    let mut cache = Cache::new();
    cache.store_at(
        &vec![DnsRecord::CNAME {
            domain: "www.example.com".to_string(),
            host: "example.com".to_string(),
            ttl: 3600,
        }],
        0,
    );
    // an A question with no A entry is answered by the cached CNAME
    let hit = cached_answer(&mut cache, "www.example.com", QueryType::A, 0).unwrap();
    assert_eq!(1, hit.answers.len());
    assert!(matches!(hit.answers[0], DnsRecord::CNAME { .. }));
    // a TXT question is not
    assert!(cached_answer(&mut cache, "www.example.com", QueryType::TXT, 0).is_none());
}

#[test]
fn test_referral_step_answer_and_negative() {
    let mut cache = Cache::new();
    let zones: Vec<String> = Vec::new();

    let mut answer = DnsPacket::new();
    answer.answers.push(a_record("example.com", 1));
    match referral_step(&mut cache, "example.com", QueryType::A, &zones, answer) {
        ReferralStep::Answered(p) => assert_eq!(1, p.answers.len()),
        _ => panic!(),
    }
    // the answer's records were stored
    assert!(cache.lookup_at("example.com", QueryType::A, 0).is_some());

    let mut negative = DnsPacket::new();
    negative.header.rescode = ResultCode::NXDOMAIN;
    negative.authorities.push(DnsRecord::SOA {
        domain: "example.com".to_string(),
        mname: "ns1.example.com".to_string(),
        rname: "admin.example.com".to_string(),
        serial: 1,
        refresh: 1,
        retry: 1800,
        expire: 1,
        minimum: 1,
        ttl: 60,
    });
    match referral_step(&mut cache, "gone.example.com", QueryType::A, &zones, negative) {
        ReferralStep::Answered(p) => assert_eq!(ResultCode::NXDOMAIN, p.header.rescode),
        _ => panic!(),
    }
    // a negative entry with the SOA retry was installed
    let hit = cache
        .lookup_at("gone.example.com", QueryType::A, 1_799_000)
        .unwrap();
    assert_eq!(ResultCode::NXDOMAIN, hit.header.rescode);
}

#[test]
fn test_referral_step_referral_kinds() {
    let mut cache = Cache::new();
    let zones: Vec<String> = Vec::new();

    // glue present: the walk is referred to the glue address
    let mut glued = DnsPacket::new();
    glued.authorities.push(ns_record("com", "a.gtld.net"));
    glued.resources.push(a_record("a.gtld.net", 30));
    match referral_step(&mut cache, "example.com", QueryType::A, &zones, glued) {
        ReferralStep::Referred { next, zone } => {
            assert_eq!("127.0.0.30", next);
            assert_eq!("com", zone);
        }
        _ => panic!(),
    }

    // no glue: the named host must be resolved first
    let mut glueless = DnsPacket::new();
    glueless.authorities.push(ns_record("com", "a.gtld.net"));
    match referral_step(&mut cache, "example.com", QueryType::A, &zones, glueless) {
        ReferralStep::NeedHost { host, .. } => assert_eq!("a.gtld.net", host),
        _ => panic!(),
    }

    // an NS in the answer section of a referral does not steer the walk
    let mut answer_ns = DnsPacket::new();
    answer_ns.header.rescode = ResultCode::SERVFAIL;
    answer_ns.answers.push(ns_record("com", "rogue.example"));
    match referral_step(&mut cache, "example.com", QueryType::A, &zones, answer_ns) {
        ReferralStep::Dead => {}
        _ => panic!(),
    }

    // a zone already consulted is a loop
    let seen = vec!["com".to_string()];
    let mut again = DnsPacket::new();
    again.authorities.push(ns_record("com", "a.gtld.net"));
    match referral_step(&mut cache, "example.com", QueryType::A, &seen, again) {
        ReferralStep::LoopDetected => {}
        _ => panic!(),
    }
}

#[test]
fn test_gather_sections_keeps_order() {
    let mut packet = DnsPacket::new();
    let mut first = DnsPacket::new();
    first.answers.push(a_record("one.example", 1));
    let mut second = DnsPacket::new();
    second.answers.push(a_record("two.example", 2));
    second.authorities.push(ns_record("example", "ns.example"));
    gather_sections(&mut packet, vec![first, second]);
    assert_eq!(2, packet.answers.len());
    match &packet.answers[0] {
        DnsRecord::A { domain, .. } => assert_eq!("one.example", domain),
        _ => panic!(),
    }
    match &packet.answers[1] {
        DnsRecord::A { domain, .. } => assert_eq!("two.example", domain),
        _ => panic!(),
    }
    assert_eq!(1, packet.authorities.len());
}

#[test]
fn test_get_random_a_picks_among_a_records() {
    let mut packet = DnsPacket::new();
    packet.answers.push(ns_record("example.com", "ns.example.com"));
    packet.answers.push(a_record("example.com", 7));
    // the one A record is always found, however the answers are mixed
    for _ in 0..16 {
        assert_eq!("127.0.0.7", packet.get_random_a().unwrap());
    }
    let empty = DnsPacket::new();
    assert!(empty.get_random_a().is_none());
}
