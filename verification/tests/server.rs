use hermes::client::DnsClient;
use hermes::context::{ResolveStrategy, ServerContext};
use hermes::protocol::{DnsPacket, DnsQuestion, DnsRecord, Ipv4Addr, QueryType, ResultCode};
use hermes::server::{execute_query, get_rootservers, response_size_limit};
use hermes::DnsError;

type StubCallback = fn(&str, QueryType, (&str, u16), bool) -> Result<DnsPacket, DnsError>;

struct DnsStubClient {
    callback: StubCallback,
}

impl DnsClient for DnsStubClient {
    fn run(&mut self) -> Result<(), DnsError> {
        Ok(())
    }

    fn send_query(
        &self,
        qname: &str,
        qtype: QueryType,
        server: (&str, u16),
        recursion_desired: bool,
    ) -> Result<DnsPacket, DnsError> {
        (self.callback)(qname, qtype, server, recursion_desired)
    }
}

fn create_test_context(callback: StubCallback) -> ServerContext<DnsStubClient> {
    ServerContext::new(DnsStubClient { callback })
}

fn build_query(qname: &str, qtype: QueryType) -> DnsPacket {
    let mut query_packet = DnsPacket::new();
    query_packet.header.recursion_desired = true;

    query_packet
        .questions
        .push(DnsQuestion::new(&qname.to_string(), qtype));

    query_packet
}

#[test]
fn test_execute_query() {
    // Construct a context to execute some queries successfully
    let mut context = create_test_context(|qname, qtype, _, _| {
        let mut packet = DnsPacket::new();

        if qname == "google.com" {
            packet.answers.push(DnsRecord::A {
                domain: "google.com".to_string(),
                addr: Ipv4Addr::new(127, 0, 0, 1),
                ttl: 3600,
            });
        } else if qname == "www.facebook.com" && qtype == QueryType::CNAME {
            packet.answers.push(DnsRecord::CNAME {
                domain: "www.facebook.com".to_string(),
                host: "cdn.facebook.com".to_string(),
                ttl: 3600,
            });
            packet.answers.push(DnsRecord::A {
                domain: "cdn.facebook.com".to_string(),
                addr: Ipv4Addr::new(127, 0, 0, 1),
                ttl: 3600,
            });
        } else if qname == "www.microsoft.com" && qtype == QueryType::CNAME {
            packet.answers.push(DnsRecord::CNAME {
                domain: "www.microsoft.com".to_string(),
                host: "cdn.microsoft.com".to_string(),
                ttl: 3600,
            });
        } else if qname == "cdn.microsoft.com" && qtype == QueryType::A {
            packet.answers.push(DnsRecord::A {
                domain: "cdn.microsoft.com".to_string(),
                addr: Ipv4Addr::new(127, 0, 0, 1),
                ttl: 3600,
            });
        } else {
            packet.header.rescode = ResultCode::NXDOMAIN;
        }

        Ok(packet)
    });

    context.resolve_strategy = ResolveStrategy::Forward {
        host: "127.0.0.1".to_string(),
        port: 53,
    };

    // A successful resolve
    {
        let res = execute_query(&mut context, &build_query("google.com", QueryType::A));
        assert_eq!(1, res.answers.len());

        match res.answers[0] {
            DnsRecord::A { ref domain, .. } => {
                assert_eq!("google.com", domain);
            }
            _ => panic!(),
        }
    };

    // A successful resolve, that also resolves a CNAME without recursive lookup
    {
        let res = execute_query(
            &mut context,
            &build_query("www.facebook.com", QueryType::CNAME),
        );
        assert_eq!(2, res.answers.len());

        match res.answers[0] {
            DnsRecord::CNAME { ref domain, .. } => {
                assert_eq!("www.facebook.com", domain);
            }
            _ => panic!(),
        }

        match res.answers[1] {
            DnsRecord::A { ref domain, .. } => {
                assert_eq!("cdn.facebook.com", domain);
            }
            _ => panic!(),
        }
    };

    // A successful resolve, that also resolves a CNAME through recursive lookup
    {
        let res = execute_query(
            &mut context,
            &build_query("www.microsoft.com", QueryType::CNAME),
        );
        assert_eq!(2, res.answers.len());

        match res.answers[0] {
            DnsRecord::CNAME { ref domain, .. } => {
                assert_eq!("www.microsoft.com", domain);
            }
            _ => panic!(),
        }

        match res.answers[1] {
            DnsRecord::A { ref domain, .. } => {
                assert_eq!("cdn.microsoft.com", domain);
            }
            _ => panic!(),
        }
    };

    // An unsuccessful resolve, but without any error
    {
        let res = execute_query(&mut context, &build_query("yahoo.com", QueryType::A));
        assert_eq!(ResultCode::NXDOMAIN, res.header.rescode);
        assert_eq!(0, res.answers.len());
    };

    // Disable recursive resolves to generate a failure
    context.allow_recursive = false;

    // This should generate an error code, since recursive resolves are
    // no longer allowed
    {
        let res = execute_query(&mut context, &build_query("yahoo.com", QueryType::A));
        assert_eq!(ResultCode::REFUSED, res.header.rescode);
        assert_eq!(0, res.answers.len());
    };

    // Send a query without a question, which should fail with an error code
    {
        context.allow_recursive = true;
        let query_packet = DnsPacket::new();
        let res = execute_query(&mut context, &query_packet);
        assert_eq!(ResultCode::FORMERR, res.header.rescode);
        assert_eq!(0, res.answers.len());
    };

    // Now construct a context where the dns client will return a failure
    let mut context2 = create_test_context(|_, _, _, _| Err(DnsError::NotFound));

    context2.resolve_strategy = ResolveStrategy::Forward {
        host: "127.0.0.1".to_string(),
        port: 53,
    };

    // We expect this to set the server failure rescode
    {
        let res = execute_query(&mut context2, &build_query("yahoo.com", QueryType::A));
        assert_eq!(ResultCode::SERVFAIL, res.header.rescode);
        assert_eq!(0, res.answers.len());
    };
}

#[test]
fn test_execute_query_filtered_name() {
    let mut context = create_test_context(|_, _, _, _| {
        let mut packet = DnsPacket::new();
        packet.header.rescode = ResultCode::NXDOMAIN;
        Ok(packet)
    });
    context.filter.add_rule("ads.example.com".to_string());

    let res = execute_query(&mut context, &build_query("ads.example.com", QueryType::A));
    assert_eq!(ResultCode::NXDOMAIN, res.header.rescode);
    assert_eq!(0, res.answers.len());
    assert_eq!(1, res.authorities.len());
    match res.authorities[0] {
        DnsRecord::SOA {
            ref mname,
            ref rname,
            refresh,
            retry,
            expire,
            minimum,
            ttl,
            ..
        } => {
            assert_eq!("fake-for-negative-caching.adguard.com.", mname);
            assert_eq!("fake-for-negative-caching.adguard.com.", rname);
            assert_eq!(1800, refresh);
            assert_eq!(900, retry);
            assert_eq!(604800, expire);
            assert_eq!(86400, minimum);
            assert_eq!(900, ttl);
        }
        _ => panic!(),
    }
}

#[test]
fn test_cname_chase_is_bounded() {
    // a stub that answers every question with yet another CNAME: the chase
    // must stop at its depth limit instead of following the chain forever
    let mut context = create_test_context(|qname, _, _, _| {
        let mut packet = DnsPacket::new();
        packet.answers.push(DnsRecord::CNAME {
            domain: qname.to_string(),
            host: format!("x.{}", qname),
            ttl: 3600,
        });
        Ok(packet)
    });
    context.resolve_strategy = ResolveStrategy::Forward {
        host: "127.0.0.1".to_string(),
        port: 53,
    };

    let res = execute_query(&mut context, &build_query("chain.example", QueryType::A));
    // the first answer plus at most eleven chased packets, one CNAME each
    assert!(res.answers.len() <= 12);
    assert!(res.answers.len() >= 2);
}

#[test]
fn test_response_size_limit() {
    let plain = build_query("example.com", QueryType::A);
    assert_eq!(512, response_size_limit(&plain));

    let mut with_opt = build_query("example.com", QueryType::A);
    with_opt.resources.push(DnsRecord::OPT {
        packet_len: 4096,
        flags: 0,
        data: String::new(),
    });
    assert_eq!(4096, response_size_limit(&with_opt));

    // two additional records: the advertised size is ignored
    with_opt.resources.push(DnsRecord::OPT {
        packet_len: 9000,
        flags: 0,
        data: String::new(),
    });
    assert_eq!(512, response_size_limit(&with_opt));
}

#[test]
fn test_rootservers_preload() {
    let roots = get_rootservers();
    assert_eq!(26, roots.len());
    match &roots[0] {
        DnsRecord::NS { domain, host, ttl } => {
            assert_eq!(".", domain);
            assert_eq!("a.root-servers.net", host);
            assert_eq!(3600000u32, *ttl);
        }
        _ => panic!(),
    }
    match &roots[1] {
        DnsRecord::A { domain, addr, .. } => {
            assert_eq!("a.root-servers.net", domain);
            assert_eq!("198.41.0.4", addr.to_string());
        }
        _ => panic!(),
    }
}

#[test]
fn test_unknown_qtype_gets_notimp() {
    let mut context = create_test_context(|_, _, _, _| Ok(DnsPacket::new()));
    let res = execute_query(
        &mut context,
        &build_query("example.com", QueryType::UNKNOWN(4711)),
    );
    assert_eq!(ResultCode::NOTIMP, res.header.rescode);
    assert_eq!(0, res.answers.len());
}
