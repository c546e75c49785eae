use hermes::client::DnsClient;
use hermes::context::{ResolveStrategy, ServerContext};
use hermes::protocol::{DnsPacket, DnsRecord, Ipv4Addr, QueryType, ResultCode};
use hermes::resolve::Resolver;
use hermes::DnsError;

type StubCallback = fn(&str, QueryType, (&str, u16), bool) -> Result<DnsPacket, DnsError>;

struct DnsStubClient {
    callback: StubCallback,
}

impl DnsStubClient {
    fn new(callback: StubCallback) -> DnsStubClient {
        DnsStubClient { callback }
    }
}

impl DnsClient for DnsStubClient {
    fn run(&mut self) -> Result<(), DnsError> {
        Ok(())
    }

    fn send_query(
        &self,
        qname: &str,
        qtype: QueryType,
        server: (&str, u16),
        recursion_desired: bool,
    ) -> Result<DnsPacket, DnsError> {
        (self.callback)(qname, qtype, server, recursion_desired)
    }
}

fn create_test_context(callback: StubCallback) -> ServerContext<DnsStubClient> {
    ServerContext::new(DnsStubClient::new(callback))
}

fn make_resolver<C: DnsClient>(context: &ServerContext<C>) -> Resolver {
    context.create_resolver()
}

#[test]
fn test_forwarding_resolver() {
    let mut context = create_test_context(|qname, _, _, _| {
        let mut packet = DnsPacket::new();

        if qname == "google.com" {
            packet.answers.push(DnsRecord::A {
                domain: "google.com".to_string(),
                addr: Ipv4Addr::new(127, 0, 0, 1),
                ttl: 3600,
            });
        } else {
            packet.header.rescode = ResultCode::NXDOMAIN;
        }

        Ok(packet)
    });
    context.resolve_strategy = ResolveStrategy::Forward {
        host: "127.0.0.1".to_string(),
        port: 53,
    };

    let resolver = make_resolver(&context);

    // First verify that we get a match back
    {
        let res = match resolver.resolve(&mut context, "google.com", QueryType::A, true) {
            Ok(x) => x,
            Err(_) => panic!(),
        };

        assert_eq!(1, res.answers.len());

        match res.answers[0] {
            DnsRecord::A { ref domain, .. } => {
                assert_eq!("google.com", domain);
            }
            _ => panic!(),
        }
    };

    // Do the same lookup again, and verify that it's present in the cache
    // and that the counter has been updated
    {
        let res = match resolver.resolve(&mut context, "google.com", QueryType::A, true) {
            Ok(x) => x,
            Err(_) => panic!(),
        };

        assert_eq!(1, res.answers.len());

        let list = match context.cache.list() {
            Ok(x) => x,
            Err(_) => panic!(),
        };

        assert_eq!(1, list.len());

        assert_eq!("google.com", &list[0].domain);
        assert_eq!(1, list[0].record_types.len());
        assert_eq!(1, list[0].hits);
    };

    // Do a failed lookup
    {
        let res = match resolver.resolve(&mut context, "yahoo.com", QueryType::A, true) {
            Ok(x) => x,
            Err(_) => panic!(),
        };

        assert_eq!(0, res.answers.len());
        assert_eq!(ResultCode::NXDOMAIN, res.header.rescode);
    };
}

#[test]
fn test_recursive_resolver_with_no_nameserver() {
    let mut context = create_test_context(|_, _, _, _| {
        let mut packet = DnsPacket::new();
        packet.header.rescode = ResultCode::NXDOMAIN;
        Ok(packet)
    });

    let resolver = make_resolver(&context);

    // Expect failure when no name servers are available
    if let Ok(_) = resolver.resolve(&mut context, "google.com", QueryType::A, true) {
        panic!();
    }
}

#[test]
fn test_recursive_resolver_with_missing_a_record() {
    let mut context = create_test_context(|_, _, _, _| {
        let mut packet = DnsPacket::new();
        packet.header.rescode = ResultCode::NXDOMAIN;
        Ok(packet)
    });

    let resolver = make_resolver(&context);

    // Expect failure when no name servers are available
    if let Ok(_) = resolver.resolve(&mut context, "google.com", QueryType::A, true) {
        panic!();
    }

    // Insert name server, but no corresponding A record
    let mut nameservers = Vec::new();
    nameservers.push(DnsRecord::NS {
        domain: "".to_string(),
        host: "a.myroot.net".to_string(),
        ttl: 3600,
    });

    let _ = context.cache.store(&nameservers);

    if let Ok(_) = resolver.resolve(&mut context, "google.com", QueryType::A, true) {
        panic!();
    }
}

#[test]
fn test_recursive_resolver_match_order() {
    let mut context = create_test_context(|_, _, (server, _), _| {
        let mut packet = DnsPacket::new();

        if server == "127.0.0.1" {
            packet.header.id = 1;

            packet.answers.push(DnsRecord::A {
                domain: "a.google.com".to_string(),
                addr: Ipv4Addr::new(127, 0, 0, 1),
                ttl: 3600,
            });

            return Ok(packet);
        } else if server == "127.0.0.2" {
            packet.header.id = 2;

            packet.answers.push(DnsRecord::A {
                domain: "b.google.com".to_string(),
                addr: Ipv4Addr::new(127, 0, 0, 1),
                ttl: 3600,
            });

            return Ok(packet);
        } else if server == "127.0.0.3" {
            packet.header.id = 3;

            packet.answers.push(DnsRecord::A {
                domain: "c.google.com".to_string(),
                addr: Ipv4Addr::new(127, 0, 0, 1),
                ttl: 3600,
            });

            return Ok(packet);
        }

        packet.header.id = 999;
        packet.header.rescode = ResultCode::NXDOMAIN;
        Ok(packet)
    });

    let resolver = make_resolver(&context);

    // Expect failure when no name servers are available
    if let Ok(_) = resolver.resolve(&mut context, "google.com", QueryType::A, true) {
        panic!();
    }

    // Insert root servers
    {
        let mut nameservers = Vec::new();
        nameservers.push(DnsRecord::NS {
            domain: "".to_string(),
            host: "a.myroot.net".to_string(),
            ttl: 3600,
        });
        nameservers.push(DnsRecord::A {
            domain: "a.myroot.net".to_string(),
            addr: Ipv4Addr::new(127, 0, 0, 1),
            ttl: 3600,
        });

        let _ = context.cache.store(&nameservers);
    }

    match resolver.resolve(&mut context, "google.com", QueryType::A, true) {
        Ok(packet) => {
            assert_eq!(1, packet.header.id);
        }
        Err(_) => panic!(),
    }

    // Insert TLD servers
    {
        let mut nameservers = Vec::new();
        nameservers.push(DnsRecord::NS {
            domain: "com".to_string(),
            host: "a.mytld.net".to_string(),
            ttl: 3600,
        });
        nameservers.push(DnsRecord::A {
            domain: "a.mytld.net".to_string(),
            addr: Ipv4Addr::new(127, 0, 0, 2),
            ttl: 3600,
        });

        let _ = context.cache.store(&nameservers);
    }

    match resolver.resolve(&mut context, "google.com", QueryType::A, true) {
        Ok(packet) => {
            assert_eq!(2, packet.header.id);
        }
        Err(_) => panic!(),
    }

    // Insert authoritative servers
    {
        let mut nameservers = Vec::new();
        nameservers.push(DnsRecord::NS {
            domain: "google.com".to_string(),
            host: "ns1.google.com".to_string(),
            ttl: 3600,
        });
        nameservers.push(DnsRecord::A {
            domain: "ns1.google.com".to_string(),
            addr: Ipv4Addr::new(127, 0, 0, 3),
            ttl: 3600,
        });

        let _ = context.cache.store(&nameservers);
    }

    match resolver.resolve(&mut context, "google.com", QueryType::A, true) {
        Ok(packet) => {
            assert_eq!(3, packet.header.id);
        }
        Err(_) => panic!(),
    }
}

#[test]
fn test_recursive_resolver_successfully() {
    let mut context = create_test_context(|qname, _, _, _| {
        let mut packet = DnsPacket::new();

        if qname == "google.com" {
            packet.answers.push(DnsRecord::A {
                domain: "google.com".to_string(),
                addr: Ipv4Addr::new(127, 0, 0, 1),
                ttl: 3600,
            });
        } else {
            packet.header.rescode = ResultCode::NXDOMAIN;

            packet.authorities.push(DnsRecord::SOA {
                domain: "google.com".to_string(),
                rname: "google.com".to_string(),
                mname: "google.com".to_string(),
                serial: 0,
                refresh: 3600,
                retry: 3600,
                expire: 3600,
                minimum: 3600,
                ttl: 3600,
            });
        }

        Ok(packet)
    });

    let resolver = make_resolver(&context);

    // Insert name servers
    let mut nameservers = Vec::new();
    nameservers.push(DnsRecord::NS {
        domain: "google.com".to_string(),
        host: "ns1.google.com".to_string(),
        ttl: 3600,
    });
    nameservers.push(DnsRecord::A {
        domain: "ns1.google.com".to_string(),
        addr: Ipv4Addr::new(127, 0, 0, 1),
        ttl: 3600,
    });

    let _ = context.cache.store(&nameservers);

    // Check that we can successfully resolve
    {
        let res = match resolver.resolve(&mut context, "google.com", QueryType::A, true) {
            Ok(x) => x,
            Err(_) => panic!(),
        };

        assert_eq!(1, res.answers.len());

        match res.answers[0] {
            DnsRecord::A { ref domain, .. } => {
                assert_eq!("google.com", domain);
            }
            _ => panic!(),
        }
    };

    // And that we won't find anything for a domain that isn't present
    {
        let res = match resolver.resolve(&mut context, "foobar.google.com", QueryType::A, true) {
            Ok(x) => x,
            Err(_) => panic!(),
        };

        assert_eq!(ResultCode::NXDOMAIN, res.header.rescode);
        assert_eq!(0, res.answers.len());
    };

    // Perform another successful query, that should hit the cache
    {
        let res = match resolver.resolve(&mut context, "google.com", QueryType::A, true) {
            Ok(x) => x,
            Err(_) => panic!(),
        };

        assert_eq!(1, res.answers.len());
    };

    // Now check that the cache is used, and that the statistics is correct
    {
        let list = match context.cache.list() {
            Ok(x) => x,
            Err(_) => panic!(),
        };

        assert_eq!(3, list.len());

        // Check statistics for google entry
        assert_eq!("google.com", &list[1].domain);

        // Should have a NS record and an A record for a total of 2 record types
        assert_eq!(2, list[1].record_types.len());

        // Should have been hit two times for NS google.com and once for
        // A google.com
        assert_eq!(3, list[1].hits);

        assert_eq!("ns1.google.com", &list[2].domain);
        assert_eq!(1, list[2].record_types.len());
        assert_eq!(2, list[2].hits);
    };
}
