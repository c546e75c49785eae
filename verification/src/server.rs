use vstd::prelude::*;
use crate::authority::auth_lookup;
use crate::client::DnsClient;
use crate::context::ServerContext;
use crate::filter::{blocked_soa_domain, filter_blocks, DnsFilter, EXPIRE_TIME, MINIMUM_TIME,
    NEGATIVE_TTL, REFRESH_TIME};
use crate::protocol::{keep_unmatched, DnsPacket, DnsRecord, Ipv4Addr, PacketView, QueryType,
    RecordView, ResultCode, views_of};
use crate::resolve::Resolver;
use vstd::string::StringExecFns;

verus! {

/// The size a UDP reply must stay within: 512 bytes, unless the request's
/// additional section is exactly one OPT record advertising a larger
/// payload.
pub open spec fn spec_size_limit(p: PacketView) -> int {
    if p.resources.len() == 1 && p.resources[0] is OPT {
        p.resources[0]->OPT_packet_len as int
    } else {
        512
    }
}

pub fn response_size_limit(request: &DnsPacket) -> (r: usize)
    ensures
        r == spec_size_limit(request@),
{
    if request.resources.len() == 1 {
        if let DnsRecord::OPT { packet_len, .. } = &request.resources[0] {
            return *packet_len as usize;
        }
    }
    512
}

/// Chases CNAME and SRV targets: each such record in `lookup_list` is
/// resolved to an address, the result collected, and its own unresolved
/// targets chased in turn, at most ten levels deep.
fn resolve_cnames<C: DnsClient>(
    lookup_list: &Vec<DnsRecord>,
    results: &mut Vec<DnsPacket>,
    resolver: &Resolver,
    context: &mut ServerContext<C>,
    depth: u32,
)
    requires
        old(context).inv(),
    ensures
        final(context).inv(),
        final(context).authority@ == old(context).authority@,
        final(context).filter == old(context).filter,
        final(context).allow_recursive == old(context).allow_recursive,
        depth > 10 ==> final(results)@ == old(results)@,
        lookup_list@.len() == 0 ==> final(results)@ == old(results)@,
        final(results)@.len() >= old(results)@.len(),
        forall|k: int| 0 <= k < old(results)@.len() ==> #[trigger] final(results)@[k] == old(
            results,
        )@[k],
    decreases (if depth <= 10 {
        11 - depth as int
    } else {
        0int
    }), 0int,
{
    if depth > 10 {
        return ;
    }
    let mut i: usize = 0;
    while i < lookup_list.len()
        invariant
            context.inv(),
            context.authority@ == old(context).authority@,
            context.filter == old(context).filter,
            context.allow_recursive == old(context).allow_recursive,
            i <= lookup_list@.len(),
            depth <= 10,
            lookup_list@.len() == 0 ==> results@ == old(results)@,
            results@.len() >= old(results)@.len(),
            forall|k: int| 0 <= k < old(results)@.len() ==> #[trigger] results@[k] == old(
                results,
            )@[k],
        decreases lookup_list@.len() - i,
    {
        let host_opt: Option<String> = match &lookup_list[i] {
            DnsRecord::CNAME { host, .. } => Some(host.clone()),
            DnsRecord::SRV { host, .. } => Some(host.clone()),
            _ => None,
        };
        if let Some(host) = host_opt {
            match resolver.resolve(context, host.as_str(), QueryType::A, true) {
                Ok(result2) => {
                    let new_unmatched = result2.get_unresolved_cnames();
                    results.push(result2);
                    resolve_cnames(&new_unmatched, results, resolver, context, depth + 1);
                },
                Err(_) => {},
            }
        }
        i = i + 1;
    }
}

/// The answers of a run of resolver results, one after another.
pub open spec fn gathered_answers(rs: Seq<PacketView>) -> Seq<RecordView>
    decreases rs.len(),
{
    if rs.len() == 0 {
        Seq::empty()
    } else {
        rs[0].answers + gathered_answers(rs.drop_first())
    }
}

/// The authority records of a run of resolver results, one after another.
pub open spec fn gathered_authorities(rs: Seq<PacketView>) -> Seq<RecordView>
    decreases rs.len(),
{
    if rs.len() == 0 {
        Seq::empty()
    } else {
        rs[0].authorities + gathered_authorities(rs.drop_first())
    }
}

/// The additional records of a run of resolver results, one after another.
pub open spec fn gathered_resources(rs: Seq<PacketView>) -> Seq<RecordView>
    decreases rs.len(),
{
    if rs.len() == 0 {
        Seq::empty()
    } else {
        rs[0].resources + gathered_resources(rs.drop_first())
    }
}

/// Appends the sections of the gathered results to the response, in order:
/// first the resolver's own result, then each packet the follow-through
/// produced. The header and the question stay as they are.
#[verifier::rlimit(100)]
#[verifier::spinoff_prover]
pub fn gather_sections(packet: &mut DnsPacket, results: Vec<DnsPacket>)
    ensures
        final(packet)@.header == old(packet)@.header,
        final(packet)@.questions == old(packet)@.questions,
        final(packet)@.answers == old(packet)@.answers + gathered_answers(views_of(results@)),
        final(packet)@.authorities == old(packet)@.authorities + gathered_authorities(
            views_of(results@),
        ),
        final(packet)@.resources == old(packet)@.resources + gathered_resources(
            views_of(results@),
        ),
{
    let ghost rs0 = views_of(results@);
    let mut results = results;
    proof {
        assert(old(packet)@.answers + gathered_answers(rs0) =~= packet@.answers + gathered_answers(
            views_of(results@),
        ));
        assert(old(packet)@.authorities + gathered_authorities(rs0) =~= packet@.authorities
            + gathered_authorities(views_of(results@)));
        assert(old(packet)@.resources + gathered_resources(rs0) =~= packet@.resources
            + gathered_resources(views_of(results@)));
    }
    while results.len() > 0
        invariant
            packet@.header == old(packet)@.header,
            packet@.questions == old(packet)@.questions,
            old(packet)@.answers + gathered_answers(rs0) == packet@.answers + gathered_answers(
                views_of(results@),
            ),
            old(packet)@.authorities + gathered_authorities(rs0) == packet@.authorities
                + gathered_authorities(views_of(results@)),
            old(packet)@.resources + gathered_resources(rs0) == packet@.resources
                + gathered_resources(views_of(results@)),
        decreases results@.len(),
    {
        let ghost rsv = views_of(results@);
        let ghost pv0 = packet@;
        let result = results.remove(0);
        proof {
            assert(views_of(results@) =~= rsv.drop_first());
            assert(result@ == rsv[0]);
        }
        let mut result = result;
        let mut answers = result.answers;
        let mut authorities = result.authorities;
        let mut resources = result.resources;
        packet.answers.append(&mut answers);
        packet.authorities.append(&mut authorities);
        packet.resources.append(&mut resources);
        proof {
            assert(views_of(packet.questions@) =~= pv0.questions);
            assert(views_of(packet.answers@) =~= pv0.answers + rsv[0].answers);
            assert(views_of(packet.authorities@) =~= pv0.authorities + rsv[0].authorities);
            assert(views_of(packet.resources@) =~= pv0.resources + rsv[0].resources);
            assert(pv0.answers + (rsv[0].answers + gathered_answers(rsv.drop_first())) =~= (
            pv0.answers + rsv[0].answers) + gathered_answers(rsv.drop_first()));
            assert(pv0.authorities + (rsv[0].authorities + gathered_authorities(
                rsv.drop_first(),
            )) =~= (pv0.authorities + rsv[0].authorities) + gathered_authorities(
                rsv.drop_first(),
            ));
            assert(pv0.resources + (rsv[0].resources + gathered_resources(rsv.drop_first())) =~= (
            pv0.resources + rsv[0].resources) + gathered_resources(rsv.drop_first()));
        }
    }
    proof {
        assert(views_of(results@) =~= Seq::<PacketView>::empty());
        assert(packet@.answers + Seq::<RecordView>::empty() =~= packet@.answers);
        assert(packet@.authorities + Seq::<RecordView>::empty() =~= packet@.authorities);
        assert(packet@.resources + Seq::<RecordView>::empty() =~= packet@.resources);
    }
}

/// Serves one parsed request and always produces a response.
///
/// The response echoes the request's id, marks itself a response, and
/// advertises whether recursion is available. A recursive question the
/// server does not allow is refused; a request without a question is
/// malformed; a filtered name gets a synthesized NXDOMAIN with one
/// negative-caching SOA; everything else goes to the resolver, whose
/// failures surface as SERVFAIL, and whose answers have their CNAME and SRV
/// targets chased before everything is gathered into the response: the
/// resolver result's sections first, then each chased packet's, in order.
#[verifier::rlimit(100)]
#[verifier::spinoff_prover]
pub fn execute_query<C: DnsClient>(context: &mut ServerContext<C>, request: &DnsPacket) -> (packet:
    DnsPacket)
    requires
        old(context).inv(),
    ensures
        final(context).inv(),
        final(context).allow_recursive == old(context).allow_recursive,
        final(context).filter == old(context).filter,
        final(context).authority@ == old(context).authority@,
        packet@.header.id == request@.header.id,
        packet@.header.response == true,
        packet@.header.recursion_available == old(context).allow_recursive,
        request@.header.recursion_desired && !old(context).allow_recursive
            ==> packet@.header.rescode == ResultCode::REFUSED && packet@.answers.len() == 0
            && packet@.questions.len() == 0 && packet@.authorities.len() == 0
            && packet@.resources.len() == 0,
        !(request@.header.recursion_desired && !old(context).allow_recursive)
            && request@.questions.len() == 0 ==> packet@.header.rescode == ResultCode::FORMERR
            && packet@.answers.len() == 0 && packet@.authorities.len() == 0
            && packet@.resources.len() == 0,
        !(request@.header.recursion_desired && !old(context).allow_recursive)
            && request@.questions.len() > 0 ==> packet@.questions == seq![
            request@.questions[0],
        ],
        !(request@.header.recursion_desired && !old(context).allow_recursive)
            && request@.questions.len() > 0 && filter_blocks(
            old(context).filter@,
            request@.questions[0].name,
        ) ==> packet@.header.rescode == ResultCode::NXDOMAIN && packet@.answers.len() == 0
            && packet@.authorities.len() == 1 && (packet@.authorities[0] matches RecordView::SOA {
            domain,
            mname,
            rname,
            refresh,
            retry,
            expire,
            minimum,
            ttl,
            ..
        } && domain == blocked_soa_domain(request@.questions[0].name) && mname
            == "fake-for-negative-caching.adguard.com."@ && rname
            == "fake-for-negative-caching.adguard.com."@ && refresh == REFRESH_TIME && retry
            == NEGATIVE_TTL && expire == EXPIRE_TIME && minimum == MINIMUM_TIME && ttl
            == NEGATIVE_TTL),
        main_query_path(request@, old(context).allow_recursive, old(context).filter@)
            && request@.questions[0].qtype is UNKNOWN ==> packet@.header.rescode
            == ResultCode::NOTIMP && packet@.answers.len() == 0 && packet@.authorities.len() == 0
            && packet@.resources.len() == 0,
        main_query_path(request@, old(context).allow_recursive, old(context).filter@) && !(
        request@.questions[0].qtype is UNKNOWN) && auth_lookup(
            old(context).authority@,
            request@.questions[0].name,
            request@.questions[0].qtype,
        ) is Some ==> packet@.header.rescode == auth_lookup(
            old(context).authority@,
            request@.questions[0].name,
            request@.questions[0].qtype,
        )->Some_0.header.rescode && packet@.answers.len() >= auth_lookup(
            old(context).authority@,
            request@.questions[0].name,
            request@.questions[0].qtype,
        )->Some_0.answers.len() && packet@.answers.take(
            auth_lookup(
                old(context).authority@,
                request@.questions[0].name,
                request@.questions[0].qtype,
            )->Some_0.answers.len() as int,
        ) == auth_lookup(
            old(context).authority@,
            request@.questions[0].name,
            request@.questions[0].qtype,
        )->Some_0.answers,
        main_query_path(request@, old(context).allow_recursive, old(context).filter@) ==> (exists|
            rs: Seq<PacketView>,
        |
            {
                &&& packet@.answers == gathered_answers(rs)
                &&& packet@.authorities == gathered_authorities(rs)
                &&& packet@.resources == gathered_resources(rs)
                &&& rs.len() == 0 ==> packet@.header.rescode == ResultCode::SERVFAIL
                &&& rs.len() > 0 ==> packet@.header.rescode == rs[0].header.rescode
            }),
{
    let mut packet = DnsPacket::new();
    packet.header.id = request.header.id;
    packet.header.recursion_available = context.allow_recursive;
    packet.header.response = true;

    if request.header.recursion_desired && !context.allow_recursive {
        packet.header.rescode = ResultCode::REFUSED;
    } else if request.questions.len() == 0 {
        packet.header.rescode = ResultCode::FORMERR;
    } else {
        let question = (&request.questions[0]).clone();
        packet.questions.push(question);
        proof {
            assert(views_of(packet.questions@) =~= seq![request@.questions[0]]);
        }

        if context.filter.contains((&request.questions[0]).name.as_str()) {
            DnsFilter::fill_blocked_response(&mut packet);
            proof {
                assert(views_of(packet.questions@) =~= seq![request@.questions[0]]);
            }
            return packet;
        }

        let resolver = context.create_resolver();
        let mut results: Vec<DnsPacket> = Vec::new();
        let ghost qv = request@.questions[0];
        let res_code = match resolver.resolve(
            context,
            (&request.questions[0]).name.as_str(),
            (&request.questions[0]).qtype,
            request.header.recursion_desired,
        ) {
            Ok(result) => {
                let rc = result.header.rescode;
                let unmatched = result.get_unresolved_cnames();
                proof {
                    if qv.qtype is UNKNOWN {
                        assert(result@.answers.len() == 0);
                        assert(keep_unmatched(result@.answers, result@.answers) =~= Seq::<
                            RecordView,
                        >::empty());
                        assert(views_of(unmatched@) =~= Seq::<RecordView>::empty());
                        assert(unmatched@.len() == 0);
                    }
                }
                results.push(result);
                resolve_cnames(&unmatched, &mut results, &resolver, context, 0);
                proof {
                    assert(results@.len() >= 1);
                    assert(views_of(results@)[0] == results@[0]@);
                    if qv.qtype is UNKNOWN {
                        assert(results@.len() == 1);
                    }
                }
                rc
            },
            Err(_) => ResultCode::SERVFAIL,
        };
        packet.header.rescode = res_code;

        let ghost rsv = views_of(results@);
        let ghost pvpre = packet@;
        gather_sections(&mut packet, results);
        proof {
            assert(pvpre.answers =~= Seq::<RecordView>::empty());
            assert(pvpre.authorities =~= Seq::<RecordView>::empty());
            assert(pvpre.resources =~= Seq::<RecordView>::empty());
            assert(packet@.answers =~= gathered_answers(rsv));
            assert(packet@.authorities =~= gathered_authorities(rsv));
            assert(packet@.resources =~= gathered_resources(rsv));
            if qv.qtype is UNKNOWN {
                assert(rsv.len() == 1);
                assert(rsv.drop_first() =~= Seq::<PacketView>::empty());
                assert(gathered_answers(rsv.drop_first()) =~= Seq::<RecordView>::empty());
                assert(gathered_authorities(rsv.drop_first()) =~= Seq::<RecordView>::empty());
                assert(gathered_resources(rsv.drop_first()) =~= Seq::<RecordView>::empty());
                assert(rsv[0].answers + Seq::<RecordView>::empty() =~= rsv[0].answers);
                assert(rsv[0].authorities + Seq::<RecordView>::empty() =~= rsv[0].authorities);
                assert(rsv[0].resources + Seq::<RecordView>::empty() =~= rsv[0].resources);
                assert(gathered_answers(rsv) =~= rsv[0].answers);
                assert(gathered_authorities(rsv) =~= rsv[0].authorities);
                assert(gathered_resources(rsv) =~= rsv[0].resources);
            }
            if rsv.len() > 0 {
                assert(packet@.answers.take(rsv[0].answers.len() as int) =~= rsv[0].answers);
            }
        }
    }
    packet
}

/// A request that reaches the resolver: recursion is acceptable, a question
/// is present, and its name is not filtered.
pub open spec fn main_query_path(req: PacketView, allow_recursive: bool, blocked: Seq<Seq<char>>) -> bool {
    !(req.header.recursion_desired && !allow_recursive) && req.questions.len() > 0
        && !filter_blocks(blocked, req.questions[0].name)
}

/// The host name of the `k`-th root name server.
pub open spec fn root_host(k: int) -> Seq<char> {
    if k == 0 {
        "a.root-servers.net"@
    } else if k == 1 {
        "b.root-servers.net"@
    } else if k == 2 {
        "c.root-servers.net"@
    } else if k == 3 {
        "d.root-servers.net"@
    } else if k == 4 {
        "e.root-servers.net"@
    } else if k == 5 {
        "f.root-servers.net"@
    } else if k == 6 {
        "g.root-servers.net"@
    } else if k == 7 {
        "h.root-servers.net"@
    } else if k == 8 {
        "i.root-servers.net"@
    } else if k == 9 {
        "j.root-servers.net"@
    } else if k == 10 {
        "k.root-servers.net"@
    } else if k == 11 {
        "l.root-servers.net"@
    } else {
        "m.root-servers.net"@
    }
}

/// The address of the `k`-th root name server.
pub open spec fn root_addr(k: int) -> Ipv4Addr {
    if k == 0 {
        Ipv4Addr { o0: 198, o1: 41, o2: 0, o3: 4 }
    } else if k == 1 {
        Ipv4Addr { o0: 199, o1: 9, o2: 14, o3: 201 }
    } else if k == 2 {
        Ipv4Addr { o0: 192, o1: 33, o2: 4, o3: 12 }
    } else if k == 3 {
        Ipv4Addr { o0: 199, o1: 7, o2: 91, o3: 13 }
    } else if k == 4 {
        Ipv4Addr { o0: 192, o1: 203, o2: 230, o3: 10 }
    } else if k == 5 {
        Ipv4Addr { o0: 192, o1: 5, o2: 5, o3: 241 }
    } else if k == 6 {
        Ipv4Addr { o0: 192, o1: 112, o2: 36, o3: 4 }
    } else if k == 7 {
        Ipv4Addr { o0: 198, o1: 97, o2: 190, o3: 53 }
    } else if k == 8 {
        Ipv4Addr { o0: 192, o1: 36, o2: 148, o3: 17 }
    } else if k == 9 {
        Ipv4Addr { o0: 192, o1: 58, o2: 128, o3: 30 }
    } else if k == 10 {
        Ipv4Addr { o0: 193, o1: 0, o2: 14, o3: 129 }
    } else if k == 11 {
        Ipv4Addr { o0: 199, o1: 7, o2: 83, o3: 42 }
    } else {
        Ipv4Addr { o0: 202, o1: 12, o2: 27, o3: 33 }
    }
}

/// The thirteen root name servers and their addresses, preloaded into the
/// cache unless the server only forwards: one NS record for the root zone
/// and one glue A record for each, with a long TTL.
#[verifier::rlimit(100)]
#[verifier::spinoff_prover]
pub fn get_rootservers() -> (r: Vec<DnsRecord>)
    ensures
        r@.len() == 26,
        forall|k: int|
            0 <= k < 13 ==> ((#[trigger] r@[2 * k]@) matches RecordView::NS {
                domain,
                host,
                ttl,
            } && domain == "."@ && host == root_host(k) && ttl == 3600000 && (r@[2 * k + 1]@
                matches RecordView::A {
                domain: adomain,
                addr,
                ttl: attl,
            } && adomain == root_host(k) && addr == root_addr(k) && attl == 3600000)),
{
    let mut rootservers: Vec<DnsRecord> = Vec::new();
    push_rootserver(&mut rootservers, "a.root-servers.net", Ipv4Addr::new(198, 41, 0, 4));
    push_rootserver(&mut rootservers, "b.root-servers.net", Ipv4Addr::new(199, 9, 14, 201));
    push_rootserver(&mut rootservers, "c.root-servers.net", Ipv4Addr::new(192, 33, 4, 12));
    push_rootserver(&mut rootservers, "d.root-servers.net", Ipv4Addr::new(199, 7, 91, 13));
    push_rootserver(&mut rootservers, "e.root-servers.net", Ipv4Addr::new(192, 203, 230, 10));
    push_rootserver(&mut rootservers, "f.root-servers.net", Ipv4Addr::new(192, 5, 5, 241));
    push_rootserver(&mut rootservers, "g.root-servers.net", Ipv4Addr::new(192, 112, 36, 4));
    push_rootserver(&mut rootservers, "h.root-servers.net", Ipv4Addr::new(198, 97, 190, 53));
    push_rootserver(&mut rootservers, "i.root-servers.net", Ipv4Addr::new(192, 36, 148, 17));
    push_rootserver(&mut rootservers, "j.root-servers.net", Ipv4Addr::new(192, 58, 128, 30));
    push_rootserver(&mut rootservers, "k.root-servers.net", Ipv4Addr::new(193, 0, 14, 129));
    push_rootserver(&mut rootservers, "l.root-servers.net", Ipv4Addr::new(199, 7, 83, 42));
    push_rootserver(&mut rootservers, "m.root-servers.net", Ipv4Addr::new(202, 12, 27, 33));
    rootservers
}

/// Appends one root NS record and its glue A record.
fn push_rootserver(records: &mut Vec<DnsRecord>, host: &str, addr: Ipv4Addr)
    ensures
        final(records)@.len() == old(records)@.len() + 2,
        forall|k: int| 0 <= k < old(records)@.len() ==> final(records)@[k] == old(records)@[k],
        final(records)@[old(records)@.len() as int]@ matches RecordView::NS {
            domain,
            host: h,
            ttl,
        } && domain == "."@ && h == host@ && ttl == 3600000,
        final(records)@[old(records)@.len() as int + 1]@ matches RecordView::A {
            domain,
            addr: a,
            ttl,
        } && domain == host@ && a == addr && ttl == 3600000,
{
    proof {
        reveal_strlit(".");
    }
    let dot = ".";
    records.push(
        DnsRecord::NS { domain: dot.to_owned(), host: host.to_owned(), ttl: 3600000 },
    );
    records.push(DnsRecord::A { domain: host.to_owned(), addr, ttl: 3600000 });
}

} // verus!
