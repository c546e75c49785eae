use vstd::prelude::*;
use crate::authority::auth_lookup;
use crate::cache::{cache_set, input_has_key, key_of, normalize, spec_lookup, Cache,
    RecordSetView};
use crate::client::DnsClient;
use crate::context::{ResolveStrategy, ServerContext};
use crate::protocol::{first_soa_retry, ipv4_chars, is_ns_host_in, DnsPacket, QueryType,
    RecordView, ResultCode, views_of};
use crate::DnsError;
use vstd::string::StrSliceExecFns;

verus! {

/// How deep the resolver may recurse while chasing the addresses of name
/// servers; past this it gives up with NotFound rather than run without
/// bound.
pub const MAX_RESOLVE_DEPTH: u32 = 16;

/// A strategy for answering a query the server could not answer locally.
///
/// `resolve` runs the shared checks first: unknown types get NOTIMP, the
/// authority is consulted, recursion is refused when not asked for or not
/// allowed, then the cache; only then does the strategy's own lookup run.
pub trait DnsResolver<C: DnsClient> {
    fn resolve(
        &self,
        context: &mut ServerContext<C>,
        qname: &str,
        qtype: QueryType,
        recursive: bool,
    ) -> (r: Result<DnsPacket, DnsError>)
        requires
            old(context).inv(),
        ensures
            final(context).inv(),
            final(context).authority@ == old(context).authority@,
            final(context).filter == old(context).filter,
            final(context).allow_recursive == old(context).allow_recursive,
            qtype matches QueryType::UNKNOWN(_) ==> (r matches Ok(p) && p@.header.rescode
                == ResultCode::NOTIMP && p@.answers.len() == 0 && p@.questions.len() == 0
                && p@.authorities.len() == 0 && p@.resources.len() == 0),
            auth_lookup(old(context).authority@, qname@, qtype) is Some && !(qtype is UNKNOWN)
                ==> (r matches Ok(p) && p@ == auth_lookup(
                old(context).authority@,
                qname@,
                qtype,
            )->Some_0),
            !(qtype matches QueryType::UNKNOWN(_)) && auth_lookup(
                old(context).authority@,
                qname@,
                qtype,
            ) is None && !(recursive && old(context).allow_recursive) ==> (r matches Ok(p)
                && p@.header.rescode == ResultCode::REFUSED && p@.answers.len() == 0
                && p@.questions.len() == 0 && p@.authorities.len() == 0 && p@.resources.len()
                == 0),
    ;
}


/// Position `i` starts a suffix of the name: the very start, the position
/// right after a dot, or the end (the root zone).
pub open spec fn is_boundary(q: Seq<char>, i: int) -> bool {
    0 <= i <= q.len() && (i == 0 || i == q.len() || q[i - 1] == '.')
}

/// The suffix of the name starting at boundary `i`; the empty suffix is
/// looked up as the root zone `.`.
pub open spec fn suffix_at(q: Seq<char>, i: int) -> Seq<char> {
    if i == q.len() {
        seq!['.']
    } else {
        q.subrange(i, q.len() as int)
    }
}

/// The cache, read at instant `now`, offers `h` as a name server for the
/// suffix of `q` at boundary `i`.
pub open spec fn offered_host(
    cv: Seq<crate::cache::DomainStoreView>,
    q: Seq<char>,
    i: int,
    now: u64,
    h: Seq<char>,
) -> bool {
    is_boundary(q, i) && match spec_lookup(cv, suffix_at(q, i), QueryType::NS, now) {
        Option::Some(pv) => is_ns_host_in(pv.authorities, suffix_at(q, i), h) || is_ns_host_in(
            pv.answers,
            suffix_at(q, i),
            h,
        ),
        Option::None => false,
    }
}

/// Some name server is offered for the suffix at boundary `i`.
pub open spec fn boundary_offers(
    cv: Seq<crate::cache::DomainStoreView>,
    q: Seq<char>,
    i: int,
    now: u64,
) -> bool {
    exists|h: Seq<char>| #[trigger] offered_host(cv, q, i, now, h)
}

/// The cache holds a live A record for host `h` at instant `now`.
pub open spec fn host_resolvable(
    cv: Seq<crate::cache::DomainStoreView>,
    h: Seq<char>,
    now: u64,
) -> bool {
    match spec_lookup(cv, h, QueryType::A, now) {
        Option::Some(pv) => exists|k: int|
            0 <= k < pv.answers.len() && (#[trigger] pv.answers[k]) is A,
        Option::None => false,
    }
}

/// `addr` is the text of a live cached A record for host `h` at `now`.
pub open spec fn cached_addr_of(
    cv: Seq<crate::cache::DomainStoreView>,
    h: Seq<char>,
    now: u64,
    addr: Seq<char>,
) -> bool {
    match spec_lookup(cv, h, QueryType::A, now) {
        Option::Some(pv) => exists|k: int|
            0 <= k < pv.answers.len() && ((#[trigger] pv.answers[k]) matches RecordView::A {
                addr: a,
                ..
            } && addr == ipv4_chars(a)),
        Option::None => false,
    }
}

/// A complete seed at boundary `i`: an offered host with a cached address.
pub open spec fn seed_chain(
    cv: Seq<crate::cache::DomainStoreView>,
    q: Seq<char>,
    i: int,
    now: u64,
    addr: Seq<char>,
) -> bool {
    exists|h: Seq<char>| #[trigger] offered_host(cv, q, i, now, h) && cached_addr_of(
        cv,
        h,
        now,
        addr,
    )
}

/// Boundary `i` is settled without a seed: either the cache offers no name
/// server for its suffix, or the offered host tried had no cached address.
pub open spec fn boundary_settled(
    cv: Seq<crate::cache::DomainStoreView>,
    q: Seq<char>,
    i: int,
    now: u64,
) -> bool {
    !boundary_offers(cv, q, i, now) || (exists|h: Seq<char>| #[trigger] offered_host(
        cv,
        q,
        i,
        now,
        h,
    ) && !host_resolvable(cv, h, now))
}

/// Seeds the walk from the cache as of instant `now`: for each suffix of
/// the name, longest first and the root zone last, ask for an NS entry,
/// pick one of its hosts at random, and take a cached address of that host.
/// The first suffix whose chain succeeds wins; a picked host without a
/// cached address moves the search to the next suffix.
#[verifier::rlimit(100)]
#[verifier::spinoff_prover]
pub fn seed_nameserver(cache: &mut Cache, qname: &str, now: u64) -> (r: Option<String>)
    requires
        old(cache).inv(),
    ensures
        final(cache).inv(),
        forall|d2: Seq<char>, qt2: QueryType| #[trigger] cache_set(final(cache)@, d2, qt2)
            == cache_set(old(cache)@, d2, qt2),
        r matches Some(addr) ==> exists|i: int| #[trigger] seed_chain(
            old(cache)@,
            qname@,
            i,
            now,
            addr@,
        ),
        (forall|i: int| !boundary_offers(old(cache)@, qname@, i, now)) ==> r is None,
        forall|i: int|
            ((#[trigger] boundary_offers(old(cache)@, qname@, i, now)) && (forall|j: int|
                0 <= j < i ==> !boundary_offers(old(cache)@, qname@, j, now)) && (forall|
                h: Seq<char>,
            |
                offered_host(old(cache)@, qname@, i, now, h) ==> host_resolvable(
                    old(cache)@,
                    h,
                    now,
                ))) ==> (r matches Some(addr) && seed_chain(old(cache)@, qname@, i, now, addr@)),
{
    let ghost cv0 = old(cache)@;
    let n = qname.unicode_len();
    let mut i: usize = 0;
    let mut finished = false;
    while !finished
        invariant
            cv0 == old(cache)@,
            cache.inv(),
            forall|d2: Seq<char>, qt2: QueryType| #[trigger] cache_set(cache@, d2, qt2)
                == cache_set(cv0, d2, qt2),
            n == qname@.len(),
            i <= n,
            forall|j: int|
                0 <= j < (if finished {
                    n + 1
                } else {
                    i as int
                }) ==> #[trigger] boundary_settled(cv0, qname@, j, now),
        decreases (n - i) + (if finished {
            0int
        } else {
            1int
        }),
    {
        let boundary = i == 0 || i == n || qname.get_char(i - 1) == '.';
        let ghost ii = i as int;
        if boundary {
            let candidate: String = if i == n {
                proof {
                    reveal_strlit(".");
                }
                let dot = ".";
                proof {
                    assert(dot@ =~= seq!['.']);
                }
                dot.to_owned()
            } else {
                qname.substring_char(i, n).to_owned()
            };
            proof {
                assert(candidate@ == suffix_at(qname@, ii));
            }
            let ghost pre1 = cache@;
            let ns_hit = cache.lookup_at(candidate.as_str(), QueryType::NS, now);
            proof {
                assert(spec_lookup(pre1, candidate@, QueryType::NS, now) == spec_lookup(
                    cv0,
                    candidate@,
                    QueryType::NS,
                    now,
                ));
            }
            match ns_hit {
                None => {
                    proof {
                        assert forall|h: Seq<char>| !offered_host(
                            cv0,
                            qname@,
                            ii,
                            now,
                            h,
                        ) by {}
                        assert(boundary_settled(cv0, qname@, ii, now));
                    }
                },
                Some(qr) => {
                    match qr.get_unresolved_ns(candidate.as_str()) {
                        None => {
                            proof {
                                assert forall|h: Seq<char>| !offered_host(
                                    cv0,
                                    qname@,
                                    ii,
                                    now,
                                    h,
                                ) by {
                                    if offered_host(cv0, qname@, ii, now, h) {
                                        assert(crate::protocol::has_ns_in(
                                            qr@.authorities,
                                            candidate@,
                                        ) || crate::protocol::has_ns_in(qr@.answers, candidate@));
                                    }
                                }
                                assert(boundary_settled(cv0, qname@, ii, now));
                            }
                        },
                        Some(ns_host) => {
                            proof {
                                assert(offered_host(cv0, qname@, ii, now, ns_host@));
                            }
                            let ghost pre2 = cache@;
                            let a_hit = cache.lookup_at(ns_host.as_str(), QueryType::A, now);
                            proof {
                                assert(spec_lookup(pre2, ns_host@, QueryType::A, now)
                                    == spec_lookup(cv0, ns_host@, QueryType::A, now));
                            }
                            match a_hit {
                                None => {
                                    proof {
                                        assert(!host_resolvable(cv0, ns_host@, now));
                                        assert(boundary_settled(cv0, qname@, ii, now));
                                    }
                                },
                                Some(qr2) => {
                                    match qr2.get_random_a() {
                                        None => {
                                            proof {
                                                assert(!host_resolvable(cv0, ns_host@, now));
                                                assert(boundary_settled(cv0, qname@, ii, now));
                                            }
                                        },
                                        Some(addr) => {
                                            proof {
                                                assert(cached_addr_of(
                                                    cv0,
                                                    ns_host@,
                                                    now,
                                                    addr@,
                                                ));
                                                assert(seed_chain(cv0, qname@, ii, now, addr@));
                                                assert forall|ix: int|
                                                    ((#[trigger] boundary_offers(
                                                        cv0,
                                                        qname@,
                                                        ix,
                                                        now,
                                                    )) && (forall|j: int|
                                                        0 <= j < ix ==> !boundary_offers(
                                                            cv0,
                                                            qname@,
                                                            j,
                                                            now,
                                                        )) && (forall|h: Seq<char>|
                                                        offered_host(cv0, qname@, ix, now, h)
                                                            ==> host_resolvable(
                                                            cv0,
                                                            h,
                                                            now,
                                                        ))) implies seed_chain(
                                                    cv0,
                                                    qname@,
                                                    ix,
                                                    now,
                                                    addr@,
                                                ) by {
                                                    if ix < ii {
                                                        assert(boundary_settled(
                                                            cv0,
                                                            qname@,
                                                            ix,
                                                            now,
                                                        ));
                                                    } else if ix > ii {
                                                        assert(boundary_offers(
                                                            cv0,
                                                            qname@,
                                                            ii,
                                                            now,
                                                        ));
                                                    }
                                                }
                                            }
                                            return Some(addr);
                                        },
                                    }
                                },
                            }
                        },
                    }
                },
            }
        } else {
            proof {
                assert(!is_boundary(qname@, ii));
                assert forall|h: Seq<char>| !offered_host(cv0, qname@, ii, now, h) by {}
                assert(boundary_settled(cv0, qname@, ii, now));
            }
        }
        if i == n {
            finished = true;
            proof {
                assert forall|j: int| 0 <= j < n + 1 implies #[trigger] boundary_settled(
                    cv0,
                    qname@,
                    j,
                    now,
                ) by {}
            }
        } else {
            i = i + 1;
        }
    }
    proof {
        assert forall|j: int| true implies !boundary_offers(cv0, qname@, j, now) || (exists|
            h: Seq<char>,
        | #[trigger] offered_host(cv0, qname@, j, now, h) && !host_resolvable(cv0, h, now)) by {
            if 0 <= j <= n {
                assert(boundary_settled(cv0, qname@, j, now));
            } else {
                assert forall|h: Seq<char>| !offered_host(cv0, qname@, j, now, h) by {}
            }
        }
    }
    None
}

/// The answer the cache gives a question at the instant `now`: the exact
/// (name, type) pair first; for an A or AAAA question that misses, a cached
/// CNAME for the name answers instead, for the caller's chaser to follow.
pub fn cached_answer(cache: &mut Cache, qname: &str, qtype: QueryType, now: u64) -> (r: Option<
    DnsPacket,
>)
    requires
        old(cache).inv(),
    ensures
        final(cache).inv(),
        forall|d2: Seq<char>, qt2: QueryType| #[trigger] cache_set(final(cache)@, d2, qt2)
            == cache_set(old(cache)@, d2, qt2),
        forall|d2: Seq<char>| d2 != normalize(qname@) ==> #[trigger] crate::cache::cache_hits(
            final(cache)@,
            d2,
        ) == crate::cache::cache_hits(old(cache)@, d2),
        match spec_lookup(old(cache)@, qname@, qtype, now) {
            Some(pv) => r matches Some(p) && p@ == pv,
            None => (if qtype == QueryType::A || qtype == QueryType::AAAA {
                match spec_lookup(old(cache)@, qname@, QueryType::CNAME, now) {
                    Some(pv) => r matches Some(p) && p@ == pv,
                    None => r is None,
                }
            } else {
                r is None
            }),
        },
{
    let ghost cv0 = old(cache)@;
    if let Some(qr) = cache.lookup_at(qname, qtype, now) {
        return Some(qr);
    }
    if qtype == QueryType::A || qtype == QueryType::AAAA {
        proof {
            assert(cache_set(cache@, normalize(qname@), QueryType::CNAME) == cache_set(
                cv0,
                normalize(qname@),
                QueryType::CNAME,
            ));
            assert(spec_lookup(cache@, qname@, QueryType::CNAME, now) == spec_lookup(
                cv0,
                qname@,
                QueryType::CNAME,
                now,
            ));
        }
        if let Some(qr) = cache.lookup_at(qname, QueryType::CNAME, now) {
            return Some(qr);
        }
    }
    None
}

/// Runs the checks every strategy shares. A settled answer comes back as
/// `Some`; `None` means the strategy's own lookup must run.
fn resolve_prologue<C: DnsClient>(
    context: &mut ServerContext<C>,
    qname: &str,
    qtype: QueryType,
    recursive: bool,
) -> (r: Option<Result<DnsPacket, DnsError>>)
    requires
        old(context).inv(),
    ensures
        final(context).inv(),
        final(context).authority@ == old(context).authority@,
        final(context).filter == old(context).filter,
        final(context).allow_recursive == old(context).allow_recursive,
        qtype matches QueryType::UNKNOWN(_) ==> (r matches Some(res) && res matches Ok(p)
            && p@.header.rescode == ResultCode::NOTIMP && p@.answers.len() == 0
            && p@.questions.len() == 0 && p@.authorities.len() == 0 && p@.resources.len() == 0),
        auth_lookup(old(context).authority@, qname@, qtype) is Some && !(qtype is UNKNOWN) ==> (
        r matches Some(res) && res matches Ok(p) && p@ == auth_lookup(
            old(context).authority@,
            qname@,
            qtype,
        )->Some_0),
        !(qtype matches QueryType::UNKNOWN(_)) && auth_lookup(
            old(context).authority@,
            qname@,
            qtype,
        ) is None && !(recursive && old(context).allow_recursive) ==> (r matches Some(res)
            && res matches Ok(p) && p@.header.rescode == ResultCode::REFUSED && p@.answers.len()
            == 0 && p@.questions.len() == 0 && p@.authorities.len() == 0 && p@.resources.len()
            == 0),
        r is None ==> recursive && old(context).allow_recursive,
{
    if let QueryType::UNKNOWN(_) = qtype {
        let mut packet = DnsPacket::new();
        packet.header.rescode = ResultCode::NOTIMP;
        return Some(Ok(packet));
    }
    if let Some(qr) = context.authority.query(qname, qtype) {
        return Some(Ok(qr));
    }
    if !recursive || !context.allow_recursive {
        let mut packet = DnsPacket::new();
        packet.header.rescode = ResultCode::REFUSED;
        return Some(Ok(packet));
    }
    let now = crate::utils::current_time_millis();
    if let Some(qr) = cached_answer(&mut context.cache, qname, qtype, now) {
        return Some(Ok(qr));
    }
    None
}


/// What one referral response makes the walk do next.
pub enum ReferralStep {
    /// The response settles the question and is handed back whole.
    Answered(DnsPacket),
    /// A glue address names the next server directly; `zone` is the
    /// response's NS zone, for the loop guard.
    Referred { next: String, zone: String },
    /// A name server was named without glue: its address must itself be
    /// resolved before the walk can continue.
    NeedHost { host: String, response: DnsPacket },
    /// The response's NS zone was already consulted: following it would
    /// loop forever.
    LoopDetected,
    /// The response neither answers nor refers anywhere.
    Dead,
}

/// A response that settles the question: a non-empty answer with NOERROR.
pub open spec fn is_final_answer(p: crate::protocol::PacketView) -> bool {
    p.answers.len() > 0 && p.header.rescode == ResultCode::NOERROR
}

/// `z` is one of the zones already consulted.
pub open spec fn zone_listed(zs: Seq<String>, z: Seq<char>) -> bool {
    exists|k: int| 0 <= k < zs.len() && (#[trigger] zs[k])@ == z
}

/// All three of a response's sections were stored: every pair they key now
/// holds a positive set, every other pair and every hit counter is as it
/// was.
pub open spec fn sections_cached(
    pre: Seq<crate::cache::DomainStoreView>,
    post: Seq<crate::cache::DomainStoreView>,
    p: crate::protocol::PacketView,
) -> bool {
    (forall|d: Seq<char>, qt: QueryType|
        (input_has_key(p.answers, d, qt) || input_has_key(p.authorities, d, qt) || input_has_key(
            p.resources,
            d,
            qt,
        )) ==> (#[trigger] cache_set(post, d, qt)) matches Some(
            RecordSetView::Records { .. },
        )) && (forall|d: Seq<char>, qt: QueryType|
        !input_has_key(p.answers, d, qt) && !input_has_key(p.authorities, d, qt)
            && !input_has_key(p.resources, d, qt) ==> #[trigger] cache_set(post, d, qt)
            == cache_set(pre, d, qt)) && (forall|d: Seq<char>| #[trigger] crate::cache::cache_hits(
        post,
        d,
    ) == crate::cache::cache_hits(pre, d))
}

/// Takes one referral response and decides the walk's next move.
///
/// A non-empty NOERROR answer or an NXDOMAIN settles the question: the
/// first has its sections stored, the second installs a negative entry with
/// the SOA's retry time when one is present. A response whose NS zone was
/// already consulted is a loop. Otherwise a glue address refers the walk
/// onward (storing the sections), a glueless NS names a host to resolve,
/// and anything else is a dead end.
#[verifier::rlimit(100)]
#[verifier::spinoff_prover]
pub fn referral_step(
    cache: &mut Cache,
    qname: &str,
    qtype: QueryType,
    zones: &Vec<String>,
    response: DnsPacket,
) -> (r: ReferralStep)
    requires
        old(cache).inv(),
    ensures
        final(cache).inv(),
        is_final_answer(response@) ==> (r matches ReferralStep::Answered(p) && p@ == response@)
            && sections_cached(old(cache)@, final(cache)@, response@),
        !is_final_answer(response@) && response@.header.rescode == ResultCode::NXDOMAIN ==> (r
            matches ReferralStep::Answered(p) && p@ == response@) && (match first_soa_retry(
            response@.authorities,
        ) {
            Some(t) => (cache_set(final(cache)@, crate::cache::normalize(qname@), qtype) matches
                Some(RecordSetView::NotFound { ttl, .. }) && ttl == t) && (forall|
                d: Seq<char>,
                qt: QueryType,
            |
                !(d == crate::cache::normalize(qname@) && qt == qtype) ==> #[trigger] cache_set(
                    final(cache)@,
                    d,
                    qt,
                ) == cache_set(old(cache)@, d, qt)) && (forall|d: Seq<char>|
                #[trigger] crate::cache::cache_hits(final(cache)@, d)
                    == crate::cache::cache_hits(old(cache)@, d)),
            None => final(cache)@ == old(cache)@,
        }),
        !is_final_answer(response@) && response@.header.rescode != ResultCode::NXDOMAIN
            && zone_listed(zones@, crate::protocol::spec_ns_zone(response@, qname@)) ==> r is
            LoopDetected && final(cache)@ == old(cache)@,
        !is_final_answer(response@) && response@.header.rescode != ResultCode::NXDOMAIN
            && !zone_listed(zones@, crate::protocol::spec_ns_zone(response@, qname@))
            && crate::protocol::has_glued_ns(response@, qname@) ==> (r matches
            ReferralStep::Referred { next, zone } && crate::protocol::is_glue_addr(
            response@,
            qname@,
            next@,
        ) && zone@ == crate::protocol::spec_ns_zone(response@, qname@)) && sections_cached(
            old(cache)@,
            final(cache)@,
            response@,
        ),
        !is_final_answer(response@) && response@.header.rescode != ResultCode::NXDOMAIN
            && !zone_listed(zones@, crate::protocol::spec_ns_zone(response@, qname@))
            && !crate::protocol::has_glued_ns(response@, qname@) && crate::protocol::has_ns_in(
            response@.authorities,
            qname@,
        ) ==> (r matches ReferralStep::NeedHost { host, response: resp } && resp@ == response@
            && is_ns_host_in(response@.authorities, qname@, host@)) && final(cache)@ == old(
            cache,
        )@,
        !is_final_answer(response@) && response@.header.rescode != ResultCode::NXDOMAIN
            && !zone_listed(zones@, crate::protocol::spec_ns_zone(response@, qname@))
            && !crate::protocol::has_glued_ns(response@, qname@) && !crate::protocol::has_ns_in(
            response@.authorities,
            qname@,
        ) ==> r is Dead && final(cache)@ == old(cache)@,
{
    let ghost pv = response@;
    let ghost cv0 = old(cache)@;

    // An actual answer settles the question.
    if response.answers.len() > 0 && response.header.rescode == ResultCode::NOERROR {
        store_sections(cache, &response);
        return ReferralStep::Answered(response);
    }

    // A negative answer is remembered with the SOA's retry time.
    if response.header.rescode == ResultCode::NXDOMAIN {
        if let Some(ttl) = response.get_ttl_from_soa() {
            let _ = cache.store_nxdomain(qname, qtype, ttl);
        }
        return ReferralStep::Answered(response);
    }

    // Revisiting a zone already consulted would loop forever.
    let zone = response.get_ns_zone(qname);
    let mut seen = false;
    let mut z: usize = 0;
    while z < zones.len()
        invariant
            z <= zones@.len(),
            seen ==> zone_listed(zones@, zone@),
            !seen ==> forall|k: int| 0 <= k < z ==> (#[trigger] zones@[k])@ != zone@,
        decreases zones@.len() - z,
    {
        if crate::text::str_eq((&zones[z]).as_str(), zone.as_str()) {
            proof {
                assert(zones@[z as int]@ == zone@);
            }
            seen = true;
        }
        z = z + 1;
    }
    if seen {
        return ReferralStep::LoopDetected;
    }

    // A referral with glue names the next server directly.
    if let Some(next) = response.get_resolved_ns(qname) {
        store_sections(cache, &response);
        return ReferralStep::Referred { next, zone };
    }

    // A referral without glue names a server to resolve first; only the
    // authority section may steer the walk.
    match response.get_referral_ns(qname) {
        Some(host) => ReferralStep::NeedHost { host, response },
        None => ReferralStep::Dead,
    }
}

/// Stores all three sections of a response, answers first.
fn store_sections(cache: &mut Cache, response: &DnsPacket)
    requires
        old(cache).inv(),
    ensures
        final(cache).inv(),
        sections_cached(old(cache)@, final(cache)@, response@),
{
    let ghost cv0 = old(cache)@;
    let _ = cache.store(&response.answers);
    let ghost cv1 = cache@;
    let _ = cache.store(&response.authorities);
    let ghost cv2 = cache@;
    let _ = cache.store(&response.resources);
    proof {
        let pv = response@;
        assert forall|d: Seq<char>, qt: QueryType|
            (input_has_key(pv.answers, d, qt) || input_has_key(pv.authorities, d, qt)
                || input_has_key(pv.resources, d, qt)) implies (#[trigger] cache_set(
            cache@,
            d,
            qt,
        )) matches Some(RecordSetView::Records { .. }) by {
            if input_has_key(pv.resources, d, qt) {
            } else if input_has_key(pv.authorities, d, qt) {
                assert(cache_set(cache@, d, qt) == cache_set(cv2, d, qt));
            } else {
                assert(cache_set(cv2, d, qt) == cache_set(cv1, d, qt));
                assert(cache_set(cache@, d, qt) == cache_set(cv2, d, qt));
            }
        }
        assert forall|d: Seq<char>, qt: QueryType|
            !input_has_key(pv.answers, d, qt) && !input_has_key(pv.authorities, d, qt)
                && !input_has_key(pv.resources, d, qt) implies #[trigger] cache_set(cache@, d, qt)
            == cache_set(cv0, d, qt) by {
            assert(cache_set(cv1, d, qt) == cache_set(cv0, d, qt));
            assert(cache_set(cv2, d, qt) == cache_set(cv1, d, qt));
        }
    }
}

/// What the forwarding strategy does with the upstream's reply: an error
/// passes through unchanged; a reply has its answers stored in the cache,
/// grouped by name and type as a set, and is handed back whole.
pub fn forward_outcome(cache: &mut Cache, outcome: Result<DnsPacket, DnsError>) -> (r: Result<
    DnsPacket,
    DnsError,
>)
    requires
        old(cache).inv(),
    ensures
        final(cache).inv(),
        outcome is Err ==> r is Err && r->Err_0 == outcome->Err_0 && final(cache)@ == old(
            cache,
        )@,
        outcome is Ok ==> r is Ok && r->Ok_0@ == outcome->Ok_0@,
        outcome is Ok ==> (forall|d: Seq<char>, qt: QueryType|
            input_has_key(views_of(outcome->Ok_0.answers@), d, qt) ==> ((#[trigger] cache_set(
                final(cache)@,
                d,
                qt,
            )) matches Some(RecordSetView::Records { records: rvs, .. }) && (forall|
                rv: crate::protocol::RecordView,
            |
                rvs.contains(rv) <==> (views_of(outcome->Ok_0.answers@).contains(rv) && key_of(
                    rv,
                ) == Some((d, qt)))))),
        outcome is Ok ==> (forall|d: Seq<char>, qt: QueryType|
            !input_has_key(views_of(outcome->Ok_0.answers@), d, qt) ==> #[trigger] cache_set(
                final(cache)@,
                d,
                qt,
            ) == cache_set(old(cache)@, d, qt)),
        forall|d: Seq<char>| #[trigger] crate::cache::cache_hits(final(cache)@, d)
            == crate::cache::cache_hits(old(cache)@, d),
{
    match outcome {
        Ok(qr) => {
            let _ = cache.store(&qr.answers);
            Ok(qr)
        },
        Err(e) => Err(e),
    }
}

/// Answers by handing the question to a fixed upstream server.
pub struct ForwardingDnsResolver {
    pub server: (String, u16),
}

impl ForwardingDnsResolver {
    pub fn new(server: (String, u16)) -> (r: ForwardingDnsResolver)
        ensures
            r.server.0@ == server.0@,
            r.server.1 == server.1,
    {
        ForwardingDnsResolver { server }
    }

    /// Sends the question upstream with recursion desired; a successful
    /// answer's records are stored in the cache, grouped by name and type.
    fn perform<C: DnsClient>(
        &self,
        context: &mut ServerContext<C>,
        qname: &str,
        qtype: QueryType,
    ) -> (r: Result<DnsPacket, DnsError>)
        requires
            old(context).inv(),
        ensures
            final(context).inv(),
            final(context).authority@ == old(context).authority@,
            final(context).filter == old(context).filter,
            final(context).allow_recursive == old(context).allow_recursive,
            r matches Ok(p) ==> (forall|d: Seq<char>, qt: QueryType|
                input_has_key(views_of(p.answers@), d, qt) ==> ((#[trigger] cache_set(
                    final(context).cache@,
                    d,
                    qt,
                )) matches Some(RecordSetView::Records { records: rvs, .. }) && (forall|
                    rv: crate::protocol::RecordView,
                |
                    rvs.contains(rv) <==> (views_of(p.answers@).contains(rv) && key_of(rv)
                        == Some((d, qt)))))),
    {
        let host = self.server.0.clone();
        let port = self.server.1;
        let result = context.client.send_query(qname, qtype, (host.as_str(), port), true);
        forward_outcome(&mut context.cache, result)
    }
}

impl<C: DnsClient> DnsResolver<C> for ForwardingDnsResolver {
    fn resolve(
        &self,
        context: &mut ServerContext<C>,
        qname: &str,
        qtype: QueryType,
        recursive: bool,
    ) -> Result<DnsPacket, DnsError> {
        match resolve_prologue(context, qname, qtype, recursive) {
            Some(r) => r,
            None => self.perform(context, qname, qtype),
        }
    }
}

/// Answers any question by walking the hierarchy from the closest name
/// server the cache knows, following referrals.
pub struct RecursiveDnsResolver {}

impl RecursiveDnsResolver {
    pub fn new() -> (r: RecursiveDnsResolver) {
        RecursiveDnsResolver {  }
    }

    /// The full lookup with a recursion budget: shared checks first, then
    /// the iterative walk.
    fn resolve_depth<C: DnsClient>(
        &self,
        context: &mut ServerContext<C>,
        qname: &str,
        qtype: QueryType,
        recursive: bool,
        depth: u32,
    ) -> (r: Result<DnsPacket, DnsError>)
        requires
            old(context).inv(),
        ensures
            final(context).inv(),
            final(context).authority@ == old(context).authority@,
            final(context).filter == old(context).filter,
            final(context).allow_recursive == old(context).allow_recursive,
            qtype matches QueryType::UNKNOWN(_) ==> (r matches Ok(p) && p@.header.rescode
                == ResultCode::NOTIMP && p@.answers.len() == 0 && p@.questions.len() == 0
                && p@.authorities.len() == 0 && p@.resources.len() == 0),
            auth_lookup(old(context).authority@, qname@, qtype) is Some && !(qtype is UNKNOWN)
                ==> (r matches Ok(p) && p@ == auth_lookup(
                old(context).authority@,
                qname@,
                qtype,
            )->Some_0),
            !(qtype matches QueryType::UNKNOWN(_)) && auth_lookup(
                old(context).authority@,
                qname@,
                qtype,
            ) is None && !(recursive && old(context).allow_recursive) ==> (r matches Ok(p)
                && p@.header.rescode == ResultCode::REFUSED && p@.answers.len() == 0
                && p@.questions.len() == 0 && p@.authorities.len() == 0 && p@.resources.len()
                == 0),
        decreases depth, 1int,
    {
        match resolve_prologue(context, qname, qtype, recursive) {
            Some(r) => r,
            None => self.perform_depth(context, qname, qtype, depth),
        }
    }

    /// The iterative walk: seed a name server from the cache by the longest
    /// matching suffix of the name, then query and follow referrals until
    /// an answer, a negative answer, a referral loop, or a dead end. With
    /// nothing cached at all, the walk fails with NotFound before any
    /// network call. The walk follows at most a hundred referrals, so a
    /// chain of ever-fresh zones ends in NotFound instead of running
    /// without bound.
    fn perform_depth<C: DnsClient>(
        &self,
        context: &mut ServerContext<C>,
        qname: &str,
        qtype: QueryType,
        depth: u32,
    ) -> (r: Result<DnsPacket, DnsError>)
        requires
            old(context).inv(),
        ensures
            final(context).inv(),
            final(context).authority@ == old(context).authority@,
            final(context).filter == old(context).filter,
            final(context).allow_recursive == old(context).allow_recursive,
            old(context).cache@.len() == 0 ==> (r matches Err(e) && e == DnsError::NotFound),
        decreases depth, 0int,
    {
        let now = crate::utils::current_time_millis();
        let tentative_ns = seed_nameserver(&mut context.cache, qname, now);
        proof {
            if old(context).cache@.len() == 0 {
                assert forall|i: int| !boundary_offers(
                    old(context).cache@,
                    qname@,
                    i,
                    now,
                ) by {
                    assert(cache_set(
                        old(context).cache@,
                        crate::cache::normalize(suffix_at(qname@, i)),
                        QueryType::NS,
                    ) is None);
                    assert forall|h: Seq<char>| !offered_host(
                        old(context).cache@,
                        qname@,
                        i,
                        now,
                        h,
                    ) by {}
                }
            }
        }
        let mut ns = match tentative_ns {
            Some(x) => x,
            None => {
                return Err(DnsError::NotFound);
            },
        };
        proof {
            if old(context).cache@.len() == 0 {
                assert(false);
            }
        }

        // Each referral step either ends the walk or hands over a new
        // server; a budget keeps an endless referral chain from hanging a
        // worker.
        let mut zones: Vec<String> = Vec::new();
        let mut budget: u32 = 100;
        loop
            invariant
                context.inv(),
                context.authority@ == old(context).authority@,
                context.filter == old(context).filter,
                context.allow_recursive == old(context).allow_recursive,
                old(context).cache@.len() > 0,
            decreases budget,
        {
            if budget == 0 {
                return Err(DnsError::NotFound);
            }
            budget = budget - 1;
            let ns_copy = ns.clone();
            let response = match context.client.send_query(
                qname,
                qtype,
                (ns_copy.as_str(), 53),
                false,
            ) {
                Ok(r) => r,
                Err(e) => {
                    return Err(e);
                },
            };

            match referral_step(&mut context.cache, qname, qtype, &zones, response) {
                ReferralStep::Answered(p) => {
                    return Ok(p);
                },
                ReferralStep::LoopDetected => {
                    return Err(DnsError::NotFound);
                },
                ReferralStep::Referred { next, zone } => {
                    ns = next;
                    if zone.as_str().unicode_len() > 0 {
                        zones.push(zone);
                    }
                },
                ReferralStep::NeedHost { host, response } => {
                    // the named server's own address must be resolved, to a
                    // bounded depth
                    if depth == 0 {
                        return Err(DnsError::NotFound);
                    }
                    let recursive_response = match self.resolve_depth(
                        context,
                        host.as_str(),
                        QueryType::A,
                        true,
                        depth - 1,
                    ) {
                        Ok(r) => r,
                        Err(e) => {
                            return Err(e);
                        },
                    };
                    let zone2 = recursive_response.get_ns_zone(qname);
                    if zone2.as_str().unicode_len() > 0 {
                        zones.push(zone2);
                    }
                    match recursive_response.get_random_a() {
                        Some(new_ns) => {
                            ns = new_ns;
                        },
                        None => {
                            return Ok(response);
                        },
                    }
                },
                ReferralStep::Dead => {
                    return Err(DnsError::NotFound);
                },
            }
        }
    }
}

impl<C: DnsClient> DnsResolver<C> for RecursiveDnsResolver {
    fn resolve(
        &self,
        context: &mut ServerContext<C>,
        qname: &str,
        qtype: QueryType,
        recursive: bool,
    ) -> Result<DnsPacket, DnsError> {
        self.resolve_depth(context, qname, qtype, recursive, MAX_RESOLVE_DEPTH)
    }
}

/// The resolver a context's strategy calls for, dispatching between the two
/// strategies by value.
pub enum Resolver {
    Recursive(RecursiveDnsResolver),
    Forward(ForwardingDnsResolver),
}

impl Resolver {
    /// Answers as the held strategy would; the shared checks come first
    /// either way.
    pub fn resolve<C: DnsClient>(
        &self,
        context: &mut ServerContext<C>,
        qname: &str,
        qtype: QueryType,
        recursive: bool,
    ) -> (r: Result<DnsPacket, DnsError>)
        requires
            old(context).inv(),
        ensures
            final(context).inv(),
            final(context).authority@ == old(context).authority@,
            final(context).filter == old(context).filter,
            final(context).allow_recursive == old(context).allow_recursive,
            qtype matches QueryType::UNKNOWN(_) ==> (r matches Ok(p) && p@.header.rescode
                == ResultCode::NOTIMP && p@.answers.len() == 0 && p@.questions.len() == 0
                && p@.authorities.len() == 0 && p@.resources.len() == 0),
            auth_lookup(old(context).authority@, qname@, qtype) is Some && !(qtype is UNKNOWN)
                ==> (r matches Ok(p) && p@ == auth_lookup(
                old(context).authority@,
                qname@,
                qtype,
            )->Some_0),
            !(qtype matches QueryType::UNKNOWN(_)) && auth_lookup(
                old(context).authority@,
                qname@,
                qtype,
            ) is None && !(recursive && old(context).allow_recursive) ==> (r matches Ok(p)
                && p@.header.rescode == ResultCode::REFUSED && p@.answers.len() == 0
                && p@.questions.len() == 0 && p@.authorities.len() == 0 && p@.resources.len()
                == 0),
    {
        match self {
            Resolver::Recursive(inner) => inner.resolve(context, qname, qtype, recursive),
            Resolver::Forward(inner) => inner.resolve(context, qname, qtype, recursive),
        }
    }
}

impl<C: DnsClient> ServerContext<C> {
    /// The resolver the configured strategy calls for.
    pub fn create_resolver(&self) -> (r: Resolver)
        ensures
            self.resolve_strategy is Recursive ==> r is Recursive,
            self.resolve_strategy matches ResolveStrategy::Forward { host, port } ==> (r matches
                Resolver::Forward(f) && f.server.0@ == host@ && f.server.1 == port),
    {
        match &self.resolve_strategy {
            ResolveStrategy::Recursive => Resolver::Recursive(RecursiveDnsResolver::new()),
            ResolveStrategy::Forward { host, port } => Resolver::Forward(
                ForwardingDnsResolver::new((host.clone(), *port)),
            ),
        }
    }
}

} // verus!
