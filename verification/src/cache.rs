use vstd::prelude::*;
use crate::protocol::{
    DnsPacket, DnsRecord, PacketView, QuestionView, QueryType, RecordView, ResultCode,
    empty_header, rv_domain, rv_qtype, rv_ttl, views_of,
};
use crate::text::lex_lt;
use crate::DnsError;
use vstd::string::StrSliceExecFns;

verus! {

/// What the cache holds for one (domain, type) pair.
pub enum RecordSet {
    /// A negatively cached NXDOMAIN and the TTL it was given.
    NotFound { ttl: u32, timestamp: u64 },
    /// The records answered for the pair, stamped with their insertion time
    /// in milliseconds.
    Records { records: Vec<DnsRecord>, timestamp: u64 },
}

pub enum RecordSetView {
    NotFound { ttl: u32, timestamp: u64 },
    Records { records: Seq<RecordView>, timestamp: u64 },
}

impl View for RecordSet {
    type V = RecordSetView;

    open spec fn view(&self) -> RecordSetView {
        match self {
            RecordSet::NotFound { ttl, timestamp } => RecordSetView::NotFound {
                ttl: *ttl,
                timestamp: *timestamp,
            },
            RecordSet::Records { records, timestamp } => RecordSetView::Records {
                records: views_of(records@),
                timestamp: *timestamp,
            },
        }
    }
}

/// One domain's cached sets, keyed by record type, and its hit counter.
pub struct DomainStore {
    pub domain: String,
    pub sets: Vec<(QueryType, RecordSet)>,
    pub hits: u64,
}

pub struct DomainStoreView {
    pub domain: Seq<char>,
    pub sets: Seq<(QueryType, RecordSetView)>,
    pub hits: u64,
}

impl View for DomainStore {
    type V = DomainStoreView;

    open spec fn view(&self) -> DomainStoreView {
        DomainStoreView {
            domain: self.domain@,
            sets: Seq::new(self.sets@.len(), |i: int| (self.sets@[i].0, self.sets@[i].1@)),
            hits: self.hits,
        }
    }
}

/// A row of `Cache::list`: a domain, the record types cached for it, and how
/// often it answered a lookup.
pub struct DomainEntry {
    pub domain: String,
    pub record_types: Vec<QueryType>,
    pub hits: u64,
}

/// The per-domain, per-type record store. Entries are kept sorted by domain.
pub struct Cache {
    pub entries: Vec<DomainStore>,
}

impl View for Cache {
    type V = Seq<DomainStoreView>;

    open spec fn view(&self) -> Seq<DomainStoreView> {
        views_of(self.entries@)
    }
}

/// The index of `qt` among the sets, or -1.
pub open spec fn set_index(sets: Seq<(QueryType, RecordSetView)>, qt: QueryType) -> int
    decreases sets.len(),
{
    if sets.len() == 0 {
        -1
    } else if sets[0].0 == qt {
        0
    } else {
        let r = set_index(sets.drop_first(), qt);
        if r < 0 {
            -1
        } else {
            1 + r
        }
    }
}

/// The index of `d` among the entries, or -1.
pub open spec fn domain_index(cv: Seq<DomainStoreView>, d: Seq<char>) -> int
    decreases cv.len(),
{
    if cv.len() == 0 {
        -1
    } else if cv[0].domain == d {
        0
    } else {
        let r = domain_index(cv.drop_first(), d);
        if r < 0 {
            -1
        } else {
            1 + r
        }
    }
}

pub proof fn lemma_set_index_range(sets: Seq<(QueryType, RecordSetView)>, qt: QueryType)
    ensures
        -1 <= set_index(sets, qt) < sets.len(),
        set_index(sets, qt) >= 0 ==> sets[set_index(sets, qt)].0 == qt,
        set_index(sets, qt) == -1 ==> forall|j: int| 0 <= j < sets.len() ==> (
        #[trigger] sets[j]).0 != qt,
    decreases sets.len(),
{
    if sets.len() > 0 && sets[0].0 != qt {
        lemma_set_index_range(sets.drop_first(), qt);
        assert forall|j: int| set_index(sets, qt) == -1 && 0 <= j < sets.len() implies (
        #[trigger] sets[j]).0 != qt by {
            if j > 0 {
                assert(sets.drop_first()[j - 1] == sets[j]);
            }
        }
    }
}

pub proof fn lemma_domain_index_range(cv: Seq<DomainStoreView>, d: Seq<char>)
    ensures
        -1 <= domain_index(cv, d) < cv.len(),
        domain_index(cv, d) >= 0 ==> cv[domain_index(cv, d)].domain == d,
        domain_index(cv, d) == -1 ==> forall|j: int| 0 <= j < cv.len() ==> (
        #[trigger] cv[j]).domain != d,
    decreases cv.len(),
{
    if cv.len() > 0 && cv[0].domain != d {
        lemma_domain_index_range(cv.drop_first(), d);
        assert forall|j: int| domain_index(cv, d) == -1 && 0 <= j < cv.len() implies (
        #[trigger] cv[j]).domain != d by {
            if j > 0 {
                assert(cv.drop_first()[j - 1] == cv[j]);
            }
        }
    }
}

/// Two caches whose entries carry the same domains in the same order index
/// alike.
pub proof fn lemma_domain_index_same_domains(
    cv1: Seq<DomainStoreView>,
    cv2: Seq<DomainStoreView>,
    d: Seq<char>,
)
    requires
        cv1.len() == cv2.len(),
        forall|i: int| 0 <= i < cv1.len() ==> (#[trigger] cv1[i]).domain == cv2[i].domain,
    ensures
        domain_index(cv1, d) == domain_index(cv2, d),
    decreases cv1.len(),
{
    if cv1.len() > 0 {
        assert(cv1[0].domain == cv2[0].domain);
        assert forall|i: int| 0 <= i < cv1.len() - 1 implies (
        #[trigger] cv1.drop_first()[i]).domain == cv2.drop_first()[i].domain by {
            assert(cv1.drop_first()[i] == cv1[i + 1]);
            assert(cv2.drop_first()[i] == cv2[i + 1]);
        }
        lemma_domain_index_same_domains(cv1.drop_first(), cv2.drop_first(), d);
    }
}

/// Appending a set for a new type leaves existing types where they were.
pub proof fn lemma_set_index_push(
    sets: Seq<(QueryType, RecordSetView)>,
    x: (QueryType, RecordSetView),
    qt: QueryType,
)
    ensures
        set_index(sets.push(x), qt) == (if set_index(sets, qt) >= 0 {
            set_index(sets, qt)
        } else if x.0 == qt {
            sets.len() as int
        } else {
            -1
        }),
    decreases sets.len(),
{
    let sp = sets.push(x);
    if sets.len() == 0 {
        assert(sp.len() == 1);
        assert(sp[0] == x);
        assert(sp.drop_first() =~= Seq::<(QueryType, RecordSetView)>::empty());
        if x.0 == qt {
            assert(set_index(sp, qt) == 0);
        } else {
            assert(set_index(sp.drop_first(), qt) == -1);
            assert(set_index(sp, qt) == -1);
        }
    } else {
        assert(sp[0] == sets[0]);
        assert(sp.drop_first() =~= sets.drop_first().push(x));
        lemma_set_index_push(sets.drop_first(), x, qt);
        let r = set_index(sets.drop_first(), qt);
        let rp = set_index(sets.drop_first().push(x), qt);
        if sets[0].0 == qt {
            assert(set_index(sp, qt) == 0);
            assert(set_index(sets, qt) == 0);
        } else {
            assert(set_index(sp, qt) == (if rp < 0 {
                -1int
            } else {
                1 + rp
            }));
            assert(set_index(sets, qt) == (if r < 0 {
                -1int
            } else {
                1 + r
            }));
        }
    }
}

/// Inserting an entry for a fresh domain leaves every other domain's entry
/// reachable and unchanged.
pub proof fn lemma_domain_index_insert(
    cv: Seq<DomainStoreView>,
    idx: int,
    e: DomainStoreView,
    d: Seq<char>,
)
    requires
        0 <= idx <= cv.len(),
        forall|i: int| 0 <= i < cv.len() ==> (#[trigger] cv[i]).domain != e.domain,
    ensures
        d == e.domain ==> domain_index(cv.insert(idx, e), d) == idx,
        d != e.domain ==> (if domain_index(cv, d) < 0 {
            domain_index(cv.insert(idx, e), d) == -1
        } else if domain_index(cv, d) < idx {
            domain_index(cv.insert(idx, e), d) == domain_index(cv, d)
        } else {
            domain_index(cv.insert(idx, e), d) == domain_index(cv, d) + 1
        }),
        d != e.domain && domain_index(cv, d) >= 0 ==> cv.insert(idx, e)[domain_index(
            cv.insert(idx, e),
            d,
        )] == cv[domain_index(cv, d)],
    decreases cv.len(),
{
    lemma_domain_index_range(cv, d);
    let cv2 = cv.insert(idx, e);
    if idx == 0 {
        assert(cv2[0] == e);
        assert(cv2.drop_first() =~= cv);
    } else {
        assert(cv2[0] == cv[0]);
        assert(cv2.drop_first() =~= cv.drop_first().insert(idx - 1, e));
        assert forall|i: int| 0 <= i < cv.drop_first().len() implies (
        #[trigger] cv.drop_first()[i]).domain != e.domain by {
            assert(cv.drop_first()[i] == cv[i + 1]);
        }
        lemma_domain_index_insert(cv.drop_first(), idx - 1, e, d);
        if d != e.domain && domain_index(cv, d) >= 1 {
            assert(cv.drop_first()[domain_index(cv, d) - 1] == cv[domain_index(cv, d)]);
        }
    }
}

/// What the cache knows for a (domain, type) pair.
pub open spec fn cache_set(cv: Seq<DomainStoreView>, d: Seq<char>, qt: QueryType) -> Option<
    RecordSetView,
> {
    let i = domain_index(cv, d);
    if i < 0 {
        None
    } else {
        let j = set_index(cv[i].sets, qt);
        if j < 0 {
            None
        } else {
            Some(cv[i].sets[j].1)
        }
    }
}

/// How often a domain's entry answered a lookup; 0 when it has none.
pub open spec fn cache_hits(cv: Seq<DomainStoreView>, d: Seq<char>) -> u64 {
    let i = domain_index(cv, d);
    if i < 0 {
        0
    } else {
        cv[i].hits
    }
}

/// The empty domain is stored and looked up as the root zone `.`.
pub open spec fn normalize(d: Seq<char>) -> Seq<char> {
    if d.len() == 0 {
        seq!['.']
    } else {
        d
    }
}

/// The key a record is cached under, when it has one.
pub open spec fn key_of(r: RecordView) -> Option<(Seq<char>, QueryType)> {
    match rv_domain(r) {
        Option::None => None,
        Option::Some(dd) => Some((normalize(dd), rv_qtype(r))),
    }
}

/// Some record of `rs` is cached under (`d`, `qt`).
pub open spec fn input_has_key(rs: Seq<RecordView>, d: Seq<char>, qt: QueryType) -> bool {
    exists|i: int| 0 <= i < rs.len() && key_of(#[trigger] rs[i]) == Some((d, qt))
}

/// The cache's entries are sorted by domain, domains are nonempty and
/// unique, and each entry's types are unique.
pub open spec fn cache_inv(cv: Seq<DomainStoreView>) -> bool {
    (forall|i: int, j: int| 0 <= i < j < cv.len() ==> lex_lt(
        (#[trigger] cv[i]).domain,
        (#[trigger] cv[j]).domain,
    )) && (forall|i: int| 0 <= i < cv.len() ==> (#[trigger] cv[i]).domain.len() > 0) && (forall|
        i: int,
        j1: int,
        j2: int,
    |
        #![trigger cv[i].sets[j1], cv[i].sets[j2]]
        0 <= i < cv.len() && 0 <= j1 < j2 < cv[i].sets.len() ==> cv[i].sets[j1].0
            != cv[i].sets[j2].0)
}

/// The TTL a cached record still has at `now`: its original TTL less the
/// full seconds since it was stored, and never negative.
pub open spec fn remaining_ttl(ttl: u32, stamp: u64, now: u64) -> u32 {
    if now < stamp {
        ttl
    } else if (now - stamp) / 1000 >= ttl {
        0
    } else {
        (ttl - (now - stamp) / 1000) as u32
    }
}

/// The same record with a new TTL; OPT records carry none.
pub open spec fn with_ttl(r: RecordView, t: u32) -> RecordView {
    match r {
        RecordView::UNKNOWN { domain, qtype, data_len, ttl } => RecordView::UNKNOWN {
            domain,
            qtype,
            data_len,
            ttl: t,
        },
        RecordView::A { domain, addr, ttl } => RecordView::A { domain, addr, ttl: t },
        RecordView::NS { domain, host, ttl } => RecordView::NS { domain, host, ttl: t },
        RecordView::CNAME { domain, host, ttl } => RecordView::CNAME { domain, host, ttl: t },
        RecordView::SOA { domain, mname, rname, serial, refresh, retry, expire, minimum, ttl } => RecordView::SOA {
            domain,
            mname,
            rname,
            serial,
            refresh,
            retry,
            expire,
            minimum,
            ttl: t,
        },
        RecordView::MX { domain, priority, host, ttl } => RecordView::MX {
            domain,
            priority,
            host,
            ttl: t,
        },
        RecordView::TXT { domain, data, ttl } => RecordView::TXT { domain, data, ttl: t },
        RecordView::AAAA { domain, addr, ttl } => RecordView::AAAA { domain, addr, ttl: t },
        RecordView::SRV { domain, priority, weight, port, host, ttl } => RecordView::SRV {
            domain,
            priority,
            weight,
            port,
            host,
            ttl: t,
        },
        RecordView::OPT { packet_len, flags, data } => RecordView::OPT { packet_len, flags, data },
    }
}

/// The records still alive at `now`, each carrying what is left of its TTL.
pub open spec fn decay_records(rs: Seq<RecordView>, stamp: u64, now: u64) -> Seq<RecordView>
    decreases rs.len(),
{
    if rs.len() == 0 {
        Seq::empty()
    } else {
        let rest = decay_records(rs.drop_last(), stamp, now);
        let t = remaining_ttl(rv_ttl(rs.last()), stamp, now);
        if t > 0 {
            rest.push(with_ttl(rs.last(), t))
        } else {
            rest
        }
    }
}

impl DnsRecord {
    /// The same record with a new TTL; OPT records carry none.
    pub fn with_ttl(&self, t: u32) -> (r: DnsRecord)
        ensures
            r@ == with_ttl(self@, t),
    {
        match self {
            DnsRecord::UNKNOWN { domain, qtype, data_len, ttl } => DnsRecord::UNKNOWN {
                domain: domain.clone(),
                qtype: *qtype,
                data_len: *data_len,
                ttl: t,
            },
            DnsRecord::A { domain, addr, ttl } => DnsRecord::A {
                domain: domain.clone(),
                addr: *addr,
                ttl: t,
            },
            DnsRecord::NS { domain, host, ttl } => DnsRecord::NS {
                domain: domain.clone(),
                host: host.clone(),
                ttl: t,
            },
            DnsRecord::CNAME { domain, host, ttl } => DnsRecord::CNAME {
                domain: domain.clone(),
                host: host.clone(),
                ttl: t,
            },
            DnsRecord::SOA { domain, mname, rname, serial, refresh, retry, expire, minimum, ttl } => DnsRecord::SOA {
                domain: domain.clone(),
                mname: mname.clone(),
                rname: rname.clone(),
                serial: *serial,
                refresh: *refresh,
                retry: *retry,
                expire: *expire,
                minimum: *minimum,
                ttl: t,
            },
            DnsRecord::MX { domain, priority, host, ttl } => DnsRecord::MX {
                domain: domain.clone(),
                priority: *priority,
                host: host.clone(),
                ttl: t,
            },
            DnsRecord::TXT { domain, data, ttl } => DnsRecord::TXT {
                domain: domain.clone(),
                data: data.clone(),
                ttl: t,
            },
            DnsRecord::AAAA { domain, addr, ttl } => DnsRecord::AAAA {
                domain: domain.clone(),
                addr: *addr,
                ttl: t,
            },
            DnsRecord::SRV { domain, priority, weight, port, host, ttl } => DnsRecord::SRV {
                domain: domain.clone(),
                priority: *priority,
                weight: *weight,
                port: *port,
                host: host.clone(),
                ttl: t,
            },
            DnsRecord::OPT { packet_len, flags, data } => DnsRecord::OPT {
                packet_len: *packet_len,
                flags: *flags,
                data: data.clone(),
            },
        }
    }
}


/// `lex_lt` never relates a sequence to itself.
pub proof fn lemma_lex_lt_irrefl(a: Seq<char>)
    ensures
        !lex_lt(a, a),
    decreases a.len(),
{
    if a.len() > 0 {
        lemma_lex_lt_irrefl(a.drop_first());
    }
}

/// Two sequences that neither order relates are equal.
pub proof fn lemma_lex_lt_total(a: Seq<char>, b: Seq<char>)
    requires
        !lex_lt(a, b),
        !lex_lt(b, a),
    ensures
        a == b,
    decreases a.len(),
{
    if a.len() == 0 && b.len() == 0 {
        assert(a =~= b);
    } else if a.len() > 0 && b.len() > 0 {
        if a[0] != b[0] {
            assert(!((a[0] as u32) < (b[0] as u32)));
            assert(!((b[0] as u32) < (a[0] as u32)));
            vstd::utf8::char_u32_cast(a[0], a[0] as u32);
            vstd::utf8::char_u32_cast(b[0], b[0] as u32);
            assert(false);
        }
        lemma_lex_lt_total(a.drop_first(), b.drop_first());
        assert(a.len() == b.len());
        assert forall|i: int| 0 <= i < a.len() implies a[i] == b[i] by {
            if i > 0 {
                assert(a.drop_first()[i - 1] == a[i]);
                assert(b.drop_first()[i - 1] == b[i]);
            }
        }
        assert(a =~= b);
    }
}

/// `lex_lt` chains.
pub proof fn lemma_lex_lt_trans(a: Seq<char>, b: Seq<char>, c: Seq<char>)
    requires
        lex_lt(a, b),
        lex_lt(b, c),
    ensures
        lex_lt(a, c),
    decreases a.len(),
{
    if a.len() == 0 {
    } else {
        if a[0] == b[0] && b[0] == c[0] {
            lemma_lex_lt_trans(a.drop_first(), b.drop_first(), c.drop_first());
        }
    }
}

/// `set_index` is the index of the first matching type, found by scanning.
pub proof fn lemma_set_index_at(sets: Seq<(QueryType, RecordSetView)>, qt: QueryType, m: int)
    requires
        0 <= m < sets.len(),
        forall|k: int| 0 <= k < m ==> (#[trigger] sets[k]).0 != qt,
        sets[m].0 == qt,
    ensures
        set_index(sets, qt) == m,
    decreases m,
{
    if m > 0 {
        assert(sets[0].0 != qt);
        assert forall|k: int| 0 <= k < m - 1 implies (#[trigger] sets.drop_first()[k]).0 != qt by {
            assert(sets.drop_first()[k] == sets[k + 1]);
        }
        assert(sets.drop_first()[m - 1] == sets[m as int]);
        lemma_set_index_at(sets.drop_first(), qt, m - 1);
    }
}

/// A type no set carries has no index.
pub proof fn lemma_set_index_none(sets: Seq<(QueryType, RecordSetView)>, qt: QueryType)
    requires
        forall|k: int| 0 <= k < sets.len() ==> (#[trigger] sets[k]).0 != qt,
    ensures
        set_index(sets, qt) == -1,
    decreases sets.len(),
{
    if sets.len() > 0 {
        assert forall|k: int| 0 <= k < sets.len() - 1 implies (#[trigger] sets.drop_first()[k]).0
            != qt by {
            assert(sets.drop_first()[k] == sets[k + 1]);
        }
        lemma_set_index_none(sets.drop_first(), qt);
    }
}

/// `domain_index` is the index of the first matching domain.
pub proof fn lemma_domain_index_at(cv: Seq<DomainStoreView>, d: Seq<char>, m: int)
    requires
        0 <= m < cv.len(),
        forall|k: int| 0 <= k < m ==> (#[trigger] cv[k]).domain != d,
        cv[m].domain == d,
    ensures
        domain_index(cv, d) == m,
    decreases m,
{
    if m > 0 {
        assert(cv[0].domain != d);
        assert forall|k: int| 0 <= k < m - 1 implies (#[trigger] cv.drop_first()[k]).domain
            != d by {
            assert(cv.drop_first()[k] == cv[k + 1]);
        }
        assert(cv.drop_first()[m - 1] == cv[m as int]);
        lemma_domain_index_at(cv.drop_first(), d, m - 1);
    }
}

/// A domain no entry carries has no index.
pub proof fn lemma_domain_index_none(cv: Seq<DomainStoreView>, d: Seq<char>)
    requires
        forall|k: int| 0 <= k < cv.len() ==> (#[trigger] cv[k]).domain != d,
    ensures
        domain_index(cv, d) == -1,
    decreases cv.len(),
{
    if cv.len() > 0 {
        assert forall|k: int| 0 <= k < cv.len() - 1 implies (
        #[trigger] cv.drop_first()[k]).domain != d by {
            assert(cv.drop_first()[k] == cv[k + 1]);
        }
        lemma_domain_index_none(cv.drop_first(), d);
    }
}

/// Bumps a counter, sticking at the top instead of wrapping.
pub open spec fn sat_inc(h: u64) -> u64 {
    if h < 0xFFFF_FFFF_FFFF_FFFF {
        (h + 1) as u64
    } else {
        h
    }
}

impl Cache {
    pub open spec fn inv(&self) -> bool {
        cache_inv(self@)
    }

    pub fn new() -> (r: Cache)
        ensures
            r.inv(),
            r@.len() == 0,
    {
        let r = Cache { entries: Vec::new() };
        proof {
            assert(r@ =~= Seq::<DomainStoreView>::empty());
        }
        r
    }

    /// Installs `set` for (`domain`, `qt`), replacing whatever the pair
    /// held; every other pair and every hit counter stays as it was.
    fn put_set(&mut self, domain: &String, qt: QueryType, set: RecordSet)
        requires
            old(self).inv(),
            domain@.len() > 0,
        ensures
            final(self).inv(),
            cache_set(final(self)@, domain@, qt) == Some(set@),
            forall|d2: Seq<char>, qt2: QueryType| !(d2 == domain@ && qt2 == qt)
                ==> #[trigger] cache_set(final(self)@, d2, qt2) == cache_set(old(self)@, d2, qt2),
            forall|d2: Seq<char>| #[trigger] cache_hits(final(self)@, d2) == cache_hits(
                old(self)@,
                d2,
            ),
    {
        let ghost cv0 = self@;
        let mut i: usize = 0;
        while i < self.entries.len() && crate::text::str_lt(
            (&self.entries[i]).domain.as_str(),
            domain.as_str(),
        )
            invariant
                *self == *old(self),
                i <= self.entries@.len(),
                forall|j: int| 0 <= j < i ==> lex_lt((#[trigger] self@[j]).domain, domain@),
            decreases self.entries@.len() - i,
        {
            i = i + 1;
        }
        let found = i < self.entries.len() && crate::text::str_eq(
            (&self.entries[i]).domain.as_str(),
            domain.as_str(),
        );
        if found {
            let mut e = self.entries.remove(i);
            let ghost e0 = e@;
            let mut j: usize = 0;
            while j < e.sets.len() && !((&e.sets[j]).0 == qt)
                invariant
                    e@ == e0,
                    j <= e.sets@.len(),
                    forall|jj: int| 0 <= jj < j ==> (#[trigger] e0.sets[jj]).0 != qt,
                decreases e.sets@.len() - j,
            {
                j = j + 1;
            }
            let ghost replaced = j < e.sets@.len();
            if j < e.sets.len() {
                e.sets.set(j, (qt, set));
            } else {
                e.sets.push((qt, set));
            }
            let ghost e1 = e@;
            self.entries.insert(i, e);
            proof {
                assert(self.entries@ =~= old(self).entries@.update(i as int, self.entries@[i as int]));
                assert(self@ =~= cv0.update(i as int, e1));
                assert(e1.domain == e0.domain);
                assert(e1.hits == e0.hits);
                assert(e0 == cv0[i as int]);
                if replaced {
                    assert(e1.sets =~= e0.sets.update(j as int, (qt, set@)));
                } else {
                    assert(e1.sets =~= e0.sets.push((qt, set@)));
                }
                assert forall|d2: Seq<char>| true implies #[trigger] domain_index(self@, d2)
                    == domain_index(cv0, d2) by {
                    lemma_domain_index_same_domains(self@, cv0, d2);
                }
                assert(domain_index(cv0, domain@) == i) by {
                    assert forall|k: int| 0 <= k < i implies (#[trigger] cv0[k]).domain
                        != domain@ by {
                        lemma_lex_lt_irrefl(domain@);
                        if cv0[k].domain == domain@ {
                            assert(lex_lt(domain@, domain@));
                        }
                    }
                    lemma_domain_index_at(cv0, domain@, i as int);
                }
                if replaced {
                    lemma_set_index_at(e0.sets, qt, j as int);
                    assert(set_index(e0.sets, qt) == j);
                    assert forall|qt2: QueryType| true implies #[trigger] set_index(e1.sets, qt2)
                        == set_index(e0.sets, qt2) by {
                        lemma_set_index_same(e1.sets, e0.sets, qt2);
                    }
                    lemma_set_index_range(e1.sets, qt);
                } else {
                    lemma_set_index_none(e0.sets, qt);
                    assert(set_index(e0.sets, qt) == -1);
                    assert forall|qt2: QueryType| true implies #[trigger] set_index(e1.sets, qt2)
                        == (if set_index(e0.sets, qt2) >= 0 {
                        set_index(e0.sets, qt2)
                    } else if qt2 == qt {
                        e0.sets.len() as int
                    } else {
                        -1int
                    }) by {
                        lemma_set_index_push(e0.sets, (qt, set@), qt2);
                    }
                }
                assert forall|d2: Seq<char>, qt2: QueryType| !(d2 == domain@ && qt2 == qt)
                    implies #[trigger] cache_set(self@, d2, qt2) == cache_set(cv0, d2, qt2) by {
                    lemma_domain_index_range(cv0, d2);
                    lemma_set_index_range(e0.sets, qt2);
                    lemma_set_index_range(e1.sets, qt2);
                    if replaced {
                        lemma_set_index_same(e1.sets, e0.sets, qt2);
                        if set_index(e0.sets, qt2) >= 0 && qt2 != qt {
                            assert(e1.sets[set_index(e0.sets, qt2)] == e0.sets[set_index(
                                e0.sets,
                                qt2,
                            )]);
                        }
                    } else {
                        lemma_set_index_push(e0.sets, (qt, set@), qt2);
                        if set_index(e0.sets, qt2) >= 0 {
                            assert(e1.sets[set_index(e0.sets, qt2)] == e0.sets[set_index(
                                e0.sets,
                                qt2,
                            )]);
                        }
                    }
                    if domain_index(cv0, d2) >= 0 && domain_index(cv0, d2) != i {
                        assert(self@[domain_index(cv0, d2)] == cv0[domain_index(cv0, d2)]);
                    }
                }
                assert forall|d2: Seq<char>| true implies #[trigger] cache_hits(self@, d2)
                    == cache_hits(cv0, d2) by {
                    lemma_domain_index_range(cv0, d2);
                    if domain_index(cv0, d2) >= 0 && domain_index(cv0, d2) != i {
                        assert(self@[domain_index(cv0, d2)] == cv0[domain_index(cv0, d2)]);
                    }
                }
                assert(cache_inv(self@)) by {
                    assert forall|j1: int, j2: int| 0 <= j1 < j2 < self@.len() implies lex_lt(
                        (#[trigger] self@[j1]).domain,
                        (#[trigger] self@[j2]).domain,
                    ) by {
                        assert(self@[j1].domain == cv0[j1].domain);
                        assert(self@[j2].domain == cv0[j2].domain);
                    }
                    if !replaced {
                        lemma_set_index_range(e0.sets, qt);
                        assert forall|j1: int, j2: int|
                            0 <= j1 < j2 < e1.sets.len() implies #[trigger] e1.sets[j1].0
                            != #[trigger] e1.sets[j2].0 by {
                            if j2 < e0.sets.len() {
                                assert(e1.sets[j1] == e0.sets[j1]);
                                assert(e1.sets[j2] == e0.sets[j2]);
                            } else {
                                assert(e1.sets[j1] == e0.sets[j1]);
                                assert(e1.sets[j2].0 == qt);
                            }
                        }
                    }
                }
            }
        } else {
            proof {
                lemma_lex_lt_irrefl(domain@);
                if i < self.entries@.len() {
                    if !lex_lt(domain@, self@[i as int].domain) {
                        lemma_lex_lt_total(self@[i as int].domain, domain@);
                    }
                    assert(lex_lt(domain@, self@[i as int].domain));
                }
                assert forall|j: int| 0 <= j < self@.len() implies (#[trigger] self@[j]).domain
                    != domain@ by {
                    if j < i {
                        if self@[j].domain == domain@ {
                            assert(lex_lt(domain@, domain@));
                        }
                    } else {
                        if j > i {
                            lemma_lex_lt_trans(domain@, self@[i as int].domain, self@[j].domain);
                        }
                        if self@[j].domain == domain@ {
                            assert(lex_lt(domain@, domain@));
                        }
                    }
                }
            }
            let mut sets: Vec<(QueryType, RecordSet)> = Vec::new();
            sets.push((qt, set));
            let e = DomainStore { domain: domain.clone(), sets, hits: 0 };
            let ghost ev = e@;
            self.entries.insert(i, e);
            proof {
                assert(self@ =~= cv0.insert(i as int, ev));
                assert(ev.sets.len() == 1);
                assert(ev.sets[0].0 == qt);
                assert(ev.sets[0].1 == set@);
                assert forall|d2: Seq<char>| true implies #[trigger] domain_index(self@, d2) == (
                if d2 == domain@ {
                    i as int
                } else if domain_index(cv0, d2) < 0 {
                    -1int
                } else if domain_index(cv0, d2) < i {
                    domain_index(cv0, d2)
                } else {
                    domain_index(cv0, d2) + 1
                }) by {
                    lemma_domain_index_insert(cv0, i as int, ev, d2);
                }
                assert(set_index(ev.sets, qt) == 0);
                assert forall|d2: Seq<char>, qt2: QueryType| !(d2 == domain@ && qt2 == qt)
                    implies #[trigger] cache_set(self@, d2, qt2) == cache_set(cv0, d2, qt2) by {
                    lemma_domain_index_insert(cv0, i as int, ev, d2);
                    lemma_domain_index_range(cv0, d2);
                    if d2 == domain@ {
                        assert(domain_index(cv0, d2) == -1);
                        lemma_set_index_range(ev.sets, qt2);
                        assert(set_index(ev.sets, qt2) == -1);
                    }
                }
                assert forall|d2: Seq<char>| true implies #[trigger] cache_hits(self@, d2)
                    == cache_hits(cv0, d2) by {
                    lemma_domain_index_insert(cv0, i as int, ev, d2);
                    lemma_domain_index_range(cv0, d2);
                }
                assert(cache_inv(self@)) by {
                    assert forall|j1: int, j2: int| 0 <= j1 < j2 < self@.len() implies lex_lt(
                        (#[trigger] self@[j1]).domain,
                        (#[trigger] self@[j2]).domain,
                    ) by {
                        if j2 < i {
                        } else if j1 < i && j2 == i {
                        } else if j1 < i && j2 > i {
                            assert(self@[j2] == cv0[j2 - 1]);
                        } else if j1 == i {
                            assert(self@[j2] == cv0[j2 - 1]);
                            if i < cv0.len() {
                                if j2 - 1 > i {
                                    lemma_lex_lt_trans(
                                        domain@,
                                        cv0[i as int].domain,
                                        cv0[j2 - 1].domain,
                                    );
                                }
                            }
                        } else {
                            assert(self@[j1] == cv0[j1 - 1]);
                            assert(self@[j2] == cv0[j2 - 1]);
                        }
                    }
                }
            }
        }
    }
}

/// Two set lists that carry the same types in the same order index alike.
pub proof fn lemma_set_index_same(
    s1: Seq<(QueryType, RecordSetView)>,
    s2: Seq<(QueryType, RecordSetView)>,
    qt: QueryType,
)
    requires
        s1.len() == s2.len(),
        forall|i: int| 0 <= i < s1.len() ==> (#[trigger] s1[i]).0 == s2[i].0,
    ensures
        set_index(s1, qt) == set_index(s2, qt),
    decreases s1.len(),
{
    if s1.len() > 0 {
        assert(s1[0].0 == s2[0].0);
        assert forall|i: int| 0 <= i < s1.len() - 1 implies (#[trigger] s1.drop_first()[i]).0
            == s2.drop_first()[i].0 by {
            assert(s1.drop_first()[i] == s1[i + 1]);
            assert(s2.drop_first()[i] == s2[i + 1]);
        }
        lemma_set_index_same(s1.drop_first(), s2.drop_first(), qt);
    }
}


/// The header of a synthesized negative answer.
pub open spec fn nxdomain_header() -> crate::protocol::DnsHeader {
    crate::protocol::DnsHeader { rescode: ResultCode::NXDOMAIN, ..empty_header() }
}

/// The packet a lookup at instant `now` synthesizes, if any: a positive
/// entry with live records yields them as answers with their remaining TTL,
/// a live negative entry yields a bare NXDOMAIN, anything else nothing.
pub open spec fn spec_lookup(
    cv: Seq<DomainStoreView>,
    qname: Seq<char>,
    qtype: QueryType,
    now: u64,
) -> Option<PacketView> {
    match cache_set(cv, normalize(qname), qtype) {
        Option::Some(RecordSetView::Records { records, timestamp }) => {
            let live = decay_records(records, timestamp, now);
            if live.len() > 0 {
                Some(
                    PacketView {
                        header: empty_header(),
                        questions: Seq::<QuestionView>::empty(),
                        answers: live,
                        authorities: Seq::<RecordView>::empty(),
                        resources: Seq::<RecordView>::empty(),
                    },
                )
            } else {
                None
            }
        },
        Option::Some(RecordSetView::NotFound { ttl, timestamp }) => {
            if remaining_ttl(ttl, timestamp, now) > 0 {
                Some(
                    PacketView {
                        header: nxdomain_header(),
                        questions: Seq::<QuestionView>::empty(),
                        answers: Seq::<RecordView>::empty(),
                        authorities: Seq::<RecordView>::empty(),
                        resources: Seq::<RecordView>::empty(),
                    },
                )
            } else {
                None
            }
        },
        Option::None => None,
    }
}

impl Cache {
    /// Installs a negative entry: the name is known not to exist for `ttl`
    /// seconds starting at `now`.
    pub fn store_nxdomain_at(&mut self, qname: &str, qtype: QueryType, ttl: u32, now: u64)
        requires
            old(self).inv(),
        ensures
            final(self).inv(),
            cache_set(final(self)@, normalize(qname@), qtype) == Some(
                RecordSetView::NotFound { ttl, timestamp: now },
            ),
            forall|d2: Seq<char>, qt2: QueryType| !(d2 == normalize(qname@) && qt2 == qtype)
                ==> #[trigger] cache_set(final(self)@, d2, qt2) == cache_set(old(self)@, d2, qt2),
            forall|d2: Seq<char>| #[trigger] cache_hits(final(self)@, d2) == cache_hits(
                old(self)@,
                d2,
            ),
    {
        let key = normalize_name(qname);
        self.put_set(&key, qtype, RecordSet::NotFound { ttl, timestamp: now });
    }

    /// Answers a lookup from the cache as of the instant `now`.
    ///
    /// A live positive entry yields a packet whose answers carry the stored
    /// records with the TTL each still has, and counts as a hit for the
    /// domain. A live negative entry yields an NXDOMAIN packet. An expired
    /// or missing entry yields nothing. Stored sets are never changed.
    #[verifier::rlimit(100)]
    #[verifier::spinoff_prover]
    pub fn lookup_at(&mut self, qname: &str, qtype: QueryType, now: u64) -> (r: Option<DnsPacket>)
        requires
            old(self).inv(),
        ensures
            final(self).inv(),
            forall|d2: Seq<char>, qt2: QueryType| #[trigger] cache_set(final(self)@, d2, qt2)
                == cache_set(old(self)@, d2, qt2),
            match spec_lookup(old(self)@, qname@, qtype, now) {
                Some(pv) => r matches Some(p) && p@ == pv,
                None => r is None,
            },
            match cache_set(old(self)@, normalize(qname@), qtype) {
                Some(RecordSetView::Records { records, timestamp }) => {
                    if decay_records(records, timestamp, now).len() > 0 {
                        r matches Some(p) && p@.header == empty_header() && p@.answers
                            == decay_records(records, timestamp, now) && p@.questions.len() == 0
                            && p@.authorities.len() == 0 && p@.resources.len() == 0 && cache_hits(
                            final(self)@,
                            normalize(qname@),
                        ) == sat_inc(cache_hits(old(self)@, normalize(qname@))) && (forall|
                            d2: Seq<char>,
                        |
                            d2 != normalize(qname@) ==> #[trigger] cache_hits(final(self)@, d2)
                                == cache_hits(old(self)@, d2))
                    } else {
                        r is None && (forall|d2: Seq<char>| #[trigger] cache_hits(final(self)@, d2)
                            == cache_hits(old(self)@, d2))
                    }
                },
                Some(RecordSetView::NotFound { ttl, timestamp }) => {
                    (if remaining_ttl(ttl, timestamp, now) > 0 {
                        r matches Some(p) && p@.header == nxdomain_header() && p@.answers.len()
                            == 0 && p@.questions.len() == 0 && p@.authorities.len() == 0
                            && p@.resources.len() == 0
                    } else {
                        r is None
                    }) && (forall|d2: Seq<char>| #[trigger] cache_hits(final(self)@, d2)
                        == cache_hits(old(self)@, d2))
                },
                None => r is None && (forall|d2: Seq<char>| #[trigger] cache_hits(final(self)@, d2)
                    == cache_hits(old(self)@, d2)),
            },
    {
        let ghost cv0 = self@;
        let key = normalize_name(qname);
        let mut i: usize = 0;
        while i < self.entries.len() && !crate::text::str_eq(
            (&self.entries[i]).domain.as_str(),
            key.as_str(),
        )
            invariant
                *self == *old(self),
                key@ == normalize(qname@),
                i <= self.entries@.len(),
                forall|k: int| 0 <= k < i ==> (#[trigger] self@[k]).domain != key@,
            decreases self.entries@.len() - i,
        {
            i = i + 1;
        }
        if i >= self.entries.len() {
            proof {
                lemma_domain_index_none(cv0, key@);
            }
            return None;
        }
        proof {
            lemma_domain_index_at(cv0, key@, i as int);
        }
        let mut j: usize = 0;
        while j < (&self.entries[i]).sets.len() && !((&(&self.entries[i]).sets[j]).0 == qtype)
            invariant
                *self == *old(self),
                key@ == normalize(qname@),
                i < self.entries@.len(),
                domain_index(cv0, key@) == i,
                j <= self@[i as int].sets.len(),
                forall|k: int| 0 <= k < j ==> (#[trigger] self@[i as int].sets[k]).0 != qtype,
            decreases self@[i as int].sets.len() - j,
        {
            j = j + 1;
        }
        if j >= (&self.entries[i]).sets.len() {
            proof {
                lemma_set_index_none(cv0[i as int].sets, qtype);
            }
            return None;
        }
        proof {
            lemma_set_index_at(cv0[i as int].sets, qtype, j as int);
        }
        let hit = match &(&self.entries[i]).sets[j].1 {
            RecordSet::NotFound { ttl, timestamp } => {
                let rem = remaining(*ttl, *timestamp, now);
                if rem > 0 {
                    let mut packet = DnsPacket::new();
                    packet.header.rescode = ResultCode::NXDOMAIN;
                    proof {
                        assert(packet@.header == nxdomain_header());
                        assert(packet@.questions =~= Seq::<QuestionView>::empty());
                        assert(packet@.answers =~= Seq::<RecordView>::empty());
                        assert(packet@.authorities =~= Seq::<RecordView>::empty());
                        assert(packet@.resources =~= Seq::<RecordView>::empty());
                    }
                    return Some(packet);
                } else {
                    return None;
                }
            },
            RecordSet::Records { records, timestamp } => {
                let stamp = *timestamp;
                let mut live: Vec<DnsRecord> = Vec::new();
                let mut k: usize = 0;
                proof {
                    assert(views_of(live@) =~= decay_records(
                        views_of(records@).take(0),
                        stamp,
                        now,
                    ));
                }
                while k < records.len()
                    invariant
                        k <= records@.len(),
                        views_of(live@) == decay_records(
                            views_of(records@).take(k as int),
                            stamp,
                            now,
                        ),
                    decreases records@.len() - k,
                {
                    let t = remaining((&records[k]).get_ttl(), stamp, now);
                    if t > 0 {
                        live.push((&records[k]).with_ttl(t));
                    }
                    k = k + 1;
                    proof {
                        let all = views_of(records@);
                        assert(all.take(k as int).drop_last() =~= all.take(k - 1));
                        assert(all.take(k as int).last() == all[k - 1]);
                        if t > 0 {
                            assert(views_of(live@) =~= decay_records(
                                all.take(k - 1),
                                stamp,
                                now,
                            ).push(with_ttl(all[k - 1], t)));
                        }
                    }
                }
                proof {
                    assert(views_of(records@).take(records@.len() as int) =~= views_of(records@));
                }
                if live.len() == 0 {
                    return None;
                }
                let mut packet = DnsPacket::new();
                packet.answers = live;
                proof {
                    assert(packet@.questions =~= Seq::<QuestionView>::empty());
                    assert(packet@.authorities =~= Seq::<RecordView>::empty());
                    assert(packet@.resources =~= Seq::<RecordView>::empty());
                }
                packet
            },
        };
        // a positive hit: bump the domain's counter
        let mut e = self.entries.remove(i);
        if e.hits < 0xFFFF_FFFF_FFFF_FFFF {
            e.hits = e.hits + 1;
        }
        let ghost e1 = e@;
        self.entries.insert(i, e);
        proof {
            assert(self@ =~= cv0.update(i as int, e1));
            assert(e1.domain == cv0[i as int].domain);
            assert(e1.sets == cv0[i as int].sets);
            assert forall|d2: Seq<char>| true implies #[trigger] domain_index(self@, d2)
                == domain_index(cv0, d2) by {
                lemma_domain_index_same_domains(self@, cv0, d2);
            }
            assert forall|d2: Seq<char>, qt2: QueryType| true implies #[trigger] cache_set(
                self@,
                d2,
                qt2,
            ) == cache_set(cv0, d2, qt2) by {
                lemma_domain_index_range(cv0, d2);
                if domain_index(cv0, d2) >= 0 && domain_index(cv0, d2) != i {
                    assert(self@[domain_index(cv0, d2)] == cv0[domain_index(cv0, d2)]);
                }
            }
            assert forall|d2: Seq<char>| d2 != key@ implies #[trigger] cache_hits(self@, d2)
                == cache_hits(cv0, d2) by {
                lemma_domain_index_range(cv0, d2);
                if domain_index(cv0, d2) >= 0 {
                    assert(domain_index(cv0, d2) != i);
                    assert(self@[domain_index(cv0, d2)] == cv0[domain_index(cv0, d2)]);
                }
            }
            assert(cache_hits(self@, key@) == sat_inc(cache_hits(cv0, key@)));
            assert(cache_inv(self@)) by {
                assert forall|j1: int, j2: int| 0 <= j1 < j2 < self@.len() implies lex_lt(
                    (#[trigger] self@[j1]).domain,
                    (#[trigger] self@[j2]).domain,
                ) by {
                    assert(self@[j1].domain == cv0[j1].domain);
                    assert(self@[j2].domain == cv0[j2].domain);
                }
            }
        }
        Some(hit)
    }

    /// One summary row per cached domain, in domain order: the domain, the
    /// record types held for it, and its hit count.
    pub fn list(&self) -> (r: Result<Vec<DomainEntry>, DnsError>)
        requires
            self.inv(),
        ensures
            r matches Ok(v) && v@.len() == self@.len() && (forall|i: int|
                0 <= i < self@.len() ==> {
                    &&& (#[trigger] v@[i]).domain@ == self@[i].domain
                    &&& v@[i].hits == self@[i].hits
                    &&& v@[i].record_types@.len() == self@[i].sets.len()
                    &&& forall|j: int| 0 <= j < self@[i].sets.len() ==> (
                    #[trigger] v@[i].record_types@[j]) == self@[i].sets[j].0
                }),
    {
        let mut out: Vec<DomainEntry> = Vec::new();
        let mut i: usize = 0;
        while i < self.entries.len()
            invariant
                self.inv(),
                i <= self.entries@.len(),
                out@.len() == i,
                forall|k: int|
                    0 <= k < i ==> {
                        &&& (#[trigger] out@[k]).domain@ == self@[k].domain
                        &&& out@[k].hits == self@[k].hits
                        &&& out@[k].record_types@.len() == self@[k].sets.len()
                        &&& forall|j: int| 0 <= j < self@[k].sets.len() ==> (
                        #[trigger] out@[k].record_types@[j]) == self@[k].sets[j].0
                    },
            decreases self.entries@.len() - i,
        {
            let e = &self.entries[i];
            let mut types: Vec<QueryType> = Vec::new();
            let mut j: usize = 0;
            while j < e.sets.len()
                invariant
                    j <= e.sets@.len(),
                    types@.len() == j,
                    forall|k: int| 0 <= k < j ==> (#[trigger] types@[k]) == e@.sets[k].0,
                decreases e.sets@.len() - j,
            {
                types.push((&e.sets[j]).0);
                j = j + 1;
            }
            out.push(DomainEntry { domain: e.domain.clone(), record_types: types, hits: e.hits });
            i = i + 1;
        }
        Ok(out)
    }
}

/// The cache key a name is held under: the name itself, or `.` for the
/// empty name.
fn normalize_name(qname: &str) -> (r: String)
    ensures
        r@ == normalize(qname@),
        r@.len() > 0,
{
    if qname.unicode_len() == 0 {
        let dot = ".";
        proof {
            reveal_strlit(".");
            assert(dot@ =~= seq!['.']);
        }
        let r = dot.to_owned();
        r
    } else {
        qname.to_owned()
    }
}

/// The TTL a cached entry still has at `now`.
fn remaining(ttl: u32, stamp: u64, now: u64) -> (r: u32)
    ensures
        r == remaining_ttl(ttl, stamp, now),
{
    if now < stamp {
        ttl
    } else {
        let elapsed = (now - stamp) / 1000;
        if elapsed >= ttl as u64 {
            0
        } else {
            ttl - elapsed as u32
        }
    }
}


/// The cache key of one record, or nothing for an OPT record.
fn record_key(rec: &DnsRecord) -> (r: Option<(String, QueryType)>)
    ensures
        match r {
            Some((d, qt)) => key_of(rec@) == Some((d@, qt)) && d@.len() > 0,
            None => key_of(rec@) is None,
        },
{
    match rec.get_domain() {
        None => None,
        Some(d) => {
            let key = normalize_name(d.as_str());
            Some((key, rec.get_querytype()))
        },
    }
}

/// Whether two keys are the same pair.
fn key_eq(a: &(String, QueryType), b: &(String, QueryType)) -> (r: bool)
    ensures
        r == ((a.0@, a.1) == (b.0@, b.1)),
{
    crate::text::str_eq(a.0.as_str(), b.0.as_str()) && a.1 == b.1
}

impl Cache {
    /// Stores a batch of records as of the instant `now`: the records are
    /// grouped by (domain, type), and each group replaces whatever its pair
    /// held, as a set. Pairs outside the batch and all hit counters stay as
    /// they were. Records without a domain are ignored.
    #[verifier::rlimit(100)]
    #[verifier::spinoff_prover]
    pub fn store_at(&mut self, records: &Vec<DnsRecord>, now: u64)
        requires
            old(self).inv(),
        ensures
            final(self).inv(),
            forall|d: Seq<char>, qt: QueryType|
                input_has_key(views_of(records@), d, qt) ==> ((#[trigger] cache_set(
                    final(self)@,
                    d,
                    qt,
                )) matches Some(RecordSetView::Records { records: rvs, timestamp }) && timestamp
                    == now && (forall|rv: RecordView|
                    rvs.contains(rv) <==> (views_of(records@).contains(rv) && key_of(rv) == Some(
                        (d, qt),
                    ))) && (forall|i1: int, i2: int| 0 <= i1 < i2 < rvs.len() ==> rvs[i1]
                    != rvs[i2])),
            forall|d: Seq<char>, qt: QueryType| !input_has_key(views_of(records@), d, qt)
                ==> #[trigger] cache_set(final(self)@, d, qt) == cache_set(old(self)@, d, qt),
            forall|d: Seq<char>| #[trigger] cache_hits(final(self)@, d) == cache_hits(
                old(self)@,
                d,
            ),
    {
        let ghost rvs_all = views_of(records@);
        let mut i: usize = 0;
        proof {
            assert(rvs_all.take(0) =~= Seq::<RecordView>::empty());
        }
        while i < records.len()
            invariant
                self.inv(),
                i <= records@.len(),
                rvs_all == views_of(records@),
                forall|d: Seq<char>, qt: QueryType|
                    input_has_key(rvs_all.take(i as int), d, qt) ==> ((#[trigger] cache_set(
                        self@,
                        d,
                        qt,
                    )) matches Some(RecordSetView::Records { records: rvs, timestamp })
                        && timestamp == now && (forall|rv: RecordView|
                        rvs.contains(rv) <==> (rvs_all.contains(rv) && key_of(rv) == Some(
                            (d, qt),
                        ))) && (forall|i1: int, i2: int| 0 <= i1 < i2 < rvs.len() ==> rvs[i1]
                        != rvs[i2])),
                forall|d: Seq<char>, qt: QueryType| !input_has_key(rvs_all.take(i as int), d, qt)
                    ==> #[trigger] cache_set(self@, d, qt) == cache_set(old(self)@, d, qt),
                forall|d: Seq<char>| #[trigger] cache_hits(self@, d) == cache_hits(old(self)@, d),
            decreases records@.len() - i,
        {
            let key_opt = record_key(&records[i]);
            match key_opt {
                None => {},
                Some(key) => {
                    // skip the record when an earlier one already carried its key
                    let mut dup = false;
                    let mut j: usize = 0;
                    while j < i
                        invariant
                            i < records@.len(),
                            rvs_all == views_of(records@),
                            j <= i,
                            key_of(rvs_all[i as int]) == Some((key.0@, key.1)),
                            dup ==> input_has_key(rvs_all.take(i as int), key.0@, key.1),
                            !dup ==> forall|jj: int| 0 <= jj < j ==> key_of(
                                #[trigger] rvs_all[jj],
                            ) != Some((key.0@, key.1)),
                        decreases i - j,
                    {
                        let kj = record_key(&records[j]);
                        match kj {
                            Some(k2) => {
                                if key_eq(&k2, &key) {
                                    proof {
                                        assert(rvs_all.take(i as int)[j as int] == rvs_all[j as int]);
                                        assert(key_of(rvs_all.take(i as int)[j as int]) == Some(
                                            (key.0@, key.1),
                                        ));
                                    }
                                    dup = true;
                                }
                            },
                            None => {},
                        }
                        j = j + 1;
                    }
                    if !dup {
                        // first record with this key: gather the whole group
                        let mut group: Vec<DnsRecord> = Vec::new();
                        let mut j2: usize = 0;
                        while j2 < records.len()
                            invariant
                                rvs_all == views_of(records@),
                                j2 <= records@.len(),
                                key.0@.len() > 0,
                                forall|a: int, b: int|
                                    0 <= a < b < views_of(group@).len() ==> (
                                    #[trigger] views_of(group@)[a]) != (#[trigger] views_of(
                                        group@,
                                    )[b]),
                                forall|g: int| 0 <= g < views_of(group@).len() ==> key_of(
                                    #[trigger] views_of(group@)[g],
                                ) == Some((key.0@, key.1)) && rvs_all.contains(
                                    views_of(group@)[g],
                                ),
                                forall|jj: int|
                                    0 <= jj < j2 && key_of(#[trigger] rvs_all[jj]) == Some(
                                        (key.0@, key.1),
                                    ) ==> views_of(group@).contains(rvs_all[jj]),
                            decreases records@.len() - j2,
                        {
                            let ghost group0 = views_of(group@);
                            let k2 = record_key(&records[j2]);
                            let same = match k2 {
                                Some(kk) => key_eq(&kk, &key),
                                None => false,
                            };
                            proof {
                                assert(rvs_all[j2 as int] == records@[j2 as int]@);
                                assert(same == (key_of(rvs_all[j2 as int]) == Some(
                                    (key.0@, key.1),
                                )));
                            }
                            if same {
                                let mut present = false;
                                let mut g: usize = 0;
                                while g < group.len()
                                    invariant
                                        rvs_all == views_of(records@),
                                        j2 < records@.len(),
                                        g <= group@.len(),
                                        present ==> views_of(group@).contains(
                                            rvs_all[j2 as int],
                                        ),
                                        !present ==> forall|gg: int| 0 <= gg < g ==> (
                                        #[trigger] views_of(group@)[gg]) != rvs_all[j2 as int],
                                    decreases group@.len() - g,
                                {
                                    if group[g] == records[j2] {
                                        proof {
                                            assert(views_of(group@)[g as int] == rvs_all[j2 as int]);
                                        }
                                        present = true;
                                    }
                                    g = g + 1;
                                }
                                if !present {
                                    group.push((&records[j2]).clone());
                                    proof {
                                        assert(views_of(group@) =~= group0.push(
                                            rvs_all[j2 as int],
                                        ));
                                        assert(views_of(group@)[group0.len() as int]
                                            == rvs_all[j2 as int]);
                                        assert(views_of(group@).contains(rvs_all[j2 as int]));
                                    }
                                }
                            }
                            j2 = j2 + 1;
                            proof {
                                assert forall|v: RecordView| group0.contains(v) implies views_of(
                                    group@,
                                ).contains(v) by {
                                    let g = choose|g: int|
                                        0 <= g < group0.len() && group0[g] == v;
                                    assert(views_of(group@)[g] == group0[g]);
                                }
                                assert forall|jj: int|
                                    0 <= jj < j2 && key_of(#[trigger] rvs_all[jj]) == Some(
                                        (key.0@, key.1),
                                    ) implies views_of(group@).contains(rvs_all[jj]) by {
                                    if jj < j2 - 1 {
                                        assert(group0.contains(rvs_all[jj]));
                                    }
                                }
                            }
                        }
                        let ghost gv = views_of(group@);
                        proof {
                            assert forall|rv: RecordView|
                                gv.contains(rv) <==> (rvs_all.contains(rv) && key_of(rv) == Some(
                                    (key.0@, key.1),
                                )) by {
                                if gv.contains(rv) {
                                    let g = choose|g: int| 0 <= g < gv.len() && gv[g] == rv;
                                    assert(key_of(gv[g]) == Some((key.0@, key.1)));
                                }
                                if rvs_all.contains(rv) && key_of(rv) == Some((key.0@, key.1)) {
                                    let jj = choose|jj: int|
                                        0 <= jj < rvs_all.len() && rvs_all[jj] == rv;
                                    assert(key_of(rvs_all[jj]) == Some((key.0@, key.1)));
                                }
                            }
                            assert(!input_has_key(rvs_all.take(i as int), key.0@, key.1)) by {
                                if input_has_key(rvs_all.take(i as int), key.0@, key.1) {
                                    let jj = choose|jj: int|
                                        0 <= jj < rvs_all.take(i as int).len() && key_of(
                                            #[trigger] rvs_all.take(i as int)[jj],
                                        ) == Some((key.0@, key.1));
                                    assert(rvs_all.take(i as int)[jj] == rvs_all[jj]);
                                }
                            }
                        }
                        let ghost pre = self@;
                        self.put_set(
                            &key.0,
                            key.1,
                            RecordSet::Records { records: group, timestamp: now },
                        );
                        proof {
                            assert(cache_set(self@, key.0@, key.1) matches Some(
                                RecordSetView::Records { records: rvs, timestamp },
                            ) && rvs == gv && timestamp == now);
                            assert forall|d: Seq<char>, qt: QueryType|
                                !(d == key.0@ && qt == key.1) implies #[trigger] cache_set(
                                self@,
                                d,
                                qt,
                            ) == cache_set(pre, d, qt) by {}
                        }
                    }
                },
            }
            i = i + 1;
            proof {
                let prev = rvs_all.take(i - 1);
                let cur = rvs_all.take(i as int);
                assert(cur.drop_last() =~= prev);
                assert(cur.last() == rvs_all[i - 1]);
                assert forall|d: Seq<char>, qt: QueryType|
                    input_has_key(cur, d, qt) implies input_has_key(prev, d, qt) || key_of(
                    rvs_all[i - 1],
                ) == Some((d, qt)) by {
                    let jj = choose|jj: int|
                        0 <= jj < cur.len() && key_of(#[trigger] cur[jj]) == Some((d, qt));
                    assert(cur[jj] == rvs_all[jj]);
                    if jj < i - 1 {
                        assert(prev[jj] == rvs_all[jj]);
                        assert(input_has_key(prev, d, qt));
                    }
                }
                assert forall|d: Seq<char>, qt: QueryType|
                    input_has_key(prev, d, qt) implies input_has_key(cur, d, qt) by {
                    let jj = choose|jj: int|
                        0 <= jj < prev.len() && key_of(#[trigger] prev[jj]) == Some((d, qt));
                    assert(cur[jj] == prev[jj]);
                }
                if key_of(rvs_all[i - 1]) is Some {
                    let k = key_of(rvs_all[i - 1])->Some_0;
                    assert(cur[i - 1] == rvs_all[i - 1]);
                    assert(input_has_key(cur, k.0, k.1));
                }
            }
        }
        proof {
            assert(rvs_all.take(records@.len() as int) =~= rvs_all);
        }
    }

    /// Answers a lookup from the cache at the present moment; see
    /// `lookup_at` for the exact behaviour at a given instant.
    pub fn lookup(&mut self, qname: &str, qtype: QueryType) -> (r: Option<DnsPacket>)
        requires
            old(self).inv(),
        ensures
            final(self).inv(),
            forall|d2: Seq<char>, qt2: QueryType| #[trigger] cache_set(final(self)@, d2, qt2)
                == cache_set(old(self)@, d2, qt2),
            forall|d2: Seq<char>| d2 != normalize(qname@) ==> #[trigger] cache_hits(
                final(self)@,
                d2,
            ) == cache_hits(old(self)@, d2),
            r matches Some(p) ==> p@.questions.len() == 0 && p@.authorities.len() == 0
                && p@.resources.len() == 0 && ((p@.header == empty_header() && p@.answers.len() > 0)
                || (p@.header == nxdomain_header() && p@.answers.len() == 0)),
            r matches Some(p) ==> cache_set(old(self)@, normalize(qname@), qtype) is Some,
    {
        let now = crate::utils::current_time_millis();
        let r = self.lookup_at(qname, qtype, now);
        proof {
            match cache_set(old(self)@, normalize(qname@), qtype) {
                Some(RecordSetView::Records { records, timestamp }) => {
                    lemma_decay_nonempty(records, timestamp, now);
                },
                _ => {},
            }
        }
        r
    }

    /// Stores a batch of records stamped with the present moment; see
    /// `store_at` for the exact grouping.
    pub fn store(&mut self, records: &Vec<DnsRecord>) -> (r: Result<(), DnsError>)
        requires
            old(self).inv(),
        ensures
            final(self).inv(),
            r is Ok,
            forall|d: Seq<char>, qt: QueryType|
                input_has_key(views_of(records@), d, qt) ==> ((#[trigger] cache_set(
                    final(self)@,
                    d,
                    qt,
                )) matches Some(RecordSetView::Records { records: rvs, timestamp }) && (forall|
                    rv: RecordView,
                |
                    rvs.contains(rv) <==> (views_of(records@).contains(rv) && key_of(rv) == Some(
                        (d, qt),
                    ))) && (forall|i1: int, i2: int| 0 <= i1 < i2 < rvs.len() ==> rvs[i1]
                    != rvs[i2])),
            forall|d: Seq<char>, qt: QueryType| !input_has_key(views_of(records@), d, qt)
                ==> #[trigger] cache_set(final(self)@, d, qt) == cache_set(old(self)@, d, qt),
            forall|d: Seq<char>| #[trigger] cache_hits(final(self)@, d) == cache_hits(
                old(self)@,
                d,
            ),
    {
        let now = crate::utils::current_time_millis();
        self.store_at(records, now);
        Ok(())
    }

    /// Installs a negative entry stamped with the present moment.
    pub fn store_nxdomain(&mut self, qname: &str, qtype: QueryType, ttl: u32) -> (r: Result<
        (),
        DnsError,
    >)
        requires
            old(self).inv(),
        ensures
            final(self).inv(),
            r is Ok,
            cache_set(final(self)@, normalize(qname@), qtype) matches Some(
                RecordSetView::NotFound { ttl: t, timestamp },
            ) && t == ttl,
            forall|d2: Seq<char>, qt2: QueryType| !(d2 == normalize(qname@) && qt2 == qtype)
                ==> #[trigger] cache_set(final(self)@, d2, qt2) == cache_set(old(self)@, d2, qt2),
            forall|d2: Seq<char>| #[trigger] cache_hits(final(self)@, d2) == cache_hits(
                old(self)@,
                d2,
            ),
    {
        let now = crate::utils::current_time_millis();
        self.store_nxdomain_at(qname, qtype, ttl, now);
        Ok(())
    }
}

/// Everything decayed lives among the originals.
pub proof fn lemma_decay_nonempty(rs: Seq<RecordView>, stamp: u64, now: u64)
    ensures
        decay_records(rs, stamp, now).len() <= rs.len(),
    decreases rs.len(),
{
    if rs.len() > 0 {
        lemma_decay_nonempty(rs.drop_last(), stamp, now);
    }
}

} // verus!
