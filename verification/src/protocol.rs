use vstd::prelude::*;
use crate::text::{chars_fit_bytes, push_char};
use crate::buffer::PacketBuffer;
use crate::buffer::spec_parse_name;
use crate::DnsError;

verus! {

/// The record type asked for by a query, with `UNKNOWN` keeping the original
/// integer of any type this engine does not model.
#[derive(PartialEq, Eq, Structural, Debug, Clone, Copy, Hash)]
pub enum QueryType {
    UNKNOWN(u16),
    A,
    NS,
    CNAME,
    SOA,
    MX,
    TXT,
    AAAA,
    SRV,
    OPT,
}

/// The wire number of a query type.
pub open spec fn qtype_num(q: QueryType) -> u16 {
    match q {
        QueryType::UNKNOWN(x) => x,
        QueryType::A => 1,
        QueryType::NS => 2,
        QueryType::CNAME => 5,
        QueryType::SOA => 6,
        QueryType::MX => 15,
        QueryType::TXT => 16,
        QueryType::AAAA => 28,
        QueryType::SRV => 33,
        QueryType::OPT => 41,
    }
}

/// The query type a wire number decodes to.
pub open spec fn qtype_of_num(n: u16) -> QueryType {
    if n == 1 {
        QueryType::A
    } else if n == 2 {
        QueryType::NS
    } else if n == 5 {
        QueryType::CNAME
    } else if n == 6 {
        QueryType::SOA
    } else if n == 15 {
        QueryType::MX
    } else if n == 16 {
        QueryType::TXT
    } else if n == 28 {
        QueryType::AAAA
    } else if n == 33 {
        QueryType::SRV
    } else if n == 41 {
        QueryType::OPT
    } else {
        QueryType::UNKNOWN(n)
    }
}

/// An `UNKNOWN` value never shadows a number that has a named type.
pub open spec fn qtype_wf(q: QueryType) -> bool {
    q matches QueryType::UNKNOWN(x) ==> qtype_of_num(x) == QueryType::UNKNOWN(x)
}

impl QueryType {
    pub fn to_num(&self) -> (r: u16)
        ensures
            r == qtype_num(*self),
    {
        match *self {
            QueryType::UNKNOWN(x) => x,
            QueryType::A => 1,
            QueryType::NS => 2,
            QueryType::CNAME => 5,
            QueryType::SOA => 6,
            QueryType::MX => 15,
            QueryType::TXT => 16,
            QueryType::AAAA => 28,
            QueryType::SRV => 33,
            QueryType::OPT => 41,
        }
    }

    pub fn from_num(num: u16) -> (r: QueryType)
        ensures
            r == qtype_of_num(num),
            qtype_wf(r),
    {
        match num {
            1 => QueryType::A,
            2 => QueryType::NS,
            5 => QueryType::CNAME,
            6 => QueryType::SOA,
            15 => QueryType::MX,
            16 => QueryType::TXT,
            28 => QueryType::AAAA,
            33 => QueryType::SRV,
            41 => QueryType::OPT,
            _ => QueryType::UNKNOWN(num),
        }
    }
}

/// Every wire number maps back to itself: decoding and re-encoding a query
/// type preserves the number.
pub proof fn lemma_qtype_num_roundtrip(n: u16)
    ensures
        qtype_num(qtype_of_num(n)) == n,
{
}

/// A query type whose `UNKNOWN` payload does not shadow a named type survives
/// a trip through its wire number.
pub proof fn lemma_qtype_roundtrip(q: QueryType)
    requires
        qtype_wf(q),
    ensures
        qtype_of_num(qtype_num(q)) == q,
{
}

/// The result code of a response.
#[derive(Clone, Copy, Debug, PartialEq, Eq, Structural)]
pub enum ResultCode {
    NOERROR,
    FORMERR,
    SERVFAIL,
    NXDOMAIN,
    NOTIMP,
    REFUSED,
}

pub open spec fn rescode_num(r: ResultCode) -> u8 {
    match r {
        ResultCode::NOERROR => 0,
        ResultCode::FORMERR => 1,
        ResultCode::SERVFAIL => 2,
        ResultCode::NXDOMAIN => 3,
        ResultCode::NOTIMP => 4,
        ResultCode::REFUSED => 5,
    }
}

/// Unknown integers decode as NOERROR.
pub open spec fn rescode_of_num(n: u8) -> ResultCode {
    if n == 1 {
        ResultCode::FORMERR
    } else if n == 2 {
        ResultCode::SERVFAIL
    } else if n == 3 {
        ResultCode::NXDOMAIN
    } else if n == 4 {
        ResultCode::NOTIMP
    } else if n == 5 {
        ResultCode::REFUSED
    } else {
        ResultCode::NOERROR
    }
}

impl ResultCode {
    pub fn from_num(num: u8) -> (r: ResultCode)
        ensures
            r == rescode_of_num(num),
    {
        match num {
            1 => ResultCode::FORMERR,
            2 => ResultCode::SERVFAIL,
            3 => ResultCode::NXDOMAIN,
            4 => ResultCode::NOTIMP,
            5 => ResultCode::REFUSED,
            _ => ResultCode::NOERROR,
        }
    }

    pub fn to_num(&self) -> (r: u8)
        ensures
            r == rescode_num(*self),
    {
        match *self {
            ResultCode::NOERROR => 0,
            ResultCode::FORMERR => 1,
            ResultCode::SERVFAIL => 2,
            ResultCode::NXDOMAIN => 3,
            ResultCode::NOTIMP => 4,
            ResultCode::REFUSED => 5,
        }
    }
}

/// An IPv4 address as four octets.
#[derive(PartialEq, Eq, Structural, Debug, Clone, Copy, Hash)]
pub struct Ipv4Addr {
    pub o0: u8,
    pub o1: u8,
    pub o2: u8,
    pub o3: u8,
}

/// The decimal digits of a byte, most significant first, no leading zeros.
pub open spec fn dec_chars(n: u8) -> Seq<char> {
    if n < 10 {
        seq![digit_char(n as int)]
    } else if n < 100 {
        seq![digit_char(n as int / 10), digit_char(n as int % 10)]
    } else {
        seq![digit_char(n as int / 100), digit_char((n as int / 10) % 10), digit_char(n as int % 10)]
    }
}

pub open spec fn digit_char(d: int) -> char {
    ((48 + d) as u8) as char
}

/// The dotted-decimal text of an IPv4 address.
pub open spec fn ipv4_chars(a: Ipv4Addr) -> Seq<char> {
    dec_chars(a.o0) + seq!['.'] + dec_chars(a.o1) + seq!['.'] + dec_chars(a.o2) + seq!['.']
        + dec_chars(a.o3)
}

fn push_dec(s: &mut String, n: u8)
    ensures
        final(s)@ == old(s)@ + dec_chars(n),
{
    if n >= 100 {
        push_char(s, (48 + n / 100) as char);
    }
    if n >= 10 {
        push_char(s, (48 + (n / 10) % 10) as char);
    }
    push_char(s, (48 + n % 10) as char);
    proof {
        if n < 10 {
            assert(old(s)@.push(((48 + n % 10) as u8) as char) =~= old(s)@ + dec_chars(n));
        } else if n < 100 {
            assert(old(s)@.push(((48 + (n / 10) % 10) as u8) as char).push(
                ((48 + n % 10) as u8) as char,
            ) =~= old(s)@ + dec_chars(n));
        } else {
            assert(old(s)@.push(((48 + n / 100) as u8) as char).push(
                ((48 + (n / 10) % 10) as u8) as char,
            ).push(((48 + n % 10) as u8) as char) =~= old(s)@ + dec_chars(n));
        }
    }
}

impl Ipv4Addr {
    pub fn new(a: u8, b: u8, c: u8, d: u8) -> (r: Ipv4Addr)
        ensures
            r == (Ipv4Addr { o0: a, o1: b, o2: c, o3: d }),
    {
        Ipv4Addr { o0: a, o1: b, o2: c, o3: d }
    }

    /// The dotted-decimal text, such as `127.0.0.1`.
    pub fn to_string(&self) -> (r: String)
        ensures
            r@ == ipv4_chars(*self),
    {
        let mut s = String::new();
        push_dec(&mut s, self.o0);
        push_char(&mut s, '.');
        push_dec(&mut s, self.o1);
        push_char(&mut s, '.');
        push_dec(&mut s, self.o2);
        push_char(&mut s, '.');
        push_dec(&mut s, self.o3);
        proof {
            assert(s@ =~= ipv4_chars(*self));
        }
        s
    }
}

/// An IPv6 address as eight 16-bit groups.
#[derive(PartialEq, Eq, Structural, Debug, Clone, Copy, Hash)]
pub struct Ipv6Addr {
    pub g0: u16,
    pub g1: u16,
    pub g2: u16,
    pub g3: u16,
    pub g4: u16,
    pub g5: u16,
    pub g6: u16,
    pub g7: u16,
}

impl Ipv6Addr {
    pub fn new(a: u16, b: u16, c: u16, d: u16, e: u16, f: u16, g: u16, h: u16) -> (r: Ipv6Addr)
        ensures
            r == (Ipv6Addr { g0: a, g1: b, g2: c, g3: d, g4: e, g5: f, g6: g, g7: h }),
    {
        Ipv6Addr { g0: a, g1: b, g2: c, g3: d, g4: e, g5: f, g6: g, g7: h }
    }
}


/// A DNS header: the twelve fixed bytes at the start of every message.
#[derive(Clone, Copy, Debug, PartialEq, Eq, Structural)]
pub struct DnsHeader {
    pub id: u16,
    pub recursion_desired: bool,
    pub truncated_message: bool,
    pub authoritative_answer: bool,
    pub opcode: u8,
    pub response: bool,
    pub rescode: ResultCode,
    pub checking_disabled: bool,
    pub authed_data: bool,
    pub z: bool,
    pub recursion_available: bool,
    pub questions: u16,
    pub answers: u16,
    pub authoritative_entries: u16,
    pub resource_entries: u16,
}

/// The header every message starts from: everything cleared, NOERROR.
pub open spec fn empty_header() -> DnsHeader {
    DnsHeader {
        id: 0,
        recursion_desired: false,
        truncated_message: false,
        authoritative_answer: false,
        opcode: 0,
        response: false,
        rescode: ResultCode::NOERROR,
        checking_disabled: false,
        authed_data: false,
        z: false,
        recursion_available: false,
        questions: 0,
        answers: 0,
        authoritative_entries: 0,
        resource_entries: 0,
    }
}

impl DnsHeader {
    pub fn new() -> (r: DnsHeader)
        ensures
            r == empty_header(),
    {
        DnsHeader {
            id: 0,
            recursion_desired: false,
            truncated_message: false,
            authoritative_answer: false,
            opcode: 0,
            response: false,
            rescode: ResultCode::NOERROR,
            checking_disabled: false,
            authed_data: false,
            z: false,
            recursion_available: false,
            questions: 0,
            answers: 0,
            authoritative_entries: 0,
            resource_entries: 0,
        }
    }

    pub fn binary_len(&self) -> (r: usize)
        ensures
            r == 12,
    {
        12
    }
}

/// The mathematical value of a question: its name as characters, its type.
pub struct QuestionView {
    pub name: Seq<char>,
    pub qtype: QueryType,
}

/// A DNS question: a name and the record type asked about.
#[derive(Debug, PartialEq, Eq)]
pub struct DnsQuestion {
    pub name: String,
    pub qtype: QueryType,
}

impl View for DnsQuestion {
    type V = QuestionView;

    open spec fn view(&self) -> QuestionView {
        QuestionView { name: self.name@, qtype: self.qtype }
    }
}

impl Clone for DnsQuestion {
    fn clone(&self) -> (r: Self)
        ensures
            r == *self,
    {
        DnsQuestion { name: self.name.clone(), qtype: self.qtype }
    }
}

impl DnsQuestion {
    pub fn new(name: &String, qtype: QueryType) -> (r: DnsQuestion)
        ensures
            r@ == (QuestionView { name: name@, qtype }),
    {
        DnsQuestion { name: name.clone(), qtype }
    }
}

/// The mathematical value of a record, with names as character sequences.
pub enum RecordView {
    UNKNOWN { domain: Seq<char>, qtype: u16, data_len: u16, ttl: u32 },
    A { domain: Seq<char>, addr: Ipv4Addr, ttl: u32 },
    NS { domain: Seq<char>, host: Seq<char>, ttl: u32 },
    CNAME { domain: Seq<char>, host: Seq<char>, ttl: u32 },
    SOA {
        domain: Seq<char>,
        mname: Seq<char>,
        rname: Seq<char>,
        serial: u32,
        refresh: u32,
        retry: u32,
        expire: u32,
        minimum: u32,
        ttl: u32,
    },
    MX { domain: Seq<char>, priority: u16, host: Seq<char>, ttl: u32 },
    TXT { domain: Seq<char>, data: Seq<char>, ttl: u32 },
    AAAA { domain: Seq<char>, addr: Ipv6Addr, ttl: u32 },
    SRV {
        domain: Seq<char>,
        priority: u16,
        weight: u16,
        port: u16,
        host: Seq<char>,
        ttl: u32,
    },
    OPT { packet_len: u16, flags: u32, data: Seq<char> },
}

/// A DNS resource record.
#[derive(Debug, Eq)]
pub enum DnsRecord {
    UNKNOWN { domain: String, qtype: u16, data_len: u16, ttl: u32 },
    A { domain: String, addr: Ipv4Addr, ttl: u32 },
    NS { domain: String, host: String, ttl: u32 },
    CNAME { domain: String, host: String, ttl: u32 },
    SOA {
        domain: String,
        mname: String,
        rname: String,
        serial: u32,
        refresh: u32,
        retry: u32,
        expire: u32,
        minimum: u32,
        ttl: u32,
    },
    MX { domain: String, priority: u16, host: String, ttl: u32 },
    TXT { domain: String, data: String, ttl: u32 },
    AAAA { domain: String, addr: Ipv6Addr, ttl: u32 },
    SRV {
        domain: String,
        priority: u16,
        weight: u16,
        port: u16,
        host: String,
        ttl: u32,
    },
    OPT { packet_len: u16, flags: u32, data: String },
}

impl View for DnsRecord {
    type V = RecordView;

    open spec fn view(&self) -> RecordView {
        match self {
            DnsRecord::UNKNOWN { domain, qtype, data_len, ttl } => RecordView::UNKNOWN {
                domain: domain@,
                qtype: *qtype,
                data_len: *data_len,
                ttl: *ttl,
            },
            DnsRecord::A { domain, addr, ttl } => RecordView::A {
                domain: domain@,
                addr: *addr,
                ttl: *ttl,
            },
            DnsRecord::NS { domain, host, ttl } => RecordView::NS {
                domain: domain@,
                host: host@,
                ttl: *ttl,
            },
            DnsRecord::CNAME { domain, host, ttl } => RecordView::CNAME {
                domain: domain@,
                host: host@,
                ttl: *ttl,
            },
            DnsRecord::SOA { domain, mname, rname, serial, refresh, retry, expire, minimum, ttl } => RecordView::SOA {
                domain: domain@,
                mname: mname@,
                rname: rname@,
                serial: *serial,
                refresh: *refresh,
                retry: *retry,
                expire: *expire,
                minimum: *minimum,
                ttl: *ttl,
            },
            DnsRecord::MX { domain, priority, host, ttl } => RecordView::MX {
                domain: domain@,
                priority: *priority,
                host: host@,
                ttl: *ttl,
            },
            DnsRecord::TXT { domain, data, ttl } => RecordView::TXT {
                domain: domain@,
                data: data@,
                ttl: *ttl,
            },
            DnsRecord::AAAA { domain, addr, ttl } => RecordView::AAAA {
                domain: domain@,
                addr: *addr,
                ttl: *ttl,
            },
            DnsRecord::SRV { domain, priority, weight, port, host, ttl } => RecordView::SRV {
                domain: domain@,
                priority: *priority,
                weight: *weight,
                port: *port,
                host: host@,
                ttl: *ttl,
            },
            DnsRecord::OPT { packet_len, flags, data } => RecordView::OPT {
                packet_len: *packet_len,
                flags: *flags,
                data: data@,
            },
        }
    }
}

impl Clone for DnsRecord {
    fn clone(&self) -> (r: Self)
        ensures
            r == *self,
    {
        match self {
            DnsRecord::UNKNOWN { domain, qtype, data_len, ttl } => DnsRecord::UNKNOWN {
                domain: domain.clone(),
                qtype: *qtype,
                data_len: *data_len,
                ttl: *ttl,
            },
            DnsRecord::A { domain, addr, ttl } => DnsRecord::A {
                domain: domain.clone(),
                addr: *addr,
                ttl: *ttl,
            },
            DnsRecord::NS { domain, host, ttl } => DnsRecord::NS {
                domain: domain.clone(),
                host: host.clone(),
                ttl: *ttl,
            },
            DnsRecord::CNAME { domain, host, ttl } => DnsRecord::CNAME {
                domain: domain.clone(),
                host: host.clone(),
                ttl: *ttl,
            },
            DnsRecord::SOA { domain, mname, rname, serial, refresh, retry, expire, minimum, ttl } => DnsRecord::SOA {
                domain: domain.clone(),
                mname: mname.clone(),
                rname: rname.clone(),
                serial: *serial,
                refresh: *refresh,
                retry: *retry,
                expire: *expire,
                minimum: *minimum,
                ttl: *ttl,
            },
            DnsRecord::MX { domain, priority, host, ttl } => DnsRecord::MX {
                domain: domain.clone(),
                priority: *priority,
                host: host.clone(),
                ttl: *ttl,
            },
            DnsRecord::TXT { domain, data, ttl } => DnsRecord::TXT {
                domain: domain.clone(),
                data: data.clone(),
                ttl: *ttl,
            },
            DnsRecord::AAAA { domain, addr, ttl } => DnsRecord::AAAA {
                domain: domain.clone(),
                addr: *addr,
                ttl: *ttl,
            },
            DnsRecord::SRV { domain, priority, weight, port, host, ttl } => DnsRecord::SRV {
                domain: domain.clone(),
                priority: *priority,
                weight: *weight,
                port: *port,
                host: host.clone(),
                ttl: *ttl,
            },
            DnsRecord::OPT { packet_len, flags, data } => DnsRecord::OPT {
                packet_len: *packet_len,
                flags: *flags,
                data: data.clone(),
            },
        }
    }
}

impl PartialEq for DnsRecord {
    fn eq(&self, other: &Self) -> (r: bool) {
        match (self, other) {
            (
                DnsRecord::UNKNOWN { domain: d1, qtype: q1, data_len: l1, ttl: t1 },
                DnsRecord::UNKNOWN { domain: d2, qtype: q2, data_len: l2, ttl: t2 },
            ) => *d1 == *d2 && *q1 == *q2 && *l1 == *l2 && *t1 == *t2,
            (
                DnsRecord::A { domain: d1, addr: a1, ttl: t1 },
                DnsRecord::A { domain: d2, addr: a2, ttl: t2 },
            ) => *d1 == *d2 && *a1 == *a2 && *t1 == *t2,
            (
                DnsRecord::NS { domain: d1, host: h1, ttl: t1 },
                DnsRecord::NS { domain: d2, host: h2, ttl: t2 },
            ) => *d1 == *d2 && *h1 == *h2 && *t1 == *t2,
            (
                DnsRecord::CNAME { domain: d1, host: h1, ttl: t1 },
                DnsRecord::CNAME { domain: d2, host: h2, ttl: t2 },
            ) => *d1 == *d2 && *h1 == *h2 && *t1 == *t2,
            (
                DnsRecord::SOA {
                    domain: d1,
                    mname: m1,
                    rname: r1,
                    serial: s1,
                    refresh: f1,
                    retry: y1,
                    expire: e1,
                    minimum: n1,
                    ttl: t1,
                },
                DnsRecord::SOA {
                    domain: d2,
                    mname: m2,
                    rname: r2,
                    serial: s2,
                    refresh: f2,
                    retry: y2,
                    expire: e2,
                    minimum: n2,
                    ttl: t2,
                },
            ) => *d1 == *d2 && *m1 == *m2 && *r1 == *r2 && *s1 == *s2 && *f1 == *f2 && *y1 == *y2 && *e1 == *e2
                && *n1 == *n2 && *t1 == *t2,
            (
                DnsRecord::MX { domain: d1, priority: p1, host: h1, ttl: t1 },
                DnsRecord::MX { domain: d2, priority: p2, host: h2, ttl: t2 },
            ) => *d1 == *d2 && *p1 == *p2 && *h1 == *h2 && *t1 == *t2,
            (
                DnsRecord::TXT { domain: d1, data: a1, ttl: t1 },
                DnsRecord::TXT { domain: d2, data: a2, ttl: t2 },
            ) => *d1 == *d2 && *a1 == *a2 && *t1 == *t2,
            (
                DnsRecord::AAAA { domain: d1, addr: a1, ttl: t1 },
                DnsRecord::AAAA { domain: d2, addr: a2, ttl: t2 },
            ) => *d1 == *d2 && *a1 == *a2 && *t1 == *t2,
            (
                DnsRecord::SRV {
                    domain: d1,
                    priority: p1,
                    weight: w1,
                    port: o1,
                    host: h1,
                    ttl: t1,
                },
                DnsRecord::SRV {
                    domain: d2,
                    priority: p2,
                    weight: w2,
                    port: o2,
                    host: h2,
                    ttl: t2,
                },
            ) => *d1 == *d2 && *p1 == *p2 && *w1 == *w2 && *o1 == *o2 && *h1 == *h2 && *t1 == *t2,
            (
                DnsRecord::OPT { packet_len: p1, flags: f1, data: a1 },
                DnsRecord::OPT { packet_len: p2, flags: f2, data: a2 },
            ) => *p1 == *p2 && *f1 == *f2 && *a1 == *a2,
            _ => false,
        }
    }
}

impl vstd::std_specs::cmp::PartialEqSpecImpl for DnsRecord {
    open spec fn obeys_eq_spec() -> bool {
        true
    }

    open spec fn eq_spec(&self, other: &Self) -> bool {
        self@ == other@
    }
}

/// The record type a record answers for.
pub open spec fn rv_qtype(r: RecordView) -> QueryType {
    match r {
        RecordView::UNKNOWN { qtype, .. } => QueryType::UNKNOWN(qtype),
        RecordView::A { .. } => QueryType::A,
        RecordView::NS { .. } => QueryType::NS,
        RecordView::CNAME { .. } => QueryType::CNAME,
        RecordView::SOA { .. } => QueryType::SOA,
        RecordView::MX { .. } => QueryType::MX,
        RecordView::TXT { .. } => QueryType::TXT,
        RecordView::AAAA { .. } => QueryType::AAAA,
        RecordView::SRV { .. } => QueryType::SRV,
        RecordView::OPT { .. } => QueryType::OPT,
    }
}

/// The domain a record speaks about; OPT records have none.
pub open spec fn rv_domain(r: RecordView) -> Option<Seq<char>> {
    match r {
        RecordView::UNKNOWN { domain, .. } => Some(domain),
        RecordView::A { domain, .. } => Some(domain),
        RecordView::NS { domain, .. } => Some(domain),
        RecordView::CNAME { domain, .. } => Some(domain),
        RecordView::SOA { domain, .. } => Some(domain),
        RecordView::MX { domain, .. } => Some(domain),
        RecordView::TXT { domain, .. } => Some(domain),
        RecordView::AAAA { domain, .. } => Some(domain),
        RecordView::SRV { domain, .. } => Some(domain),
        RecordView::OPT { .. } => None,
    }
}

/// The time a record may live; OPT records have none.
pub open spec fn rv_ttl(r: RecordView) -> u32 {
    match r {
        RecordView::UNKNOWN { ttl, .. } => ttl,
        RecordView::A { ttl, .. } => ttl,
        RecordView::NS { ttl, .. } => ttl,
        RecordView::CNAME { ttl, .. } => ttl,
        RecordView::SOA { ttl, .. } => ttl,
        RecordView::MX { ttl, .. } => ttl,
        RecordView::TXT { ttl, .. } => ttl,
        RecordView::AAAA { ttl, .. } => ttl,
        RecordView::SRV { ttl, .. } => ttl,
        RecordView::OPT { .. } => 0,
    }
}

impl DnsRecord {
    pub fn get_querytype(&self) -> (r: QueryType)
        ensures
            r == rv_qtype(self@),
    {
        match self {
            DnsRecord::UNKNOWN { qtype, .. } => QueryType::UNKNOWN(*qtype),
            DnsRecord::A { .. } => QueryType::A,
            DnsRecord::NS { .. } => QueryType::NS,
            DnsRecord::CNAME { .. } => QueryType::CNAME,
            DnsRecord::SOA { .. } => QueryType::SOA,
            DnsRecord::MX { .. } => QueryType::MX,
            DnsRecord::TXT { .. } => QueryType::TXT,
            DnsRecord::AAAA { .. } => QueryType::AAAA,
            DnsRecord::SRV { .. } => QueryType::SRV,
            DnsRecord::OPT { .. } => QueryType::OPT,
        }
    }

    pub fn get_domain(&self) -> (r: Option<String>)
        ensures
            match r {
                Some(d) => rv_domain(self@) == Some(d@),
                None => rv_domain(self@) is None,
            },
    {
        match self {
            DnsRecord::UNKNOWN { domain, .. } => Some(domain.clone()),
            DnsRecord::A { domain, .. } => Some(domain.clone()),
            DnsRecord::NS { domain, .. } => Some(domain.clone()),
            DnsRecord::CNAME { domain, .. } => Some(domain.clone()),
            DnsRecord::SOA { domain, .. } => Some(domain.clone()),
            DnsRecord::MX { domain, .. } => Some(domain.clone()),
            DnsRecord::TXT { domain, .. } => Some(domain.clone()),
            DnsRecord::AAAA { domain, .. } => Some(domain.clone()),
            DnsRecord::SRV { domain, .. } => Some(domain.clone()),
            DnsRecord::OPT { .. } => None,
        }
    }

    pub fn get_ttl(&self) -> (r: u32)
        ensures
            r == rv_ttl(self@),
    {
        match self {
            DnsRecord::UNKNOWN { ttl, .. } => *ttl,
            DnsRecord::A { ttl, .. } => *ttl,
            DnsRecord::NS { ttl, .. } => *ttl,
            DnsRecord::CNAME { ttl, .. } => *ttl,
            DnsRecord::SOA { ttl, .. } => *ttl,
            DnsRecord::MX { ttl, .. } => *ttl,
            DnsRecord::TXT { ttl, .. } => *ttl,
            DnsRecord::AAAA { ttl, .. } => *ttl,
            DnsRecord::SRV { ttl, .. } => *ttl,
            DnsRecord::OPT { .. } => 0,
        }
    }
}

/// The views of a sequence's elements, in order.
pub open spec fn views_of<T: View>(s: Seq<T>) -> Seq<<T as View>::V> {
    Seq::new(s.len(), |i: int| s[i]@)
}

/// The mathematical value of a packet.
pub struct PacketView {
    pub header: DnsHeader,
    pub questions: Seq<QuestionView>,
    pub answers: Seq<RecordView>,
    pub authorities: Seq<RecordView>,
    pub resources: Seq<RecordView>,
}

/// A complete DNS message: header, question section, and the three record
/// sections.
#[derive(Debug)]
pub struct DnsPacket {
    pub header: DnsHeader,
    pub questions: Vec<DnsQuestion>,
    pub answers: Vec<DnsRecord>,
    pub authorities: Vec<DnsRecord>,
    pub resources: Vec<DnsRecord>,
}

impl View for DnsPacket {
    type V = PacketView;

    open spec fn view(&self) -> PacketView {
        PacketView {
            header: self.header,
            questions: views_of(self.questions@),
            answers: views_of(self.answers@),
            authorities: views_of(self.authorities@),
            resources: views_of(self.resources@),
        }
    }
}

impl Clone for DnsPacket {
    fn clone(&self) -> (r: Self)
        ensures
            r@ == self@,
    {
        let r = DnsPacket {
            header: self.header,
            questions: self.questions.clone(),
            answers: self.answers.clone(),
            authorities: self.authorities.clone(),
            resources: self.resources.clone(),
        };
        proof {
            assert forall|i: int| 0 <= i < self.questions@.len() implies self.questions@[i]
                == r.questions@[i] by {}
            assert forall|i: int| 0 <= i < self.answers@.len() implies self.answers@[i]
                == r.answers@[i] by {}
            assert forall|i: int| 0 <= i < self.authorities@.len() implies self.authorities@[i]
                == r.authorities@[i] by {}
            assert forall|i: int| 0 <= i < self.resources@.len() implies self.resources@[i]
                == r.resources@[i] by {}
            assert(views_of(r.questions@) =~= views_of(self.questions@));
            assert(views_of(r.answers@) =~= views_of(self.answers@));
            assert(views_of(r.authorities@) =~= views_of(self.authorities@));
            assert(views_of(r.resources@) =~= views_of(self.resources@));
        }
        r
    }
}

impl DnsPacket {
    pub fn new() -> (r: DnsPacket)
        ensures
            r@.header == empty_header(),
            r@.questions.len() == 0,
            r@.answers.len() == 0,
            r@.authorities.len() == 0,
            r@.resources.len() == 0,
    {
        let r = DnsPacket {
            header: DnsHeader::new(),
            questions: Vec::new(),
            answers: Vec::new(),
            authorities: Vec::new(),
            resources: Vec::new(),
        };
        proof {
            assert(views_of(r.questions@) =~= Seq::<QuestionView>::empty());
            assert(views_of(r.answers@) =~= Seq::<RecordView>::empty());
            assert(views_of(r.authorities@) =~= Seq::<RecordView>::empty());
            assert(views_of(r.resources@) =~= Seq::<RecordView>::empty());
        }
        r
    }
}


/// A header whose fields fit their wire slots: the opcode is four bits.
pub open spec fn header_wf(h: DnsHeader) -> bool {
    h.opcode < 16
}

pub open spec fn bit(b: bool) -> u8 {
    if b {
        1
    } else {
        0
    }
}

/// The flag byte holding RD, TC, AA, the opcode and QR.
pub open spec fn header_flags_a(h: DnsHeader) -> u8 {
    (bit(h.recursion_desired) + 2 * bit(h.truncated_message) + 4 * bit(h.authoritative_answer) + 8
        * (h.opcode as int) + 128 * bit(h.response)) as u8
}

/// The flag byte holding the result code, CD, AD, Z and RA.
pub open spec fn header_flags_b(h: DnsHeader) -> u8 {
    (rescode_num(h.rescode) + 16 * bit(h.checking_disabled) + 32 * bit(h.authed_data) + 64 * bit(
        h.z,
    ) + 128 * bit(h.recursion_available)) as u8
}

/// The twelve bytes of a header on the wire.
pub open spec fn spec_header_bytes(h: DnsHeader) -> Seq<u8> {
    crate::buffer::u16_bytes(h.id) + seq![header_flags_a(h), header_flags_b(h)]
        + crate::buffer::u16_bytes(h.questions) + crate::buffer::u16_bytes(h.answers)
        + crate::buffer::u16_bytes(h.authoritative_entries) + crate::buffer::u16_bytes(
        h.resource_entries,
    )
}

/// The header decoded from the twelve bytes at `pos`, and the position after
/// them.
#[verifier::opaque]
pub open spec fn spec_parse_header(data: Seq<u8>, pos: int) -> Option<(DnsHeader, int)> {
    match crate::buffer::spec_parse_u16(data, pos) {
        Option::None => None,
        Option::Some((id, p1)) => match crate::buffer::spec_parse_u16(data, p1) {
            Option::None => None,
            Option::Some((flags, p2)) => {
                let a = (flags / 256) as u8;
                let b = (flags % 256) as u8;
                match crate::buffer::spec_parse_u16(data, p2) {
                    Option::None => None,
                    Option::Some((questions, p3)) => match crate::buffer::spec_parse_u16(
                        data,
                        p3,
                    ) {
                        Option::None => None,
                        Option::Some((answers, p4)) => match crate::buffer::spec_parse_u16(
                            data,
                            p4,
                        ) {
                            Option::None => None,
                            Option::Some((auth, p5)) => match crate::buffer::spec_parse_u16(
                                data,
                                p5,
                            ) {
                                Option::None => None,
                                Option::Some((res, p6)) => Some(
                                    (
                                        DnsHeader {
                                            id,
                                            recursion_desired: a as int % 2 == 1,
                                            truncated_message: a as int / 2 % 2 == 1,
                                            authoritative_answer: a as int / 4 % 2 == 1,
                                            opcode: (a as int / 8 % 16) as u8,
                                            response: a as int / 128 % 2 == 1,
                                            rescode: rescode_of_num((b as int % 16) as u8),
                                            checking_disabled: b as int / 16 % 2 == 1,
                                            authed_data: b as int / 32 % 2 == 1,
                                            z: b as int / 64 % 2 == 1,
                                            recursion_available: b as int / 128 % 2 == 1,
                                            questions,
                                            answers,
                                            authoritative_entries: auth,
                                            resource_entries: res,
                                        },
                                        p6,
                                    ),
                                ),
                            },
                        },
                    },
                }
            },
        },
    }
}

impl DnsHeader {
    /// Lays the twelve header bytes down at the end of the buffer.
    #[verifier::rlimit(60)]
    #[verifier::spinoff_prover]
    pub fn write<T: PacketBuffer>(&self, buf: &mut T) -> (r: Result<(), DnsError>)
        requires
            old(buf).wf(),
            old(buf).cursor() == old(buf).data().len(),
            header_wf(*self),
        ensures
            final(buf).wf(),
            T::always_writable() ==> r is Ok,
            r is Ok ==> final(buf).data() == old(buf).data() + spec_header_bytes(*self)
                && final(buf).cursor() == final(buf).data().len(),
    {
        crate::buffer::write_u16(buf, self.id)?;
        let mut a: u8 = 0;
        if self.recursion_desired {
            a = a + 1;
        }
        if self.truncated_message {
            a = a + 2;
        }
        if self.authoritative_answer {
            a = a + 4;
        }
        a = a + 8 * self.opcode;
        if self.response {
            a = a + 128;
        }
        buf.write_u8(a)?;
        let mut b: u8 = self.rescode.to_num();
        if self.checking_disabled {
            b = b + 16;
        }
        if self.authed_data {
            b = b + 32;
        }
        if self.z {
            b = b + 64;
        }
        if self.recursion_available {
            b = b + 128;
        }
        buf.write_u8(b)?;
        crate::buffer::write_u16(buf, self.questions)?;
        crate::buffer::write_u16(buf, self.answers)?;
        crate::buffer::write_u16(buf, self.authoritative_entries)?;
        crate::buffer::write_u16(buf, self.resource_entries)?;
        proof {
            assert(a == header_flags_a(*self));
            assert(b == header_flags_b(*self));
            assert(final(buf).data() =~= old(buf).data() + spec_header_bytes(*self));
        }
        Ok(())
    }

    /// Reads the twelve header bytes at the cursor into `self`.
    #[verifier::rlimit(60)]
    #[verifier::spinoff_prover]
    pub fn read<T: PacketBuffer>(&mut self, buf: &mut T) -> (r: Result<(), DnsError>)
        requires
            old(buf).wf(),
        ensures
            final(buf).wf(),
            final(buf).data() == old(buf).data(),
            match spec_parse_header(old(buf).data(), old(buf).cursor()) {
                Some((h, p2)) => r is Ok && *final(self) == h && final(buf).cursor() == p2,
                None => r is Err,
            },
            r is Ok ==> header_wf(*final(self)),
    {
        proof {
            reveal(spec_parse_header);
        }
        self.id = crate::buffer::read_u16(buf)?;
        let flags = crate::buffer::read_u16(buf)?;
        let a = (flags / 256) as u8;
        let b = (flags % 256) as u8;
        self.recursion_desired = a % 2 == 1;
        self.truncated_message = a / 2 % 2 == 1;
        self.authoritative_answer = a / 4 % 2 == 1;
        self.opcode = a / 8 % 16;
        self.response = a / 128 % 2 == 1;
        self.rescode = ResultCode::from_num(b % 16);
        self.checking_disabled = b / 16 % 2 == 1;
        self.authed_data = b / 32 % 2 == 1;
        self.z = b / 64 % 2 == 1;
        self.recursion_available = b / 128 % 2 == 1;
        self.questions = crate::buffer::read_u16(buf)?;
        self.answers = crate::buffer::read_u16(buf)?;
        self.authoritative_entries = crate::buffer::read_u16(buf)?;
        self.resource_entries = crate::buffer::read_u16(buf)?;
        Ok(())
    }
}

/// Decoding a header laid down by `DnsHeader::write` yields the header back.
#[verifier::rlimit(100)]
#[verifier::spinoff_prover]
pub proof fn lemma_parse_header_roundtrip(prefix: Seq<u8>, h: DnsHeader, rest: Seq<u8>)
    requires
        header_wf(h),
    ensures
        spec_parse_header(prefix + spec_header_bytes(h) + rest, prefix.len() as int) == Some(
            (h, prefix.len() as int + 12),
        ),
{
    reveal(spec_parse_header);
    let data = prefix + spec_header_bytes(h) + rest;
    let p = prefix.len() as int;
    crate::buffer::lemma_parse_u16_roundtrip(prefix, h.id, spec_header_bytes(h).skip(2) + rest);
    assert(prefix + spec_header_bytes(h) + rest =~= prefix + crate::buffer::u16_bytes(h.id) + (
    spec_header_bytes(h).skip(2) + rest));
    let a = header_flags_a(h);
    let b = header_flags_b(h);
    assert(data[p + 2] == a);
    assert(data[p + 3] == b);
    let flags = (a as u16 * 256 + b as u16) as u16;
    assert(crate::buffer::spec_parse_u16(data, p + 2) == Some((flags, p + 4)));
    assert((flags / 256) as u8 == a);
    assert((flags % 256) as u8 == b);
    assert(a as int == bit(h.recursion_desired) + 2 * bit(h.truncated_message) + 4 * bit(
        h.authoritative_answer,
    ) + 8 * (h.opcode as int) + 128 * bit(h.response));
    assert(a as int % 2 == 1 <==> h.recursion_desired) by (nonlinear_arith)
        requires
            a as int == bit(h.recursion_desired) + 2 * bit(h.truncated_message) + 4 * bit(
                h.authoritative_answer,
            ) + 8 * (h.opcode as int) + 128 * bit(h.response),
            h.opcode < 16,
    ;
    assert(a as int / 2 % 2 == 1 <==> h.truncated_message) by (nonlinear_arith)
        requires
            a as int == bit(h.recursion_desired) + 2 * bit(h.truncated_message) + 4 * bit(
                h.authoritative_answer,
            ) + 8 * (h.opcode as int) + 128 * bit(h.response),
            h.opcode < 16,
    ;
    assert(a as int / 4 % 2 == 1 <==> h.authoritative_answer) by (nonlinear_arith)
        requires
            a as int == bit(h.recursion_desired) + 2 * bit(h.truncated_message) + 4 * bit(
                h.authoritative_answer,
            ) + 8 * (h.opcode as int) + 128 * bit(h.response),
            h.opcode < 16,
    ;
    assert(a as int / 8 % 16 == h.opcode as int) by (nonlinear_arith)
        requires
            a as int == bit(h.recursion_desired) + 2 * bit(h.truncated_message) + 4 * bit(
                h.authoritative_answer,
            ) + 8 * (h.opcode as int) + 128 * bit(h.response),
            h.opcode < 16,
    ;
    assert(a as int / 128 % 2 == 1 <==> h.response) by (nonlinear_arith)
        requires
            a as int == bit(h.recursion_desired) + 2 * bit(h.truncated_message) + 4 * bit(
                h.authoritative_answer,
            ) + 8 * (h.opcode as int) + 128 * bit(h.response),
            h.opcode < 16,
    ;
    assert(b as int == rescode_num(h.rescode) + 16 * bit(h.checking_disabled) + 32 * bit(
        h.authed_data,
    ) + 64 * bit(h.z) + 128 * bit(h.recursion_available));
    assert(b as int % 16 == rescode_num(h.rescode)) by (nonlinear_arith)
        requires
            b as int == rescode_num(h.rescode) + 16 * bit(h.checking_disabled) + 32 * bit(
                h.authed_data,
            ) + 64 * bit(h.z) + 128 * bit(h.recursion_available),
            rescode_num(h.rescode) < 16,
    ;
    assert(b as int / 16 % 2 == 1 <==> h.checking_disabled) by (nonlinear_arith)
        requires
            b as int == rescode_num(h.rescode) + 16 * bit(h.checking_disabled) + 32 * bit(
                h.authed_data,
            ) + 64 * bit(h.z) + 128 * bit(h.recursion_available),
            rescode_num(h.rescode) < 16,
    ;
    assert(b as int / 32 % 2 == 1 <==> h.authed_data) by (nonlinear_arith)
        requires
            b as int == rescode_num(h.rescode) + 16 * bit(h.checking_disabled) + 32 * bit(
                h.authed_data,
            ) + 64 * bit(h.z) + 128 * bit(h.recursion_available),
            rescode_num(h.rescode) < 16,
    ;
    assert(b as int / 64 % 2 == 1 <==> h.z) by (nonlinear_arith)
        requires
            b as int == rescode_num(h.rescode) + 16 * bit(h.checking_disabled) + 32 * bit(
                h.authed_data,
            ) + 64 * bit(h.z) + 128 * bit(h.recursion_available),
            rescode_num(h.rescode) < 16,
    ;
    assert(b as int / 128 % 2 == 1 <==> h.recursion_available) by (nonlinear_arith)
        requires
            b as int == rescode_num(h.rescode) + 16 * bit(h.checking_disabled) + 32 * bit(
                h.authed_data,
            ) + 64 * bit(h.z) + 128 * bit(h.recursion_available),
            rescode_num(h.rescode) < 16,
    ;
    assert(rescode_of_num(rescode_num(h.rescode)) == h.rescode);
    assert(data[p + 4] == (h.questions / 256) as u8 && data[p + 5] == (h.questions % 256) as u8);
    assert(data[p + 6] == (h.answers / 256) as u8 && data[p + 7] == (h.answers % 256) as u8);
    assert(data[p + 8] == (h.authoritative_entries / 256) as u8 && data[p + 9] == (
    h.authoritative_entries % 256) as u8);
    assert(data[p + 10] == (h.resource_entries / 256) as u8 && data[p + 11] == (
    h.resource_entries % 256) as u8);
}


/// The wire bytes of a question: name, type, class IN.
pub open spec fn spec_question_bytes(q: QuestionView) -> Seq<u8> {
    crate::buffer::spec_qname(crate::text::bytes_of_chars(q.name)) + crate::buffer::u16_bytes(
        qtype_num(q.qtype),
    ) + crate::buffer::u16_bytes(1)
}

/// Whether a question can be laid down on the wire.
pub open spec fn question_writable(q: QuestionView) -> bool {
    crate::buffer::qname_encodable_chars(q.name)
}

/// The question decoded at `pos`, and the position after it. The class is
/// read and ignored.
#[verifier::opaque]
pub open spec fn spec_parse_question(data: Seq<u8>, pos: int) -> Option<(QuestionView, int)> {
    match crate::buffer::spec_parse_name(data, pos, crate::buffer::MAX_JUMPS as nat) {
        Option::None => None,
        Option::Some((name, p1)) => match crate::buffer::spec_parse_u16(data, p1) {
            Option::None => None,
            Option::Some((qt, p2)) => match crate::buffer::spec_parse_u16(data, p2) {
                Option::None => None,
                Option::Some((_class, p3)) => Some(
                    (QuestionView { name: crate::text::chars_of_bytes(name), qtype: qtype_of_num(qt) }, p3),
                ),
            },
        },
    }
}

impl DnsQuestion {
    /// Lays the question down at the end of the buffer.
    pub fn write<T: PacketBuffer>(&self, buf: &mut T) -> (r: Result<(), DnsError>)
        requires
            old(buf).wf(),
            old(buf).cursor() == old(buf).data().len(),
        ensures
            final(buf).wf(),
            T::always_writable() ==> (r is Ok <==> question_writable(self@)),
            r is Ok ==> question_writable(self@) && final(buf).data() == old(buf).data()
                + spec_question_bytes(self@) && final(buf).cursor() == final(buf).data().len(),
    {
        crate::buffer::write_qname(buf, self.name.as_str())?;
        let typenum = self.qtype.to_num();
        crate::buffer::write_u16(buf, typenum)?;
        crate::buffer::write_u16(buf, 1)?;
        proof {
            assert(final(buf).data() =~= old(buf).data() + spec_question_bytes(self@));
        }
        Ok(())
    }

    /// Reads the question at the cursor, appending the decoded name to the
    /// name already held.
    pub fn read<T: PacketBuffer>(&mut self, buf: &mut T) -> (r: Result<(), DnsError>)
        requires
            old(buf).wf(),
        ensures
            final(buf).wf(),
            final(buf).data() == old(buf).data(),
            match spec_parse_question(old(buf).data(), old(buf).cursor()) {
                Some((q, p2)) => r is Ok && final(self)@.name == old(self)@.name + q.name
                    && final(self)@.qtype == q.qtype && final(buf).cursor() == p2,
                None => r is Err,
            },
    {
        proof {
            reveal(spec_parse_question);
        }
        crate::buffer::read_qname(buf, &mut self.name)?;
        let qt = crate::buffer::read_u16(buf)?;
        self.qtype = QueryType::from_num(qt);
        let _class = crate::buffer::read_u16(buf)?;
        Ok(())
    }

    /// The number of bytes `write` emits for this question.
    pub fn binary_len(&self) -> (r: usize)
        requires
            question_writable(self@),
        ensures
            r == spec_question_bytes(self@).len(),
    {
        crate::buffer::qname_len(self.name.as_str()) + 4
    }
}

/// The RDATA bytes of a record; OPT and UNKNOWN records are suppressed.
pub open spec fn spec_rdata_bytes(r: RecordView) -> Seq<u8> {
    match r {
        RecordView::A { addr, .. } => seq![addr.o0, addr.o1, addr.o2, addr.o3],
        RecordView::AAAA { addr, .. } => crate::buffer::u16_bytes(addr.g0)
            + crate::buffer::u16_bytes(addr.g1) + crate::buffer::u16_bytes(addr.g2)
            + crate::buffer::u16_bytes(addr.g3) + crate::buffer::u16_bytes(addr.g4)
            + crate::buffer::u16_bytes(addr.g5) + crate::buffer::u16_bytes(addr.g6)
            + crate::buffer::u16_bytes(addr.g7),
        RecordView::NS { host, .. } => crate::buffer::spec_qname(crate::text::bytes_of_chars(host)),
        RecordView::CNAME { host, .. } => crate::buffer::spec_qname(
            crate::text::bytes_of_chars(host),
        ),
        RecordView::SRV { priority, weight, port, host, .. } => crate::buffer::u16_bytes(priority)
            + crate::buffer::u16_bytes(weight) + crate::buffer::u16_bytes(port)
            + crate::buffer::spec_qname(crate::text::bytes_of_chars(host)),
        RecordView::MX { priority, host, .. } => crate::buffer::u16_bytes(priority)
            + crate::buffer::spec_qname(crate::text::bytes_of_chars(host)),
        RecordView::SOA { mname, rname, serial, refresh, retry, expire, minimum, .. } => crate::buffer::spec_qname(
            crate::text::bytes_of_chars(mname),
        ) + crate::buffer::spec_qname(crate::text::bytes_of_chars(rname))
            + crate::buffer::u32_bytes(serial) + crate::buffer::u32_bytes(refresh)
            + crate::buffer::u32_bytes(retry) + crate::buffer::u32_bytes(expire)
            + crate::buffer::u32_bytes(minimum),
        RecordView::TXT { data, .. } => crate::text::bytes_of_chars(data),
        RecordView::OPT { .. } => Seq::empty(),
        RecordView::UNKNOWN { .. } => Seq::empty(),
    }
}

/// The full wire bytes of a record: name, type, class IN, TTL, RDATA length,
/// RDATA. OPT and UNKNOWN records emit nothing.
pub open spec fn spec_record_bytes(r: RecordView) -> Seq<u8> {
    match rv_domain(r) {
        Option::None => Seq::empty(),
        Option::Some(domain) => {
            if r is UNKNOWN {
                Seq::empty()
            } else {
                crate::buffer::spec_qname(crate::text::bytes_of_chars(domain))
                    + crate::buffer::u16_bytes(qtype_num(rv_qtype(r))) + crate::buffer::u16_bytes(1)
                    + crate::buffer::u32_bytes(rv_ttl(r)) + crate::buffer::u16_bytes(
                    spec_rdata_bytes(r).len() as u16,
                ) + spec_rdata_bytes(r)
            }
        },
    }
}

/// Whether a record can be laid down on the wire: each of its names can be
/// encoded and TXT data fits its length field. OPT and UNKNOWN records are
/// always "writable": they are suppressed.
pub open spec fn record_writable(r: RecordView) -> bool {
    match r {
        RecordView::A { domain, .. } => crate::buffer::qname_encodable_chars(domain),
        RecordView::AAAA { domain, .. } => crate::buffer::qname_encodable_chars(domain),
        RecordView::NS { domain, host, .. } => crate::buffer::qname_encodable_chars(domain)
            && crate::buffer::qname_encodable_chars(host),
        RecordView::CNAME { domain, host, .. } => crate::buffer::qname_encodable_chars(domain)
            && crate::buffer::qname_encodable_chars(host),
        RecordView::SRV { domain, host, .. } => crate::buffer::qname_encodable_chars(domain)
            && crate::buffer::qname_encodable_chars(host),
        RecordView::MX { domain, host, .. } => crate::buffer::qname_encodable_chars(domain)
            && crate::buffer::qname_encodable_chars(host),
        RecordView::SOA { domain, mname, rname, .. } => crate::buffer::qname_encodable_chars(domain)
            && crate::buffer::qname_encodable_chars(mname) && crate::buffer::qname_encodable_chars(
            rname,
        ),
        RecordView::TXT { domain, data, .. } => crate::buffer::qname_encodable_chars(domain)
            && crate::text::chars_fit_bytes(data) && data.len() <= 65535,
        RecordView::OPT { .. } => true,
        RecordView::UNKNOWN { .. } => true,
    }
}

/// The record decoded at `pos`, and the position after it, dispatched on the
/// record type number.
#[verifier::opaque]
pub open spec fn spec_parse_record(data: Seq<u8>, pos: int) -> Option<(RecordView, int)> {
    match crate::buffer::spec_parse_name(data, pos, crate::buffer::MAX_JUMPS as nat) {
        Option::None => None,
        Option::Some((name, p1)) => match crate::buffer::spec_parse_u16(data, p1) {
            Option::None => None,
            Option::Some((qtype_n, p2)) => match crate::buffer::spec_parse_u16(data, p2) {
                Option::None => None,
                Option::Some((class, p3)) => match crate::buffer::spec_parse_u32(data, p3) {
                    Option::None => None,
                    Option::Some((ttl, p4)) => match crate::buffer::spec_parse_u16(data, p4) {
                        Option::None => None,
                        Option::Some((data_len, p5)) => {
                            let domain = crate::text::chars_of_bytes(name);
                            match qtype_of_num(qtype_n) {
                                QueryType::A => {
                                    if p5 + 4 <= data.len() {
                                        Some(
                                            (
                                                RecordView::A {
                                                    domain,
                                                    addr: Ipv4Addr {
                                                        o0: data[p5],
                                                        o1: data[p5 + 1],
                                                        o2: data[p5 + 2],
                                                        o3: data[p5 + 3],
                                                    },
                                                    ttl,
                                                },
                                                p5 + 4,
                                            ),
                                        )
                                    } else {
                                        None
                                    }
                                },
                                QueryType::AAAA => {
                                    if p5 + 16 <= data.len() {
                                        Some(
                                            (
                                                RecordView::AAAA {
                                                    domain,
                                                    addr: Ipv6Addr {
                                                        g0: (data[p5] as int * 256 + data[p5 + 1]) as u16,
                                                        g1: (data[p5 + 2] as int * 256 + data[p5 + 3]) as u16,
                                                        g2: (data[p5 + 4] as int * 256 + data[p5 + 5]) as u16,
                                                        g3: (data[p5 + 6] as int * 256 + data[p5 + 7]) as u16,
                                                        g4: (data[p5 + 8] as int * 256 + data[p5 + 9]) as u16,
                                                        g5: (data[p5 + 10] as int * 256 + data[p5 + 11]) as u16,
                                                        g6: (data[p5 + 12] as int * 256 + data[p5 + 13]) as u16,
                                                        g7: (data[p5 + 14] as int * 256 + data[p5 + 15]) as u16,
                                                    },
                                                    ttl,
                                                },
                                                p5 + 16,
                                            ),
                                        )
                                    } else {
                                        None
                                    }
                                },
                                QueryType::NS => match crate::buffer::spec_parse_name(
                                    data,
                                    p5,
                                    crate::buffer::MAX_JUMPS as nat,
                                ) {
                                    Option::None => None,
                                    Option::Some((host, p6)) => Some(
                                        (
                                            RecordView::NS {
                                                domain,
                                                host: crate::text::chars_of_bytes(host),
                                                ttl,
                                            },
                                            p6,
                                        ),
                                    ),
                                },
                                QueryType::CNAME => match crate::buffer::spec_parse_name(
                                    data,
                                    p5,
                                    crate::buffer::MAX_JUMPS as nat,
                                ) {
                                    Option::None => None,
                                    Option::Some((host, p6)) => Some(
                                        (
                                            RecordView::CNAME {
                                                domain,
                                                host: crate::text::chars_of_bytes(host),
                                                ttl,
                                            },
                                            p6,
                                        ),
                                    ),
                                },
                                QueryType::SRV => match crate::buffer::spec_parse_u16(data, p5) {
                                    Option::None => None,
                                    Option::Some((priority, p6)) => match crate::buffer::spec_parse_u16(
                                        data,
                                        p6,
                                    ) {
                                        Option::None => None,
                                        Option::Some((weight, p7)) => match crate::buffer::spec_parse_u16(
                                            data,
                                            p7,
                                        ) {
                                            Option::None => None,
                                            Option::Some((port, p8)) => match crate::buffer::spec_parse_name(
                                                data,
                                                p8,
                                                crate::buffer::MAX_JUMPS as nat,
                                            ) {
                                                Option::None => None,
                                                Option::Some((host, p9)) => Some(
                                                    (
                                                        RecordView::SRV {
                                                            domain,
                                                            priority,
                                                            weight,
                                                            port,
                                                            host: crate::text::chars_of_bytes(host),
                                                            ttl,
                                                        },
                                                        p9,
                                                    ),
                                                ),
                                            },
                                        },
                                    },
                                },
                                QueryType::MX => match crate::buffer::spec_parse_u16(data, p5) {
                                    Option::None => None,
                                    Option::Some((priority, p6)) => match crate::buffer::spec_parse_name(
                                        data,
                                        p6,
                                        crate::buffer::MAX_JUMPS as nat,
                                    ) {
                                        Option::None => None,
                                        Option::Some((host, p7)) => Some(
                                            (
                                                RecordView::MX {
                                                    domain,
                                                    priority,
                                                    host: crate::text::chars_of_bytes(host),
                                                    ttl,
                                                },
                                                p7,
                                            ),
                                        ),
                                    },
                                },
                                QueryType::SOA => match crate::buffer::spec_parse_name(
                                    data,
                                    p5,
                                    crate::buffer::MAX_JUMPS as nat,
                                ) {
                                    Option::None => None,
                                    Option::Some((mname, p6)) => match crate::buffer::spec_parse_name(
                                        data,
                                        p6,
                                        crate::buffer::MAX_JUMPS as nat,
                                    ) {
                                        Option::None => None,
                                        Option::Some((rname, p7)) => match crate::buffer::spec_parse_u32(
                                            data,
                                            p7,
                                        ) {
                                            Option::None => None,
                                            Option::Some((serial, p8)) => match crate::buffer::spec_parse_u32(
                                                data,
                                                p8,
                                            ) {
                                                Option::None => None,
                                                Option::Some((refresh, p9)) => match crate::buffer::spec_parse_u32(
                                                    data,
                                                    p9,
                                                ) {
                                                    Option::None => None,
                                                    Option::Some((retry, p10)) => match crate::buffer::spec_parse_u32(
                                                        data,
                                                        p10,
                                                    ) {
                                                        Option::None => None,
                                                        Option::Some((expire, p11)) => match crate::buffer::spec_parse_u32(
                                                            data,
                                                            p11,
                                                        ) {
                                                            Option::None => None,
                                                            Option::Some((minimum, p12)) => Some(
                                                                (
                                                                    RecordView::SOA {
                                                                        domain,
                                                                        mname: crate::text::chars_of_bytes(mname),
                                                                        rname: crate::text::chars_of_bytes(rname),
                                                                        serial,
                                                                        refresh,
                                                                        retry,
                                                                        expire,
                                                                        minimum,
                                                                        ttl,
                                                                    },
                                                                    p12,
                                                                ),
                                                            ),
                                                        },
                                                    },
                                                },
                                            },
                                        },
                                    },
                                },
                                QueryType::TXT => {
                                    if p5 + data_len <= data.len() {
                                        Some(
                                            (
                                                RecordView::TXT {
                                                    domain,
                                                    data: crate::text::chars_of_bytes(
                                                        data.subrange(p5, p5 + data_len),
                                                    ),
                                                    ttl,
                                                },
                                                p5 + data_len,
                                            ),
                                        )
                                    } else {
                                        None
                                    }
                                },
                                QueryType::OPT => {
                                    if p5 + data_len <= data.len() {
                                        Some(
                                            (
                                                RecordView::OPT {
                                                    packet_len: class,
                                                    flags: ttl,
                                                    data: crate::text::chars_of_bytes(
                                                        data.subrange(p5, p5 + data_len),
                                                    ),
                                                },
                                                p5 + data_len,
                                            ),
                                        )
                                    } else {
                                        None
                                    }
                                },
                                QueryType::UNKNOWN(x) => {
                                    if p5 + data_len <= data.len() {
                                        Some(
                                            (
                                                RecordView::UNKNOWN {
                                                    domain,
                                                    qtype: x,
                                                    data_len,
                                                    ttl,
                                                },
                                                p5 + data_len,
                                            ),
                                        )
                                    } else {
                                        None
                                    }
                                },
                            }
                        },
                    },
                },
            },
        },
    }
}


impl DnsRecord {
    /// Reads the record at the cursor, dispatching on its type number.
    /// A buffer shorter than the declared fields fails with an I/O error
    /// rather than a panic. TXT and OPT payloads are kept byte for byte,
    /// each byte as one character, so data that is not ASCII travels
    /// verbatim instead of being re-encoded as UTF-8.
    #[verifier::rlimit(100)]
    #[verifier::spinoff_prover]
    pub fn read<T: PacketBuffer>(buf: &mut T) -> (r: Result<DnsRecord, DnsError>)
        requires
            old(buf).wf(),
        ensures
            final(buf).wf(),
            final(buf).data() == old(buf).data(),
            match spec_parse_record(old(buf).data(), old(buf).cursor()) {
                Some((rv, p2)) => r matches Ok(rec) && rec@ == rv && final(buf).cursor() == p2,
                None => r is Err,
            },
    {
        proof {
            reveal(spec_parse_record);
        }
        let mut domain = String::new();
        crate::buffer::read_qname(buf, &mut domain)?;
        let qtype_num = crate::buffer::read_u16(buf)?;
        let qtype = QueryType::from_num(qtype_num);
        let class = crate::buffer::read_u16(buf)?;
        let ttl = crate::buffer::read_u32(buf)?;
        let data_len = crate::buffer::read_u16(buf)?;

        match qtype {
            QueryType::A => {
                let o0 = buf.read_u8()?;
                let o1 = buf.read_u8()?;
                let o2 = buf.read_u8()?;
                let o3 = buf.read_u8()?;
                Ok(DnsRecord::A { domain, addr: Ipv4Addr { o0, o1, o2, o3 }, ttl })
            },
            QueryType::AAAA => {
                let g0 = crate::buffer::read_u16(buf)?;
                let g1 = crate::buffer::read_u16(buf)?;
                let g2 = crate::buffer::read_u16(buf)?;
                let g3 = crate::buffer::read_u16(buf)?;
                let g4 = crate::buffer::read_u16(buf)?;
                let g5 = crate::buffer::read_u16(buf)?;
                let g6 = crate::buffer::read_u16(buf)?;
                let g7 = crate::buffer::read_u16(buf)?;
                Ok(
                    DnsRecord::AAAA {
                        domain,
                        addr: Ipv6Addr { g0, g1, g2, g3, g4, g5, g6, g7 },
                        ttl,
                    },
                )
            },
            QueryType::NS => {
                let mut ns = String::new();
                crate::buffer::read_qname(buf, &mut ns)?;
                Ok(DnsRecord::NS { domain, host: ns, ttl })
            },
            QueryType::CNAME => {
                let mut cname = String::new();
                crate::buffer::read_qname(buf, &mut cname)?;
                Ok(DnsRecord::CNAME { domain, host: cname, ttl })
            },
            QueryType::SRV => {
                let priority = crate::buffer::read_u16(buf)?;
                let weight = crate::buffer::read_u16(buf)?;
                let port = crate::buffer::read_u16(buf)?;
                let mut srv = String::new();
                crate::buffer::read_qname(buf, &mut srv)?;
                Ok(DnsRecord::SRV { domain, priority, weight, port, host: srv, ttl })
            },
            QueryType::MX => {
                let priority = crate::buffer::read_u16(buf)?;
                let mut mx = String::new();
                crate::buffer::read_qname(buf, &mut mx)?;
                Ok(DnsRecord::MX { domain, priority, host: mx, ttl })
            },
            QueryType::SOA => {
                let mut mname = String::new();
                crate::buffer::read_qname(buf, &mut mname)?;
                let mut rname = String::new();
                crate::buffer::read_qname(buf, &mut rname)?;
                let serial = crate::buffer::read_u32(buf)?;
                let refresh = crate::buffer::read_u32(buf)?;
                let retry = crate::buffer::read_u32(buf)?;
                let expire = crate::buffer::read_u32(buf)?;
                let minimum = crate::buffer::read_u32(buf)?;
                Ok(
                    DnsRecord::SOA {
                        domain,
                        mname,
                        rname,
                        serial,
                        refresh,
                        retry,
                        expire,
                        minimum,
                        ttl,
                    },
                )
            },
            QueryType::TXT => {
                let cur_pos = buf.pos();
                let raw = buf.get_range(cur_pos, data_len as usize)?;
                buf.step(data_len as usize)?;
                let txt = crate::text::string_of_bytes(raw.as_slice());
                Ok(DnsRecord::TXT { domain, data: txt, ttl })
            },
            QueryType::OPT => {
                let cur_pos = buf.pos();
                let raw = buf.get_range(cur_pos, data_len as usize)?;
                buf.step(data_len as usize)?;
                let data = crate::text::string_of_bytes(raw.as_slice());
                Ok(DnsRecord::OPT { packet_len: class, flags: ttl, data })
            },
            QueryType::UNKNOWN(_) => {
                buf.step(data_len as usize)?;
                Ok(DnsRecord::UNKNOWN { domain, qtype: qtype_num, data_len, ttl })
            },
        }
    }

    /// Lays the record down at the end of the buffer and reports how many
    /// bytes it took. OPT and UNKNOWN records are suppressed and take none.
    #[verifier::rlimit(100)]
    #[verifier::spinoff_prover]
    pub fn write<T: PacketBuffer>(&self, buf: &mut T) -> (r: Result<usize, DnsError>)
        requires
            old(buf).wf(),
            old(buf).cursor() == old(buf).data().len(),
        ensures
            final(buf).wf(),
            T::always_writable() ==> (r is Ok <==> record_writable(self@)),
            r matches Ok(n) ==> record_writable(self@) && final(buf).data() == old(buf).data()
                + spec_record_bytes(self@) && final(buf).cursor() == final(buf).data().len() && n
                == spec_record_bytes(self@).len(),
    {
        let start_pos = buf.pos();
        match self {
            DnsRecord::A { domain, addr, ttl } => {
                crate::buffer::write_qname(buf, domain.as_str())?;
                crate::buffer::write_u16(buf, 1)?;
                crate::buffer::write_u16(buf, 1)?;
                crate::buffer::write_u32(buf, *ttl)?;
                crate::buffer::write_u16(buf, 4)?;
                buf.write_u8(addr.o0)?;
                buf.write_u8(addr.o1)?;
                buf.write_u8(addr.o2)?;
                buf.write_u8(addr.o3)?;
                proof {
                    assert(final(buf).data() =~= old(buf).data() + spec_record_bytes(self@));
                }
            },
            DnsRecord::AAAA { domain, addr, ttl } => {
                crate::buffer::write_qname(buf, domain.as_str())?;
                crate::buffer::write_u16(buf, 28)?;
                crate::buffer::write_u16(buf, 1)?;
                crate::buffer::write_u32(buf, *ttl)?;
                crate::buffer::write_u16(buf, 16)?;
                crate::buffer::write_u16(buf, addr.g0)?;
                crate::buffer::write_u16(buf, addr.g1)?;
                crate::buffer::write_u16(buf, addr.g2)?;
                crate::buffer::write_u16(buf, addr.g3)?;
                crate::buffer::write_u16(buf, addr.g4)?;
                crate::buffer::write_u16(buf, addr.g5)?;
                crate::buffer::write_u16(buf, addr.g6)?;
                crate::buffer::write_u16(buf, addr.g7)?;
                proof {
                    assert(final(buf).data() =~= old(buf).data() + spec_record_bytes(self@));
                }
            },
            DnsRecord::NS { domain, host, ttl } => {
                let enc = crate::buffer::encode_name(host.as_str())?;
                crate::buffer::write_qname(buf, domain.as_str())?;
                crate::buffer::write_u16(buf, 2)?;
                crate::buffer::write_u16(buf, 1)?;
                crate::buffer::write_u32(buf, *ttl)?;
                crate::buffer::write_u16(buf, enc.len() as u16)?;
                crate::buffer::append_bytes(buf, &enc)?;
                proof {
                    assert(final(buf).data() =~= old(buf).data() + spec_record_bytes(self@));
                }
            },
            DnsRecord::CNAME { domain, host, ttl } => {
                let enc = crate::buffer::encode_name(host.as_str())?;
                crate::buffer::write_qname(buf, domain.as_str())?;
                crate::buffer::write_u16(buf, 5)?;
                crate::buffer::write_u16(buf, 1)?;
                crate::buffer::write_u32(buf, *ttl)?;
                crate::buffer::write_u16(buf, enc.len() as u16)?;
                crate::buffer::append_bytes(buf, &enc)?;
                proof {
                    assert(final(buf).data() =~= old(buf).data() + spec_record_bytes(self@));
                }
            },
            DnsRecord::SRV { domain, priority, weight, port, host, ttl } => {
                let enc = crate::buffer::encode_name(host.as_str())?;
                crate::buffer::write_qname(buf, domain.as_str())?;
                crate::buffer::write_u16(buf, 33)?;
                crate::buffer::write_u16(buf, 1)?;
                crate::buffer::write_u32(buf, *ttl)?;
                crate::buffer::write_u16(buf, 6 + enc.len() as u16)?;
                crate::buffer::write_u16(buf, *priority)?;
                crate::buffer::write_u16(buf, *weight)?;
                crate::buffer::write_u16(buf, *port)?;
                crate::buffer::append_bytes(buf, &enc)?;
                proof {
                    assert(final(buf).data() =~= old(buf).data() + spec_record_bytes(self@));
                }
            },
            DnsRecord::MX { domain, priority, host, ttl } => {
                let enc = crate::buffer::encode_name(host.as_str())?;
                crate::buffer::write_qname(buf, domain.as_str())?;
                crate::buffer::write_u16(buf, 15)?;
                crate::buffer::write_u16(buf, 1)?;
                crate::buffer::write_u32(buf, *ttl)?;
                crate::buffer::write_u16(buf, 2 + enc.len() as u16)?;
                crate::buffer::write_u16(buf, *priority)?;
                crate::buffer::append_bytes(buf, &enc)?;
                proof {
                    assert(final(buf).data() =~= old(buf).data() + spec_record_bytes(self@));
                }
            },
            DnsRecord::SOA { domain, mname, rname, serial, refresh, retry, expire, minimum, ttl } => {
                let encm = crate::buffer::encode_name(mname.as_str())?;
                let encr = crate::buffer::encode_name(rname.as_str())?;
                crate::buffer::write_qname(buf, domain.as_str())?;
                crate::buffer::write_u16(buf, 6)?;
                crate::buffer::write_u16(buf, 1)?;
                crate::buffer::write_u32(buf, *ttl)?;
                crate::buffer::write_u16(buf, encm.len() as u16 + encr.len() as u16 + 20)?;
                crate::buffer::append_bytes(buf, &encm)?;
                crate::buffer::append_bytes(buf, &encr)?;
                crate::buffer::write_u32(buf, *serial)?;
                crate::buffer::write_u32(buf, *refresh)?;
                crate::buffer::write_u32(buf, *retry)?;
                crate::buffer::write_u32(buf, *expire)?;
                crate::buffer::write_u32(buf, *minimum)?;
                proof {
                    assert(final(buf).data() =~= old(buf).data() + spec_record_bytes(self@));
                }
            },
            DnsRecord::TXT { domain, data, ttl } => {
                let bytes = match crate::text::bytes_of_str(data.as_str()) {
                    Some(v) => v,
                    None => {
                        return Err(DnsError::InvalidInput);
                    },
                };
                if bytes.len() > 65535 {
                    return Err(DnsError::InvalidInput);
                }
                crate::buffer::write_qname(buf, domain.as_str())?;
                crate::buffer::write_u16(buf, 16)?;
                crate::buffer::write_u16(buf, 1)?;
                crate::buffer::write_u32(buf, *ttl)?;
                crate::buffer::write_u16(buf, bytes.len() as u16)?;
                crate::buffer::append_bytes(buf, &bytes)?;
                proof {
                    assert(final(buf).data() =~= old(buf).data() + spec_record_bytes(self@));
                }
            },
            DnsRecord::OPT { .. } => {
                proof {
                    assert(final(buf).data() =~= old(buf).data() + spec_record_bytes(self@));
                }
            },
            DnsRecord::UNKNOWN { .. } => {
                proof {
                    assert(final(buf).data() =~= old(buf).data() + spec_record_bytes(self@));
                }
            },
        }
        let end_pos = buf.pos();
        Ok(end_pos - start_pos)
    }

    /// The record's wire bytes on their own, as `write` would emit them.
    pub fn to_bytes(&self) -> (r: Result<Vec<u8>, DnsError>)
        ensures
            r is Ok <==> record_writable(self@),
            r matches Ok(v) ==> v@ == spec_record_bytes(self@),
    {
        let mut tmp = crate::buffer::VectorPacketBuffer::new();
        self.write(&mut tmp)?;
        Ok(tmp.buffer)
    }
}

impl DnsQuestion {
    /// The question's wire bytes on their own, as `write` would emit them.
    pub fn to_bytes(&self) -> (r: Result<Vec<u8>, DnsError>)
        ensures
            r is Ok <==> question_writable(self@),
            r matches Ok(v) ==> v@ == spec_question_bytes(self@),
    {
        let mut tmp = crate::buffer::VectorPacketBuffer::new();
        self.write(&mut tmp)?;
        Ok(tmp.buffer)
    }
}


/// `count` questions decoded one after another from `pos`.
pub open spec fn spec_parse_questions(data: Seq<u8>, pos: int, count: nat) -> Option<
    (Seq<QuestionView>, int),
>
    decreases count,
{
    if count == 0 {
        Some((Seq::empty(), pos))
    } else {
        match spec_parse_question(data, pos) {
            Option::None => None,
            Option::Some((q, p1)) => match spec_parse_questions(data, p1, (count - 1) as nat) {
                Option::None => None,
                Option::Some((rest, p2)) => Some((seq![q] + rest, p2)),
            },
        }
    }
}

/// `count` records decoded one after another from `pos`.
pub open spec fn spec_parse_records(data: Seq<u8>, pos: int, count: nat) -> Option<
    (Seq<RecordView>, int),
>
    decreases count,
{
    if count == 0 {
        Some((Seq::empty(), pos))
    } else {
        match spec_parse_record(data, pos) {
            Option::None => None,
            Option::Some((rec, p1)) => match spec_parse_records(data, p1, (count - 1) as nat) {
                Option::None => None,
                Option::Some((rest, p2)) => Some((seq![rec] + rest, p2)),
            },
        }
    }
}

/// A whole message decoded from `pos`: header, then as many questions and
/// records as the header's counts declare.
pub open spec fn spec_parse_packet(data: Seq<u8>, pos: int) -> Option<(PacketView, int)> {
    match spec_parse_header(data, pos) {
        Option::None => None,
        Option::Some((h, p1)) => match spec_parse_questions(data, p1, h.questions as nat) {
            Option::None => None,
            Option::Some((qs, p2)) => match spec_parse_records(data, p2, h.answers as nat) {
                Option::None => None,
                Option::Some((ans, p3)) => match spec_parse_records(
                    data,
                    p3,
                    h.authoritative_entries as nat,
                ) {
                    Option::None => None,
                    Option::Some((auth, p4)) => match spec_parse_records(
                        data,
                        p4,
                        h.resource_entries as nat,
                    ) {
                        Option::None => None,
                        Option::Some((res, p5)) => Some(
                            (
                                PacketView {
                                    header: h,
                                    questions: qs,
                                    answers: ans,
                                    authorities: auth,
                                    resources: res,
                                },
                                p5,
                            ),
                        ),
                    },
                },
            },
        },
    }
}

/// Reads `count` questions one after another from the cursor.
fn read_questions<T: PacketBuffer>(buf: &mut T, count: u16) -> (r: Result<
    Vec<DnsQuestion>,
    DnsError,
>)
    requires
        old(buf).wf(),
    ensures
        final(buf).wf(),
        final(buf).data() == old(buf).data(),
        match spec_parse_questions(old(buf).data(), old(buf).cursor(), count as nat) {
            Some((qs, p2)) => r matches Ok(v) && views_of(v@) == qs && final(buf).cursor() == p2,
            None => r is Err,
        },
{
    let mut out: Vec<DnsQuestion> = Vec::new();
    let mut i: u16 = 0;
    proof {
        assert(views_of(out@) + spec_parse_questions(old(buf).data(), old(buf).cursor(), count as nat)->Some_0.0
            =~= spec_parse_questions(old(buf).data(), old(buf).cursor(), count as nat)->Some_0.0);
    }
    while i < count
        invariant
            buf.wf(),
            buf.data() == old(buf).data(),
            i <= count,
            match spec_parse_questions(old(buf).data(), buf.cursor(), (count - i) as nat) {
                Some((rest, pend)) => spec_parse_questions(old(buf).data(), old(buf).cursor(), count as nat) == Some(
                    (views_of(out@) + rest, pend),
                ),
                None => spec_parse_questions(old(buf).data(), old(buf).cursor(), count as nat) is None,
            },
        decreases count - i,
    {
        let empty_name = String::new();
        let mut question = DnsQuestion::new(&empty_name, QueryType::UNKNOWN(0));
        question.read(buf)?;
        out.push(question);
        i = i + 1;
        proof {
            assert(views_of(out@) =~= views_of(out@.drop_last()) + seq![out@.last()@]);
            match spec_parse_questions(old(buf).data(), buf.cursor(), (count - i) as nat) {
                Some((rest, pend)) => {
                    assert(views_of(out@) + rest =~= views_of(out@.drop_last()) + (seq![
                        out@.last()@,
                    ] + rest));
                },
                None => {},
            }
        }
    }
    proof {
        assert(views_of(out@) + Seq::<QuestionView>::empty() =~= views_of(out@));
    }
    Ok(out)
}

/// Reads `count` records one after another from the cursor.
fn read_records<T: PacketBuffer>(buf: &mut T, count: u16) -> (r: Result<Vec<DnsRecord>, DnsError>)
    requires
        old(buf).wf(),
    ensures
        final(buf).wf(),
        final(buf).data() == old(buf).data(),
        match spec_parse_records(old(buf).data(), old(buf).cursor(), count as nat) {
            Some((rs, p2)) => r matches Ok(v) && views_of(v@) == rs && final(buf).cursor() == p2,
            None => r is Err,
        },
{
    let mut out: Vec<DnsRecord> = Vec::new();
    let mut i: u16 = 0;
    proof {
        assert(views_of(out@) + spec_parse_records(old(buf).data(), old(buf).cursor(), count as nat)->Some_0.0
            =~= spec_parse_records(old(buf).data(), old(buf).cursor(), count as nat)->Some_0.0);
    }
    while i < count
        invariant
            buf.wf(),
            buf.data() == old(buf).data(),
            i <= count,
            match spec_parse_records(old(buf).data(), buf.cursor(), (count - i) as nat) {
                Some((rest, pend)) => spec_parse_records(old(buf).data(), old(buf).cursor(), count as nat) == Some(
                    (views_of(out@) + rest, pend),
                ),
                None => spec_parse_records(old(buf).data(), old(buf).cursor(), count as nat) is None,
            },
        decreases count - i,
    {
        let rec = DnsRecord::read(buf)?;
        out.push(rec);
        i = i + 1;
        proof {
            assert(views_of(out@) =~= views_of(out@.drop_last()) + seq![out@.last()@]);
            match spec_parse_records(old(buf).data(), buf.cursor(), (count - i) as nat) {
                Some((rest, pend)) => {
                    assert(views_of(out@) + rest =~= views_of(out@.drop_last()) + (seq![
                        out@.last()@,
                    ] + rest));
                },
                None => {},
            }
        }
    }
    proof {
        assert(views_of(out@) + Seq::<RecordView>::empty() =~= views_of(out@));
    }
    Ok(out)
}

impl DnsPacket {
    /// Decodes a whole message at the cursor. Each section holds exactly as
    /// many entries as the header's counts declare; a shorter buffer fails
    /// with an error rather than a panic.
    pub fn from_buffer<T: PacketBuffer>(buf: &mut T) -> (r: Result<DnsPacket, DnsError>)
        requires
            old(buf).wf(),
        ensures
            final(buf).wf(),
            final(buf).data() == old(buf).data(),
            match spec_parse_packet(old(buf).data(), old(buf).cursor()) {
                Some((pv, p2)) => r matches Ok(p) && p@ == pv && final(buf).cursor() == p2,
                None => r is Err,
            },
    {
        let mut header = DnsHeader::new();
        header.read(buf)?;
        let questions = read_questions(buf, header.questions)?;
        let answers = read_records(buf, header.answers)?;
        let authorities = read_records(buf, header.authoritative_entries)?;
        let resources = read_records(buf, header.resource_entries)?;
        Ok(DnsPacket { header, questions, answers, authorities, resources })
    }
}


/// `a` is the address of some A record among the packet's answers.
pub open spec fn is_answer_addr(p: PacketView, a: Ipv4Addr) -> bool {
    exists|k: int| 0 <= k < p.answers.len() && ((#[trigger] p.answers[k]) matches RecordView::A {
        addr,
        ..
    } && addr == a)
}

/// The retry field of the first SOA record among `recs`, if any.
pub open spec fn first_soa_retry(recs: Seq<RecordView>) -> Option<u32>
    decreases recs.len(),
{
    if recs.len() == 0 {
        None
    } else if recs[0] is SOA {
        Some(recs[0]->SOA_retry)
    } else {
        first_soa_retry(recs.drop_first())
    }
}

/// `r` is an A record answering for `host`.
pub open spec fn is_a_for(r: RecordView, host: Seq<char>) -> bool {
    r matches RecordView::A { domain, .. } && domain == host
}

/// Whether an A record in `all` answers for the CNAME target of `rec`.
pub open spec fn cname_matched(all: Seq<RecordView>, rec: RecordView) -> bool {
    rec matches RecordView::CNAME { host, .. } && exists|k: int|
        0 <= k < all.len() && is_a_for(#[trigger] all[k], host)
}

/// The records of `s` that still need resolving: all but CNAME records whose
/// target has an A record beside it in `all`.
pub open spec fn keep_unmatched(all: Seq<RecordView>, s: Seq<RecordView>) -> Seq<RecordView>
    decreases s.len(),
{
    if s.len() == 0 {
        Seq::empty()
    } else {
        let rest = keep_unmatched(all, s.drop_last());
        if cname_matched(all, s.last()) {
            rest
        } else {
            rest.push(s.last())
        }
    }
}

/// Authority `i` is an NS record for a suffix of `qname` and resource `j` is
/// a glue A record for its named host.
pub open spec fn ns_glue_pair(p: PacketView, qname: Seq<char>, i: int, j: int) -> bool {
    0 <= i < p.authorities.len() && 0 <= j < p.resources.len() && (p.authorities[i] matches
        RecordView::NS { domain, host, .. } && crate::text::is_char_suffix(qname, domain) && (
    p.resources[j] matches RecordView::A { domain: adomain, .. } && adomain == host))
}

/// Some NS record for a suffix of `qname` has a glue A record.
pub open spec fn has_glued_ns(p: PacketView, qname: Seq<char>) -> bool {
    exists|i: int, j: int| #[trigger] ns_glue_pair(p, qname, i, j)
}

/// `sv` is the address text of a glue A record for an NS of a suffix of
/// `qname`.
pub open spec fn is_glue_addr(p: PacketView, qname: Seq<char>, sv: Seq<char>) -> bool {
    exists|i: int, j: int| #[trigger] ns_glue_pair(p, qname, i, j) && (p.resources[j] matches
        RecordView::A { addr, .. } && sv == ipv4_chars(addr))
}

/// `c` is an A record whose address text names a glue address for `qname`.
pub open spec fn glue_cand(p: PacketView, qname: Seq<char>, c: RecordView) -> bool {
    c matches RecordView::A { addr, .. } && is_glue_addr(p, qname, ipv4_chars(addr))
}

/// Record `i` of `rs` is an NS record for a suffix of `qname`.
pub open spec fn ns_for_suffix_in(rs: Seq<RecordView>, qname: Seq<char>, i: int) -> bool {
    0 <= i < rs.len() && (rs[i] matches RecordView::NS { domain, .. }
        && crate::text::is_char_suffix(qname, domain))
}

/// Some record of `rs` is an NS record for a suffix of `qname`.
pub open spec fn has_ns_in(rs: Seq<RecordView>, qname: Seq<char>) -> bool {
    exists|i: int| #[trigger] ns_for_suffix_in(rs, qname, i)
}

/// `h` is the host named by an NS record of `rs` for a suffix of `qname`.
pub open spec fn is_ns_host_in(rs: Seq<RecordView>, qname: Seq<char>, h: Seq<char>) -> bool {
    exists|i: int| #[trigger] ns_for_suffix_in(rs, qname, i) && (rs[i] matches RecordView::NS {
        host,
        ..
    } && h == host)
}

/// Appends the hosts of the NS records of `records` that speak for a suffix
/// of `qname`.
fn collect_ns_hosts(records: &Vec<DnsRecord>, qname: &str, hosts: &mut Vec<String>)
    ensures
        final(hosts)@.len() >= old(hosts)@.len(),
        forall|c: int| 0 <= c < old(hosts)@.len() ==> final(hosts)@[c] == old(hosts)@[c],
        (final(hosts)@.len() == old(hosts)@.len()) <==> !has_ns_in(views_of(records@), qname@),
        forall|c: int| old(hosts)@.len() <= c < final(hosts)@.len() ==> is_ns_host_in(
            views_of(records@),
            qname@,
            (#[trigger] final(hosts)@[c])@,
        ),
{
    let mut i: usize = 0;
    while i < records.len()
        invariant
            i <= records@.len(),
            hosts@.len() >= old(hosts)@.len(),
            forall|c: int| 0 <= c < old(hosts)@.len() ==> hosts@[c] == old(hosts)@[c],
            hosts@.len() == old(hosts)@.len() ==> forall|ii: int| 0 <= ii < i ==> !ns_for_suffix_in(
                views_of(records@),
                qname@,
                ii,
            ),
            forall|c: int| old(hosts)@.len() <= c < hosts@.len() ==> is_ns_host_in(
                views_of(records@),
                qname@,
                (#[trigger] hosts@[c])@,
            ),
        decreases records@.len() - i,
    {
        if let DnsRecord::NS { domain, host, .. } = &records[i] {
            if crate::text::str_ends_with(qname, domain.as_str()) {
                proof {
                    assert(ns_for_suffix_in(views_of(records@), qname@, i as int));
                    assert(is_ns_host_in(views_of(records@), qname@, host@));
                }
                hosts.push(host.clone());
            }
        }
        i = i + 1;
    }
    proof {
        if hosts@.len() > old(hosts)@.len() {
            assert(is_ns_host_in(
                views_of(records@),
                qname@,
                hosts@[old(hosts)@.len() as int]@,
            ));
        }
    }
}

/// `r` is an NS record for a proper suffix of `qname`.
pub open spec fn is_proper_ns(r: RecordView, qname: Seq<char>) -> bool {
    r matches RecordView::NS { domain, .. } && crate::text::is_char_suffix(qname, domain)
        && domain.len() < qname.len()
}

/// The domains of the NS records for proper suffixes of `qname`, in order.
pub open spec fn matching_ns_domains(auth: Seq<RecordView>, qname: Seq<char>) -> Seq<Seq<char>>
    decreases auth.len(),
{
    if auth.len() == 0 {
        Seq::empty()
    } else {
        let rest = matching_ns_domains(auth.drop_last(), qname);
        if is_proper_ns(auth.last(), qname) {
            rest.push(auth.last()->NS_domain)
        } else {
            rest
        }
    }
}

/// The longest common suffix of two character sequences.
pub open spec fn lcs(a: Seq<char>, b: Seq<char>) -> Seq<char>
    decreases a.len(),
{
    if a.len() == 0 || b.len() == 0 || a.last() != b.last() {
        Seq::empty()
    } else {
        lcs(a.drop_last(), b.drop_last()).push(a.last())
    }
}

/// The common suffix of a list of domains; empty when the list is empty.
pub open spec fn zone_of(doms: Seq<Seq<char>>) -> Seq<char>
    decreases doms.len(),
{
    if doms.len() == 0 {
        Seq::empty()
    } else if doms.len() == 1 {
        doms[0]
    } else {
        lcs(zone_of(doms.drop_last()), doms.last())
    }
}

/// The NS zone of a response to `qname`: the common suffix of the NS domains
/// in its authority section that are proper suffixes of `qname`.
pub open spec fn spec_ns_zone(p: PacketView, qname: Seq<char>) -> Seq<char> {
    zone_of(matching_ns_domains(p.authorities, qname))
}

/// The longest common suffix of two strings.
fn common_suffix(a: &str, b: &str) -> (r: String)
    ensures
        r@ == lcs(a@, b@),
{
    let la = a.unicode_len();
    let lb = b.unicode_len();
    let mut k: usize = 0;
    proof {
        assert(a@.take(la as int) =~= a@);
        assert(b@.take(lb as int) =~= b@);
        assert(a@.skip(la as int) =~= Seq::<char>::empty());
        assert(lcs(a@, b@) + Seq::<char>::empty() =~= lcs(a@, b@));
    }
    while k < la && k < lb && a.get_char(la - 1 - k) == b.get_char(lb - 1 - k)
        invariant
            la == a@.len(),
            lb == b@.len(),
            k <= la,
            k <= lb,
            lcs(a@, b@) == lcs(a@.take(la - k), b@.take(lb - k)) + a@.skip(la - k),
        decreases la - k,
    {
        proof {
            let ap = a@.take(la - k);
            let bp = b@.take(lb - k);
            assert(ap.last() == a@[la - 1 - k]);
            assert(bp.last() == b@[lb - 1 - k]);
            assert(ap.drop_last() =~= a@.take(la - k - 1));
            assert(bp.drop_last() =~= b@.take(lb - k - 1));
            assert(lcs(a@.take(la - k - 1), b@.take(lb - k - 1)).push(ap.last()) + a@.skip(la - k)
                =~= lcs(a@.take(la - k - 1), b@.take(lb - k - 1)) + a@.skip(la - k - 1));
        }
        k = k + 1;
    }
    proof {
        if k < la && k < lb {
            assert(a@.take(la - k).last() == a@[la - 1 - k]);
            assert(b@.take(lb - k).last() == b@[lb - 1 - k]);
        }
        assert(lcs(a@.take(la - k), b@.take(lb - k)) =~= Seq::<char>::empty());
        assert(lcs(a@, b@) =~= a@.skip(la - k));
    }
    let tail = vstd::string::StrSliceExecFns::substring_char(a, la - k, la);
    let r = tail.to_owned();
    proof {
        assert(r@ =~= a@.skip(la - k));
    }
    r
}

/// Whether some A record in `records` answers for `host`.
fn has_a_for(records: &Vec<DnsRecord>, host: &String) -> (r: bool)
    ensures
        r == exists|k: int| 0 <= k < views_of(records@).len() && is_a_for(
            #[trigger] views_of(records@)[k],
            host@,
        ),
{
    let mut k: usize = 0;
    while k < records.len()
        invariant
            k <= records@.len(),
            forall|kk: int| 0 <= kk < k ==> !is_a_for(#[trigger] views_of(records@)[kk], host@),
        decreases records@.len() - k,
    {
        if let DnsRecord::A { domain, .. } = &records[k] {
            if crate::text::str_eq(domain.as_str(), host.as_str()) {
                proof {
                    assert(is_a_for(views_of(records@)[k as int], host@));
                }
                return true;
            }
        }
        k = k + 1;
    }
    false
}

impl DnsPacket {
    /// The retry field of the first SOA record in the authority section,
    /// which negative caching uses as a TTL.
    pub fn get_ttl_from_soa(&self) -> (r: Option<u32>)
        ensures
            r == first_soa_retry(self@.authorities),
    {
        let mut i: usize = 0;
        proof {
            assert(views_of(self.authorities@).skip(0) =~= views_of(self.authorities@));
        }
        while i < self.authorities.len()
            invariant
                i <= self.authorities@.len(),
                first_soa_retry(views_of(self.authorities@).skip(i as int)) == first_soa_retry(
                    views_of(self.authorities@),
                ),
            decreases self.authorities@.len() - i,
        {
            if let DnsRecord::SOA { retry, .. } = &self.authorities[i] {
                return Some(*retry);
            }
            i = i + 1;
            proof {
                assert(views_of(self.authorities@).skip(i - 1).drop_first() =~= views_of(
                    self.authorities@,
                ).skip(i as int));
            }
        }
        None
    }

    /// The address text of an A record drawn uniformly from the answers'
    /// A records. Something is returned exactly when an A record is present.
    pub fn get_random_a(&self) -> (r: Option<String>)
        ensures
            r is Some <==> exists|i: int| 0 <= i < self@.answers.len() && (
            #[trigger] self@.answers[i]) is A,
            r matches Some(s) ==> exists|i: int| 0 <= i < self@.answers.len() && ((
            #[trigger] self@.answers[i]) matches RecordView::A { addr, .. } && s@ == ipv4_chars(
                addr,
            )),
    {
        let mut candidates: Vec<Ipv4Addr> = Vec::new();
        let mut i: usize = 0;
        while i < self.answers.len()
            invariant
                i <= self.answers@.len(),
                candidates@.len() == 0 ==> forall|k: int| 0 <= k < i ==> !(
                #[trigger] self@.answers[k] is A),
                forall|c: int| 0 <= c < candidates@.len() ==> is_answer_addr(
                    self@,
                    #[trigger] candidates@[c],
                ),
            decreases self.answers@.len() - i,
        {
            if let DnsRecord::A { addr, .. } = &self.answers[i] {
                proof {
                    assert(self@.answers[i as int] matches RecordView::A { addr: a2, .. } && a2
                        == *addr);
                    assert(is_answer_addr(self@, *addr));
                }
                candidates.push(*addr);
            } else {
                proof {
                    assert(!(self@.answers[i as int] is A));
                }
            }
            i = i + 1;
        }
        if candidates.len() > 0 {
            let idx = crate::utils::random_index(candidates.len());
            let addr = candidates[idx];
            proof {
                assert(is_answer_addr(self@, addr));
            }
            Some(addr.to_string())
        } else {
            None
        }
    }

    /// The answers that still call for a lookup: every answer except a CNAME
    /// whose target already has an A record among the answers.
    pub fn get_unresolved_cnames(&self) -> (r: Vec<DnsRecord>)
        ensures
            views_of(r@) == keep_unmatched(self@.answers, self@.answers),
    {
        let mut unresolved: Vec<DnsRecord> = Vec::new();
        let mut i: usize = 0;
        proof {
            assert(views_of(unresolved@) =~= keep_unmatched(
                views_of(self.answers@),
                views_of(self.answers@).take(0),
            ));
        }
        while i < self.answers.len()
            invariant
                i <= self.answers@.len(),
                views_of(unresolved@) == keep_unmatched(
                    views_of(self.answers@),
                    views_of(self.answers@).take(i as int),
                ),
            decreases self.answers@.len() - i,
        {
            let matched = if let DnsRecord::CNAME { host, .. } = &self.answers[i] {
                has_a_for(&self.answers, host)
            } else {
                false
            };
            proof {
                assert(matched == cname_matched(
                    views_of(self.answers@),
                    views_of(self.answers@)[i as int],
                ));
            }
            if !matched {
                unresolved.push((&self.answers[i]).clone());
            }
            i = i + 1;
            proof {
                let all = views_of(self.answers@);
                assert(all.take(i as int).drop_last() =~= all.take(i - 1));
                assert(all.take(i as int).last() == all[i - 1]);
                if !cname_matched(all, all[i - 1]) {
                    assert(views_of(unresolved@) =~= keep_unmatched(all, all.take(i - 1)).push(
                        all[i - 1],
                    ));
                }
            }
        }
        proof {
            assert(views_of(self.answers@).take(self.answers@.len() as int) =~= views_of(
                self.answers@,
            ));
        }
        unresolved
    }

    /// The address text of a random glue A record matching an NS for a
    /// suffix of `qname`. Something is returned exactly when such a pair
    /// exists.
    pub fn get_resolved_ns(&self, qname: &str) -> (r: Option<String>)
        ensures
            r is Some <==> has_glued_ns(self@, qname@),
            r matches Some(s) ==> is_glue_addr(self@, qname@, s@),
    {
        let mut new_authorities: Vec<DnsRecord> = Vec::new();
        let mut i: usize = 0;
        while i < self.authorities.len()
            invariant
                i <= self.authorities@.len(),
                new_authorities@.len() == 0 ==> forall|ii: int, jj: int| 0 <= ii < i
                    ==> !ns_glue_pair(self@, qname@, ii, jj),
                forall|c: int| 0 <= c < new_authorities@.len() ==> glue_cand(
                    self@,
                    qname@,
                    (#[trigger] new_authorities@[c])@,
                ),
            decreases self.authorities@.len() - i,
        {
            if let DnsRecord::NS { domain, host, .. } = &self.authorities[i] {
                if crate::text::str_ends_with(qname, domain.as_str()) {
                    let mut j: usize = 0;
                    while j < self.resources.len()
                        invariant
                            i < self.authorities@.len(),
                            j <= self.resources@.len(),
                            self.authorities@[i as int]@ matches RecordView::NS {
                                domain: nd,
                                host: nh,
                                ..
                            } && nd == domain@ && nh == host@,
                            crate::text::is_char_suffix(qname@, domain@),
                            new_authorities@.len() == 0 ==> forall|ii: int, jj: int| 0 <= ii < i
                                ==> !ns_glue_pair(self@, qname@, ii, jj),
                            new_authorities@.len() == 0 ==> forall|jj: int| 0 <= jj < j
                                ==> !ns_glue_pair(self@, qname@, i as int, jj),
                            forall|c: int| 0 <= c < new_authorities@.len() ==> glue_cand(
                                self@,
                                qname@,
                                (#[trigger] new_authorities@[c])@,
                            ),
                        decreases self.resources@.len() - j,
                    {
                        if let DnsRecord::A { domain: adomain, addr, ttl } = &self.resources[j] {
                            if crate::text::str_eq(adomain.as_str(), host.as_str()) {
                                proof {
                                    assert(ns_glue_pair(self@, qname@, i as int, j as int));
                                }
                                let rec = DnsRecord::A {
                                    domain: host.clone(),
                                    addr: *addr,
                                    ttl: *ttl,
                                };
                                proof {
                                    assert(is_glue_addr(self@, qname@, ipv4_chars(*addr)));
                                    assert(glue_cand(self@, qname@, rec@));
                                }
                                new_authorities.push(rec);
                            }
                        }
                        j = j + 1;
                    }
                }
            }
            i = i + 1;
        }
        if new_authorities.len() > 0 {
            let idx = crate::utils::random_index(new_authorities.len());
            if let DnsRecord::A { addr, .. } = &new_authorities[idx] {
                proof {
                    assert(glue_cand(self@, qname@, new_authorities@[idx as int]@));
                    assert(new_authorities@[idx as int]@ matches RecordView::A { addr: av, .. }
                        && av == *addr);
                }
                Some(addr.to_string())
            } else {
                proof {
                    assert(glue_cand(self@, qname@, new_authorities@[idx as int]@));
                    assert(false);
                }
                None
            }
        } else {
            None
        }
    }

    /// The host of a random NS record for a suffix of `qname`, drawn from
    /// the authority section or, for a cache-synthesized response, from the
    /// answers. Something is returned exactly when such a record exists.
    pub fn get_unresolved_ns(&self, qname: &str) -> (r: Option<String>)
        ensures
            r is Some <==> has_ns_in(self@.authorities, qname@) || has_ns_in(
                self@.answers,
                qname@,
            ),
            r matches Some(h) ==> is_ns_host_in(self@.authorities, qname@, h@) || is_ns_host_in(
                self@.answers,
                qname@,
                h@,
            ),
    {
        let mut hosts: Vec<String> = Vec::new();
        collect_ns_hosts(&self.authorities, qname, &mut hosts);
        let ghost after_auth = hosts@.len() as int;
        collect_ns_hosts(&self.answers, qname, &mut hosts);
        if hosts.len() > 0 {
            let idx = crate::utils::random_index(hosts.len());
            proof {
                if idx < after_auth {
                    assert(is_ns_host_in(self@.authorities, qname@, hosts@[idx as int]@));
                } else {
                    assert(is_ns_host_in(self@.answers, qname@, hosts@[idx as int]@));
                }
            }
            Some((&hosts[idx]).clone())
        } else {
            None
        }
    }

    /// The host of a random NS record for a suffix of `qname`, drawn from
    /// the authority section alone: the shape a network referral carries.
    /// Something is returned exactly when such a record exists.
    pub fn get_referral_ns(&self, qname: &str) -> (r: Option<String>)
        ensures
            r is Some <==> has_ns_in(self@.authorities, qname@),
            r matches Some(h) ==> is_ns_host_in(self@.authorities, qname@, h@),
    {
        let mut hosts: Vec<String> = Vec::new();
        collect_ns_hosts(&self.authorities, qname, &mut hosts);
        if hosts.len() > 0 {
            let idx = crate::utils::random_index(hosts.len());
            proof {
                assert(is_ns_host_in(self@.authorities, qname@, hosts@[idx as int]@));
            }
            Some((&hosts[idx]).clone())
        } else {
            None
        }
    }

    /// The NS zone of this response to `qname`: the common suffix of the NS
    /// domains in the authority section that are proper suffixes of `qname`.
    /// Empty when no such NS record is present.
    pub fn get_ns_zone(&self, qname: &str) -> (r: String)
        ensures
            r@ == spec_ns_zone(self@, qname@),
    {
        let mut doms: Vec<String> = Vec::new();
        let mut i: usize = 0;
        proof {
            assert(views_of(doms@) =~= matching_ns_domains(
                views_of(self.authorities@).take(0),
                qname@,
            ));
        }
        while i < self.authorities.len()
            invariant
                i <= self.authorities@.len(),
                views_of(doms@) == matching_ns_domains(
                    views_of(self.authorities@).take(i as int),
                    qname@,
                ),
            decreases self.authorities@.len() - i,
        {
            let is_match = if let DnsRecord::NS { domain, .. } = &self.authorities[i] {
                crate::text::str_ends_with(qname, domain.as_str()) && domain.unicode_len()
                    < qname.unicode_len()
            } else {
                false
            };
            if is_match {
                if let DnsRecord::NS { domain, .. } = &self.authorities[i] {
                    doms.push(domain.clone());
                }
            }
            i = i + 1;
            proof {
                let auth = views_of(self.authorities@);
                assert(auth.take(i as int).drop_last() =~= auth.take(i - 1));
                assert(auth.take(i as int).last() == auth[i - 1]);
                if is_proper_ns(auth[i - 1], qname@) {
                    assert(views_of(doms@) =~= matching_ns_domains(auth.take(i - 1), qname@).push(
                        auth[i - 1]->NS_domain,
                    ));
                }
            }
        }
        proof {
            assert(views_of(self.authorities@).take(self.authorities@.len() as int) =~= views_of(
                self.authorities@,
            ));
        }
        if doms.len() == 0 {
            let r = String::new();
            return r;
        }
        let mut zone: String = (&doms[0]).clone();
        let mut i: usize = 1;
        proof {
            assert(views_of(doms@).take(1) =~= seq![doms@[0]@]);
        }
        while i < doms.len()
            invariant
                1 <= i <= doms@.len(),
                zone@ == zone_of(views_of(doms@).take(i as int)),
            decreases doms@.len() - i,
        {
            zone = common_suffix(zone.as_str(), (&doms[i]).as_str());
            i = i + 1;
            proof {
                let dv = views_of(doms@);
                assert(dv.take(i as int).drop_last() =~= dv.take(i - 1));
                assert(dv.take(i as int).last() == dv[i - 1]);
            }
        }
        proof {
            assert(views_of(doms@).take(doms@.len() as int) =~= views_of(doms@));
        }
        zone
    }
}


/// The records of a section that reach the wire: OPT and UNKNOWN are
/// suppressed, everything else stays in order.
pub open spec fn keep_writable(s: Seq<RecordView>) -> Seq<RecordView>
    decreases s.len(),
{
    if s.len() == 0 {
        Seq::empty()
    } else {
        let rest = keep_writable(s.drop_last());
        if s.last() is OPT || s.last() is UNKNOWN {
            rest
        } else {
            rest.push(s.last())
        }
    }
}

/// No section sends more records than it holds.
pub proof fn lemma_keep_writable_le(s: Seq<RecordView>)
    ensures
        keep_writable(s).len() <= s.len(),
    decreases s.len(),
{
    if s.len() > 0 {
        lemma_keep_writable_le(s.drop_last());
    }
}

/// The questions' wire bytes, one after another.
pub open spec fn questions_bytes(qs: Seq<QuestionView>) -> Seq<u8>
    decreases qs.len(),
{
    if qs.len() == 0 {
        Seq::empty()
    } else {
        questions_bytes(qs.drop_last()) + spec_question_bytes(qs.last())
    }
}

/// The records' wire bytes, one after another.
pub open spec fn records_bytes(rs: Seq<RecordView>) -> Seq<u8>
    decreases rs.len(),
{
    if rs.len() == 0 {
        Seq::empty()
    } else {
        records_bytes(rs.drop_last()) + spec_record_bytes(rs.last())
    }
}

/// How many records fit greedily: counting stops right before the first
/// record whose bytes would push the running size past `max`.
pub open spec fn fit_count(rs: Seq<RecordView>, size: int, max: int) -> int
    decreases rs.len(),
{
    if rs.len() == 0 {
        0
    } else if size + spec_record_bytes(rs[0]).len() > max {
        0
    } else {
        1 + fit_count(rs.drop_first(), size + spec_record_bytes(rs[0]).len(), max)
    }
}

/// Everything a packet would put on the wire, in section order.
pub open spec fn kept_records(p: PacketView) -> Seq<RecordView> {
    keep_writable(p.answers) + keep_writable(p.authorities) + keep_writable(p.resources)
}

pub open spec fn spec_min(a: int, b: int) -> int {
    if a < b {
        a
    } else {
        b
    }
}

/// The header `DnsPacket::write` lays down under the size limit `max`: the
/// section counts equal the records actually written, and TC marks that some
/// record was left out.
pub open spec fn out_header(p: PacketView, max: int) -> DnsHeader {
    let kept = kept_records(p);
    let k = fit_count(kept, 12 + questions_bytes(p.questions).len() as int, max);
    let ka = spec_min(k, keep_writable(p.answers).len() as int);
    let kb = spec_min(k - ka, keep_writable(p.authorities).len() as int);
    let kc = k - ka - kb;
    DnsHeader {
        id: p.header.id,
        recursion_desired: p.header.recursion_desired,
        truncated_message: p.header.truncated_message || k < kept.len(),
        authoritative_answer: p.header.authoritative_answer,
        opcode: p.header.opcode,
        response: p.header.response,
        rescode: p.header.rescode,
        checking_disabled: p.header.checking_disabled,
        authed_data: p.header.authed_data,
        z: p.header.z,
        recursion_available: p.header.recursion_available,
        questions: p.questions.len() as u16,
        answers: ka as u16,
        authoritative_entries: kb as u16,
        resource_entries: kc as u16,
    }
}

/// The bytes `DnsPacket::write` lays down under the size limit `max`.
pub open spec fn spec_write_bytes(p: PacketView, max: int) -> Seq<u8> {
    let kept = kept_records(p);
    let k = fit_count(kept, 12 + questions_bytes(p.questions).len() as int, max);
    spec_header_bytes(out_header(p, max)) + questions_bytes(p.questions) + records_bytes(
        kept.take(k),
    )
}

pub open spec fn all_questions_writable(qs: Seq<QuestionView>) -> bool {
    forall|i: int| 0 <= i < qs.len() ==> question_writable(#[trigger] qs[i])
}

pub open spec fn section_writable(rs: Seq<RecordView>) -> bool {
    forall|i: int| 0 <= i < rs.len() ==> record_writable(#[trigger] rs[i])
}

/// Every name and datum of the packet fits the wire format.
pub open spec fn packet_writable(p: PacketView) -> bool {
    all_questions_writable(p.questions) && section_writable(p.answers) && section_writable(
        p.authorities,
    ) && section_writable(p.resources)
}

/// A writable question takes at most 260 bytes.
pub proof fn lemma_question_bytes_len(q: QuestionView)
    requires
        question_writable(q),
    ensures
        spec_question_bytes(q).len() <= 260,
{
}

/// A writable record takes at most 65801 bytes.
pub proof fn lemma_record_bytes_len(r: RecordView)
    requires
        record_writable(r),
    ensures
        spec_record_bytes(r).len() <= 65801,
{
}

/// A question section takes at most 260 bytes per question.
pub proof fn lemma_questions_bytes_len(qs: Seq<QuestionView>)
    requires
        all_questions_writable(qs),
    ensures
        questions_bytes(qs).len() <= 260 * qs.len(),
    decreases qs.len(),
{
    if qs.len() > 0 {
        lemma_questions_bytes_len(qs.drop_last());
        lemma_question_bytes_len(qs.last());
    }
}

/// The greedy count never exceeds the number of records offered.
pub proof fn lemma_fit_count_le(rs: Seq<RecordView>, size: int, max: int)
    ensures
        0 <= fit_count(rs, size, max) <= rs.len(),
    decreases rs.len(),
{
    if rs.len() > 0 && !(size + spec_record_bytes(rs[0]).len() > max) {
        lemma_fit_count_le(rs.drop_first(), size + spec_record_bytes(rs[0]).len(), max);
    }
}

/// Encodes every question, one after another.
fn encode_questions(qs: &Vec<DnsQuestion>) -> (r: Result<Vec<u8>, DnsError>)
    ensures
        r is Ok <==> all_questions_writable(views_of(qs@)),
        r matches Ok(v) ==> v@ == questions_bytes(views_of(qs@)),
{
    let mut out: Vec<u8> = Vec::new();
    let mut i: usize = 0;
    proof {
        assert(questions_bytes(views_of(qs@).take(0)) =~= Seq::<u8>::empty());
        assert(out@ =~= Seq::<u8>::empty());
    }
    while i < qs.len()
        invariant
            i <= qs@.len(),
            out@ == questions_bytes(views_of(qs@).take(i as int)),
            forall|jj: int| 0 <= jj < i ==> question_writable((#[trigger] views_of(qs@)[jj])),
        decreases qs@.len() - i,
    {
        let enc = (&qs[i]).to_bytes();
        match enc {
            Ok(mut b) => {
                out.append(&mut b);
            },
            Err(e) => {
                proof {
                    assert(!question_writable(views_of(qs@)[i as int]));
                }
                return Err(e);
            },
        }
        i = i + 1;
        proof {
            let v = views_of(qs@);
            assert(v.take(i as int).drop_last() =~= v.take(i - 1));
            assert(v.take(i as int).last() == v[i - 1]);
        }
    }
    proof {
        assert(views_of(qs@).take(qs@.len() as int) =~= views_of(qs@));
    }
    Ok(out)
}

/// Encodes the wire-bound records of one section, appending their bytes to
/// `out`; OPT and UNKNOWN records are skipped.
fn collect_writable(recs: &Vec<DnsRecord>, out: &mut Vec<Vec<u8>>) -> (r: Result<(), DnsError>)
    ensures
        r is Ok <==> section_writable(views_of(recs@)),
        r is Ok ==> final(out)@.len() == old(out)@.len() + keep_writable(views_of(recs@)).len() && (
        forall|c: int| 0 <= c < old(out)@.len() ==> final(out)@[c] == old(out)@[c]) && (forall|
            j: int,
        |
            0 <= j < keep_writable(views_of(recs@)).len() ==> ((#[trigger] final(out)@[old(
                out,
            )@.len() + j])@ == spec_record_bytes(keep_writable(views_of(recs@))[j])
                && record_writable(keep_writable(views_of(recs@))[j]))),
{
    let mut i: usize = 0;
    proof {
        assert(keep_writable(views_of(recs@).take(0)) =~= Seq::<RecordView>::empty());
    }
    while i < recs.len()
        invariant
            i <= recs@.len(),
            out@.len() == old(out)@.len() + keep_writable(views_of(recs@).take(i as int)).len(),
            forall|c: int| 0 <= c < old(out)@.len() ==> out@[c] == old(out)@[c],
            forall|j: int| 0 <= j < keep_writable(views_of(recs@).take(i as int)).len() ==> ((
            #[trigger] out@[old(out)@.len() + j])@ == spec_record_bytes(
                keep_writable(views_of(recs@).take(i as int))[j],
            ) && record_writable(keep_writable(views_of(recs@).take(i as int))[j])),
            forall|jj: int| 0 <= jj < i ==> record_writable((#[trigger] views_of(recs@)[jj])),
        decreases recs@.len() - i,
    {
        let ghost out0 = out@;
        let ghost all = views_of(recs@);
        let ghost prev = keep_writable(all.take(i as int));
        let skip_it = match &recs[i] {
            DnsRecord::OPT { .. } => true,
            DnsRecord::UNKNOWN { .. } => true,
            _ => false,
        };
        proof {
            assert(skip_it == (all[i as int] is OPT || all[i as int] is UNKNOWN));
        }
        if !skip_it {
            let enc = (&recs[i]).to_bytes();
            match enc {
                Ok(b) => {
                    proof {
                        assert(b@ == spec_record_bytes(all[i as int]));
                    }
                    out.push(b);
                },
                Err(e) => {
                    proof {
                        assert(!record_writable(all[i as int]));
                    }
                    return Err(e);
                },
            }
        }
        i = i + 1;
        proof {
            assert(all.take(i as int).drop_last() =~= all.take(i - 1));
            assert(all.take(i as int).last() == all[i - 1]);
            let cur = keep_writable(all.take(i as int));
            if skip_it {
                assert(cur == prev);
                assert(out@ == out0);
            } else {
                assert(cur == prev.push(all[i - 1]));
                assert(out@.len() == out0.len() + 1);
                assert forall|j: int| 0 <= j < cur.len() implies ((#[trigger] out@[old(
                    out,
                )@.len() + j])@ == spec_record_bytes(cur[j]) && record_writable(cur[j])) by {
                    if j < prev.len() {
                        assert(out@[old(out)@.len() + j] == out0[old(out)@.len() + j]);
                        assert(cur[j] == prev[j]);
                    } else {
                        assert(j == prev.len());
                        assert(cur[j] == all[i - 1]);
                        assert(out@[old(out)@.len() + j] == out@.last());
                    }
                }
            }
        }
    }
    proof {
        assert(views_of(recs@).take(recs@.len() as int) =~= views_of(recs@));
    }
    Ok(())
}

/// How many of the encoded records fit after `base` bytes without passing
/// `max_size`, counting greedily in order.
fn count_fitting(
    recs: &Vec<Vec<u8>>,
    base: u64,
    max_size: usize,
    Ghost(kept): Ghost<Seq<RecordView>>,
) -> (k: usize)
    requires
        recs@.len() == kept.len(),
        kept.len() <= 196605,
        base <= 12 + 260 * 65535,
        forall|j: int| 0 <= j < kept.len() ==> ((#[trigger] recs@[j])@ == spec_record_bytes(
            kept[j],
        ) && record_writable(kept[j])),
    ensures
        k == fit_count(kept, base as int, max_size as int),
        k <= kept.len(),
{
    let mut size: u64 = base;
    let mut k: usize = 0;
    let mut done = false;
    proof {
        assert(kept.skip(0) =~= kept);
        assert(records_bytes(kept.take(0)) =~= Seq::<u8>::empty());
    }
    while !done && k < recs.len()
        invariant
            recs@.len() == kept.len(),
            kept.len() <= 196605,
            base <= 12 + 260 * 65535,
            forall|j: int| 0 <= j < kept.len() ==> ((#[trigger] recs@[j])@ == spec_record_bytes(
                kept[j],
            ) && record_writable(kept[j])),
            k <= kept.len(),
            size <= base + 65801 * k,
            !done ==> fit_count(kept, base as int, max_size as int) == k + fit_count(
                kept.skip(k as int),
                size as int,
                max_size as int,
            ),
            done ==> fit_count(kept, base as int, max_size as int) == k,
        decreases kept.len() - k + (if done {
            0int
        } else {
            1int
        }),
    {
        let l = recs[k].len();
        proof {
            lemma_record_bytes_len(kept[k as int]);
            assert(kept.skip(k as int)[0] == kept[k as int]);
        }
        if size + l as u64 > max_size as u64 {
            done = true;
            proof {
                assert(fit_count(kept.skip(k as int), size as int, max_size as int) == 0);
            }
        } else {
            size = size + l as u64;
            k = k + 1;
            proof {
                assert(kept.skip(k - 1).drop_first() =~= kept.skip(k as int));
            }
        }
    }
    proof {
        if !done {
            assert(kept.skip(k as int) =~= Seq::<RecordView>::empty());
        }
        lemma_fit_count_le(kept, base as int, max_size as int);
    }
    k
}

impl DnsPacket {
    /// Lays the whole message down at the end of the buffer, keeping its
    /// size within `max_size` bytes. Records go out in section order until
    /// the next one would not fit; then the TC bit is set. The header's
    /// section counts equal what was actually written; no partial record
    /// ever appears.
    #[verifier::rlimit(100)]
    #[verifier::spinoff_prover]
    pub fn write<T: PacketBuffer>(&mut self, buf: &mut T, max_size: usize) -> (r: Result<
        (),
        DnsError,
    >)
        requires
            old(buf).wf(),
            old(buf).cursor() == old(buf).data().len(),
            header_wf(old(self).header),
            old(self).questions@.len() <= 65535,
            old(self).answers@.len() <= 65535,
            old(self).authorities@.len() <= 65535,
            old(self).resources@.len() <= 65535,
            max_size <= 65535,
        ensures
            final(buf).wf(),
            final(self).questions@ == old(self).questions@,
            final(self).answers@ == old(self).answers@,
            final(self).authorities@ == old(self).authorities@,
            final(self).resources@ == old(self).resources@,
            T::always_writable() ==> (r is Ok <==> packet_writable(old(self)@)),
            r is Ok ==> final(self).header == out_header(old(self)@, max_size as int)
                && final(buf).data() == old(buf).data() + spec_write_bytes(
                old(self)@,
                max_size as int,
            ) && final(buf).cursor() == final(buf).data().len(),
    {
        let ghost pv = old(self)@;

        let qenc = encode_questions(&self.questions)?;

        let mut recs: Vec<Vec<u8>> = Vec::new();
        collect_writable(&self.answers, &mut recs)?;
        let ghost r1 = recs@;
        let na = recs.len();
        collect_writable(&self.authorities, &mut recs)?;
        let ghost r2 = recs@;
        let nb = recs.len() - na;
        collect_writable(&self.resources, &mut recs)?;
        let ghost r3 = recs@;
        let nc = recs.len() - na - nb;
        let ghost kept = kept_records(pv);
        proof {
            lemma_keep_writable_le(pv.answers);
            lemma_keep_writable_le(pv.authorities);
            lemma_keep_writable_le(pv.resources);
            assert(na == keep_writable(pv.answers).len());
            assert(nb == keep_writable(pv.authorities).len());
            assert(nc == keep_writable(pv.resources).len());
            assert(recs@.len() == kept.len());
            assert forall|j: int| 0 <= j < kept.len() implies ((#[trigger] recs@[j])@
                == spec_record_bytes(kept[j]) && record_writable(kept[j])) by {
                if j < na {
                    assert(kept[j] == keep_writable(pv.answers)[j]);
                    assert(r3[j] == r2[j]);
                    assert(r2[j] == r1[j]);
                    assert(r1[0 + j]@ == spec_record_bytes(keep_writable(pv.answers)[j]));
                } else if j < na + nb {
                    assert(kept[j] == keep_writable(pv.authorities)[j - na]);
                    assert(r3[j] == r2[j]);
                    assert(r2[na + (j - na)]@ == spec_record_bytes(
                        keep_writable(pv.authorities)[j - na],
                    ));
                } else {
                    assert(kept[j] == keep_writable(pv.resources)[j - na - nb]);
                    assert(r3[(na + nb) + (j - na - nb)]@ == spec_record_bytes(
                        keep_writable(pv.resources)[j - na - nb],
                    ));
                }
            }
            lemma_questions_bytes_len(pv.questions);
        }

        let k = count_fitting(&recs, 12 + qenc.len() as u64, max_size, Ghost(kept));

        let ka = if k < na {
            k
        } else {
            na
        };
        let kb = if k - ka < nb {
            k - ka
        } else {
            nb
        };
        let kc = k - ka - kb;
        self.header.questions = self.questions.len() as u16;
        self.header.answers = ka as u16;
        self.header.authoritative_entries = kb as u16;
        self.header.resource_entries = kc as u16;
        if k < recs.len() {
            self.header.truncated_message = true;
        }
        proof {
            assert(self.header == out_header(pv, max_size as int));
        }

        let hdr = self.header;
        hdr.write(buf)?;
        crate::buffer::append_bytes(buf, &qenc)?;
        let ghost head = old(buf).data() + spec_header_bytes(out_header(pv, max_size as int))
            + questions_bytes(pv.questions);
        let mut w: usize = 0;
        proof {
            assert(records_bytes(kept.take(0)) =~= Seq::<u8>::empty());
            assert(buf.data() =~= head + records_bytes(kept.take(0)));
        }
        while w < k
            invariant
                buf.wf(),
                w <= k <= kept.len(),
                recs@.len() == kept.len(),
                self.questions@ == old(self).questions@,
                self.answers@ == old(self).answers@,
                self.authorities@ == old(self).authorities@,
                self.resources@ == old(self).resources@,
                forall|j: int| 0 <= j < kept.len() ==> (#[trigger] recs@[j])@ == spec_record_bytes(
                    kept[j],
                ),
                buf.data() == head + records_bytes(kept.take(w as int)),
                buf.cursor() == buf.data().len(),
            decreases k - w,
        {
            crate::buffer::append_bytes(buf, &recs[w])?;
            w = w + 1;
            proof {
                assert(kept.take(w as int).drop_last() =~= kept.take(w - 1));
                assert(kept.take(w as int).last() == kept[w - 1]);
            }
        }
        proof {
            assert(final(buf).data() =~= old(buf).data() + spec_write_bytes(pv, max_size as int));
        }
        Ok(())
    }
}


/// A string holding a canonical dotted name: byte-sized characters with no
/// leading, trailing or doubled dots.
pub open spec fn name_canonical_chars(s: Seq<char>) -> bool {
    chars_fit_bytes(s) && crate::buffer::name_canonical(crate::text::bytes_of_chars(s))
}

/// Decoding a question right after its wire form was laid down yields the
/// question back, for canonical names and types that shadow no number.
pub proof fn lemma_parse_question_roundtrip(prefix: Seq<u8>, q: QuestionView, rest: Seq<u8>)
    requires
        question_writable(q),
        name_canonical_chars(q.name),
        qtype_wf(q.qtype),
    ensures
        spec_parse_question(prefix + spec_question_bytes(q) + rest, prefix.len() as int) == Some(
            (q, prefix.len() as int + spec_question_bytes(q).len() as int),
        ),
{
    reveal(spec_parse_question);
    let nb = crate::text::bytes_of_chars(q.name);
    let qn = crate::buffer::spec_qname(nb);
    let t2 = crate::buffer::u16_bytes(qtype_num(q.qtype));
    let c2 = crate::buffer::u16_bytes(1);
    let data = prefix + spec_question_bytes(q) + rest;
    let p0 = prefix.len() as int;
    assert(data =~= prefix + qn + (t2 + (c2 + rest)));
    crate::buffer::lemma_parse_name_roundtrip(
        prefix,
        nb,
        t2 + (c2 + rest),
        crate::buffer::MAX_JUMPS as nat,
    );
    assert(spec_parse_name(data, p0, crate::buffer::MAX_JUMPS as nat) == Some(
        (nb, p0 + qn.len() as int),
    ));
    let p1 = p0 + qn.len() as int;
    assert(data =~= (prefix + qn) + t2 + (c2 + rest));
    crate::buffer::lemma_parse_u16_roundtrip(prefix + qn, qtype_num(q.qtype), c2 + rest);
    assert(crate::buffer::spec_parse_u16(data, p1) == Some((qtype_num(q.qtype), p1 + 2)));
    assert(data =~= (prefix + qn + t2) + c2 + rest);
    crate::buffer::lemma_parse_u16_roundtrip(prefix + qn + t2, 1, rest);
    assert(crate::buffer::spec_parse_u16(data, p1 + 2) == Some((1u16, p1 + 4)));
    crate::text::lemma_chars_bytes_roundtrip(q.name);
    lemma_qtype_roundtrip(q.qtype);
    assert(QuestionView {
        name: crate::text::chars_of_bytes(nb),
        qtype: qtype_of_num(qtype_num(q.qtype)),
    } == q);
    assert(p1 + 4 == p0 + spec_question_bytes(q).len() as int);
}

/// A record whose names are canonical and whose kind reaches the wire:
/// OPT and UNKNOWN records are suppressed on write, so they never come
/// back.
pub open spec fn record_canonical(r: RecordView) -> bool {
    match r {
        RecordView::A { domain, .. } => name_canonical_chars(domain),
        RecordView::AAAA { domain, .. } => name_canonical_chars(domain),
        RecordView::NS { domain, host, .. } => name_canonical_chars(domain)
            && name_canonical_chars(host),
        RecordView::CNAME { domain, host, .. } => name_canonical_chars(domain)
            && name_canonical_chars(host),
        RecordView::SRV { domain, host, .. } => name_canonical_chars(domain)
            && name_canonical_chars(host),
        RecordView::MX { domain, host, .. } => name_canonical_chars(domain)
            && name_canonical_chars(host),
        RecordView::SOA { domain, mname, rname, .. } => name_canonical_chars(domain)
            && name_canonical_chars(mname) && name_canonical_chars(rname),
        RecordView::TXT { domain, .. } => name_canonical_chars(domain),
        RecordView::OPT { .. } => false,
        RecordView::UNKNOWN { .. } => false,
    }
}

/// Positions and values of a record's fixed fields on the wire.
#[verifier::rlimit(100)]
#[verifier::spinoff_prover]
proof fn lemma_parse_record_fields(
    prefix: Seq<u8>,
    nb: Seq<u8>,
    tnum: u16,
    ttl: u32,
    rdlen: u16,
    rd: Seq<u8>,
    rest: Seq<u8>,
)
    requires
        crate::buffer::qname_encodable(nb),
        crate::buffer::name_canonical(nb),
    ensures
        ({
            let data = prefix + (crate::buffer::spec_qname(nb) + crate::buffer::u16_bytes(tnum)
                + crate::buffer::u16_bytes(1) + crate::buffer::u32_bytes(ttl)
                + crate::buffer::u16_bytes(rdlen) + rd) + rest;
            let p0 = prefix.len() as int;
            let p1 = p0 + crate::buffer::spec_qname(nb).len() as int;
            spec_parse_name(data, p0, crate::buffer::MAX_JUMPS as nat) == Some((nb, p1))
                && crate::buffer::spec_parse_u16(data, p1) == Some((tnum, p1 + 2))
                && crate::buffer::spec_parse_u16(data, p1 + 2) == Some((1u16, p1 + 4))
                && crate::buffer::spec_parse_u32(data, p1 + 4) == Some((ttl, p1 + 8))
                && crate::buffer::spec_parse_u16(data, p1 + 8) == Some((rdlen, p1 + 10))
                && data.subrange(p1 + 10, data.len() as int) =~= rd + rest
        }),
{
    let qn = crate::buffer::spec_qname(nb);
    let t2 = crate::buffer::u16_bytes(tnum);
    let c2 = crate::buffer::u16_bytes(1);
    let l4 = crate::buffer::u32_bytes(ttl);
    let d2 = crate::buffer::u16_bytes(rdlen);
    let data = prefix + (qn + t2 + c2 + l4 + d2 + rd) + rest;
    let p0 = prefix.len() as int;
    let p1 = p0 + qn.len() as int;
    assert(data =~= prefix + qn + (t2 + c2 + l4 + d2 + rd + rest));
    crate::buffer::lemma_parse_name_roundtrip(
        prefix,
        nb,
        t2 + c2 + l4 + d2 + rd + rest,
        crate::buffer::MAX_JUMPS as nat,
    );
    assert(data =~= (prefix + qn) + t2 + (c2 + l4 + d2 + rd + rest));
    crate::buffer::lemma_parse_u16_roundtrip(prefix + qn, tnum, c2 + l4 + d2 + rd + rest);
    assert(data =~= (prefix + qn + t2) + c2 + (l4 + d2 + rd + rest));
    crate::buffer::lemma_parse_u16_roundtrip(prefix + qn + t2, 1, l4 + d2 + rd + rest);
    assert(data =~= (prefix + qn + t2 + c2) + l4 + (d2 + rd + rest));
    crate::buffer::lemma_parse_u32_roundtrip(prefix + qn + t2 + c2, ttl, d2 + rd + rest);
    assert(data =~= (prefix + qn + t2 + c2 + l4) + d2 + (rd + rest));
    crate::buffer::lemma_parse_u16_roundtrip(prefix + qn + t2 + c2 + l4, rdlen, rd + rest);
    assert(data.subrange(p1 + 10, data.len() as int) =~= rd + rest);
}

/// Decoding a record right after its wire form was laid down yields the
/// record back, for canonical wire-bound records.
pub proof fn lemma_parse_record_roundtrip(prefix: Seq<u8>, r: RecordView, rest: Seq<u8>)
    requires
        record_writable(r),
        record_canonical(r),
    ensures
        spec_parse_record(prefix + spec_record_bytes(r) + rest, prefix.len() as int) == Some(
            (r, prefix.len() as int + spec_record_bytes(r).len() as int),
        ),
{
    match r {
        RecordView::A { .. } => lemma_parse_record_roundtrip_a(prefix, r, rest),
        RecordView::AAAA { .. } => lemma_parse_record_roundtrip_aaaa(prefix, r, rest),
        RecordView::NS { .. } => lemma_parse_record_roundtrip_ns(prefix, r, rest),
        RecordView::CNAME { .. } => lemma_parse_record_roundtrip_cname(prefix, r, rest),
        RecordView::SRV { .. } => lemma_parse_record_roundtrip_srv(prefix, r, rest),
        RecordView::MX { .. } => lemma_parse_record_roundtrip_mx(prefix, r, rest),
        RecordView::SOA { .. } => lemma_parse_record_roundtrip_soa(prefix, r, rest),
        RecordView::TXT { .. } => lemma_parse_record_roundtrip_txt(prefix, r, rest),
        RecordView::OPT { .. } => {
            assert(false);
        },
        RecordView::UNKNOWN { .. } => {
            assert(false);
        },
    }
}

#[verifier::rlimit(100)]
#[verifier::spinoff_prover]
proof fn lemma_parse_record_roundtrip_a(prefix: Seq<u8>, r: RecordView, rest: Seq<u8>)
    requires
        record_writable(r),
        record_canonical(r),
        r is A,
    ensures
        spec_parse_record(prefix + spec_record_bytes(r) + rest, prefix.len() as int) == Some(
            (r, prefix.len() as int + spec_record_bytes(r).len() as int),
        ),
{
    reveal(spec_parse_record);
    let data = prefix + spec_record_bytes(r) + rest;
    let p0 = prefix.len() as int;
    let tnum = qtype_num(rv_qtype(r));
    let rd = spec_rdata_bytes(r);
    match r {
        RecordView::A { domain, addr, ttl } => {
        let nb = crate::text::bytes_of_chars(domain);
        lemma_parse_record_fields(prefix, nb, 1, ttl, 4, rd, rest);
        let p5 = p0 + crate::buffer::spec_qname(nb).len() as int + 10;
        assert(data.subrange(p5, data.len() as int) =~= rd + rest);
        assert(data[p5] == addr.o0 && data[p5 + 1] == addr.o1 && data[p5 + 2] == addr.o2
            && data[p5 + 3] == addr.o3) by {
            assert(data.subrange(p5, data.len() as int)[0] == data[p5]);
            assert(data.subrange(p5, data.len() as int)[1] == data[p5 + 1]);
            assert(data.subrange(p5, data.len() as int)[2] == data[p5 + 2]);
            assert(data.subrange(p5, data.len() as int)[3] == data[p5 + 3]);
        }
        crate::text::lemma_chars_bytes_roundtrip(domain);
    
        },
        _ => {},
    }
}

#[verifier::rlimit(100)]
#[verifier::spinoff_prover]
proof fn lemma_parse_record_roundtrip_aaaa(prefix: Seq<u8>, r: RecordView, rest: Seq<u8>)
    requires
        record_writable(r),
        record_canonical(r),
        r is AAAA,
    ensures
        spec_parse_record(prefix + spec_record_bytes(r) + rest, prefix.len() as int) == Some(
            (r, prefix.len() as int + spec_record_bytes(r).len() as int),
        ),
{
    reveal(spec_parse_record);
    let data = prefix + spec_record_bytes(r) + rest;
    let p0 = prefix.len() as int;
    let tnum = qtype_num(rv_qtype(r));
    let rd = spec_rdata_bytes(r);
    match r {
        RecordView::AAAA { domain, addr, ttl } => {
        let nb = crate::text::bytes_of_chars(domain);
        lemma_parse_record_fields(prefix, nb, 28, ttl, 16, rd, rest);
        let p5 = p0 + crate::buffer::spec_qname(nb).len() as int + 10;
        assert(data.subrange(p5, data.len() as int) =~= rd + rest);
        assert forall|k: int| 0 <= k < 16 implies data[p5 + k] == rd[k] by {
            assert(data.subrange(p5, data.len() as int)[k] == data[p5 + k]);
        }
        crate::text::lemma_chars_bytes_roundtrip(domain);
        assert((data[p5] as int * 256 + data[p5 + 1]) as u16 == addr.g0);
        assert((data[p5 + 2] as int * 256 + data[p5 + 3]) as u16 == addr.g1);
        assert((data[p5 + 4] as int * 256 + data[p5 + 5]) as u16 == addr.g2);
        assert((data[p5 + 6] as int * 256 + data[p5 + 7]) as u16 == addr.g3);
        assert((data[p5 + 8] as int * 256 + data[p5 + 9]) as u16 == addr.g4);
        assert((data[p5 + 10] as int * 256 + data[p5 + 11]) as u16 == addr.g5);
        assert((data[p5 + 12] as int * 256 + data[p5 + 13]) as u16 == addr.g6);
        assert((data[p5 + 14] as int * 256 + data[p5 + 15]) as u16 == addr.g7);
    
        },
        _ => {},
    }
}

#[verifier::rlimit(100)]
#[verifier::spinoff_prover]
proof fn lemma_parse_record_roundtrip_ns(prefix: Seq<u8>, r: RecordView, rest: Seq<u8>)
    requires
        record_writable(r),
        record_canonical(r),
        r is NS,
    ensures
        spec_parse_record(prefix + spec_record_bytes(r) + rest, prefix.len() as int) == Some(
            (r, prefix.len() as int + spec_record_bytes(r).len() as int),
        ),
{
    reveal(spec_parse_record);
    let data = prefix + spec_record_bytes(r) + rest;
    let p0 = prefix.len() as int;
    let tnum = qtype_num(rv_qtype(r));
    let rd = spec_rdata_bytes(r);
    match r {
        RecordView::NS { domain, host, ttl } => {
        let nb = crate::text::bytes_of_chars(domain);
        let hb = crate::text::bytes_of_chars(host);
        let hn = crate::buffer::spec_qname(hb);
        lemma_parse_record_fields(prefix, nb, 2, ttl, hn.len() as u16, rd, rest);
        let p5 = p0 + crate::buffer::spec_qname(nb).len() as int + 10;
        assert(data =~= data.subrange(0, p5) + hn + rest);
        crate::buffer::lemma_parse_name_roundtrip(
            data.subrange(0, p5),
            hb,
            rest,
            crate::buffer::MAX_JUMPS as nat,
        );
        crate::text::lemma_chars_bytes_roundtrip(domain);
        crate::text::lemma_chars_bytes_roundtrip(host);
    
        },
        _ => {},
    }
}

#[verifier::rlimit(100)]
#[verifier::spinoff_prover]
proof fn lemma_parse_record_roundtrip_cname(prefix: Seq<u8>, r: RecordView, rest: Seq<u8>)
    requires
        record_writable(r),
        record_canonical(r),
        r is CNAME,
    ensures
        spec_parse_record(prefix + spec_record_bytes(r) + rest, prefix.len() as int) == Some(
            (r, prefix.len() as int + spec_record_bytes(r).len() as int),
        ),
{
    reveal(spec_parse_record);
    let data = prefix + spec_record_bytes(r) + rest;
    let p0 = prefix.len() as int;
    let tnum = qtype_num(rv_qtype(r));
    let rd = spec_rdata_bytes(r);
    match r {
        RecordView::CNAME { domain, host, ttl } => {
        let nb = crate::text::bytes_of_chars(domain);
        let hb = crate::text::bytes_of_chars(host);
        let hn = crate::buffer::spec_qname(hb);
        lemma_parse_record_fields(prefix, nb, 5, ttl, hn.len() as u16, rd, rest);
        let p5 = p0 + crate::buffer::spec_qname(nb).len() as int + 10;
        assert(data =~= data.subrange(0, p5) + hn + rest);
        crate::buffer::lemma_parse_name_roundtrip(
            data.subrange(0, p5),
            hb,
            rest,
            crate::buffer::MAX_JUMPS as nat,
        );
        crate::text::lemma_chars_bytes_roundtrip(domain);
        crate::text::lemma_chars_bytes_roundtrip(host);
    
        },
        _ => {},
    }
}

#[verifier::rlimit(100)]
#[verifier::spinoff_prover]
proof fn lemma_parse_record_roundtrip_srv(prefix: Seq<u8>, r: RecordView, rest: Seq<u8>)
    requires
        record_writable(r),
        record_canonical(r),
        r is SRV,
    ensures
        spec_parse_record(prefix + spec_record_bytes(r) + rest, prefix.len() as int) == Some(
            (r, prefix.len() as int + spec_record_bytes(r).len() as int),
        ),
{
    reveal(spec_parse_record);
    let data = prefix + spec_record_bytes(r) + rest;
    let p0 = prefix.len() as int;
    let tnum = qtype_num(rv_qtype(r));
    let rd = spec_rdata_bytes(r);
    match r {
        RecordView::SRV { domain, priority, weight, port, host, ttl } => {
        let nb = crate::text::bytes_of_chars(domain);
        let hb = crate::text::bytes_of_chars(host);
        let hn = crate::buffer::spec_qname(hb);
        lemma_parse_record_fields(prefix, nb, 33, ttl, (6 + hn.len()) as u16, rd, rest);
        let p5 = p0 + crate::buffer::spec_qname(nb).len() as int + 10;
        let pr2 = crate::buffer::u16_bytes(priority);
        let w2 = crate::buffer::u16_bytes(weight);
        let po2 = crate::buffer::u16_bytes(port);
        assert(data =~= data.subrange(0, p5) + pr2 + (w2 + po2 + hn + rest));
        crate::buffer::lemma_parse_u16_roundtrip(
            data.subrange(0, p5),
            priority,
            w2 + po2 + hn + rest,
        );
        assert(data =~= data.subrange(0, p5) + pr2 + w2 + (po2 + hn + rest));
        assert(data.subrange(0, p5) + pr2 + w2 =~= data.subrange(0, p5 + 4));
        crate::buffer::lemma_parse_u16_roundtrip(
            data.subrange(0, p5) + pr2,
            weight,
            po2 + hn + rest,
        );
        assert(data =~= (data.subrange(0, p5) + pr2) + w2 + (po2 + hn + rest));
        crate::buffer::lemma_parse_u16_roundtrip(
            data.subrange(0, p5) + pr2 + w2,
            port,
            hn + rest,
        );
        assert(data =~= (data.subrange(0, p5) + pr2 + w2 + po2) + hn + rest);
        crate::buffer::lemma_parse_name_roundtrip(
            data.subrange(0, p5) + pr2 + w2 + po2,
            hb,
            rest,
            crate::buffer::MAX_JUMPS as nat,
        );
        crate::text::lemma_chars_bytes_roundtrip(domain);
        crate::text::lemma_chars_bytes_roundtrip(host);
    
        },
        _ => {},
    }
}

#[verifier::rlimit(100)]
#[verifier::spinoff_prover]
proof fn lemma_parse_record_roundtrip_mx(prefix: Seq<u8>, r: RecordView, rest: Seq<u8>)
    requires
        record_writable(r),
        record_canonical(r),
        r is MX,
    ensures
        spec_parse_record(prefix + spec_record_bytes(r) + rest, prefix.len() as int) == Some(
            (r, prefix.len() as int + spec_record_bytes(r).len() as int),
        ),
{
    reveal(spec_parse_record);
    let data = prefix + spec_record_bytes(r) + rest;
    let p0 = prefix.len() as int;
    let tnum = qtype_num(rv_qtype(r));
    let rd = spec_rdata_bytes(r);
    match r {
        RecordView::MX { domain, priority, host, ttl } => {
        let nb = crate::text::bytes_of_chars(domain);
        let hb = crate::text::bytes_of_chars(host);
        let hn = crate::buffer::spec_qname(hb);
        lemma_parse_record_fields(prefix, nb, 15, ttl, (2 + hn.len()) as u16, rd, rest);
        let p5 = p0 + crate::buffer::spec_qname(nb).len() as int + 10;
        let pr2 = crate::buffer::u16_bytes(priority);
        assert(data =~= data.subrange(0, p5) + pr2 + (hn + rest));
        crate::buffer::lemma_parse_u16_roundtrip(data.subrange(0, p5), priority, hn + rest);
        assert(data =~= (data.subrange(0, p5) + pr2) + hn + rest);
        crate::buffer::lemma_parse_name_roundtrip(
            data.subrange(0, p5) + pr2,
            hb,
            rest,
            crate::buffer::MAX_JUMPS as nat,
        );
        crate::text::lemma_chars_bytes_roundtrip(domain);
        crate::text::lemma_chars_bytes_roundtrip(host);
    
        },
        _ => {},
    }
}

/// Positions and values of two names laid down one after the other.
#[verifier::rlimit(100)]
#[verifier::spinoff_prover]
proof fn lemma_parse_two_names(head: Seq<u8>, mb: Seq<u8>, rb: Seq<u8>, tail: Seq<u8>)
    requires
        crate::buffer::qname_encodable(mb),
        crate::buffer::name_canonical(mb),
        crate::buffer::qname_encodable(rb),
        crate::buffer::name_canonical(rb),
    ensures
        ({
            let mn = crate::buffer::spec_qname(mb);
            let rn = crate::buffer::spec_qname(rb);
            let data = head + mn + rn + tail;
            let p5 = head.len() as int;
            let p6 = p5 + mn.len() as int;
            let p7 = p6 + rn.len() as int;
            spec_parse_name(data, p5, crate::buffer::MAX_JUMPS as nat) == Some((mb, p6))
                && spec_parse_name(data, p6, crate::buffer::MAX_JUMPS as nat) == Some((rb, p7))
        }),
{
    let mn = crate::buffer::spec_qname(mb);
    let rn = crate::buffer::spec_qname(rb);
    let data = head + mn + rn + tail;
    assert(data =~= head + mn + (rn + tail));
    crate::buffer::lemma_parse_name_roundtrip(head, mb, rn + tail, crate::buffer::MAX_JUMPS as nat);
    assert(data =~= (head + mn) + rn + tail);
    crate::buffer::lemma_parse_name_roundtrip(head + mn, rb, tail, crate::buffer::MAX_JUMPS as nat);
}

/// Positions and values of five 32-bit fields laid down one after the
/// other.
#[verifier::rlimit(100)]
#[verifier::spinoff_prover]
proof fn lemma_parse_five_u32(
    head: Seq<u8>,
    serial: u32,
    refresh: u32,
    retry: u32,
    expire: u32,
    minimum: u32,
    rest: Seq<u8>,
)
    ensures
        ({
            let data = head + (crate::buffer::u32_bytes(serial) + crate::buffer::u32_bytes(refresh)
                + crate::buffer::u32_bytes(retry) + crate::buffer::u32_bytes(expire)
                + crate::buffer::u32_bytes(minimum)) + rest;
            let p7 = head.len() as int;
            crate::buffer::spec_parse_u32(data, p7) == Some((serial, p7 + 4))
                && crate::buffer::spec_parse_u32(data, p7 + 4) == Some((refresh, p7 + 8))
                && crate::buffer::spec_parse_u32(data, p7 + 8) == Some((retry, p7 + 12))
                && crate::buffer::spec_parse_u32(data, p7 + 12) == Some((expire, p7 + 16))
                && crate::buffer::spec_parse_u32(data, p7 + 16) == Some((minimum, p7 + 20))
        }),
{
    let s4 = crate::buffer::u32_bytes(serial);
    let f4 = crate::buffer::u32_bytes(refresh);
    let y4 = crate::buffer::u32_bytes(retry);
    let e4 = crate::buffer::u32_bytes(expire);
    let m4 = crate::buffer::u32_bytes(minimum);
    let data = head + (s4 + f4 + y4 + e4 + m4) + rest;
    assert(data =~= head + s4 + (f4 + y4 + e4 + m4 + rest));
    crate::buffer::lemma_parse_u32_roundtrip(head, serial, f4 + y4 + e4 + m4 + rest);
    assert(data =~= (head + s4) + f4 + (y4 + e4 + m4 + rest));
    crate::buffer::lemma_parse_u32_roundtrip(head + s4, refresh, y4 + e4 + m4 + rest);
    assert(data =~= (head + s4 + f4) + y4 + (e4 + m4 + rest));
    crate::buffer::lemma_parse_u32_roundtrip(head + s4 + f4, retry, e4 + m4 + rest);
    assert(data =~= (head + s4 + f4 + y4) + e4 + (m4 + rest));
    crate::buffer::lemma_parse_u32_roundtrip(head + s4 + f4 + y4, expire, m4 + rest);
    assert(data =~= (head + s4 + f4 + y4 + e4) + m4 + rest);
    crate::buffer::lemma_parse_u32_roundtrip(head + s4 + f4 + y4 + e4, minimum, rest);
}

/// Assembles an SOA record's parse from the parses of its pieces.
#[verifier::rlimit(100)]
#[verifier::spinoff_prover]
proof fn lemma_assemble_soa(
    data: Seq<u8>,
    p0: int,
    r: RecordView,
    nb: Seq<u8>,
    mb: Seq<u8>,
    rb: Seq<u8>,
    p1: int,
    p7: int,
)
    requires
        r matches RecordView::SOA { domain, mname, rname, serial, refresh, retry, expire, minimum, ttl }
            && domain == crate::text::chars_of_bytes(nb) && mname == crate::text::chars_of_bytes(
            mb,
        ) && rname == crate::text::chars_of_bytes(rb) && spec_parse_name(
            data,
            p0,
            crate::buffer::MAX_JUMPS as nat,
        ) == Some((nb, p1)) && crate::buffer::spec_parse_u16(data, p1) == Some((6u16, p1 + 2))
            && crate::buffer::spec_parse_u16(data, p1 + 2) == Some((1u16, p1 + 4))
            && crate::buffer::spec_parse_u32(data, p1 + 4) == Some((ttl, p1 + 8))
            && crate::buffer::spec_parse_u16(data, p1 + 8) is Some && spec_parse_name(
            data,
            p1 + 10,
            crate::buffer::MAX_JUMPS as nat,
        ) == Some((mb, p7 - crate::buffer::spec_qname(rb).len())) && spec_parse_name(
            data,
            p7 - crate::buffer::spec_qname(rb).len(),
            crate::buffer::MAX_JUMPS as nat,
        ) == Some((rb, p7)) && crate::buffer::spec_parse_u32(data, p7) == Some((serial, p7 + 4))
            && crate::buffer::spec_parse_u32(data, p7 + 4) == Some((refresh, p7 + 8))
            && crate::buffer::spec_parse_u32(data, p7 + 8) == Some((retry, p7 + 12))
            && crate::buffer::spec_parse_u32(data, p7 + 12) == Some((expire, p7 + 16))
            && crate::buffer::spec_parse_u32(data, p7 + 16) == Some((minimum, p7 + 20)),
    ensures
        spec_parse_record(data, p0) == Some((r, p7 + 20)),
{
    reveal(spec_parse_record);
}

#[verifier::rlimit(100)]
#[verifier::spinoff_prover]
proof fn lemma_parse_record_roundtrip_soa(prefix: Seq<u8>, r: RecordView, rest: Seq<u8>)
    requires
        record_writable(r),
        record_canonical(r),
        r is SOA,
    ensures
        spec_parse_record(prefix + spec_record_bytes(r) + rest, prefix.len() as int) == Some(
            (r, prefix.len() as int + spec_record_bytes(r).len() as int),
        ),
{
    let data = prefix + spec_record_bytes(r) + rest;
    let p0 = prefix.len() as int;
    let rd = spec_rdata_bytes(r);
    match r {
        RecordView::SOA { domain, mname, rname, serial, refresh, retry, expire, minimum, ttl } => {
            let nb = crate::text::bytes_of_chars(domain);
            let mb = crate::text::bytes_of_chars(mname);
            let rb = crate::text::bytes_of_chars(rname);
            let mn = crate::buffer::spec_qname(mb);
            let rn = crate::buffer::spec_qname(rb);
            lemma_parse_record_fields(
                prefix,
                nb,
                6,
                ttl,
                (mn.len() + rn.len() + 20) as u16,
                rd,
                rest,
            );
            let p1 = p0 + crate::buffer::spec_qname(nb).len() as int;
            let p5 = p1 + 10;
            let q5 = data.subrange(0, p5);
            let nums = crate::buffer::u32_bytes(serial) + crate::buffer::u32_bytes(refresh)
                + crate::buffer::u32_bytes(retry) + crate::buffer::u32_bytes(expire)
                + crate::buffer::u32_bytes(minimum);
            assert(data =~= q5 + mn + rn + (nums + rest));
            lemma_parse_two_names(q5, mb, rb, nums + rest);
            assert(data =~= (q5 + mn + rn) + nums + rest);
            lemma_parse_five_u32(q5 + mn + rn, serial, refresh, retry, expire, minimum, rest);
            crate::text::lemma_chars_bytes_roundtrip(domain);
            crate::text::lemma_chars_bytes_roundtrip(mname);
            crate::text::lemma_chars_bytes_roundtrip(rname);
            let p7 = p5 + mn.len() as int + rn.len() as int;
            lemma_assemble_soa(data, p0, r, nb, mb, rb, p1, p7);
            assert(p7 + 20 == p0 + spec_record_bytes(r).len() as int);
        },
        _ => {},
    }
}

#[verifier::rlimit(100)]
#[verifier::spinoff_prover]
proof fn lemma_parse_record_roundtrip_txt(prefix: Seq<u8>, r: RecordView, rest: Seq<u8>)
    requires
        record_writable(r),
        record_canonical(r),
        r is TXT,
    ensures
        spec_parse_record(prefix + spec_record_bytes(r) + rest, prefix.len() as int) == Some(
            (r, prefix.len() as int + spec_record_bytes(r).len() as int),
        ),
{
    reveal(spec_parse_record);
    let data = prefix + spec_record_bytes(r) + rest;
    let p0 = prefix.len() as int;
    let tnum = qtype_num(rv_qtype(r));
    let rd = spec_rdata_bytes(r);
    match r {
        RecordView::TXT { domain, data: txt, ttl } => {
        let nb = crate::text::bytes_of_chars(domain);
        let tb = crate::text::bytes_of_chars(txt);
        lemma_parse_record_fields(prefix, nb, 16, ttl, tb.len() as u16, rd, rest);
        let p5 = p0 + crate::buffer::spec_qname(nb).len() as int + 10;
        assert(data.subrange(p5, data.len() as int) =~= tb + rest);
        assert(data.subrange(p5, p5 + tb.len() as int) =~= tb) by {
            assert forall|k: int| 0 <= k < tb.len() implies data.subrange(
                p5,
                p5 + tb.len() as int,
            )[k] == tb[k] by {
                assert(data.subrange(p5, data.len() as int)[k] == (tb + rest)[k]);
                assert(data.subrange(p5, data.len() as int)[k] == data[p5 + k]);
            }
        }
        crate::text::lemma_chars_bytes_roundtrip(domain);
        crate::text::lemma_chars_bytes_roundtrip(txt);
    
        },
        _ => {},
    }
}


/// `questions_bytes` peeled from the front.
proof fn lemma_questions_bytes_first(qs: Seq<QuestionView>)
    requires
        qs.len() > 0,
    ensures
        questions_bytes(qs) == spec_question_bytes(qs[0]) + questions_bytes(qs.drop_first()),
    decreases qs.len(),
{
    if qs.len() == 1 {
        assert(qs.drop_last() =~= Seq::<QuestionView>::empty());
        assert(qs.drop_first() =~= Seq::<QuestionView>::empty());
        assert(questions_bytes(qs) =~= spec_question_bytes(qs[0]) + questions_bytes(
            qs.drop_first(),
        ));
    } else {
        lemma_questions_bytes_first(qs.drop_last());
        assert(qs.drop_last()[0] == qs[0]);
        assert(qs.drop_last().drop_first() =~= qs.drop_first().drop_last());
        assert(qs.drop_first().last() == qs.last());
        assert(questions_bytes(qs) =~= spec_question_bytes(qs[0]) + questions_bytes(
            qs.drop_first(),
        ));
    }
}

/// `records_bytes` peeled from the front.
proof fn lemma_records_bytes_first(rs: Seq<RecordView>)
    requires
        rs.len() > 0,
    ensures
        records_bytes(rs) == spec_record_bytes(rs[0]) + records_bytes(rs.drop_first()),
    decreases rs.len(),
{
    if rs.len() == 1 {
        assert(rs.drop_last() =~= Seq::<RecordView>::empty());
        assert(rs.drop_first() =~= Seq::<RecordView>::empty());
        assert(records_bytes(rs) =~= spec_record_bytes(rs[0]) + records_bytes(rs.drop_first()));
    } else {
        lemma_records_bytes_first(rs.drop_last());
        assert(rs.drop_last()[0] == rs[0]);
        assert(rs.drop_last().drop_first() =~= rs.drop_first().drop_last());
        assert(rs.drop_first().last() == rs.last());
        assert(records_bytes(rs) =~= spec_record_bytes(rs[0]) + records_bytes(rs.drop_first()));
    }
}

/// `records_bytes` distributes over concatenation.
proof fn lemma_records_bytes_concat(a: Seq<RecordView>, b: Seq<RecordView>)
    ensures
        records_bytes(a + b) == records_bytes(a) + records_bytes(b),
    decreases b.len(),
{
    if b.len() == 0 {
        assert(a + b =~= a);
        assert(records_bytes(a) + records_bytes(b) =~= records_bytes(a));
    } else {
        lemma_records_bytes_concat(a, b.drop_last());
        assert((a + b).drop_last() =~= a + b.drop_last());
        assert((a + b).last() == b.last());
        assert(records_bytes(a) + records_bytes(b.drop_last()) + spec_record_bytes(b.last())
            =~= records_bytes(a) + records_bytes(b));
    }
}

/// A section without suppressed records goes to the wire whole.
proof fn lemma_keep_writable_id(s: Seq<RecordView>)
    requires
        forall|i: int| 0 <= i < s.len() ==> record_canonical(#[trigger] s[i]),
    ensures
        keep_writable(s) == s,
    decreases s.len(),
{
    if s.len() > 0 {
        assert(record_canonical(s.last()));
        assert forall|i: int| 0 <= i < s.drop_last().len() implies record_canonical(
            #[trigger] s.drop_last()[i],
        ) by {
            assert(s.drop_last()[i] == s[i]);
        }
        lemma_keep_writable_id(s.drop_last());
        assert(keep_writable(s) =~= s);
    }
}

pub open spec fn questions_roundtrippable(qs: Seq<QuestionView>) -> bool {
    forall|i: int| 0 <= i < qs.len() ==> question_writable(#[trigger] qs[i])
        && name_canonical_chars(qs[i].name) && qtype_wf(qs[i].qtype)
}

pub open spec fn records_roundtrippable(rs: Seq<RecordView>) -> bool {
    forall|i: int| 0 <= i < rs.len() ==> record_writable(#[trigger] rs[i]) && record_canonical(
        rs[i],
    )
}

/// Decoding a run of questions right after their wire forms yields them
/// back.
#[verifier::rlimit(100)]
#[verifier::spinoff_prover]
proof fn lemma_parse_questions_roundtrip(prefix: Seq<u8>, qs: Seq<QuestionView>, rest: Seq<u8>)
    requires
        questions_roundtrippable(qs),
    ensures
        spec_parse_questions(prefix + questions_bytes(qs) + rest, prefix.len() as int, qs.len())
            == Some((qs, prefix.len() as int + questions_bytes(qs).len() as int)),
    decreases qs.len(),
{
    let data = prefix + questions_bytes(qs) + rest;
    let p0 = prefix.len() as int;
    if qs.len() == 0 {
        assert(questions_bytes(qs) =~= Seq::<u8>::empty());
        assert(Some((qs, p0)) == spec_parse_questions(data, p0, 0)) by {
            assert(Seq::<QuestionView>::empty() =~= qs);
        }
    } else {
        lemma_questions_bytes_first(qs);
        let q0 = qs[0];
        let qb = spec_question_bytes(q0);
        assert(data =~= prefix + qb + (questions_bytes(qs.drop_first()) + rest));
        lemma_parse_question_roundtrip(prefix, q0, questions_bytes(qs.drop_first()) + rest);
        assert(data =~= (prefix + qb) + questions_bytes(qs.drop_first()) + rest);
        assert forall|i: int| 0 <= i < qs.drop_first().len() implies question_writable(
            #[trigger] qs.drop_first()[i],
        ) && name_canonical_chars(qs.drop_first()[i].name) && qtype_wf(
            qs.drop_first()[i].qtype,
        ) by {
            assert(qs.drop_first()[i] == qs[i + 1]);
        }
        lemma_parse_questions_roundtrip(prefix + qb, qs.drop_first(), rest);
        assert(seq![q0] + qs.drop_first() =~= qs);
    }
}

/// Decoding a run of records right after their wire forms yields them back.
#[verifier::rlimit(100)]
#[verifier::spinoff_prover]
proof fn lemma_parse_records_roundtrip(prefix: Seq<u8>, rs: Seq<RecordView>, rest: Seq<u8>)
    requires
        records_roundtrippable(rs),
    ensures
        spec_parse_records(prefix + records_bytes(rs) + rest, prefix.len() as int, rs.len())
            == Some((rs, prefix.len() as int + records_bytes(rs).len() as int)),
    decreases rs.len(),
{
    let data = prefix + records_bytes(rs) + rest;
    let p0 = prefix.len() as int;
    if rs.len() == 0 {
        assert(records_bytes(rs) =~= Seq::<u8>::empty());
        assert(Some((rs, p0)) == spec_parse_records(data, p0, 0)) by {
            assert(Seq::<RecordView>::empty() =~= rs);
        }
    } else {
        lemma_records_bytes_first(rs);
        let r0 = rs[0];
        let rb = spec_record_bytes(r0);
        assert(data =~= prefix + rb + (records_bytes(rs.drop_first()) + rest));
        lemma_parse_record_roundtrip(prefix, r0, records_bytes(rs.drop_first()) + rest);
        assert(data =~= (prefix + rb) + records_bytes(rs.drop_first()) + rest);
        assert forall|i: int| 0 <= i < rs.drop_first().len() implies record_writable(
            #[trigger] rs.drop_first()[i],
        ) && record_canonical(rs.drop_first()[i]) by {
            assert(rs.drop_first()[i] == rs[i + 1]);
        }
        lemma_parse_records_roundtrip(prefix + rb, rs.drop_first(), rest);
        assert(seq![r0] + rs.drop_first() =~= rs);
    }
}

/// The codec round trip: decoding the bytes `DnsPacket::write` lays down
/// for a packet yields the packet's sections back, entry for entry, when
/// every name is canonical, every record kind reaches the wire, and the
/// whole message fits the size limit. The header comes back with its counts
/// set to the sections' lengths; names are re-encoded without compression,
/// so the comparison is structural, not byte-wise.
#[verifier::rlimit(100)]
#[verifier::spinoff_prover]
pub proof fn lemma_packet_roundtrip(p: PacketView, max: int)
    requires
        header_wf(p.header),
        questions_roundtrippable(p.questions),
        records_roundtrippable(p.answers),
        records_roundtrippable(p.authorities),
        records_roundtrippable(p.resources),
        p.questions.len() <= 65535,
        p.answers.len() <= 65535,
        p.authorities.len() <= 65535,
        p.resources.len() <= 65535,
        fit_count(
            kept_records(p),
            12 + questions_bytes(p.questions).len() as int,
            max,
        ) == kept_records(p).len(),
    ensures
        spec_parse_packet(spec_write_bytes(p, max), 0) matches Some((pv, n)) && pv.questions
            == p.questions && pv.answers == p.answers && pv.authorities == p.authorities
            && pv.resources == p.resources && n == spec_write_bytes(p, max).len(),
{
    lemma_keep_writable_id(p.answers);
    lemma_keep_writable_id(p.authorities);
    lemma_keep_writable_id(p.resources);
    let kept = kept_records(p);
    let k = fit_count(kept, 12 + questions_bytes(p.questions).len() as int, max);
    let h = out_header(p, max);
    let data = spec_write_bytes(p, max);
    assert(kept.take(k) =~= kept);
    let hb = spec_header_bytes(h);
    let qb = questions_bytes(p.questions);
    let rb = records_bytes(kept);
    assert(data == hb + qb + rb);
    assert(header_wf(h));
    assert(h.questions == p.questions.len());
    assert(h.answers == p.answers.len());
    assert(h.authoritative_entries == p.authorities.len());
    assert(h.resource_entries == p.resources.len());
    assert(data =~= Seq::<u8>::empty() + hb + (qb + rb));
    lemma_parse_header_roundtrip(Seq::<u8>::empty(), h, qb + rb);
    assert(spec_parse_header(data, 0) == Some((h, 12int)));
    lemma_records_bytes_concat(p.answers + p.authorities, p.resources);
    lemma_records_bytes_concat(p.answers, p.authorities);
    assert(kept =~= (p.answers + p.authorities) + p.resources);
    let ab = records_bytes(p.answers);
    let ub = records_bytes(p.authorities);
    let sb = records_bytes(p.resources);
    assert(rb == ab + ub + sb);
    assert(data =~= hb + qb + (ab + ub + sb));
    lemma_parse_questions_roundtrip(hb, p.questions, ab + ub + sb);
    assert(data =~= (hb + qb) + ab + (ub + sb));
    lemma_parse_records_roundtrip(hb + qb, p.answers, ub + sb);
    assert(data =~= (hb + qb + ab) + ub + sb);
    lemma_parse_records_roundtrip(hb + qb + ab, p.authorities, sb);
    assert(data =~= (hb + qb + ab + ub) + sb + Seq::<u8>::empty());
    lemma_parse_records_roundtrip(hb + qb + ab + ub, p.resources, Seq::<u8>::empty());
    assert(spec_parse_questions(data, 12, h.questions as nat) == Some(
        (p.questions, 12 + qb.len() as int),
    ));
}

} // verus!
