use vstd::prelude::*;
use crate::protocol::{DnsHeader, DnsPacket, DnsRecord, RecordView, ResultCode, views_of};
use crate::text::str_eq;
use crate::utils::current_time_millis;
use vstd::string::StrSliceExecFns;

verus! {

/// How many seconds a synthesized negative answer may be cached.
pub const NEGATIVE_TTL: u32 = 900;

pub const REFRESH_TIME: u32 = 1800;

pub const EXPIRE_TIME: u32 = 604800;

pub const MINIMUM_TIME: u32 = 86400;

/// Whether the sequence starts with `http://`.
pub open spec fn has_http_prefix(s: Seq<char>) -> bool {
    s.len() >= 7 && s[0] == 'h' && s[1] == 't' && s[2] == 't' && s[3] == 'p' && s[4] == ':' && s[5]
        == '/' && s[6] == '/'
}

/// Whether the sequence ends with `.js`.
pub open spec fn has_js_suffix(s: Seq<char>) -> bool {
    s.len() >= 3 && s[s.len() - 3] == '.' && s[s.len() - 2] == 'j' && s[s.len() - 1] == 's'
}

/// The domain a filter rule blocks, or nothing for a comment or a rule kind
/// the filter does not keep: the leading `||`, one trailing `^` or `/`, and
/// a leading `http://` are stripped; lines starting with `!` are comments;
/// lines starting with `/` or `@@` or ending in `.js` are dropped.
pub open spec fn rule_target(r: Seq<char>) -> Option<Seq<char>> {
    if r.len() >= 1 && r[0] == '!' {
        None
    } else {
        let l1 = if r.len() >= 2 && r[0] == '|' && r[1] == '|' {
            r.skip(2)
        } else {
            r
        };
        let l2 = if l1.len() >= 1 && (l1.last() == '^' || l1.last() == '/') {
            l1.drop_last()
        } else {
            l1
        };
        let l3 = if has_http_prefix(l2) {
            l2.skip(7)
        } else {
            l2
        };
        if (l3.len() >= 1 && l3[0] == '/') || has_js_suffix(l3) || (l3.len() >= 2 && l3[0] == '@'
            && l3[1] == '@') {
            None
        } else {
            Some(l3)
        }
    }
}

/// Whether the string's first character is `c`.
fn first_char_is(s: &str, c: char) -> (r: bool)
    ensures
        r == (s@.len() >= 1 && s@[0] == c),
{
    s.unicode_len() >= 1 && s.get_char(0) == c
}

/// Whether the string's last character is `c`.
fn last_char_is(s: &str, c: char) -> (r: bool)
    ensures
        r == (s@.len() >= 1 && s@[s@.len() - 1] == c),
{
    let n = s.unicode_len();
    n >= 1 && s.get_char(n - 1) == c
}

/// Whether the string's first two characters are `c0`, `c1`.
fn starts_two(s: &str, c0: char, c1: char) -> (r: bool)
    ensures
        r == (s@.len() >= 2 && s@[0] == c0 && s@[1] == c1),
{
    let n = s.unicode_len();
    n >= 2 && s.get_char(0) == c0 && s.get_char(1) == c1
}

/// Whether the string starts with `http://`.
fn starts_http(s: &str) -> (r: bool)
    ensures
        r == has_http_prefix(s@),
{
    let n = s.unicode_len();
    n >= 7 && s.get_char(0) == 'h' && s.get_char(1) == 't' && s.get_char(2) == 't' && s.get_char(3)
        == 'p' && s.get_char(4) == ':' && s.get_char(5) == '/' && s.get_char(6) == '/'
}

/// Whether the string ends with `.js`.
fn ends_js(s: &str) -> (r: bool)
    ensures
        r == has_js_suffix(s@),
{
    let n = s.unicode_len();
    n >= 3 && s.get_char(n - 3) == '.' && s.get_char(n - 2) == 'j' && s.get_char(n - 1) == 's'
}

/// `d` is one of the blocked domains.
pub open spec fn filter_blocks(blocked: Seq<Seq<char>>, d: Seq<char>) -> bool {
    exists|i: int| 0 <= i < blocked.len() && blocked[i] == d
}

/// The domain-name blocklist: names it holds are answered with a synthesized
/// NXDOMAIN instead of being resolved.
pub struct DnsFilter {
    pub blocked: Vec<String>,
}

impl View for DnsFilter {
    type V = Seq<Seq<char>>;

    open spec fn view(&self) -> Seq<Seq<char>> {
        views_of(self.blocked@)
    }
}

impl DnsFilter {
    pub fn new() -> (r: DnsFilter)
        ensures
            r@.len() == 0,
    {
        let r = DnsFilter { blocked: Vec::new() };
        proof {
            assert(r@ =~= Seq::<Seq<char>>::empty());
        }
        r
    }

    /// Whether the filter blocks `domain`.
    pub fn contains(&self, domain: &str) -> (r: bool)
        ensures
            r == filter_blocks(self@, domain@),
    {
        let mut i: usize = 0;
        while i < self.blocked.len()
            invariant
                i <= self.blocked@.len(),
                forall|k: int| 0 <= k < i ==> (#[trigger] self@[k]) != domain@,
            decreases self.blocked@.len() - i,
        {
            if str_eq((&self.blocked[i]).as_str(), domain) {
                proof {
                    assert(self@[i as int] == domain@);
                }
                return true;
            }
            i = i + 1;
        }
        false
    }

    /// Takes one rule line in: the domain it names, if any, joins the
    /// blocklist.
    pub fn add_rule(&mut self, rule: String)
        ensures
            match rule_target(rule@) {
                Some(t) => final(self)@ == old(self)@.push(t),
                None => final(self)@ == old(self)@,
            },
    {
        if first_char_is(rule.as_str(), '!') {
            return;
        }
        let mut line = rule;
        if starts_two(line.as_str(), '|', '|') {
            let n = line.as_str().unicode_len();
            let tail = line.as_str().substring_char(2, n).to_owned();
            line = tail;
        }
        proof {
            assert(line@ =~= (if rule@.len() >= 2 && rule@[0] == '|' && rule@[1] == '|' {
                rule@.skip(2)
            } else {
                rule@
            }));
        }
        let ghost l1 = line@;
        if last_char_is(line.as_str(), '^') || last_char_is(line.as_str(), '/') {
            let n = line.as_str().unicode_len();
            let head = line.as_str().substring_char(0, n - 1).to_owned();
            line = head;
        }
        proof {
            assert(line@ =~= (if l1.len() >= 1 && (l1.last() == '^' || l1.last() == '/') {
                l1.drop_last()
            } else {
                l1
            }));
        }
        let ghost l2 = line@;
        if starts_http(line.as_str()) {
            let n = line.as_str().unicode_len();
            let tail = line.as_str().substring_char(7, n).to_owned();
            line = tail;
        }
        proof {
            assert(line@ =~= (if has_http_prefix(l2) {
                l2.skip(7)
            } else {
                l2
            }));
        }
        if first_char_is(line.as_str(), '/') || ends_js(line.as_str()) || starts_two(
            line.as_str(),
            '@',
            '@',
        ) {
            return;
        }
        self.blocked.push(line);
        proof {
            assert(self@ =~= old(self)@.push(self.blocked@.last()@));
        }
    }

    /// Turns a response into the synthesized answer for a blocked name:
    /// NXDOMAIN, with one negative-caching SOA record in the authority
    /// section whose serial is the wall time in milliseconds, truncated to
    /// 32 bits.
    pub fn fill_blocked_response(request: &mut DnsPacket)
        requires
            old(request)@.questions.len() > 0,
        ensures
            final(request)@.header == (DnsHeader {
                rescode: ResultCode::NXDOMAIN,
                ..old(request)@.header
            }),
            final(request)@.questions == old(request)@.questions,
            final(request)@.answers == old(request)@.answers,
            final(request)@.resources == old(request)@.resources,
            final(request)@.authorities.len() == old(request)@.authorities.len() + 1,
            forall|i: int| 0 <= i < old(request)@.authorities.len()
                ==> final(request)@.authorities[i] == old(request)@.authorities[i],
            final(request)@.authorities.last() matches RecordView::SOA {
                domain,
                mname,
                rname,
                serial,
                refresh,
                retry,
                expire,
                minimum,
                ttl,
            } && domain == blocked_soa_domain(old(request)@.questions[0].name) && mname
                == "fake-for-negative-caching.adguard.com."@ && rname
                == "fake-for-negative-caching.adguard.com."@ && refresh == REFRESH_TIME && retry
                == NEGATIVE_TTL && expire == EXPIRE_TIME && minimum == MINIMUM_TIME && ttl
                == NEGATIVE_TTL,
    {
        request.header.rescode = ResultCode::NXDOMAIN;
        let name_str = (&request.questions[0]).name.clone();
        let domain = soa_domain_of(name_str.as_str());
        let fake = "fake-for-negative-caching.adguard.com.";
        let serial_ms = current_time_millis();
        let record = DnsRecord::SOA {
            domain,
            mname: fake.to_owned(),
            rname: fake.to_owned(),
            serial: #[verifier::truncate] (serial_ms as u32),
            refresh: REFRESH_TIME,
            retry: NEGATIVE_TTL,
            expire: EXPIRE_TIME,
            minimum: MINIMUM_TIME,
            ttl: NEGATIVE_TTL,
        };
        request.authorities.push(record);
        proof {
            assert(views_of(request.questions@) =~= views_of(old(request).questions@));
            assert(views_of(request.answers@) =~= views_of(old(request).answers@));
            assert(views_of(request.resources@) =~= views_of(old(request).resources@));
            assert(views_of(request.authorities@) =~= views_of(old(request).authorities@).push(
                request.authorities@.last()@,
            ));
        }
    }
}

/// The index of the last dot, or -1 when there is none.
pub open spec fn last_dot_pos(n: Seq<char>) -> int
    decreases n.len(),
{
    if n.len() == 0 {
        -1
    } else if n.last() == '.' {
        n.len() - 1
    } else {
        last_dot_pos(n.drop_last())
    }
}

/// The domain the synthesized SOA speaks for: the question name with a
/// trailing dot stripped, then trimmed to the part from its last dot on;
/// without an inner dot, the whole name.
pub open spec fn blocked_soa_domain(name: Seq<char>) -> Seq<char> {
    let d = if name.len() > 0 && name.last() == '.' {
        name.drop_last()
    } else {
        name
    };
    let p = last_dot_pos(d);
    if p > 0 {
        d.skip(p)
    } else {
        d
    }
}

/// Scanning backwards for a dot finds `last_dot_pos`.
proof fn lemma_last_dot_at(n: Seq<char>, m: int)
    requires
        0 <= m < n.len(),
        n[m] == '.',
        forall|k: int| m < k < n.len() ==> n[k] != '.',
    ensures
        last_dot_pos(n) == m,
    decreases n.len(),
{
    if m == n.len() - 1 {
    } else {
        assert(n.last() != '.');
        assert forall|k: int| m < k < n.drop_last().len() implies n.drop_last()[k] != '.' by {
            assert(n.drop_last()[k] == n[k]);
        }
        lemma_last_dot_at(n.drop_last(), m);
    }
}

/// A name without dots has no last dot.
proof fn lemma_last_dot_none(n: Seq<char>)
    requires
        forall|k: int| 0 <= k < n.len() ==> n[k] != '.',
    ensures
        last_dot_pos(n) == -1,
    decreases n.len(),
{
    if n.len() > 0 {
        assert forall|k: int| 0 <= k < n.drop_last().len() implies n.drop_last()[k] != '.' by {
            assert(n.drop_last()[k] == n[k]);
        }
        lemma_last_dot_none(n.drop_last());
    }
}

/// Computes `blocked_soa_domain` for a question name.
fn soa_domain_of(name: &str) -> (r: String)
    ensures
        r@ == blocked_soa_domain(name@),
{
    let n0 = name.unicode_len();
    let stripped = if last_char_is(name, '.') {
        name.substring_char(0, n0 - 1)
    } else {
        name
    };
    proof {
        assert(stripped@ =~= (if name@.len() > 0 && name@.last() == '.' {
            name@.drop_last()
        } else {
            name@
        }));
    }
    let n = stripped.unicode_len();
    let mut i: usize = n;
    while i > 0 && stripped.get_char(i - 1) != '.'
        invariant
            n == stripped@.len(),
            i <= n,
            forall|k: int| i <= k < n ==> stripped@[k] != '.',
        decreases i,
    {
        i = i - 1;
    }
    if i > 1 {
        proof {
            lemma_last_dot_at(stripped@, i - 1);
        }
        let tail = stripped.substring_char(i - 1, n).to_owned();
        proof {
            assert(tail@ =~= stripped@.skip(i - 1));
        }
        tail
    } else {
        proof {
            if i == 0 {
                lemma_last_dot_none(stripped@);
            } else {
                lemma_last_dot_at(stripped@, 0);
            }
        }
        stripped.to_owned()
    }
}

} // verus!
