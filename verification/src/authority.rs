use vstd::prelude::*;
use crate::protocol::{DnsPacket, PacketView, QueryType, views_of};
use crate::text::str_eq;

verus! {

/// One preloaded answer: the name and type it covers, and the packet served
/// for them.
pub struct AuthorityEntry {
    pub name: String,
    pub qtype: QueryType,
    pub packet: DnsPacket,
}

pub struct AuthorityEntryView {
    pub name: Seq<char>,
    pub qtype: QueryType,
    pub packet: PacketView,
}

impl View for AuthorityEntry {
    type V = AuthorityEntryView;

    open spec fn view(&self) -> AuthorityEntryView {
        AuthorityEntryView { name: self.name@, qtype: self.qtype, packet: self.packet@ }
    }
}

/// The local authoritative data: answers served without consulting the
/// network or the cache.
pub struct Authority {
    pub entries: Vec<AuthorityEntry>,
}

impl View for Authority {
    type V = Seq<AuthorityEntryView>;

    open spec fn view(&self) -> Seq<AuthorityEntryView> {
        views_of(self.entries@)
    }
}

/// The packet of the first entry covering (`name`, `qtype`), if any.
pub open spec fn auth_lookup(av: Seq<AuthorityEntryView>, name: Seq<char>, qtype: QueryType) -> Option<
    PacketView,
>
    decreases av.len(),
{
    if av.len() == 0 {
        None
    } else if av[0].name == name && av[0].qtype == qtype {
        Some(av[0].packet)
    } else {
        auth_lookup(av.drop_first(), name, qtype)
    }
}

impl Authority {
    pub fn new() -> (r: Authority)
        ensures
            r@.len() == 0,
    {
        let r = Authority { entries: Vec::new() };
        proof {
            assert(r@ =~= Seq::<AuthorityEntryView>::empty());
        }
        r
    }

    /// Preloads one answer.
    pub fn insert(&mut self, name: String, qtype: QueryType, packet: DnsPacket)
        ensures
            final(self)@.len() == old(self)@.len() + 1,
            final(self)@.last().name == name@,
            final(self)@.last().qtype == qtype,
            final(self)@.last().packet == packet@,
            forall|i: int| 0 <= i < old(self)@.len() ==> final(self)@[i] == old(self)@[i],
    {
        self.entries.push(AuthorityEntry { name, qtype, packet });
        proof {
            assert(self@ =~= old(self)@.push(self.entries@.last()@));
        }
    }

    /// The preloaded answer for (`name`, `qtype`), if one was loaded.
    pub fn query(&self, name: &str, qtype: QueryType) -> (r: Option<DnsPacket>)
        ensures
            match r {
                Some(p) => auth_lookup(self@, name@, qtype) == Some(p@),
                None => auth_lookup(self@, name@, qtype) is None,
            },
    {
        let mut i: usize = 0;
        proof {
            assert(self@.skip(0) =~= self@);
        }
        while i < self.entries.len()
            invariant
                i <= self.entries@.len(),
                auth_lookup(self@.skip(i as int), name@, qtype) == auth_lookup(
                    self@,
                    name@,
                    qtype,
                ),
            decreases self.entries@.len() - i,
        {
            let e = &self.entries[i];
            if str_eq(e.name.as_str(), name) && e.qtype == qtype {
                proof {
                    assert(self@.skip(i as int)[0] == self@[i as int]);
                }
                return Some(e.packet.clone());
            }
            i = i + 1;
            proof {
                assert(self@.skip(i - 1)[0] == self@[i - 1]);
                assert(self@.skip(i - 1).drop_first() =~= self@.skip(i as int));
            }
        }
        None
    }
}

} // verus!
