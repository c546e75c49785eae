use vstd::prelude::*;
use crate::authority::Authority;
use crate::cache::{sat_inc, Cache};
use crate::client::DnsClient;
use crate::filter::DnsFilter;
use crate::utils::current_time_millis;
use crate::DnsError;
use vstd::string::StringExecFns;

verus! {

/// The sum of two counters, sticking at the top instead of wrapping.
pub open spec fn sat_add(a: u64, b: u64) -> u64 {
    if a + b <= 0xFFFF_FFFF_FFFF_FFFF {
        (a + b) as u64
    } else {
        0xFFFF_FFFF_FFFF_FFFF
    }
}

/// Request counters and timings, updated once per served request.
pub struct ServerStatistics {
    pub start_time: u64,
    pub tcp_query_count: u64,
    pub udp_query_count: u64,
    pub min_request_time: u64,
    pub max_request_time: u64,
    pub avg_request_time: u64,
}

impl ServerStatistics {
    pub fn new() -> (r: ServerStatistics)
        ensures
            r.tcp_query_count == 0,
            r.udp_query_count == 0,
            r.min_request_time == 0,
            r.max_request_time == 0,
            r.avg_request_time == 0,
    {
        ServerStatistics {
            start_time: current_time_millis(),
            tcp_query_count: 0,
            udp_query_count: 0,
            min_request_time: 0,
            max_request_time: 0,
            avg_request_time: 0,
        }
    }

    pub fn get_tcp_query_count(&self) -> (r: u64)
        ensures
            r == self.tcp_query_count,
    {
        self.tcp_query_count
    }

    pub fn get_udp_query_count(&self) -> (r: u64)
        ensures
            r == self.udp_query_count,
    {
        self.udp_query_count
    }

    /// Folds one request's elapsed time into the counters: the matching
    /// query count grows by one and the running average, minimum and
    /// maximum are updated.
    pub fn add_request_time(&mut self, request_time: u64, udp: bool)
        ensures
            final(self).start_time == old(self).start_time,
            final(self).max_request_time == (if request_time > old(self).max_request_time {
                request_time
            } else {
                old(self).max_request_time
            }),
            final(self).min_request_time == (if old(self).min_request_time == 0 {
                request_time
            } else if request_time > 0 && request_time < old(self).min_request_time {
                request_time
            } else {
                old(self).min_request_time
            }),
            final(self).avg_request_time == (old(self).avg_request_time * sat_add(
                old(self).udp_query_count,
                old(self).tcp_query_count,
            ) + request_time) / (sat_add(old(self).udp_query_count, old(self).tcp_query_count)
                + 1),
            udp ==> final(self).udp_query_count == sat_inc(old(self).udp_query_count)
                && final(self).tcp_query_count == old(self).tcp_query_count,
            !udp ==> final(self).tcp_query_count == sat_inc(old(self).tcp_query_count)
                && final(self).udp_query_count == old(self).udp_query_count,
    {
        if request_time > self.max_request_time {
            self.max_request_time = request_time;
        }
        if self.min_request_time == 0 {
            self.min_request_time = request_time;
        } else if request_time > 0 && request_time < self.min_request_time {
            self.min_request_time = request_time;
        }
        let query_count: u128 = if self.udp_query_count <= 0xFFFF_FFFF_FFFF_FFFF
            - self.tcp_query_count {
            self.udp_query_count as u128 + self.tcp_query_count as u128
        } else {
            0xFFFF_FFFF_FFFF_FFFF
        };
        proof {
            assert(query_count == sat_add(self.udp_query_count, self.tcp_query_count));
            assert(query_count < 0x1_0000_0000_0000_0000);
            assert(self.avg_request_time as u128 as int * query_count as int
                + request_time as int <= u128::MAX as int) by (nonlinear_arith)
                requires
                    self.avg_request_time < 0x1_0000_0000_0000_0000,
                    0 <= query_count < 0x1_0000_0000_0000_0000,
                    request_time < 0x1_0000_0000_0000_0000,
            ;
        }
        let avg: u128 = (self.avg_request_time as u128 * query_count + request_time as u128) / (
        query_count + 1);
        proof {
            assert(self.avg_request_time as u128 as int * query_count as int + request_time as int
                <= (if self.avg_request_time as int > request_time as int {
                self.avg_request_time as int
            } else {
                request_time as int
            }) * (query_count as int + 1)) by (nonlinear_arith);
            assert(avg as int <= (if self.avg_request_time as int > request_time as int {
                self.avg_request_time as int
            } else {
                request_time as int
            })) by (nonlinear_arith)
                requires
                    avg as int == (self.avg_request_time as u128 as int * query_count as int
                        + request_time as int) / (query_count as int + 1),
                    self.avg_request_time as u128 as int * query_count as int
                        + request_time as int <= (if self.avg_request_time as int
                        > request_time as int {
                        self.avg_request_time as int
                    } else {
                        request_time as int
                    }) * (query_count as int + 1),
                    query_count >= 0,
            ;
        }
        self.avg_request_time = avg as u64;
        if udp {
            if self.udp_query_count < 0xFFFF_FFFF_FFFF_FFFF {
                self.udp_query_count = self.udp_query_count + 1;
            }
        } else {
            if self.tcp_query_count < 0xFFFF_FFFF_FFFF_FFFF {
                self.tcp_query_count = self.tcp_query_count + 1;
            }
        }
    }
}

/// How the server answers what it cannot answer locally: by walking the
/// hierarchy itself, or by handing the question to an upstream server.
pub enum ResolveStrategy {
    Recursive,
    Forward { host: String, port: u16 },
}

/// Everything one running server shares: its collaborators and its
/// configuration.
pub struct ServerContext<C: DnsClient> {
    pub authority: Authority,
    pub cache: Cache,
    pub client: C,
    pub dns_bind_ip: String,
    pub dns_port: u16,
    pub api_port: u16,
    pub resolve_strategy: ResolveStrategy,
    pub allow_recursive: bool,
    pub threads_udp: usize,
    pub threads_tcp: usize,
    pub enable_api: bool,
    pub filter: DnsFilter,
    pub statistics: ServerStatistics,
}

impl<C: DnsClient> ServerContext<C> {
    pub open spec fn inv(&self) -> bool {
        self.cache.inv()
    }

    /// A context with the default configuration around the given client:
    /// recursion allowed, both listeners on port 53 with 32 workers each.
    pub fn new(client: C) -> (r: ServerContext<C>)
        ensures
            r.inv(),
            r.authority@.len() == 0,
            r.cache@.len() == 0,
            r.dns_port == 53,
            r.api_port == 5380,
            r.resolve_strategy is Recursive,
            r.allow_recursive == true,
            r.threads_udp == 32,
            r.threads_tcp == 32,
            r.enable_api == true,
            r.filter@.len() == 0,
            r.dns_bind_ip@ == "0.0.0.0"@,
            r.statistics.udp_query_count == 0,
            r.statistics.tcp_query_count == 0,
            r.statistics.min_request_time == 0,
            r.statistics.max_request_time == 0,
            r.statistics.avg_request_time == 0,
    {
        ServerContext {
            authority: Authority::new(),
            cache: Cache::new(),
            client,
            dns_bind_ip: String::from_str("0.0.0.0"),
            dns_port: 53,
            api_port: 5380,
            resolve_strategy: ResolveStrategy::Recursive,
            allow_recursive: true,
            threads_udp: 32,
            threads_tcp: 32,
            enable_api: true,
            filter: DnsFilter::new(),
            statistics: ServerStatistics::new(),
        }
    }

    /// Makes the context ready to serve: starts the client. Filter rules
    /// and authority data are fed in by the embedder beforehand.
    pub fn initialize(&mut self) -> (r: Result<(), DnsError>)
        requires
            old(self).inv(),
        ensures
            final(self).inv(),
            final(self).cache == old(self).cache,
            final(self).filter == old(self).filter,
            final(self).authority == old(self).authority,
            final(self).allow_recursive == old(self).allow_recursive,
    {
        self.client.run()
    }
}

} // verus!
