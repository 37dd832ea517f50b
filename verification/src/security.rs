//! Connection-count limits: a tracker of concurrent WebSocket connections,
//! global and per client IP, plus the security configuration record.
//! Extraction of the client IP, CORS and rate limiting are transport
//! concerns and stay with the caller.

use vstd::prelude::*;
use crate::kv::AList;

verus! {

/// Client IP as extracted from proxy headers, or "unknown"; all limits key
/// on this string.
pub struct ClientIp(pub String);

/// Security-related configuration; every limit is optional (0 = disabled).
pub struct SecurityConfig {
    /// Comma-separated allowed CORS origins; `None` or "*" = permissive.
    pub cors_origins: Option<String>,
    /// Max body size in bytes for REST requests.
    pub max_body_bytes: usize,
    /// Max total WebSocket connections; 0 = unlimited.
    pub max_ws_connections: u32,
    /// Max WebSocket connections per client IP; 0 = unlimited.
    pub max_ws_per_ip: u32,
    /// REST requests per minute per IP; 0 = no limit.
    pub rate_limit_rest_per_min: u32,
    /// WebSocket messages per minute per IP; 0 = no limit.
    pub rate_limit_ws_per_min: u32,
}

impl Default for SecurityConfig {
    /// The values used when the environment sets nothing.
    fn default() -> (r: Self)
        ensures
            r.cors_origins is None,
            r.max_body_bytes == 1_000_000,
            r.max_ws_connections == 0,
            r.max_ws_per_ip == 0,
            r.rate_limit_rest_per_min == 60,
            r.rate_limit_ws_per_min == 250,
    {
        SecurityConfig {
            cors_origins: None,
            max_body_bytes: 1_000_000,
            max_ws_connections: 0,
            max_ws_per_ip: 0,
            rate_limit_rest_per_min: 60,
            rate_limit_ws_per_min: 250,
        }
    }
}

/// The characters of `s` before its first comma (all of `s` when there is
/// none).
pub open spec fn comma_token(s: Seq<char>) -> Seq<char>
    decreases s.len(),
{
    if s.len() == 0 || s.first() == ',' {
        Seq::empty()
    } else {
        seq![s.first()] + comma_token(s.drop_first())
    }
}

proof fn lemma_comma_token(s: Seq<char>, i: int)
    requires
        0 <= i <= s.len(),
        forall|j: int| 0 <= j < i ==> s[j] != ',',
        i < s.len() ==> s[i] == ',',
    ensures
        comma_token(s) == s.take(i),
    decreases i,
{
    if i == 0 {
        assert(s.take(0) =~= Seq::<char>::empty());
    } else {
        assert(s.first() != ',');
        let s1 = s.drop_first();
        assert forall|j: int| 0 <= j < i - 1 implies s1[j] != ',' by {
            assert(s1[j] == s[j + 1]);
        }
        lemma_comma_token(s1, i - 1);
        assert(seq![s.first()] + s1.take(i - 1) =~= s.take(i));
    }
}

/// The client IP a proxy header names: the first comma-separated token,
/// trimmed; `"unknown"` when no usable header came.  The caller picks the
/// header (`CF-Connecting-IP` first, else `X-Forwarded-For`).
pub fn resolve_client_ip(header_value: Option<&str>) -> (r: ClientIp)
    ensures
        r.0@ == (match header_value {
            Some(v) => crate::health::trim_sp(comma_token(v@)),
            None => "unknown"@,
        }),
{
    match header_value {
        Some(v) => {
            let n = v.unicode_len();
            let mut i: usize = 0;
            while i < n && v.get_char(i) != ','
                invariant
                    0 <= i <= n,
                    n == v@.len(),
                    forall|j: int| 0 <= j < i ==> v@[j] != ',',
                decreases n - i,
            {
                i = i + 1;
            }
            proof {
                lemma_comma_token(v@, i as int);
            }
            let tok = v.substring_char(0, i);
            proof {
                assert(v@.subrange(0, i as int) =~= v@.take(i as int));
            }
            ClientIp(crate::health::trim_spaces(tok).to_owned())
        },
        None => ClientIp(String::from_str("unknown")),
    }
}

/// The count an IP holds in the per-IP map; absent means zero.
pub open spec fn ip_count(per_ip: Map<Seq<char>, u32>, ip: Seq<char>) -> u32 {
    if per_ip.contains_key(ip) {
        per_ip[ip]
    } else {
        0
    }
}

/// Whether one more connection from `ip` fits under both caps.
pub open spec fn fits(
    total: u32,
    per_ip: Map<Seq<char>, u32>,
    max_total: u32,
    max_per_ip: u32,
    ip: Seq<char>,
) -> bool {
    &&& !(max_total > 0 && total >= max_total)
    &&& !(max_per_ip > 0 && ip_count(per_ip, ip) >= max_per_ip)
}

/// One more, stopping at the top of `u32` (an unlimited tracker must not
/// overflow its counters).
pub open spec fn sat_inc(n: u32) -> u32 {
    if n < u32::MAX {
        (n + 1) as u32
    } else {
        n
    }
}

/// Tracks WebSocket connection counts for global and per-IP limits.
pub struct ConnectionTracker {
    pub total: u32,
    pub per_ip: AList<u32>,
    pub max_total: u32,
    pub max_per_ip: u32,
}

impl ConnectionTracker {
    /// Only positive counts are kept; an IP that drops to zero is deleted.
    pub open spec fn wf(&self) -> bool {
        &&& self.per_ip.wf()
        &&& forall|i: int| 0 <= i < self.per_ip.entries@.len()
            ==> (#[trigger] self.per_ip.entries@[i]).1 >= 1
    }

    pub fn new(max_total: u32, max_per_ip: u32) -> (r: Self)
        ensures
            r.wf(),
            r.total == 0,
            r.per_ip@ == Map::<Seq<char>, u32>::empty(),
            r.max_total == max_total,
            r.max_per_ip == max_per_ip,
    {
        ConnectionTracker { total: 0, per_ip: AList::new(), max_total, max_per_ip }
    }

    /// Whether a new connection from this IP would be under the limits;
    /// counts nothing.
    pub fn can_accept(&self, ip: &String) -> (r: bool)
        requires
            self.wf(),
        ensures
            r == fits(self.total, self.per_ip@, self.max_total, self.max_per_ip, ip@),
    {
        if self.max_total > 0 && self.total >= self.max_total {
            return false;
        }
        if self.max_per_ip > 0 {
            let per = match self.per_ip.get(ip) {
                Some(n) => *n,
                None => 0,
            };
            if per >= self.max_per_ip {
                return false;
            }
        }
        true
    }

    /// Count a new connection when it fits; over a limit nothing changes and
    /// the registration is refused.
    pub fn try_register(&mut self, ip: &String) -> (r: Result<(), ()>)
        requires
            old(self).wf(),
        ensures
            final(self).wf(),
            r is Ok <==> fits(
                old(self).total,
                old(self).per_ip@,
                old(self).max_total,
                old(self).max_per_ip,
                ip@,
            ),
            final(self).max_total == old(self).max_total,
            final(self).max_per_ip == old(self).max_per_ip,
            r is Ok ==> final(self).total == sat_inc(old(self).total) && final(self).per_ip@
                == old(self).per_ip@.insert(ip@, sat_inc(ip_count(old(self).per_ip@, ip@))),
            r is Err ==> final(self).total == old(self).total && final(self).per_ip@ == old(
                self,
            ).per_ip@,
    {
        if self.max_total > 0 && self.total >= self.max_total {
            return Err(());
        }
        let per = match self.per_ip.get(ip) {
            Some(n) => *n,
            None => 0,
        };
        if self.max_per_ip > 0 && per >= self.max_per_ip {
            return Err(());
        }
        proof {
            if self.max_total > 0 {
                assert(self.total < self.max_total);
            }
            crate::kv::lemma_kv_contains(self.per_ip.entries@, ip@);
            if self.per_ip@.contains_key(ip@) {
                let i = choose|i: int|
                    0 <= i < self.per_ip.entries@.len() && self.per_ip.entries@[i].0@ == ip@;
                crate::kv::lemma_kv_get(self.per_ip.entries@, i);
            }
        }
        // An unlimited tracker saturates rather than overflowing its counts.
        self.total = if self.total < u32::MAX {
            self.total + 1
        } else {
            self.total
        };
        let next = if per < u32::MAX {
            per + 1
        } else {
            per
        };
        self.per_ip.insert(ip.clone(), next);
        Ok(())
    }

    /// Forget one connection from this IP; counts saturate at zero to
    /// tolerate accounting races on crash paths.
    pub fn unregister(&mut self, ip: &String)
        requires
            old(self).wf(),
        ensures
            final(self).wf(),
            final(self).max_total == old(self).max_total,
            final(self).max_per_ip == old(self).max_per_ip,
            final(self).total == (if old(self).total > 0 {
                (old(self).total - 1) as u32
            } else {
                0u32
            }),
            final(self).per_ip@ == (if ip_count(old(self).per_ip@, ip@) > 1 {
                old(self).per_ip@.insert(ip@, (ip_count(old(self).per_ip@, ip@) - 1) as u32)
            } else {
                old(self).per_ip@.remove(ip@)
            }),
    {
        proof {
            crate::kv::lemma_kv_contains(self.per_ip.entries@, ip@);
        }
        match self.per_ip.get(ip) {
            Some(n) => {
                let n = *n;
                if n > 1 {
                    self.per_ip.insert(ip.clone(), n - 1);
                } else {
                    self.per_ip.remove(ip);
                }
            },
            None => {
                proof {
                    assert(self.per_ip@ =~= old(self).per_ip@.remove(ip@));
                }
            },
        }
        self.total = if self.total > 0 {
            self.total - 1
        } else {
            0
        };
    }
}

} // verus!
