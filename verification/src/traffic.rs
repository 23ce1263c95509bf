//! Traffic statistics from the proxy worker's JSON-lines log: how many
//! connections went through the proxy or directly, the most recent events,
//! and the hosts reached through the proxy most often.

use vstd::prelude::*;

use crate::json::{json_accepts, json_from_str, json_str_at, str_or_empty, string_member};
use crate::text::{
    chars_of, find, find_chars, lines, lines_chars, str_eq, string_of, string_views, sub_chars,
    trim, trim_chars, views,
};

verus! {

/// Bytes of the log that are read: its last mebibyte.
pub const MAX_LOG_BYTES: u64 = 1048576;

/// How many recent events are reported.
pub const RECENT_LIMIT: usize = 240;

/// How many proxied hosts are reported.
pub const HOST_LIMIT: usize = 24;

/// One logged connection: its log line, and the `route` and `host` string
/// members of the event (empty when absent).
pub struct TrafficEvent {
    pub line: String,
    pub route: String,
    pub host: String,
}

/// A host and how many proxied connections went to it.
pub struct HostCount {
    pub host: String,
    pub count: usize,
}

/// The summary of a traffic log.
pub struct TrafficStats {
    pub total: usize,
    pub proxy: usize,
    pub direct: usize,
    /// Log lines of the most recent events, newest first.
    pub recent: Vec<String>,
    /// The most-used proxied hosts, most-used first.
    pub proxy_hosts: Vec<HostCount>,
}

/// An event as (line, route, host).
pub type EventModel = (Seq<char>, Seq<char>, Seq<char>);

pub open spec fn event_models(v: Seq<TrafficEvent>) -> Seq<EventModel> {
    v.map_values(|e: TrafficEvent| (e.line@, e.route@, e.host@))
}

pub open spec fn host_models(v: Seq<HostCount>) -> Seq<(Seq<char>, nat)> {
    v.map_values(|h: HostCount| (h.host@, h.count as nat))
}

/// Where reading starts in a log of `len` bytes: the last mebibyte.
pub fn tail_offset(len: u64) -> (r: Option<u64>)
    ensures
        r == if len > MAX_LOG_BYTES {
            Some((len - MAX_LOG_BYTES) as u64)
        } else {
            None::<u64>
        },
{
    if len > MAX_LOG_BYTES {
        Some(len - MAX_LOG_BYTES)
    } else {
        None
    }
}

/// Text read from the middle of the log starts with a partial line, which
/// is dropped (up to and including the first line break).
pub open spec fn whole_lines(text: Seq<char>, truncated: bool) -> Seq<char> {
    if truncated {
        match find(text, seq!['\n']) {
            Some(i) => text.skip(i + 1),
            None => text,
        }
    } else {
        text
    }
}

/// Drops the partial first line of text read from the middle of the log.
pub fn skip_partial_line(text: &str, truncated: bool) -> (r: String)
    ensures
        r@ == whole_lines(text@, truncated),
{
    if !truncated {
        return String::from_str(text);
    }
    let t = chars_of(text);
    let tl = t.len();
    let mut nl: Vec<char> = Vec::new();
    nl.push('\n');
    match find_chars(&t, &nl) {
        Some(i) => {
            proof {
                crate::text::lemma_find(t@, nl@);
                assert(nl@ =~= seq!['\n']);
                assert(crate::text::match_at(t@, nl@, i as int));
                assert(i + 1 <= t@.len());
            }
            let rest = sub_chars(&t, i + 1, tl);
            proof {
                assert(rest@ =~= t@.skip(i + 1));
            }
            string_of(&rest)
        },
        None => {
            proof {
                assert(nl@ =~= seq!['\n']);
            }
            String::from_str(text)
        },
    }
}

/// A line that holds more than whitespace and is a JSON document.
pub open spec fn is_event_line(l: Seq<char>) -> bool {
    trim(l).len() > 0 && json_accepts(l)
}

/// The event a log line records: the line, its `route` and its `host`
/// string members (empty when absent).
pub open spec fn event_of_line(line: Seq<char>) -> EventModel {
    (line, str_or_empty(json_str_at(line, "route"@)), str_or_empty(json_str_at(line, "host"@)))
}

/// The events of a list of log lines: one for each non-blank line that is
/// a JSON document, in order.
pub open spec fn log_events(ls: Seq<Seq<char>>) -> Seq<EventModel>
    decreases ls.len(),
{
    if ls.len() == 0 {
        seq![]
    } else if is_event_line(ls.last()) {
        log_events(ls.drop_last()).push(event_of_line(ls.last()))
    } else {
        log_events(ls.drop_last())
    }
}

/// Parses one log line into an event; `None` when it is not JSON.
pub fn traffic_event(line: &str) -> (r: Option<TrafficEvent>)
    ensures
        r is Some == json_accepts(line@),
        r matches Some(e) ==> (e.line@, e.route@, e.host@) == event_of_line(line@),
{
    match json_from_str(line) {
        Ok(_) => {
            let route = string_member(line, "route");
            let host = string_member(line, "host");
            Some(TrafficEvent { line: String::from_str(line), route, host })
        },
        Err(_) => None,
    }
}

/// The events of a log text: its non-blank lines that parse as JSON.
pub fn traffic_events(text: &str) -> (r: Vec<TrafficEvent>)
    ensures
        event_models(r@) == log_events(lines(text@)),
{
    let chars = chars_of(text);
    let ls = lines_chars(&chars);
    let mut out: Vec<TrafficEvent> = Vec::new();
    let mut i: usize = 0;
    while i < ls.len()
        invariant
            i <= ls@.len(),
            views(ls@) == lines(text@),
            event_models(out@) == log_events(views(ls@).take(i as int)),
        decreases ls@.len() - i,
    {
        let ghost before = event_models(out@);
        let line = &ls[i];
        let trimmed = trim_chars(line.as_slice());
        proof {
            assert(views(ls@).take(i + 1).drop_last() =~= views(ls@).take(i as int));
            assert(views(ls@).take(i + 1).last() == line@);
        }
        if trimmed.len() > 0 {
            let s = string_of(line.as_slice());
            match traffic_event(s.as_str()) {
                Some(e) => {
                    out.push(e);
                    proof {
                        assert(event_models(out@) =~= before.push(event_of_line(line@)));
                    }
                },
                None => {},
            }
        }
        i = i + 1;
    }
    proof {
        assert(views(ls@).take(i as int) =~= views(ls@));
    }
    out
}

/// Events that went through the proxy.
pub open spec fn route_count(evs: Seq<EventModel>, route: Seq<char>) -> nat
    decreases evs.len(),
{
    if evs.len() == 0 {
        0
    } else {
        route_count(evs.drop_last(), route) + if evs.last().1 == route {
            1nat
        } else {
            0nat
        }
    }
}

/// Proxied events to a host.
pub open spec fn host_count(evs: Seq<EventModel>, host: Seq<char>) -> nat
    decreases evs.len(),
{
    if evs.len() == 0 {
        0
    } else {
        host_count(evs.drop_last(), host) + if evs.last().1 == "proxy"@ && evs.last().2 == host {
            1nat
        } else {
            0nat
        }
    }
}

/// The host appears in the list.
pub open spec fn listed(hs: Seq<(Seq<char>, nat)>, host: Seq<char>) -> bool {
    exists|i: int| 0 <= i < hs.len() && #[trigger] hs[i].0 == host
}

/// The reported hosts: at most `HOST_LIMIT` distinct non-empty hosts with
/// their proxied-connection counts, most-used first, and no host left out
/// unless the list is full and it was used no more than every listed one.
pub open spec fn top_hosts(evs: Seq<EventModel>, hs: Seq<(Seq<char>, nat)>) -> bool {
    &&& hs.len() <= HOST_LIMIT
    &&& forall|i: int|
        0 <= i < hs.len() ==> (#[trigger] hs[i]).0.len() > 0 && hs[i].1 == host_count(
            evs,
            hs[i].0,
        ) && hs[i].1 > 0
    &&& forall|i: int, j: int| 0 <= i < j < hs.len() ==> (#[trigger] hs[i]).0 != (#[trigger] hs[j]).0
    &&& forall|i: int, j: int| 0 <= i < j < hs.len() ==> (#[trigger] hs[i]).1 >= (#[trigger] hs[j]).1
    &&& forall|h: Seq<char>|
        h.len() > 0 && #[trigger] host_count(evs, h) > 0 && !listed(hs, h) ==> hs.len() == HOST_LIMIT
            && forall|i: int| 0 <= i < hs.len() ==> (#[trigger] hs[i]).1 >= host_count(evs, h)
}

/// The recent events: the last `RECENT_LIMIT` log lines, newest first.
pub open spec fn recent_lines(evs: Seq<EventModel>, recent: Seq<Seq<char>>) -> bool {
    let n = evs.len();
    &&& recent.len() == if n < RECENT_LIMIT {
        n
    } else {
        RECENT_LIMIT as nat
    }
    &&& forall|i: int| 0 <= i < recent.len() ==> #[trigger] recent[i] == evs[n - 1 - i].0
}

/// The summary of a list of events.
pub open spec fn summarizes(evs: Seq<EventModel>, st: TrafficStats) -> bool {
    &&& st.total == evs.len()
    &&& st.proxy == route_count(evs, "proxy"@)
    &&& st.direct == route_count(evs, "direct"@)
    &&& recent_lines(evs, string_views(st.recent@))
    &&& top_hosts(evs, host_models(st.proxy_hosts@))
}



/// Every listed host is non-empty, distinct and carries its count, and
/// every non-empty host with proxied events is listed.
pub open spec fn complete_counts(evs: Seq<EventModel>, am: Seq<(Seq<char>, nat)>) -> bool {
    &&& forall|k: int|
        0 <= k < am.len() ==> (#[trigger] am[k]).0.len() > 0 && am[k].1 == host_count(evs, am[k].0)
            && am[k].1 > 0
    &&& forall|a: int, b: int| 0 <= a < b < am.len() ==> (#[trigger] am[a]).0 != (#[trigger] am[b]).0
    &&& forall|h: Seq<char>| h.len() > 0 && #[trigger] host_count(evs, h) > 0 ==> listed(am, h)
}

pub proof fn lemma_host_count_bound(evs: Seq<EventModel>, h: Seq<char>)
    ensures
        host_count(evs, h) <= evs.len(),
    decreases evs.len(),
{
    if evs.len() > 0 {
        lemma_host_count_bound(evs.drop_last(), h);
    }
}

pub proof fn lemma_route_count_bound(evs: Seq<EventModel>, r: Seq<char>)
    ensures
        route_count(evs, r) <= evs.len(),
    decreases evs.len(),
{
    if evs.len() > 0 {
        lemma_route_count_bound(evs.drop_last(), r);
    }
}

/// Index of the entry for a host.
fn find_host(agg: &Vec<HostCount>, host: &str) -> (r: Option<usize>)
    ensures
        match r {
            Some(k) => k < agg@.len() && agg@[k as int].host@ == host@,
            None => forall|k: int| 0 <= k < agg@.len() ==> agg@[k].host@ != host@,
        },
{
    let mut k: usize = 0;
    while k < agg.len()
        invariant
            k <= agg@.len(),
            forall|j: int| 0 <= j < k ==> agg@[j].host@ != host@,
        decreases agg@.len() - k,
    {
        if str_eq(agg[k].host.as_str(), host) {
            return Some(k);
        }
        k = k + 1;
    }
    None
}

/// Proxied events per non-empty host, in order of first appearance.
pub fn count_proxy_hosts(events: &Vec<TrafficEvent>) -> (r: Vec<HostCount>)
    ensures
        complete_counts(event_models(events@), host_models(r@)),
        r@.len() <= events@.len(),
{
    let ghost ev = event_models(events@);
    let mut agg: Vec<HostCount> = Vec::new();
    let mut i: usize = 0;
    proof {
        assert forall|h: Seq<char>| h.len() > 0 && #[trigger] host_count(ev.take(0), h) > 0 implies listed(
            host_models(agg@),
            h,
        ) by {
            assert(ev.take(0).len() == 0);
        }
    }
    while i < events.len()
        invariant
            i <= events@.len(),
            ev == event_models(events@),
            complete_counts(ev.take(i as int), host_models(agg@)),
            agg@.len() <= i,
        decreases events@.len() - i,
    {
        let ghost p = ev.take(i as int);
        let ghost q = ev.take(i + 1);
        let ghost am = host_models(agg@);
        let e = &events[i];
        let is_proxy = str_eq(e.route.as_str(), "proxy");
        let host_len = chars_of(e.host.as_str()).len();
        proof {
            assert(q.drop_last() =~= p);
            assert(q.last() == ev[i as int]);
            assert(ev[i as int] == (e.line@, e.route@, e.host@));
            assert forall|h: Seq<char>| #[trigger] host_count(q, h) == host_count(p, h) + if is_proxy
                && e.host@ == h {
                1nat
            } else {
                0nat
            } by {}
        }
        if is_proxy && host_len > 0 {
            match find_host(&agg, e.host.as_str()) {
                Some(k) => {
                    let c = agg[k].count;
                    proof {
                        assert(am[k as int].1 == host_count(p, e.host@));
                        lemma_host_count_bound(p, e.host@);
                    }
                    let h = agg[k].host.clone();
                    agg.set(k, HostCount { host: h, count: c + 1 });
                    proof {
                        let am2 = host_models(agg@);
                        assert(am2 =~= am.update(k as int, (e.host@, (c + 1) as nat)));
                        assert forall|j: int| 0 <= j < am2.len() implies (#[trigger] am2[j]).0.len()
                            > 0 && am2[j].1 == host_count(q, am2[j].0) && am2[j].1 > 0 by {
                            if j != k {
                                assert(am[j].0 != am[k as int].0);
                            }
                        }
                        assert forall|h: Seq<char>| h.len() > 0 && #[trigger] host_count(q, h)
                            > 0 implies listed(am2, h) by {
                            if h == e.host@ {
                                assert(am2[k as int].0 == h);
                            } else {
                                assert(host_count(p, h) > 0);
                                assert(listed(am, h));
                                let j = choose|j: int| 0 <= j < am.len() && #[trigger] am[j].0 == h;
                                assert(am2[j].0 == h);
                            }
                        }
                    }
                },
                None => {
                    let h = e.host.clone();
                    agg.push(HostCount { host: h, count: 1 });
                    proof {
                        let am2 = host_models(agg@);
                        assert(am2 =~= am.push((e.host@, 1nat)));
                        assert(!listed(am, e.host@));
                        assert(host_count(p, e.host@) == 0);
                        assert forall|j: int| 0 <= j < am2.len() implies (#[trigger] am2[j]).0.len()
                            > 0 && am2[j].1 == host_count(q, am2[j].0) && am2[j].1 > 0 by {
                            if j < am.len() {
                                assert(am2[j] == am[j]);
                                assert(am[j].0 != e.host@);
                            }
                        }
                        assert forall|a: int, b: int| 0 <= a < b < am2.len() implies (
                        #[trigger] am2[a]).0 != (#[trigger] am2[b]).0 by {
                            if b == am.len() {
                                assert(am2[a] == am[a]);
                            } else {
                                assert(am2[a] == am[a]);
                                assert(am2[b] == am[b]);
                            }
                        }
                        assert forall|h: Seq<char>| h.len() > 0 && #[trigger] host_count(q, h)
                            > 0 implies listed(am2, h) by {
                            if h == e.host@ {
                                assert(am2[am.len() as int].0 == h);
                            } else {
                                assert(host_count(p, h) > 0);
                                assert(listed(am, h));
                                let j = choose|j: int| 0 <= j < am.len() && #[trigger] am[j].0 == h;
                                assert(am2[j].0 == h);
                            }
                        }
                    }
                },
            }
        } else {
            proof {
                assert forall|j: int| 0 <= j < am.len() implies (#[trigger] am[j]).0.len() > 0
                    && am[j].1 == host_count(q, am[j].0) && am[j].1 > 0 by {
                    if e.host@ == am[j].0 {
                        assert(e.host@.len() == host_len);
                    }
                }
                assert forall|h: Seq<char>| h.len() > 0 && #[trigger] host_count(q, h) > 0 implies listed(
                    am,
                    h,
                ) by {
                    if is_proxy && e.host@ == h {
                        assert(e.host@.len() == host_len);
                    }
                    assert(host_count(p, h) > 0);
                }
            }
        }
        i = i + 1;
    }
    proof {
        assert(ev.take(i as int) =~= ev);
    }
    agg
}


/// `x` is one of the first `j` entries of `am`.
pub open spec fn among(x: (Seq<char>, nat), am: Seq<(Seq<char>, nat)>, j: int) -> bool {
    exists|b: int| 0 <= b < j && #[trigger] am[b] == x
}

/// The counts never increase along the list.
pub open spec fn by_count_desc(sm: Seq<(Seq<char>, nat)>) -> bool {
    forall|a: int, b: int| 0 <= a < b < sm.len() ==> (#[trigger] sm[a]).1 >= (#[trigger] sm[b]).1
}

/// No host occurs twice.
pub open spec fn distinct_hosts(sm: Seq<(Seq<char>, nat)>) -> bool {
    forall|a: int, b: int| 0 <= a < b < sm.len() ==> (#[trigger] sm[a]).0 != (#[trigger] sm[b]).0
}

fn copy_host(h: &HostCount) -> (r: HostCount)
    ensures
        r.host@ == h.host@,
        r.count == h.count,
{
    HostCount { host: h.host.clone(), count: h.count }
}

/// The hosts ordered by count, largest first.
pub fn sort_by_count(hosts: &Vec<HostCount>) -> (r: Vec<HostCount>)
    requires
        distinct_hosts(host_models(hosts@)),
    ensures
        r@.len() == hosts@.len(),
        by_count_desc(host_models(r@)),
        distinct_hosts(host_models(r@)),
        forall|a: int|
            0 <= a < r@.len() ==> among(
                #[trigger] host_models(r@)[a],
                host_models(hosts@),
                hosts@.len() as int,
            ),
        forall|b: int|
            0 <= b < hosts@.len() ==> among(
                #[trigger] host_models(hosts@)[b],
                host_models(r@),
                r@.len() as int,
            ),
{
    let ghost am = host_models(hosts@);
    let mut sorted: Vec<HostCount> = Vec::new();
    let mut j: usize = 0;
    while j < hosts.len()
        invariant
            j <= hosts@.len(),
            am == host_models(hosts@),
            distinct_hosts(am),
            sorted@.len() == j,
            by_count_desc(host_models(sorted@)),
            distinct_hosts(host_models(sorted@)),
            forall|a: int|
                0 <= a < sorted@.len() ==> among(#[trigger] host_models(sorted@)[a], am, j as int),
            forall|b: int|
                0 <= b < j ==> among(#[trigger] am[b], host_models(sorted@), sorted@.len() as int),
        decreases hosts@.len() - j,
    {
        let ghost sm = host_models(sorted@);
        let x = copy_host(&hosts[j]);
        let ghost xm = (x.host@, x.count as nat);
        assert(xm == am[j as int]);
        let mut p: usize = 0;
        while p < sorted.len() && sorted[p].count >= x.count
            invariant
                p <= sorted@.len(),
                sm == host_models(sorted@),
                forall|a: int| 0 <= a < p ==> (#[trigger] sm[a]).1 >= x.count,
            decreases sorted@.len() - p,
        {
            p = p + 1;
        }
        sorted.insert(p, x);
        proof {
            let sm2 = host_models(sorted@);
            assert(sm2 =~= sm.insert(p as int, xm));
            sm.insert_ensures(p as int, xm);
            assert forall|a: int| 0 <= a < sm2.len() implies sm2[a] == if a < p {
                sm[a]
            } else if a == p {
                xm
            } else {
                sm[a - 1]
            } by {
                if a > p {
                    assert(sm2[(a - 1) + 1] == sm[a - 1]);
                }
            }
            assert forall|a: int, b: int| 0 <= a < b < sm2.len() implies (#[trigger] sm2[a]).1
                >= (#[trigger] sm2[b]).1 by {
                if a < p && b == p {
                } else if a == p && b > p {
                    if b - 1 >= p && p < sm.len() {
                        assert(sm[p as int].1 < x.count || p == sm.len());
                        assert(sm[p as int].1 >= sm[b - 1].1 || b - 1 == p);
                    }
                } else if a < p && b > p {
                    assert(sm[a].1 >= sm[b - 1].1);
                }
            }
            assert forall|a: int| 0 <= a < sm.len() implies (#[trigger] sm[a]).0 != xm.0 by {
                assert(among(sm[a], am, j as int));
                let b = choose|b: int| 0 <= b < j && #[trigger] am[b] == sm[a];
                assert(am[b].0 != am[j as int].0);
            }
            assert forall|a: int, b: int| 0 <= a < b < sm2.len() implies (#[trigger] sm2[a]).0
                != (#[trigger] sm2[b]).0 by {
                if b < p {
                    assert(sm2[a] == sm[a]);
                    assert(sm2[b] == sm[b]);
                } else if a < p && b == p {
                } else if a == p {
                    assert(sm2[b] == sm[b - 1]);
                } else if a < p && b > p {
                    assert(sm2[b] == sm[b - 1]);
                } else {
                    assert(sm2[a] == sm[a - 1]);
                    assert(sm2[b] == sm[b - 1]);
                }
            }
            assert forall|a: int| 0 <= a < sm2.len() implies among(
                #[trigger] sm2[a],
                am,
                j + 1,
            ) by {
                if a == p {
                    assert(am[j as int] == sm2[a]);
                } else {
                    let a0 = if a < p {
                        a
                    } else {
                        a - 1
                    };
                    assert(sm2[a] == sm[a0]);
                    assert(among(sm[a0], am, j as int));
                    let b = choose|b: int| 0 <= b < j && #[trigger] am[b] == sm[a0];
                    assert(am[b] == sm2[a]);
                }
            }
            assert forall|b: int| 0 <= b < j + 1 implies among(
                #[trigger] am[b],
                sm2,
                sm2.len() as int,
            ) by {
                if b == j {
                    assert(sm2[p as int] == am[b]);
                } else {
                    assert(among(am[b], sm, sm.len() as int));
                    let a = choose|a: int| 0 <= a < sm.len() && #[trigger] sm[a] == am[b];
                    if a < p {
                        assert(sm2[a] == am[b]);
                    } else {
                        assert(sm2[a + 1] == am[b]);
                    }
                }
            }
        }
        j = j + 1;
    }
    sorted
}


/// Summarizes a list of traffic events.
pub fn tally_traffic(events: &Vec<TrafficEvent>) -> (r: TrafficStats)
    ensures
        summarizes(event_models(events@), r),
{
    let ghost ev = event_models(events@);
    let n = events.len();
    let mut proxy: usize = 0;
    let mut direct: usize = 0;
    let mut i: usize = 0;
    while i < n
        invariant
            n == events@.len(),
            i <= n,
            ev == event_models(events@),
            proxy == route_count(ev.take(i as int), "proxy"@),
            direct == route_count(ev.take(i as int), "direct"@),
        decreases n - i,
    {
        proof {
            assert(ev.take(i + 1).drop_last() =~= ev.take(i as int));
            lemma_route_count_bound(ev.take(i as int), "proxy"@);
            lemma_route_count_bound(ev.take(i as int), "direct"@);
        }
        if str_eq(events[i].route.as_str(), "proxy") {
            proxy = proxy + 1;
        } else if str_eq(events[i].route.as_str(), "direct") {
            direct = direct + 1;
        }
        proof {
            reveal_strlit("proxy");
            reveal_strlit("direct");
            assert("proxy"@.len() != "direct"@.len());
            assert(ev.take(i + 1).last() == ev[i as int]);
        }
        i = i + 1;
    }
    proof {
        assert(ev.take(n as int) =~= ev);
    }
    let keep = if n < RECENT_LIMIT {
        n
    } else {
        RECENT_LIMIT
    };
    let mut recent: Vec<String> = Vec::new();
    let mut k: usize = 0;
    while k < keep
        invariant
            n == events@.len(),
            keep <= n,
            k <= keep,
            ev == event_models(events@),
            recent@.len() == k,
            forall|j: int| 0 <= j < k ==> #[trigger] recent@[j]@ == ev[n - 1 - j].0,
        decreases keep - k,
    {
        recent.push(events[n - 1 - k].line.clone());
        k = k + 1;
    }
    let counted = count_proxy_hosts(events);
    let mut hosts = sort_by_count(&counted);
    let ghost am = host_models(counted@);
    let ghost sm = host_models(hosts@);
    hosts.truncate(HOST_LIMIT);
    let r = TrafficStats { total: n, proxy, direct, recent, proxy_hosts: hosts };
    proof {
        let fm = host_models(r.proxy_hosts@);
        let m = fm.len();
        assert(fm =~= sm.take(m as int));
        assert(string_views(r.recent@).len() == k);
        assert forall|j: int| 0 <= j < k implies #[trigger] string_views(r.recent@)[j] == ev[n
            - 1 - j].0 by {}
        assert forall|i: int| 0 <= i < m implies (#[trigger] fm[i]).0.len() > 0 && fm[i].1
            == host_count(ev, fm[i].0) && fm[i].1 > 0 by {
            assert(fm[i] == sm[i]);
            assert(among(sm[i], am, am.len() as int));
            let b = choose|b: int| 0 <= b < am.len() && #[trigger] am[b] == sm[i];
            assert(am[b] == fm[i]);
        }
        assert forall|i: int, j: int| 0 <= i < j < m implies (#[trigger] fm[i]).0 != (
        #[trigger] fm[j]).0 by {
            assert(fm[i] == sm[i] && fm[j] == sm[j]);
        }
        assert forall|i: int, j: int| 0 <= i < j < m implies (#[trigger] fm[i]).1 >= (
        #[trigger] fm[j]).1 by {
            assert(fm[i] == sm[i] && fm[j] == sm[j]);
        }
        assert forall|h: Seq<char>| h.len() > 0 && #[trigger] host_count(ev, h) > 0 && !listed(
            fm,
            h,
        ) implies m == HOST_LIMIT && forall|i: int|
            0 <= i < m ==> (#[trigger] fm[i]).1 >= host_count(ev, h) by {
            assert(listed(am, h));
            let b = choose|b: int| 0 <= b < am.len() && #[trigger] am[b].0 == h;
            assert(among(am[b], sm, sm.len() as int));
            let a = choose|a: int| 0 <= a < sm.len() && #[trigger] sm[a] == am[b];
            if a < m {
                assert(fm[a].0 == h);
            }
            assert forall|i: int| 0 <= i < m implies (#[trigger] fm[i]).1 >= host_count(ev, h) by {
                assert(fm[i] == sm[i]);
            }
        }
    }
    r
}

/// The summary of a log text: the events of its whole lines, tallied.
/// `truncated` says that the text starts in the middle of the log.
pub fn read_traffic_stats(text: &str, truncated: bool) -> (r: TrafficStats)
    ensures
        summarizes(log_events(lines(whole_lines(text@, truncated))), r),
{
    let body = skip_partial_line(text, truncated);
    let events = traffic_events(body.as_str());
    tally_traffic(&events)
}


/// Proxied and direct connections together never outnumber all connections,
/// and no host has more proxied connections than the proxy count.
pub proof fn law_counts_consistent(evs: Seq<EventModel>, host: Seq<char>)
    ensures
        route_count(evs, "proxy"@) + route_count(evs, "direct"@) <= evs.len(),
        host_count(evs, host) <= route_count(evs, "proxy"@),
    decreases evs.len(),
{
    reveal_strlit("proxy");
    reveal_strlit("direct");
    if evs.len() > 0 {
        law_counts_consistent(evs.drop_last(), host);
        assert("proxy"@.len() != "direct"@.len());
    }
}

} // verus!
