use vstd::prelude::*;
use vstd::string::*;

verus! {

/// What to do next while probing one server.
#[derive(Clone, Copy, Debug, PartialEq, Eq, Structural)]
pub enum ProbeStep {
    /// Probe the target at this index, through the server.
    Probe(usize),
    /// A probe failed: the server is unhealthy this cycle and its live
    /// connections are to be shut down.
    Failed,
    /// Every probe succeeded; the latency in nanoseconds.
    Healthy(u64),
}

/// Progress of probing one server against every target in order.
/// Probing stops at the first failure.
pub struct ServerProbe {
    targets: usize,
    next: usize,
    failed: bool,
    started_ns: u64,
}

impl ServerProbe {
    pub closed spec fn targets(&self) -> nat {
        self.targets as nat
    }

    /// Number of targets that answered so far.
    pub closed spec fn done(&self) -> nat {
        self.next as nat
    }

    pub closed spec fn has_failed(&self) -> bool {
        self.failed
    }

    pub closed spec fn started(&self) -> nat {
        self.started_ns as nat
    }

    pub closed spec fn wf(&self) -> bool {
        self.next <= self.targets
    }

    /// Starts probing `targets` targets at time `now_ns`.
    pub fn start(targets: usize, now_ns: u64) -> (r: ServerProbe)
        ensures
            r.wf(),
            r.targets() == targets,
            r.done() == 0,
            !r.has_failed(),
            r.started() == now_ns,
    {
        ServerProbe { targets, next: 0, failed: false, started_ns: now_ns }
    }

    /// The next step, at time `now_ns`. The latency of a healthy server is
    /// the time from the start of its first probe to the end of its last.
    pub fn next_step(&self, now_ns: u64) -> (r: ProbeStep)
        requires
            self.wf(),
            now_ns >= self.started(),
        ensures
            self.has_failed() ==> r == ProbeStep::Failed,
            !self.has_failed() && self.done() < self.targets() ==> r == ProbeStep::Probe(
                self.done() as usize,
            ),
            !self.has_failed() && self.done() == self.targets() ==> r == ProbeStep::Healthy(
                (now_ns - self.started()) as u64,
            ),
    {
        if self.failed {
            ProbeStep::Failed
        } else if self.next < self.targets {
            ProbeStep::Probe(self.next)
        } else {
            ProbeStep::Healthy(now_ns - self.started_ns)
        }
    }

    /// Records the outcome of the probe that `next_step` asked for:
    /// success moves on to the next target, anything else (timeout,
    /// connection or I/O error) fails the server.
    pub fn record(&mut self, ok: bool)
        requires
            old(self).wf(),
            !old(self).has_failed(),
            old(self).done() < old(self).targets(),
        ensures
            final(self).wf(),
            final(self).targets() == old(self).targets(),
            final(self).started() == old(self).started(),
            ok ==> !final(self).has_failed() && final(self).done() == old(self).done() + 1,
            !ok ==> final(self).has_failed() && final(self).done() == old(self).done(),
    {
        if ok {
            self.next = self.next + 1;
        } else {
            self.failed = true;
        }
    }
}

/// The minimal request sent to a probe target: an HTTP/1.1 `GET` of `path`.
pub fn probe_request(path: &str) -> (r: String)
    ensures
        r@ == "GET "@ + path@ + " HTTP/1.1\r\n\r\n"@,
{
    let mut r = String::from_str("GET ");
    r.append(path);
    r.append(" HTTP/1.1\r\n\r\n");
    r
}

/// How one server fared in a probing cycle: its index among the configured
/// servers and, where every probe succeeded, its latency in nanoseconds.
#[derive(Clone, Copy, Debug, PartialEq, Eq, Structural)]
pub struct ProbeResult {
    pub server: usize,
    pub latency_ns: Option<u64>,
}

/// A server that passed every probe, with its latency.
#[derive(Clone, Copy, Debug, PartialEq, Eq, Structural)]
pub struct Ranked {
    pub server: usize,
    pub latency_ns: u64,
}

/// The servers that passed every probe, in the order of `rs`.
pub open spec fn successes(rs: Seq<ProbeResult>) -> Seq<Ranked>
    decreases rs.len(),
{
    if rs.len() == 0 {
        Seq::empty()
    } else {
        let prev = successes(rs.drop_last());
        match rs.last().latency_ns {
            Some(l) => prev.push(Ranked { server: rs.last().server, latency_ns: l }),
            None => prev,
        }
    }
}

/// `x` placed after every trailing element of `s` whose latency exceeds
/// its own.
pub open spec fn insert_ranked(s: Seq<Ranked>, x: Ranked) -> Seq<Ranked>
    decreases s.len(),
{
    if s.len() == 0 || s.last().latency_ns <= x.latency_ns {
        s.push(x)
    } else {
        insert_ranked(s.drop_last(), x).push(s.last())
    }
}

/// The stable sort of `s` by ascending latency: entries of equal latency
/// keep their relative order.
pub open spec fn ranked(s: Seq<Ranked>) -> Seq<Ranked>
    decreases s.len(),
{
    if s.len() == 0 {
        s
    } else {
        insert_ranked(ranked(s.drop_last()), s.last())
    }
}

pub open spec fn latency_sorted(s: Seq<Ranked>) -> bool {
    forall|i: int, j: int| 0 <= i < j < s.len() ==> s[i].latency_ns <= s[j].latency_ns
}

proof fn lemma_insert_ranked_sorted(s: Seq<Ranked>, x: Ranked)
    requires
        latency_sorted(s),
    ensures
        latency_sorted(insert_ranked(s, x)),
        insert_ranked(s, x).to_multiset() == s.to_multiset().insert(x),
    decreases s.len(),
{
    if s.len() == 0 || s.last().latency_ns <= x.latency_ns {
        s.to_multiset_ensures();
    } else {
        let p = s.drop_last();
        assert(latency_sorted(p));
        lemma_insert_ranked_sorted(p, x);
        let q = insert_ranked(p, x);
        q.to_multiset_ensures();
        p.to_multiset_ensures();
        assert(s == p.push(s.last()));
        s.to_multiset_ensures();
        assert forall|i: int| 0 <= i < q.len() implies q[i].latency_ns <= s.last().latency_ns by {
            assert(q.to_multiset().count(q[i]) > 0);
            if q[i] != x {
                assert(p.to_multiset().count(q[i]) > 0);
                let k = choose|k: int| 0 <= k < p.len() && p[k] == q[i];
                assert(p[k] == s[k]);
            }
        }
        assert(latency_sorted(q.push(s.last())));
    }
}

/// Ranking orders by non-decreasing latency and keeps every success.
pub proof fn lemma_ranked_sorted(s: Seq<Ranked>)
    ensures
        latency_sorted(ranked(s)),
        ranked(s).to_multiset() == s.to_multiset(),
    decreases s.len(),
{
    if s.len() == 0 {
        s.to_multiset_ensures();
    } else {
        let p = s.drop_last();
        lemma_ranked_sorted(p);
        lemma_insert_ranked_sorted(ranked(p), s.last());
        assert(s == p.push(s.last()));
        p.to_multiset_ensures();
    }
}

proof fn lemma_insert_ranked_at(s: Seq<Ranked>, x: Ranked, j: int)
    requires
        0 <= j <= s.len(),
        forall|k: int| j <= k < s.len() ==> s[k].latency_ns > x.latency_ns,
        j == 0 || s[j - 1].latency_ns <= x.latency_ns,
    ensures
        insert_ranked(s, x) == s.insert(j, x),
    decreases s.len(),
{
    if s.len() == 0 || s.last().latency_ns <= x.latency_ns {
        assert(j == s.len());
        assert(s.insert(j, x) =~= s.push(x));
    } else {
        let p = s.drop_last();
        lemma_insert_ranked_at(p, x, j);
        assert(s.insert(j, x) =~= p.insert(j, x).push(s.last()));
    }
}

/// Ranks the servers that passed every probe by ascending latency; servers
/// of equal latency keep the order in which their results came in.
pub fn rank_successes(results: &Vec<ProbeResult>) -> (r: Vec<Ranked>)
    ensures
        r@ == ranked(successes(results@)),
{
    let mut out: Vec<Ranked> = Vec::new();
    let mut i: usize = 0;
    while i < results.len()
        invariant
            0 <= i <= results@.len(),
            out@ == ranked(successes(results@.subrange(0, i as int))),
        decreases results@.len() - i,
    {
        let res = results[i];
        let ghost prev = successes(results@.subrange(0, i as int));
        assert(results@.subrange(0, i as int + 1).drop_last() == results@.subrange(0, i as int));
        assert(results@.subrange(0, i as int + 1).last() == res);
        match res.latency_ns {
            Some(l) => {
                let x = Ranked { server: res.server, latency_ns: l };
                let mut j: usize = out.len();
                while j > 0 && out[j - 1].latency_ns > l
                    invariant
                        0 <= j <= out@.len(),
                        forall|k: int| j <= k < out@.len() ==> out@[k].latency_ns > l,
                    decreases j,
                {
                    j = j - 1;
                }
                proof {
                    lemma_insert_ranked_at(out@, x, j as int);
                }
                out.insert(j, x);
                assert(prev.push(x).drop_last() == prev);
                assert(successes(results@.subrange(0, i as int + 1)) == prev.push(x));
            },
            None => {},
        }
        i = i + 1;
    }
    assert(results@.subrange(0, results@.len() as int) == results@);
    out
}

/// Whether some entry of `s` is for the server at index `k`.
pub open spec fn names(s: Seq<Ranked>, k: usize) -> bool {
    exists|i: int| 0 <= i < s.len() && #[trigger] s[i].server == k
}

/// No two entries of `s` are for the same server.
pub open spec fn distinct_servers(s: Seq<Ranked>) -> bool {
    forall|i: int, j: int| 0 <= i < j < s.len() ==> s[i].server != s[j].server
}

/// No two results are for the same server.
pub open spec fn distinct_results(rs: Seq<ProbeResult>) -> bool {
    forall|i: int, j: int| 0 <= i < j < rs.len() ==> rs[i].server != rs[j].server
}

proof fn lemma_insert_ranked_names(s: Seq<Ranked>, x: Ranked)
    ensures
        forall|k: usize| #[trigger] names(insert_ranked(s, x), k) == (names(s, k) || k == x.server),
        distinct_servers(s) && !names(s, x.server) ==> distinct_servers(insert_ranked(s, x)),
    decreases s.len(),
{
    let q = insert_ranked(s, x);
    if s.len() == 0 || s.last().latency_ns <= x.latency_ns {
        assert forall|k: usize| #[trigger] names(q, k) == (names(s, k) || k == x.server) by {
            if names(s, k) {
                let i = choose|i: int| 0 <= i < s.len() && #[trigger] s[i].server == k;
                assert(q[i] == s[i]);
            }
            if k == x.server {
                assert(q[s.len() as int] == x);
            }
        }
    } else {
        let p = s.drop_last();
        lemma_insert_ranked_names(p, x);
        let r = insert_ranked(p, x);
        assert(q == r.push(s.last()));
        assert forall|k: usize| #[trigger] names(q, k) == (names(s, k) || k == x.server) by {
            assert(names(r, k) == (names(p, k) || k == x.server));
            if names(q, k) {
                let i = choose|i: int| 0 <= i < q.len() && #[trigger] q[i].server == k;
                if i < r.len() {
                    assert(names(r, k));
                    if names(p, k) {
                        let j = choose|j: int| 0 <= j < p.len() && #[trigger] p[j].server == k;
                        assert(s[j] == p[j]);
                    }
                } else {
                    assert(s[s.len() - 1].server == k);
                }
            }
            if names(s, k) {
                let i = choose|i: int| 0 <= i < s.len() && #[trigger] s[i].server == k;
                if i < p.len() {
                    assert(p[i] == s[i]);
                    assert(names(p, k));
                    let j = choose|j: int| 0 <= j < r.len() && #[trigger] r[j].server == k;
                    assert(q[j] == r[j]);
                } else {
                    assert(q[r.len() as int] == s.last());
                }
            }
            if k == x.server {
                assert(names(r, k));
                let j = choose|j: int| 0 <= j < r.len() && #[trigger] r[j].server == k;
                assert(q[j] == r[j]);
            }
        }
        if distinct_servers(s) && !names(s, x.server) {
            assert(distinct_servers(p));
            assert(!names(p, x.server)) by {
                if names(p, x.server) {
                    let j = choose|j: int| 0 <= j < p.len() && #[trigger] p[j].server == x.server;
                    assert(s[j] == p[j]);
                }
            }
            assert(!names(r, s.last().server)) by {
                if names(r, s.last().server) {
                    assert(names(p, s.last().server) || s.last().server == x.server);
                    if names(p, s.last().server) {
                        let j = choose|j: int| 0 <= j < p.len() && #[trigger] p[j].server
                            == s.last().server;
                        assert(s[j] == p[j]);
                    } else {
                        assert(names(s, x.server));
                    }
                }
            }
            assert forall|i: int, j: int| 0 <= i < j < q.len() implies q[i].server
                != q[j].server by {
                if j == r.len() {
                    assert(q[i] == r[i]);
                    assert(names(r, r[i].server));
                } else {
                    assert(q[i] == r[i] && q[j] == r[j]);
                }
            }
        }
    }
}

proof fn lemma_ranked_names(s: Seq<Ranked>)
    ensures
        forall|k: usize| #[trigger] names(ranked(s), k) == names(s, k),
        distinct_servers(s) ==> distinct_servers(ranked(s)),
    decreases s.len(),
{
    if s.len() > 0 {
        let p = s.drop_last();
        lemma_ranked_names(p);
        lemma_insert_ranked_names(ranked(p), s.last());
        assert forall|k: usize| #[trigger] names(ranked(s), k) == names(s, k) by {
            if names(p, k) {
                let j = choose|j: int| 0 <= j < p.len() && #[trigger] p[j].server == k;
                assert(s[j] == p[j]);
            }
            if names(s, k) {
                let j = choose|j: int| 0 <= j < s.len() && #[trigger] s[j].server == k;
                if j < p.len() {
                    assert(s[j] == p[j]);
                }
            }
        }
        if distinct_servers(s) {
            assert(distinct_servers(p));
            assert(!names(p, s.last().server)) by {
                if names(p, s.last().server) {
                    let j = choose|j: int| 0 <= j < p.len() && #[trigger] p[j].server
                        == s.last().server;
                    assert(s[j] == p[j]);
                }
            }
        }
    }
}

proof fn lemma_successes_names(rs: Seq<ProbeResult>)
    ensures
        forall|k: usize|
            #[trigger] names(successes(rs), k) ==> exists|i: int|
                0 <= i < rs.len() && rs[i].server == k,
        distinct_results(rs) ==> distinct_servers(successes(rs)),
    decreases rs.len(),
{
    if rs.len() > 0 {
        let p = rs.drop_last();
        lemma_successes_names(p);
        let prev = successes(p);
        assert forall|k: usize| #[trigger] names(successes(rs), k) implies exists|i: int|
            0 <= i < rs.len() && rs[i].server == k by {
            let j = choose|j: int|
                0 <= j < successes(rs).len() && #[trigger] successes(rs)[j].server == k;
            if j < prev.len() {
                assert(successes(rs)[j] == prev[j]);
                assert(names(prev, k));
                let i = choose|i: int| 0 <= i < p.len() && p[i].server == k;
                assert(rs[i] == p[i]);
            } else {
                assert(rs[rs.len() - 1].server == k);
            }
        }
        if distinct_results(rs) {
            assert(distinct_results(p));
            assert(!names(prev, rs.last().server)) by {
                if names(prev, rs.last().server) {
                    let i = choose|i: int| 0 <= i < p.len() && p[i].server == rs.last().server;
                    assert(rs[i] == p[i]);
                }
            }
            assert forall|i: int, j: int|
                0 <= i < j < successes(rs).len() implies successes(rs)[i].server != successes(
                rs,
            )[j].server by {
                if j < prev.len() {
                    assert(successes(rs)[i] == prev[i] && successes(rs)[j] == prev[j]);
                } else {
                    assert(successes(rs)[i] == prev[i]);
                    assert(names(prev, prev[i].server));
                }
            }
        }
    }
}

/// Every ranked success is for a server that some result names, below
/// `bound` when all results are; results for distinct servers give ranked
/// entries for distinct servers.
pub proof fn lemma_ranked_successes(rs: Seq<ProbeResult>, bound: usize)
    requires
        forall|i: int| 0 <= i < rs.len() ==> #[trigger] rs[i].server < bound,
    ensures
        forall|j: int|
            0 <= j < ranked(successes(rs)).len() ==> #[trigger] ranked(successes(rs))[j].server
                < bound,
        distinct_results(rs) ==> distinct_servers(ranked(successes(rs))),
{
    let ok = ranked(successes(rs));
    lemma_ranked_names(successes(rs));
    lemma_successes_names(rs);
    assert forall|j: int| 0 <= j < ok.len() implies #[trigger] ok[j].server < bound by {
        assert(names(ok, ok[j].server));
        assert(names(successes(rs), ok[j].server));
        let i = choose|i: int| 0 <= i < rs.len() && rs[i].server == ok[j].server;
    }
}

proof fn lemma_successes_entries(rs: Seq<ProbeResult>)
    ensures
        forall|k: int|
            0 <= k < successes(rs).len() ==> exists|j: int|
                0 <= j < rs.len() && rs[j].server == (#[trigger] successes(rs)[k]).server
                    && rs[j].latency_ns == Some(successes(rs)[k].latency_ns),
        forall|j: int|
            0 <= j < rs.len() && (#[trigger] rs[j]).latency_ns is Some ==> successes(rs).contains(
                Ranked { server: rs[j].server, latency_ns: rs[j].latency_ns->0 },
            ),
    decreases rs.len(),
{
    if rs.len() > 0 {
        let p = rs.drop_last();
        lemma_successes_entries(p);
        let prev = successes(p);
        let cur = successes(rs);
        assert forall|k: int| 0 <= k < cur.len() implies exists|j: int|
            0 <= j < rs.len() && rs[j].server == (#[trigger] cur[k]).server && rs[j].latency_ns
                == Some(cur[k].latency_ns) by {
            if k < prev.len() {
                assert(cur[k] == prev[k]);
                let j = choose|j: int|
                    0 <= j < p.len() && p[j].server == prev[k].server && p[j].latency_ns == Some(
                        prev[k].latency_ns,
                    );
                assert(rs[j] == p[j]);
            } else {
                assert(rs[rs.len() - 1].server == cur[k].server);
            }
        }
        assert forall|j: int|
            0 <= j < rs.len() && (#[trigger] rs[j]).latency_ns is Some implies cur.contains(
            Ranked { server: rs[j].server, latency_ns: rs[j].latency_ns->0 },
        ) by {
            let x = Ranked { server: rs[j].server, latency_ns: rs[j].latency_ns->0 };
            if j < p.len() {
                assert(p[j] == rs[j]);
                assert(prev.contains(x));
                let k = choose|k: int| 0 <= k < prev.len() && prev[k] == x;
                assert(cur[k] == prev[k]);
            } else {
                assert(cur[cur.len() - 1] == x);
            }
        }
    }
}

/// One probing cycle over three servers in which the servers at positions
/// 0 and 2 pass every probe, with latencies `la` and `lc`, and the server at
/// position 1 fails: whatever order the results came in, the ranking holds
/// exactly the servers at positions 0 and 2, the faster one first.
pub proof fn lemma_one_of_three_fails(rs: Seq<ProbeResult>, la: u64, lc: u64)
    requires
        rs.len() == 3,
        distinct_results(rs),
        forall|i: int| 0 <= i < 3 ==> #[trigger] rs[i].server < 3,
        forall|i: int| 0 <= i < 3 && #[trigger] rs[i].server == 0 ==> rs[i].latency_ns == Some(la),
        forall|i: int| 0 <= i < 3 && #[trigger] rs[i].server == 1 ==> rs[i].latency_ns is None,
        forall|i: int| 0 <= i < 3 && #[trigger] rs[i].server == 2 ==> rs[i].latency_ns == Some(lc),
    ensures
        ranked(successes(rs)).len() == 2,
        names(ranked(successes(rs)), 0),
        names(ranked(successes(rs)), 2),
        !names(ranked(successes(rs)), 1),
        la < lc ==> ranked(successes(rs)) == seq![
            Ranked { server: 0, latency_ns: la },
            Ranked { server: 2, latency_ns: lc },
        ],
        lc < la ==> ranked(successes(rs)) == seq![
            Ranked { server: 2, latency_ns: lc },
            Ranked { server: 0, latency_ns: la },
        ],
{
    let s = successes(rs);
    let ok = ranked(s);
    let a = Ranked { server: 0, latency_ns: la };
    let c = Ranked { server: 2, latency_ns: lc };
    lemma_successes_entries(rs);
    lemma_successes_names(rs);
    lemma_ranked_names(s);
    lemma_ranked_sorted(s);
    s.to_multiset_ensures();
    ok.to_multiset_ensures();
    // every entry is `a` or `c`
    assert forall|k: int| 0 <= k < s.len() implies #[trigger] s[k] == a || s[k] == c by {
        let j = choose|j: int|
            0 <= j < rs.len() && rs[j].server == s[k].server && rs[j].latency_ns == Some(
                s[k].latency_ns,
            );
    }
    // both are present
    assert(rs[0].server != rs[1].server && rs[0].server != rs[2].server && rs[1].server
        != rs[2].server);
    assert forall|j: int| 0 <= j < 3 && (rs[j].server == 0 || rs[j].server == 2) implies s.contains(
        if rs[j].server == 0 { a } else { c },
    ) by {
        assert(rs[j].latency_ns is Some);
    }
    if rs[0].server != 0 && rs[1].server != 0 {
        assert(rs[2].server == 0);
    }
    if rs[0].server != 2 && rs[1].server != 2 {
        assert(rs[2].server == 2);
    }
    assert(s.contains(a));
    assert(s.contains(c));
    assert(s.len() == 2) by {
        if s.len() > 2 {
            assert(s[0].server != s[1].server && s[0].server != s[2].server && s[1].server
                != s[2].server);
        }
        if s.len() < 2 {
            let ka = choose|k: int| 0 <= k < s.len() && s[k] == a;
            let kc = choose|k: int| 0 <= k < s.len() && s[k] == c;
        }
    }
    assert(ok.to_multiset().len() == s.to_multiset().len());
    assert(ok.len() == 2);
    assert(ok.contains(a)) by {
        assert(s.to_multiset().count(a) > 0);
    }
    assert(ok.contains(c)) by {
        assert(s.to_multiset().count(c) > 0);
    }
    assert(names(ok, 0)) by {
        let k = choose|k: int| 0 <= k < ok.len() && ok[k] == a;
    }
    assert(names(ok, 2)) by {
        let k = choose|k: int| 0 <= k < ok.len() && ok[k] == c;
    }
    assert(!names(ok, 1)) by {
        if names(ok, 1) {
            assert(names(s, 1));
            let k = choose|k: int| 0 <= k < s.len() && #[trigger] s[k].server == 1;
        }
    }
    let ka = choose|k: int| 0 <= k < ok.len() && ok[k] == a;
    let kc = choose|k: int| 0 <= k < ok.len() && ok[k] == c;
    if la < lc {
        assert(ok =~= seq![a, c]);
    }
    if lc < la {
        assert(ok =~= seq![c, a]);
    }
}

} // verus!
