use vstd::prelude::*;

use crate::probe::{
    distinct_results, lemma_one_of_three_fails, lemma_ranked_sorted, lemma_ranked_successes,
    latency_sorted, rank_successes, ranked, successes, ProbeResult, Ranked,
};
use crate::server::{contains_server, holds_server, Action, PingURL, ServerConfig};

verus! {

/// The state of a [`ServerChooser`].
pub struct ChooserView {
    /// Every configured server, in configuration order.
    pub servers: Seq<ServerConfig>,
    /// Servers usable right now, best first.
    pub candidates: Seq<ServerConfig>,
    /// Where each candidate stands among the configured servers.
    pub candidate_positions: Seq<int>,
    /// The server new proxied connections go through.
    pub selected: ServerConfig,
    pub ping_urls: Seq<PingURL>,
    pub ping_timeout_ms: u64,
}

impl ChooserView {
    /// Health checking runs only with at least one probe target and more
    /// than one server to choose from.
    pub open spec fn pings(&self) -> bool {
        self.ping_urls.len() > 0 && self.servers.len() > 1
    }
}

/// The positions of the configured servers that `r` names, in the order of `r`.
pub open spec fn positions_of(r: Seq<Ranked>) -> Seq<int> {
    r.map_values(|x: Ranked| x.server as int)
}

/// The configured servers that `r` names, in the order of `r`.
pub open spec fn servers_of(all: Seq<ServerConfig>, r: Seq<Ranked>) -> Seq<ServerConfig> {
    r.map_values(|x: Ranked| all[x.server as int])
}

/// Chooses the upstream server for proxied connections and fails over to
/// the best-ranked candidate when the selected one goes bad.
pub struct ServerChooser {
    servers: Vec<ServerConfig>,
    ping_urls: Vec<PingURL>,
    ping_timeout_ms: u64,
    candidates: Vec<ServerConfig>,
    selected: ServerConfig,
    positions: Ghost<Seq<int>>,
}

impl View for ServerChooser {
    type V = ChooserView;

    closed spec fn view(&self) -> ChooserView {
        ChooserView {
            servers: self.servers@,
            candidates: self.candidates@,
            candidate_positions: self.positions@,
            selected: self.selected,
            ping_urls: self.ping_urls@,
            ping_timeout_ms: self.ping_timeout_ms,
        }
    }
}

fn copy_servers(v: &Vec<ServerConfig>) -> (r: Vec<ServerConfig>)
    ensures
        r@ == v@,
{
    let mut out: Vec<ServerConfig> = Vec::new();
    let mut i: usize = 0;
    while i < v.len()
        invariant
            0 <= i <= v@.len(),
            out@ == v@.subrange(0, i as int),
        decreases v@.len() - i,
    {
        out.push(v[i].duplicate());
        i = i + 1;
    }
    assert(v@.subrange(0, v@.len() as int) == v@);
    out
}

/// Three configured servers `[a, b, c]`, two probe targets: `a` and `c`
/// pass both, with latencies `la` and `lc`, and `b` fails one. Whatever
/// order the results came in, the candidates that `apply_ping_results`
/// sets are `a` and `c`, the faster first, and `b` is not among them.
pub proof fn lemma_failing_server_excluded(
    servers: Seq<ServerConfig>,
    rs: Seq<ProbeResult>,
    la: u64,
    lc: u64,
)
    requires
        servers.len() == 3,
        rs.len() == 3,
        distinct_results(rs),
        forall|i: int| 0 <= i < 3 ==> #[trigger] rs[i].server < 3,
        forall|i: int| 0 <= i < 3 && #[trigger] rs[i].server == 0 ==> rs[i].latency_ns == Some(la),
        forall|i: int| 0 <= i < 3 && #[trigger] rs[i].server == 1 ==> rs[i].latency_ns is None,
        forall|i: int| 0 <= i < 3 && #[trigger] rs[i].server == 2 ==> rs[i].latency_ns == Some(lc),
    ensures
        ranked(successes(rs)).len() == 2,
        !positions_of(ranked(successes(rs))).contains(1),
        la < lc ==> servers_of(servers, ranked(successes(rs))) == seq![servers[0], servers[2]],
        lc < la ==> servers_of(servers, ranked(successes(rs))) == seq![servers[2], servers[0]],
        la == lc ==> servers_of(servers, ranked(successes(rs))).contains(servers[0])
            && servers_of(servers, ranked(successes(rs))).contains(servers[2]),
{
    lemma_one_of_three_fails(rs, la, lc);
    let ok = ranked(successes(rs));
    let sv = servers_of(servers, ok);
    assert(!positions_of(ok).contains(1)) by {
        if positions_of(ok).contains(1) {
            let k = choose|k: int| 0 <= k < ok.len() && positions_of(ok)[k] == 1;
            assert(ok[k].server == 1);
        }
    }
    if la < lc {
        assert(sv =~= seq![servers[0], servers[2]]);
    }
    if lc < la {
        assert(sv =~= seq![servers[2], servers[0]]);
    }
    let k0 = choose|k: int| 0 <= k < ok.len() && #[trigger] ok[k].server == 0;
    let k2 = choose|k: int| 0 <= k < ok.len() && #[trigger] ok[k].server == 2;
    assert(sv[k0] == servers[0]);
    assert(sv[k2] == servers[2]);
}

impl ServerChooser {
    /// There is always at least one candidate; the candidates are
    /// configured servers taken from distinct positions, so none is a
    /// candidate twice; the selected server is a configured server.
    pub open spec fn wf(&self) -> bool {
        &&& self@.servers.len() > 0
        &&& self@.candidates.len() > 0
        &&& self@.candidate_positions.len() == self@.candidates.len()
        &&& self@.candidate_positions.no_duplicates()
        &&& forall|i: int|
            0 <= i < self@.candidates.len() ==> 0 <= #[trigger] self@.candidate_positions[i]
                < self@.servers.len() && self@.candidates[i]
                == self@.servers[self@.candidate_positions[i]]
        &&& self@.servers.contains(self@.selected)
    }

    /// A chooser over `servers`, all of them candidates, the first one
    /// selected. Health checking is left to the caller.
    pub fn new(servers: Vec<ServerConfig>, ping_urls: Vec<PingURL>, ping_timeout_ms: u64) -> (r:
        ServerChooser)
        requires
            servers@.len() > 0,
        ensures
            r.wf(),
            r@.servers == servers@,
            r@.candidates == servers@,
            r@.candidate_positions == Seq::new(servers@.len(), |i: int| i),
            r@.selected == servers@[0],
            r@.ping_urls == ping_urls@,
            r@.ping_timeout_ms == ping_timeout_ms,
    {
        let candidates = copy_servers(&servers);
        let selected = servers[0].duplicate();
        let ghost positions = Seq::new(servers@.len(), |i: int| i);
        let r = ServerChooser {
            servers,
            ping_urls,
            ping_timeout_ms,
            candidates,
            selected,
            positions: Ghost(positions),
        };
        assert(r@.servers[0] == r@.selected);
        r
    }

    pub fn servers(&self) -> (r: &Vec<ServerConfig>)
        ensures
            r@ == self@.servers,
    {
        &self.servers
    }

    pub fn candidates(&self) -> (r: &Vec<ServerConfig>)
        ensures
            r@ == self@.candidates,
    {
        &self.candidates
    }

    pub fn selected_server(&self) -> (r: &ServerConfig)
        ensures
            *r == self@.selected,
    {
        &self.selected
    }

    pub fn ping_urls(&self) -> (r: &Vec<PingURL>)
        ensures
            r@ == self@.ping_urls,
    {
        &self.ping_urls
    }

    pub fn ping_timeout_ms(&self) -> (r: u64)
        ensures
            r == self@.ping_timeout_ms,
    {
        self.ping_timeout_ms
    }

    /// Whether a health-checking cycle has anything to rank.
    pub fn should_ping(&self) -> (r: bool)
        ensures
            r == self@.pings(),
    {
        self.ping_urls.len() > 0 && self.servers.len() > 1
    }

    /// Selects the best-ranked candidate. Returns the server that was
    /// selected before, whose live connections are to be shut down; with no
    /// candidate nothing changes and `None` comes back.
    pub fn move_to_next_server(&mut self) -> (demoted: Option<ServerConfig>)
        requires
            old(self).wf(),
        ensures
            final(self).wf(),
            final(self)@.servers == old(self)@.servers,
            final(self)@.candidates == old(self)@.candidates,
            final(self)@.candidate_positions == old(self)@.candidate_positions,
            final(self)@.ping_urls == old(self)@.ping_urls,
            final(self)@.ping_timeout_ms == old(self)@.ping_timeout_ms,
            old(self)@.candidates.len() == 0 ==> final(self)@.selected == old(self)@.selected
                && demoted is None,
            old(self)@.candidates.len() > 0 ==> final(self)@.selected == old(self)@.candidates[0]
                && demoted == Some(old(self)@.selected),
    {
        if self.candidates.len() == 0 {
            return None;
        }
        let new = self.candidates[0].duplicate();
        let old_selected = self.selected.duplicate();
        self.selected = new;
        proof {
            assert(self@.servers[self@.candidate_positions[0]] == self@.candidates[0]);
        }
        Some(old_selected)
    }

    /// Applies the outcome of one health-checking cycle, given in the order
    /// the probes completed. The servers that passed every probe, ranked by
    /// latency, replace the candidates; when none passed the candidates stay.
    /// If the selected server is then not a candidate, the best candidate is
    /// selected and the former selection comes back, for its connections to
    /// be shut down. Without anything to rank nothing changes.
    pub fn apply_ping_results(&mut self, results: &Vec<ProbeResult>) -> (demoted: Option<
        ServerConfig,
    >)
        requires
            old(self).wf(),
            forall|i: int|
                0 <= i < results@.len() ==> #[trigger] results@[i].server < old(self)@.servers.len(),
            distinct_results(results@),
        ensures
            final(self).wf(),
            final(self)@.servers == old(self)@.servers,
            final(self)@.ping_urls == old(self)@.ping_urls,
            final(self)@.ping_timeout_ms == old(self)@.ping_timeout_ms,
            !old(self)@.pings() ==> final(self)@ == old(self)@ && demoted is None,
            old(self)@.pings() ==> ({
                let before = old(self)@;
                let after = final(self)@;
                let ok = ranked(successes(results@));
                &&& ok.len() == 0 ==> after.candidates == before.candidates
                    && after.candidate_positions == before.candidate_positions
                &&& ok.len() > 0 ==> after.candidates == servers_of(before.servers, ok)
                    && after.candidate_positions == positions_of(ok) && latency_sorted(ok)
                &&& holds_server(after.candidates, before.selected@) ==> after.selected
                    == before.selected && demoted is None
                &&& !holds_server(after.candidates, before.selected@) ==> after.selected
                    == after.candidates[0] && demoted == Some(before.selected)
            }),
    {
        if !self.should_ping() {
            return None;
        }
        let ok = rank_successes(results);
        proof {
            lemma_ranked_sorted(successes(results@));
            lemma_ranked_successes(results@, self.servers.len());
        }
        if ok.len() > 0 {
            let mut fresh: Vec<ServerConfig> = Vec::new();
            let mut k: usize = 0;
            while k < ok.len()
                invariant
                    0 <= k <= ok@.len(),
                    forall|j: int| 0 <= j < ok@.len() ==> #[trigger] ok@[j].server < self.servers@.len(),
                    fresh@ == servers_of(self.servers@, ok@.subrange(0, k as int)),
                decreases ok@.len() - k,
            {
                fresh.push(self.servers[ok[k].server].duplicate());
                proof {
                    assert(ok@.subrange(0, k as int + 1) == ok@.subrange(0, k as int).push(ok@[k as int]));
                    assert(fresh@ =~= servers_of(self.servers@, ok@.subrange(0, k as int + 1)));
                }
                k = k + 1;
            }
            assert(ok@.subrange(0, ok@.len() as int) == ok@);
            self.candidates = fresh;
            self.positions = Ghost(positions_of(ok@));
            proof {
                assert forall|i: int, j: int|
                    0 <= i < self.positions@.len() && 0 <= j < self.positions@.len() && i != j
                    implies self.positions@[i] != self.positions@[j] by {
                    if i < j {
                        assert(ok@[i].server != ok@[j].server);
                    } else {
                        assert(ok@[j].server != ok@[i].server);
                    }
                }
            }
        }
        if contains_server(&self.candidates, &self.selected) {
            None
        } else {
            self.move_to_next_server()
        }
    }

    /// The server a new connection under `action` goes through: none for a
    /// direct connection, the selected server for a proxied one.
    pub fn route_for(&self, action: Action) -> (r: Option<ServerConfig>)
        requires
            action != Action::Reject,
        ensures
            action == Action::Direct ==> r is None,
            action == Action::Proxy ==> r == Some(self@.selected),
    {
        match action {
            Action::Proxy => Some(self.selected.duplicate()),
            _ => None,
        }
    }

    /// Reacts to a failed attempt to open a connection under `action`. A
    /// failure through the selected server moves to the next server, and the
    /// former selection comes back for its connections to be shut down; a
    /// direct failure changes nothing.
    pub fn connect_failed(&mut self, action: Action) -> (demoted: Option<ServerConfig>)
        requires
            old(self).wf(),
            action != Action::Reject,
        ensures
            final(self).wf(),
            action == Action::Direct ==> final(self)@ == old(self)@ && demoted is None,
            action == Action::Proxy ==> final(self)@.servers == old(self)@.servers
                && final(self)@.candidates == old(self)@.candidates
                && final(self)@.candidate_positions == old(self)@.candidate_positions
                && final(self)@.ping_urls == old(self)@.ping_urls
                && final(self)@.ping_timeout_ms == old(self)@.ping_timeout_ms
                && final(self)@.selected == old(self)@.candidates[0]
                && demoted == Some(old(self)@.selected),
    {
        match action {
            Action::Proxy => self.move_to_next_server(),
            _ => None,
        }
    }
}

} // verus!
