use vstd::prelude::*;

use crate::server::{ServerConfig, ServerView};

verus! {

/// A live outbound connection: the server it is bound to, if any, and the
/// caller's handle on the connection itself.
pub struct LiveConnection<H> {
    pub server: Option<ServerConfig>,
    pub handle: H,
}

/// Whether `c` is bound to a server equal by value to `v`.
pub open spec fn bound_to<H>(c: LiveConnection<H>, v: ServerView) -> bool {
    match c.server {
        Some(s) => s@ == v,
        None => false,
    }
}

/// The connections among the first `n` of `s` whose entry in `alive` is
/// true, in their order.
pub open spec fn survivors<H>(s: Seq<LiveConnection<H>>, alive: Seq<bool>, n: int) -> Seq<
    LiveConnection<H>,
>
    decreases n,
{
    if n <= 0 {
        Seq::empty()
    } else {
        let p = survivors(s, alive, n - 1);
        if alive[n - 1] {
            p.push(s[n - 1])
        } else {
            p
        }
    }
}

/// The live connections, in the order they were opened.
pub struct ConnectionRegistry<H> {
    conns: Vec<LiveConnection<H>>,
}

impl<H> View for ConnectionRegistry<H> {
    type V = Seq<LiveConnection<H>>;

    closed spec fn view(&self) -> Seq<LiveConnection<H>> {
        self.conns@
    }
}

impl<H> ConnectionRegistry<H> {
    pub fn new() -> (r: ConnectionRegistry<H>)
        ensures
            r@ == Seq::<LiveConnection<H>>::empty(),
    {
        ConnectionRegistry { conns: Vec::new() }
    }

    pub fn len(&self) -> (r: usize)
        ensures
            r == self@.len(),
    {
        self.conns.len()
    }

    pub fn handle(&self, i: usize) -> (r: &H)
        requires
            i < self@.len(),
        ensures
            *r == self@[i as int].handle,
    {
        &self.conns[i].handle
    }

    pub fn server_of(&self, i: usize) -> (r: &Option<ServerConfig>)
        requires
            i < self@.len(),
        ensures
            *r == self@[i as int].server,
    {
        &self.conns[i].server
    }

    /// Registers a newly established connection, bound to `server` or, for
    /// a direct connection, to none.
    pub fn insert(&mut self, server: Option<ServerConfig>, handle: H)
        ensures
            final(self)@ == old(self)@.push(LiveConnection { server, handle }),
    {
        self.conns.push(LiveConnection { server, handle });
    }

    /// Removes every connection that `alive`, taken at call time, reports
    /// dead; the others stay, in their order.
    pub fn prune(&mut self, alive: &Vec<bool>)
        requires
            alive@.len() == old(self)@.len(),
        ensures
            final(self)@ == survivors(old(self)@, alive@, old(self)@.len() as int),
    {
        let ghost start = self.conns@;
        let n = self.conns.len();
        let mut k: usize = 0;
        let mut pos: usize = 0;
        while k < n
            invariant
                0 <= k <= n,
                n == start.len(),
                alive@.len() == n,
                pos <= k,
                pos == survivors(start, alive@, k as int).len(),
                self.conns@ == survivors(start, alive@, k as int) + start.subrange(k as int, n as int),
            decreases n - k,
        {
            let ghost kept = survivors(start, alive@, k as int);
            proof {
                assert(self.conns@[pos as int] == start[k as int]);
            }
            if alive[k] {
                pos = pos + 1;
                assert(self.conns@ =~= kept.push(start[k as int]) + start.subrange(
                    k as int + 1,
                    n as int,
                ));
            } else {
                self.conns.remove(pos);
                assert(self.conns@ =~= kept + start.subrange(k as int + 1, n as int));
            }
            k = k + 1;
        }
        assert(self.conns@ =~= survivors(start, alive@, n as int));
    }

    /// The positions, ascending, of exactly the connections bound to a
    /// server equal by value to `server`: those to shut down when it is
    /// demoted. Direct connections and those on other servers are not
    /// among them.
    pub fn shutdown_for(&self, server: &ServerConfig) -> (r: Vec<usize>)
        ensures
            forall|a: int, b: int| 0 <= a < b < r@.len() ==> r@[a] < r@[b],
            forall|a: int|
                0 <= a < r@.len() ==> #[trigger] r@[a] < self@.len() && bound_to(
                    self@[r@[a] as int],
                    server@,
                ),
            forall|i: int|
                0 <= i < self@.len() && bound_to(#[trigger] self@[i], server@) ==> r@.contains(
                    i as usize,
                ),
    {
        let mut out: Vec<usize> = Vec::new();
        let mut i: usize = 0;
        while i < self.conns.len()
            invariant
                0 <= i <= self@.len(),
                forall|a: int, b: int| 0 <= a < b < out@.len() ==> out@[a] < out@[b],
                forall|a: int|
                    0 <= a < out@.len() ==> #[trigger] out@[a] < i && bound_to(
                        self@[out@[a] as int],
                        server@,
                    ),
                forall|j: int|
                    0 <= j < i && bound_to(#[trigger] self@[j], server@) ==> out@.contains(
                        j as usize,
                    ),
            decreases self@.len() - i,
        {
            let hit = match &self.conns[i].server {
                Some(s) => s.same_as(server),
                None => false,
            };
            if hit {
                let ghost before = out@;
                out.push(i);
                assert forall|j: int|
                    0 <= j < i + 1 && bound_to(#[trigger] self@[j], server@) implies out@.contains(
                    j as usize,
                ) by {
                    if j < i {
                        let a = choose|a: int| 0 <= a < before.len() && before[a] == j as usize;
                        assert(out@[a] == j as usize);
                    } else {
                        assert(out@[out@.len() - 1] == j as usize);
                    }
                }
            }
            i = i + 1;
        }
        out
    }
}

} // verus!
