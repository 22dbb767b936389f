use vstd::prelude::*;

verus! {

/// The value of a [`ServerConfig`]: two configurations denote the same
/// server exactly when their views are equal.
pub struct ServerView {
    pub name: Seq<char>,
    pub addr: Seq<char>,
    pub settings: Seq<char>,
}

/// A configured upstream proxy server.
#[derive(Clone, Debug)]
pub struct ServerConfig {
    /// Human-readable name.
    pub name: String,
    /// Network address, `host:port`.
    pub addr: String,
    /// What the transport needs to connect through this server
    /// (cipher, credentials, ...), opaque to the chooser.
    pub settings: String,
}

impl View for ServerConfig {
    type V = ServerView;

    open spec fn view(&self) -> ServerView {
        ServerView { name: self.name@, addr: self.addr@, settings: self.settings@ }
    }
}

impl ServerConfig {
    pub fn new(name: String, addr: String, settings: String) -> (r: ServerConfig)
        ensures
            r.name == name,
            r.addr == addr,
            r.settings == settings,
    {
        ServerConfig { name, addr, settings }
    }

    /// Compares two configurations by value.
    pub fn same_as(&self, other: &ServerConfig) -> (r: bool)
        ensures
            r == (self@ == other@),
    {
        let a = self.name == other.name;
        let b = self.addr == other.addr;
        let c = self.settings == other.settings;
        a && b && c
    }

    /// A copy of this configuration, equal to it field by field.
    pub fn duplicate(&self) -> (r: ServerConfig)
        ensures
            r == *self,
    {
        ServerConfig {
            name: self.name.clone(),
            addr: self.addr.clone(),
            settings: self.settings.clone(),
        }
    }
}

impl PartialEq for ServerConfig {
    fn eq(&self, other: &ServerConfig) -> (r: bool) {
        self.same_as(other)
    }
}

impl vstd::std_specs::cmp::PartialEqSpecImpl for ServerConfig {
    open spec fn obeys_eq_spec() -> bool {
        true
    }

    open spec fn eq_spec(&self, other: &ServerConfig) -> bool {
        self@ == other@
    }
}

/// Whether `s` holds a server equal by value to `v`.
pub open spec fn holds_server(s: Seq<ServerConfig>, v: ServerView) -> bool {
    exists|i: int| 0 <= i < s.len() && #[trigger] s[i]@ == v
}

/// Whether some element of `s` equals `target` by value.
pub fn contains_server(s: &Vec<ServerConfig>, target: &ServerConfig) -> (r: bool)
    ensures
        r == holds_server(s@, target@),
{
    let mut i: usize = 0;
    while i < s.len()
        invariant
            0 <= i <= s@.len(),
            forall|j: int| 0 <= j < i ==> s@[j]@ != target@,
        decreases s@.len() - i,
    {
        if s[i].same_as(target) {
            return true;
        }
        i = i + 1;
    }
    false
}

/// The routing decision a connection is opened under.
#[derive(Clone, Copy, Debug, PartialEq, Eq, Structural)]
pub enum Action {
    /// Refuse the destination; never reaches the chooser.
    Reject,
    /// Connect without an upstream server.
    Direct,
    /// Connect through the selected upstream server.
    Proxy,
}

/// A probe target: an address reachable through every healthy server and
/// the path of a minimal request sent to it.
#[derive(Clone, Debug)]
pub struct PingURL {
    pub address: String,
    pub path: String,
}

impl PingURL {
    pub fn new(address: String, path: String) -> (r: PingURL)
        ensures
            r.address == address,
            r.path == path,
    {
        PingURL { address, path }
    }
}

} // verus!
