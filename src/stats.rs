use vstd::prelude::*;
use vstd::string::*;

use crate::server::Action;

verus! {

/// `a` precedes `b` in the order of their characters from position `i` on.
pub open spec fn lex_lt_from(a: Seq<char>, b: Seq<char>, i: int) -> bool
    decreases a.len() - i,
{
    if i >= a.len() {
        i < b.len()
    } else if i >= b.len() {
        false
    } else if a[i] != b[i] {
        a[i] < b[i]
    } else {
        lex_lt_from(a, b, i + 1)
    }
}

/// Lexicographic order on characters, the order of `String` comparison.
pub open spec fn lex_lt(a: Seq<char>, b: Seq<char>) -> bool {
    lex_lt_from(a, b, 0)
}

proof fn lemma_lex_irreflexive(a: Seq<char>, i: int)
    ensures
        !lex_lt_from(a, a, i),
    decreases a.len() - i,
{
    if i < a.len() {
        lemma_lex_irreflexive(a, i + 1);
    }
}

proof fn lemma_lex_total(a: Seq<char>, b: Seq<char>, i: int)
    requires
        0 <= i <= a.len(),
        i <= b.len(),
    ensures
        lex_lt_from(a, b, i) || lex_lt_from(b, a, i) || (a.len() == b.len() && forall|j: int|
            i <= j < a.len() ==> a[j] == b[j]),
    decreases a.len() - i,
{
    if i < a.len() && i < b.len() && a[i] == b[i] {
        lemma_lex_total(a, b, i + 1);
    }
}

proof fn lemma_lex_transitive(a: Seq<char>, b: Seq<char>, c: Seq<char>, i: int)
    requires
        lex_lt_from(a, b, i),
        lex_lt_from(b, c, i),
    ensures
        lex_lt_from(a, c, i),
    decreases a.len() - i,
{
    if i < a.len() && i < b.len() && i < c.len() && a[i] == b[i] && b[i] == c[i] {
        lemma_lex_transitive(a, b, c, i + 1);
    }
}

proof fn lemma_lex_order(a: Seq<char>, b: Seq<char>)
    ensures
        !lex_lt(a, a),
        a != b ==> lex_lt(a, b) || lex_lt(b, a),
{
    lemma_lex_irreflexive(a, 0);
    lemma_lex_total(a, b, 0);
    if !lex_lt(a, b) && !lex_lt(b, a) {
        assert(a =~= b);
    }
}

/// Compares two addresses in the order of `String`.
pub fn addr_less(a: &String, b: &String) -> (r: bool)
    ensures
        r == lex_lt(a@, b@),
{
    let sa = a.as_str();
    let sb = b.as_str();
    let la = sa.unicode_len();
    let lb = sb.unicode_len();
    let mut i: usize = 0;
    while i < la && i < lb
        invariant
            sa@ == a@,
            sb@ == b@,
            la == a@.len(),
            lb == b@.len(),
            0 <= i <= la,
            i <= lb,
            lex_lt(a@, b@) == lex_lt_from(a@, b@, i as int),
        decreases la - i,
    {
        let ca = sa.get_char(i);
        let cb = sb.get_char(i);
        if ca != cb {
            return ca < cb;
        }
        i = i + 1;
    }
    i >= la && i < lb
}

/// What is known of one live connection when statistics are taken.
#[derive(Clone, Debug)]
pub struct ConnectionSample {
    /// The destination, rendered; connections without one are not counted.
    pub remote_addr: Option<String>,
    pub action: Action,
    pub sent_bytes: u64,
    pub received_bytes: u64,
    pub duration_secs: u64,
}

/// Statistics of the connections to one destination.
#[derive(Clone, Debug)]
pub struct StatsRow {
    pub addr: String,
    /// The routing decision of the last of these connections.
    pub action: Action,
    pub count: usize,
    pub sent_bytes: u64,
    pub received_bytes: u64,
    pub max_duration_secs: u64,
}

/// Statistics of the connections to one destination, as numbers.
pub struct Tally {
    pub count: nat,
    pub sent: nat,
    pub received: nat,
    pub max_duration: nat,
    pub action: Action,
}

pub open spec fn empty_tally() -> Tally {
    Tally { count: 0, sent: 0, received: 0, max_duration: 0, action: Action::Direct }
}

pub open spec fn to_addr(c: ConnectionSample, a: Seq<char>) -> bool {
    match c.remote_addr {
        Some(r) => r@ == a,
        None => false,
    }
}

/// Statistics of the connections to `a` among the first `n` samples.
pub open spec fn tally(s: Seq<ConnectionSample>, a: Seq<char>, n: int) -> Tally
    decreases n,
{
    if n <= 0 {
        empty_tally()
    } else {
        let t = tally(s, a, n - 1);
        let c = s[n - 1];
        if to_addr(c, a) {
            Tally {
                count: t.count + 1,
                sent: t.sent + c.sent_bytes as nat,
                received: t.received + c.received_bytes as nat,
                max_duration: if c.duration_secs > t.max_duration {
                    c.duration_secs as nat
                } else {
                    t.max_duration
                },
                action: c.action,
            }
        } else {
            t
        }
    }
}

/// Bytes sent and received over the first `n` samples.
pub open spec fn totals(s: Seq<ConnectionSample>, n: int) -> (nat, nat)
    decreases n,
{
    if n <= 0 {
        (0, 0)
    } else {
        let t = totals(s, n - 1);
        (t.0 + s[n - 1].sent_bytes as nat, t.1 + s[n - 1].received_bytes as nat)
    }
}

pub open spec fn row_is(r: StatsRow, t: Tally) -> bool {
    &&& r.count == t.count
    &&& r.sent_bytes == t.sent
    &&& r.received_bytes == t.received
    &&& r.max_duration_secs == t.max_duration
    &&& r.action == t.action
}

proof fn lemma_tally_bounds(s: Seq<ConnectionSample>, a: Seq<char>, n: int, m: int)
    requires
        0 <= n <= m,
    ensures
        tally(s, a, n).count <= n,
        tally(s, a, n).sent <= totals(s, m).0,
        tally(s, a, n).received <= totals(s, m).1,
    decreases m,
{
    if n < m {
        lemma_tally_bounds(s, a, n, m - 1);
    } else if n > 0 {
        lemma_tally_bounds(s, a, n - 1, m - 1);
    }
}

proof fn lemma_tally_untouched(s: Seq<ConnectionSample>, a: Seq<char>, n: int)
    requires
        forall|j: int| 0 <= j < n ==> !to_addr(#[trigger] s[j], a),
    ensures
        tally(s, a, n) == empty_tally(),
    decreases n,
{
    if n > 0 {
        lemma_tally_untouched(s, a, n - 1);
    }
}

/// Groups the samples by destination: one row per destination, in
/// ascending order of address, with the number of connections, the bytes
/// sent and received, the longest duration and the last routing decision.
pub fn stats_snapshot(samples: &Vec<ConnectionSample>) -> (r: Vec<StatsRow>)
    requires
        totals(samples@, samples@.len() as int).0 <= u64::MAX,
        totals(samples@, samples@.len() as int).1 <= u64::MAX,
    ensures
        forall|i: int, j: int| 0 <= i < j < r@.len() ==> lex_lt(r@[i].addr@, r@[j].addr@),
        forall|i: int|
            0 <= i < r@.len() ==> #[trigger] tally(samples@, r@[i].addr@, samples@.len() as int).count
                > 0 && row_is(r@[i], tally(samples@, r@[i].addr@, samples@.len() as int)),
        forall|j: int|
            0 <= j < samples@.len() && (#[trigger] samples@[j]).remote_addr is Some ==> exists|
                i: int,
            |
                0 <= i < r@.len() && r@[i].addr@ == samples@[j].remote_addr->0@,
{
    let ghost s = samples@;
    let ghost n = samples@.len() as int;
    let mut rows: Vec<StatsRow> = Vec::new();
    let mut k: usize = 0;
    while k < samples.len()
        invariant
            s == samples@,
            n == s.len(),
            0 <= k <= n,
            totals(s, n).0 <= u64::MAX,
            totals(s, n).1 <= u64::MAX,
            forall|i: int, j: int| 0 <= i < j < rows@.len() ==> lex_lt(rows@[i].addr@, rows@[j].addr@),
            forall|i: int|
                0 <= i < rows@.len() ==> #[trigger] tally(s, rows@[i].addr@, k as int).count > 0
                    && row_is(rows@[i], tally(s, rows@[i].addr@, k as int)),
            forall|j: int|
                0 <= j < k && (#[trigger] s[j]).remote_addr is Some ==> exists|i: int|
                    0 <= i < rows@.len() && rows@[i].addr@ == s[j].remote_addr->0@,
        decreases n - k,
    {
        let c = &samples[k];
        let ghost old_rows = rows@;
        assert(s[k as int] == *c);
        match &c.remote_addr {
            None => {
                assert forall|q: int| 0 <= q < old_rows.len() implies exists|i: int|
                    0 <= i < rows@.len() && rows@[i].addr@ == #[trigger] old_rows[q].addr@ by {
                    assert(rows@[q] == old_rows[q]);
                }
                assert forall|i: int| 0 <= i < rows@.len() implies #[trigger] tally(
                    s,
                    rows@[i].addr@,
                    k + 1,
                ).count > 0 && row_is(rows@[i], tally(s, rows@[i].addr@, k + 1)) by {
                    assert(tally(s, rows@[i].addr@, k + 1) == tally(s, rows@[i].addr@, k as int));
                }
            },
            Some(a) => {
                let mut p: usize = 0;
                while p < rows.len() && addr_less(&rows[p].addr, a)
                    invariant
                        0 <= p <= rows@.len(),
                        forall|q: int| 0 <= q < p ==> lex_lt(#[trigger] rows@[q].addr@, a@),
                    decreases rows@.len() - p,
                {
                    p = p + 1;
                }
                proof {
                    lemma_tally_bounds(s, a@, k as int + 1, n);
                }
                if p < rows.len() && rows[p].addr == *a {
                    let old = &rows[p];
                    proof {
                        assert(old_rows[p as int].addr@ == a@);
                        assert(row_is(old_rows[p as int], tally(s, old_rows[p as int].addr@, k as int)));
                        assert(s[k as int] == *c);
                        assert(tally(s, a@, k + 1).count == old.count + 1);
                    }
                    let row = StatsRow {
                        addr: old.addr.clone(),
                        action: c.action,
                        count: old.count + 1,
                        sent_bytes: old.sent_bytes + c.sent_bytes,
                        received_bytes: old.received_bytes + c.received_bytes,
                        max_duration_secs: if c.duration_secs > old.max_duration_secs {
                            c.duration_secs
                        } else {
                            old.max_duration_secs
                        },
                    };
                    rows.set(p, row);
                    assert forall|i: int| 0 <= i < rows@.len() implies #[trigger] tally(
                        s,
                        rows@[i].addr@,
                        k + 1,
                    ).count > 0 && row_is(rows@[i], tally(s, rows@[i].addr@, k + 1)) by {
                        if i != p {
                            lemma_lex_order(old_rows[i].addr@, a@);
                            assert(rows@[i] == old_rows[i]);
                            if i < p {
                                assert(lex_lt(old_rows[i].addr@, old_rows[p as int].addr@));
                            } else {
                                assert(lex_lt(old_rows[p as int].addr@, old_rows[i].addr@));
                                lemma_lex_order(old_rows[p as int].addr@, a@);
                            }
                            assert(old_rows[i].addr@ != a@);
                            assert(tally(s, old_rows[i].addr@, k as int).count > 0);
                            assert(tally(s, old_rows[i].addr@, k + 1) == tally(
                                s,
                                old_rows[i].addr@,
                                k as int,
                            ));
                        } else {
                            assert(rows@[i].addr@ == a@);
                        }
                    }
                    assert forall|q: int| 0 <= q < old_rows.len() implies exists|i: int|
                        0 <= i < rows@.len() && rows@[i].addr@ == #[trigger] old_rows[q].addr@ by {
                        assert(rows@[q].addr@ == old_rows[q].addr@);
                    }
                } else {
                    proof {
                        lemma_lex_order(a@, a@);
                        assert forall|q: int| 0 <= q < old_rows.len() implies #[trigger] old_rows[q].addr@
                            != a@ by {
                            lemma_lex_order(old_rows[q].addr@, a@);
                            if q >= p {
                                lemma_lex_order(old_rows[p as int].addr@, a@);
                                if q > p {
                                    assert(lex_lt(old_rows[p as int].addr@, old_rows[q].addr@));
                                    lemma_lex_transitive(a@, old_rows[p as int].addr@, old_rows[q].addr@, 0);
                                }
                            }
                        }
                        assert forall|j: int| 0 <= j < k implies !to_addr(#[trigger] s[j], a@) by {
                            if to_addr(s[j], a@) {
                                let i = choose|i: int|
                                    0 <= i < old_rows.len() && old_rows[i].addr@ == s[j].remote_addr->0@;
                                assert(old_rows[i].addr@ == a@);
                            }
                        }
                        lemma_tally_untouched(s, a@, k as int);
                    }
                    let row = StatsRow {
                        addr: a.clone(),
                        action: c.action,
                        count: 1,
                        sent_bytes: c.sent_bytes,
                        received_bytes: c.received_bytes,
                        max_duration_secs: c.duration_secs,
                    };
                    rows.insert(p, row);
                    assert forall|i: int, j: int| 0 <= i < j < rows@.len() implies lex_lt(
                        rows@[i].addr@,
                        rows@[j].addr@,
                    ) by {
                        if j == p {
                            assert(rows@[i] == old_rows[i]);
                        } else if i == p {
                            assert(rows@[j] == old_rows[j - 1]);
                            lemma_lex_order(old_rows[p as int].addr@, a@);
                            if j - 1 > p {
                                assert(lex_lt(old_rows[p as int].addr@, old_rows[j - 1].addr@));
                                lemma_lex_transitive(a@, old_rows[p as int].addr@, old_rows[j - 1].addr@, 0);
                            }
                        } else {
                            let i0 = if i < p { i } else { i - 1 };
                            let j0 = if j < p { j } else { j - 1 };
                            assert(rows@[i] == old_rows[i0]);
                            assert(rows@[j] == old_rows[j0]);
                        }
                    }
                    assert forall|i: int| 0 <= i < rows@.len() implies #[trigger] tally(
                        s,
                        rows@[i].addr@,
                        k + 1,
                    ).count > 0 && row_is(rows@[i], tally(s, rows@[i].addr@, k + 1)) by {
                        if i < p {
                            assert(rows@[i] == old_rows[i]);
                            assert(old_rows[i].addr@ != a@);
                            assert(tally(s, old_rows[i].addr@, k as int).count > 0);
                            assert(tally(s, old_rows[i].addr@, k + 1) == tally(
                                s,
                                old_rows[i].addr@,
                                k as int,
                            ));
                        } else if i > p {
                            assert(rows@[i] == old_rows[i - 1]);
                            assert(old_rows[i - 1].addr@ != a@);
                            assert(tally(s, old_rows[i - 1].addr@, k as int).count > 0);
                            assert(tally(s, old_rows[i - 1].addr@, k + 1) == tally(
                                s,
                                old_rows[i - 1].addr@,
                                k as int,
                            ));
                        } else {
                            assert(s[k as int] == *c);
                            assert(rows@[i].addr@ == a@);
                        }
                    }
                    assert forall|q: int| 0 <= q < old_rows.len() implies exists|i: int|
                        0 <= i < rows@.len() && rows@[i].addr@ == #[trigger] old_rows[q].addr@ by {
                        if q < p {
                            assert(rows@[q] == old_rows[q]);
                        } else {
                            assert(rows@[q + 1] == old_rows[q]);
                        }
                    }
                    assert(rows@[p as int].addr@ == a@);
                }
            },
        }
        assert forall|j: int|
            0 <= j < k + 1 && (#[trigger] s[j]).remote_addr is Some implies exists|i: int|
                0 <= i < rows@.len() && rows@[i].addr@ == s[j].remote_addr->0@ by {
            if j < k {
                let i0 = choose|i: int|
                    0 <= i < old_rows.len() && old_rows[i].addr@ == s[j].remote_addr->0@;
                let i1 = choose|i: int|
                    0 <= i < rows@.len() && rows@[i].addr@ == old_rows[i0].addr@;
            } else {
                assert(s[j] == *c);
            }
        }
        k = k + 1;
    }
    rows
}

} // verus!
