//! The metrics registry: one numeric gauge per distinct attribute name ever
//! seen. Names are created lazily on first sight and never removed; a poll
//! updates each present gauge in place. Only attribute values that parse as a
//! decimal number become gauges; other attributes are left to the snapshot
//! stream. The shell guards a shared registry with its own lock; this type
//! holds the entries and the update rule.

use vstd::prelude::*;
use crate::text::str_eq;
use crate::num::{parse_i64, spec_parse_i64};
use crate::info::DiagnosticMap;

verus! {

/// No gauge name occurs twice.
pub open spec fn unique_gauge_names(ps: Seq<(Seq<char>, i64)>) -> bool {
    forall|i: int, j: int| 0 <= i < j < ps.len() ==> ps[i].0 != ps[j].0
}

/// Some entry carries the name `k`.
pub open spec fn has_gauge(ps: Seq<(Seq<char>, i64)>, k: Seq<char>) -> bool {
    exists|j: int| 0 <= j < ps.len() && ps[j].0 == k
}

/// Index of the first entry named `k`, or `ps.len()` if there is none.
pub open spec fn gauge_index(ps: Seq<(Seq<char>, i64)>, k: Seq<char>) -> nat
    decreases ps.len(),
{
    if ps.len() == 0 {
        0
    } else if ps[0].0 == k {
        0
    } else {
        1 + gauge_index(ps.drop_first(), k)
    }
}

/// `gauge_index` points at the first entry named `k`: nothing before it is
/// named `k`, and it is unless it is the length.
pub proof fn lemma_gauge_index(ps: Seq<(Seq<char>, i64)>, k: Seq<char>)
    ensures
        gauge_index(ps, k) <= ps.len(),
        gauge_index(ps, k) < ps.len() ==> ps[gauge_index(ps, k) as int].0 == k,
        forall|j: int| 0 <= j < gauge_index(ps, k) ==> ps[j].0 != k,
    decreases ps.len(),
{
    if ps.len() > 0 && ps[0].0 != k {
        lemma_gauge_index(ps.drop_first(), k);
        assert forall|j: int| 0 <= j < gauge_index(ps, k) implies ps[j].0 != k by {
            if j > 0 {
                assert(ps.drop_first()[j - 1] == ps[j]);
            }
        }
    }
}

/// An index with no earlier entry named `k`, and an entry named `k` at it
/// unless it is the length, is exactly `gauge_index`.
pub proof fn lemma_gauge_index_is(ps: Seq<(Seq<char>, i64)>, k: Seq<char>, i: int)
    requires
        0 <= i <= ps.len(),
        forall|j: int| 0 <= j < i ==> ps[j].0 != k,
        i < ps.len() ==> ps[i].0 == k,
    ensures
        gauge_index(ps, k) == i,
    decreases ps.len(),
{
    if i > 0 {
        assert(ps[0].0 != k);
        assert forall|j: int| 0 <= j < i - 1 implies ps.drop_first()[j].0 != k by {
            assert(ps.drop_first()[j] == ps[j + 1]);
        }
        assert(i - 1 < ps.drop_first().len() ==> ps.drop_first()[i - 1] == ps[i]);
        lemma_gauge_index_is(ps.drop_first(), k, i - 1);
    }
}

/// The entries after setting the gauge `k` to `v`: updated in place if the
/// name is known, appended otherwise.
pub open spec fn gauge_set(ps: Seq<(Seq<char>, i64)>, k: Seq<char>, v: i64) -> Seq<
    (Seq<char>, i64),
> {
    if gauge_index(ps, k) < ps.len() {
        ps.update(gauge_index(ps, k) as int, (k, v))
    } else {
        ps.push((k, v))
    }
}

/// The entries after folding an attribute mapping in, entry by entry: each
/// attribute whose value parses as a decimal number sets its gauge; the rest
/// set nothing.
pub open spec fn gauges_updated(
    ps: Seq<(Seq<char>, i64)>,
    es: Seq<(Seq<char>, Seq<char>)>,
) -> Seq<(Seq<char>, i64)>
    decreases es.len(),
{
    if es.len() == 0 {
        ps
    } else {
        let prev = gauges_updated(ps, es.drop_last());
        match spec_parse_i64(es.last().1) {
            Some(v) => gauge_set(prev, es.last().0, v),
            None => prev,
        }
    }
}

/// Where `gauge_set` leaves the first entry named `k`.
proof fn lemma_gauge_set_index(ps: Seq<(Seq<char>, i64)>, k: Seq<char>, v: i64)
    ensures
        gauge_index(gauge_set(ps, k, v), k) == (if gauge_index(ps, k) < ps.len() {
            gauge_index(ps, k)
        } else {
            ps.len()
        }),
        gauge_set(ps, k, v).len() == (if gauge_index(ps, k) < ps.len() {
            ps.len()
        } else {
            ps.len() + 1
        }),
{
    let i = gauge_index(ps, k) as int;
    lemma_gauge_index(ps, k);
    let s1 = gauge_set(ps, k, v);
    if i < ps.len() {
        assert forall|j: int| 0 <= j < i implies s1[j].0 != k by {
            assert(s1[j] == ps[j]);
        }
        assert(s1[i].0 == k);
        lemma_gauge_index_is(s1, k, i);
    } else {
        assert forall|j: int| 0 <= j < ps.len() implies s1[j].0 != k by {
            assert(s1[j] == ps[j]);
        }
        assert(s1[ps.len() as int].0 == k);
        lemma_gauge_index_is(s1, k, ps.len() as int);
    }
}

/// Law: polling the same numeric value twice in a row leaves the registry as
/// one poll does — the gauge exists exactly once, updated in place, never
/// duplicated.
pub proof fn lemma_gauge_set_idempotent(ps: Seq<(Seq<char>, i64)>, k: Seq<char>, v: i64)
    requires
        unique_gauge_names(ps),
    ensures
        gauge_set(gauge_set(ps, k, v), k, v) == gauge_set(ps, k, v),
        unique_gauge_names(gauge_set(ps, k, v)),
        has_gauge(gauge_set(ps, k, v), k),
{
    let i = gauge_index(ps, k) as int;
    lemma_gauge_index(ps, k);
    lemma_gauge_set_index(ps, k, v);
    let s1 = gauge_set(ps, k, v);
    if i < ps.len() {
        assert(s1[i].0 == k);
        assert forall|a: int, b: int| 0 <= a < b < s1.len() implies s1[a].0 != s1[b].0 by {
            if a != i && b != i {
                assert(s1[a] == ps[a] && s1[b] == ps[b]);
            } else if a == i {
                assert(ps[b].0 != ps[i].0);
            } else {
                assert(ps[a].0 != ps[i].0);
            }
        }
        assert(gauge_set(s1, k, v) =~= s1);
    } else {
        assert(s1[ps.len() as int].0 == k);
        assert forall|a: int, b: int| 0 <= a < b < s1.len() implies s1[a].0 != s1[b].0 by {
            if b < ps.len() {
                assert(s1[a] == ps[a] && s1[b] == ps[b]);
            } else {
                assert(ps[a].0 != k);
            }
        }
        assert(gauge_set(s1, k, v) =~= s1);
    }
}

/// The process-wide gauge registry: insertion-ordered entries, one per
/// distinct attribute name, monotonically growing for the process lifetime.
#[derive(Debug)]
pub struct GaugeSet {
    entries: Vec<(String, i64)>,
}

impl View for GaugeSet {
    type V = Seq<(Seq<char>, i64)>;

    closed spec fn view(&self) -> Seq<(Seq<char>, i64)> {
        self.entries.deep_view()
    }
}

impl GaugeSet {
    /// The entries never hold the same name twice.
    pub open spec fn wf(&self) -> bool {
        unique_gauge_names(self@)
    }

    /// An empty registry.
    pub fn new() -> (g: GaugeSet)
        ensures
            g@ == Seq::<(Seq<char>, i64)>::empty(),
            g.wf(),
    {
        let g = GaugeSet { entries: Vec::new() };
        proof {
            assert(g@ =~= Seq::<(Seq<char>, i64)>::empty());
        }
        g
    }

    /// How many gauges exist.
    pub fn len(&self) -> (n: usize)
        ensures
            n == self@.len(),
    {
        self.entries.len()
    }

    /// The name of the gauge at `i`.
    pub fn name_at(&self, i: usize) -> (r: &String)
        requires
            i < self@.len(),
        ensures
            r@ == self@[i as int].0,
    {
        &self.entries[i].0
    }

    /// The value of the gauge at `i`.
    pub fn value_at(&self, i: usize) -> (r: i64)
        requires
            i < self@.len(),
        ensures
            r == self@[i as int].1,
    {
        self.entries[i].1
    }

    /// Sets the gauge named `name` to `value`, creating it on first sight.
    pub fn set_gauge(&mut self, name: &str, value: i64)
        requires
            old(self).wf(),
        ensures
            final(self).wf(),
            final(self)@ == gauge_set(old(self)@, name@, value),
    {
        proof {
            lemma_gauge_set_idempotent(self@, name@, value);
        }
        let n = self.entries.len();
        let mut i: usize = 0;
        while i < n
            invariant
                0 <= i <= n,
                n == self@.len(),
                self@ == old(self)@,
                unique_gauge_names(self@),
                forall|j: int| 0 <= j < i ==> self@[j].0 != name@,
            decreases n - i,
        {
            if str_eq(self.entries[i].0.as_str(), name) {
                proof {
                    lemma_gauge_index_is(self@, name@, i as int);
                }
                let ghost ps = self@;
                let nm = self.entries[i].0.clone();
                self.entries.set(i, (nm, value));
                proof {
                    assert(self@ =~= ps.update(i as int, (name@, value)));
                }
                return ;
            }
            i = i + 1;
        }
        proof {
            lemma_gauge_index_is(self@, name@, n as int);
        }
        let ghost ps = self@;
        self.entries.push((name.to_owned(), value));
        proof {
            assert(self@ =~= ps.push((name@, value)));
        }
    }

    /// Folds one node's attribute mapping into the registry: every attribute
    /// whose value parses as a decimal number sets its gauge; non-numeric
    /// attributes set nothing.
    pub fn update_from(&mut self, m: &DiagnosticMap)
        requires
            old(self).wf(),
        ensures
            final(self).wf(),
            final(self)@ == gauges_updated(old(self)@, m@),
    {
        let n = m.len();
        proof {
            assert(m@.take(0) =~= Seq::<(Seq<char>, Seq<char>)>::empty());
        }
        let mut i: usize = 0;
        while i < n
            invariant
                0 <= i <= n,
                n == m@.len(),
                self.wf(),
                self@ == gauges_updated(old(self)@, m@.take(i as int)),
            decreases n - i,
        {
            proof {
                assert(m@.take(i + 1).drop_last() =~= m@.take(i as int));
                assert(m@.take(i + 1).last() == m@[i as int]);
            }
            match parse_i64(m.value_at(i).as_str()) {
                Some(v) => {
                    self.set_gauge(m.key_at(i).as_str(), v);
                },
                None => {},
            }
            i = i + 1;
        }
        proof {
            assert(m@.take(n as int) =~= m@);
        }
    }
}

} // verus!
