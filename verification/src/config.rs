//! The loaded configuration: every named cluster definition, read once at
//! startup and shared read-only afterwards. Lookup by name, walk setup for a
//! named cluster, and the sorted name listing live here.

use vstd::prelude::*;
use vstd::seq_lib::group_to_multiset_ensures;
use crate::text::{str_eq, str_le, char_le, lemma_char_le_total, lemma_char_le_trans};
use crate::types::{ClusterDefinition, DefView, ConfigError};
use crate::walker::{Walker, WalkCommand, spec_start};

verus! {

/// The values of a sequence of definitions.
pub open spec fn def_views(s: Seq<ClusterDefinition>) -> Seq<DefView> {
    Seq::new(s.len(), |i: int| s[i]@)
}

/// The process-wide configuration.
#[derive(Debug, Clone)]
pub struct Config {
    pub clusters: Vec<ClusterDefinition>,
}

impl View for Config {
    type V = Seq<DefView>;

    open spec fn view(&self) -> Seq<DefView> {
        def_views(self.clusters@)
    }
}

/// Index of the first definition named `name`, or the length if none is.
pub open spec fn def_index(ds: Seq<DefView>, name: Seq<char>) -> nat
    decreases ds.len(),
{
    if ds.len() == 0 {
        0
    } else if ds[0].name == name {
        0
    } else {
        1 + def_index(ds.drop_first(), name)
    }
}

/// An index with no earlier definition so named, and one so named at it
/// unless it is the length, is exactly `def_index`.
proof fn lemma_def_index_is(ds: Seq<DefView>, name: Seq<char>, i: int)
    requires
        0 <= i <= ds.len(),
        forall|j: int| 0 <= j < i ==> ds[j].name != name,
        i < ds.len() ==> ds[i].name == name,
    ensures
        def_index(ds, name) == i,
    decreases ds.len(),
{
    if i > 0 {
        assert(ds[0].name != name);
        assert forall|j: int| 0 <= j < i - 1 implies ds.drop_first()[j].name != name by {
            assert(ds.drop_first()[j] == ds[j + 1]);
        }
        assert(i - 1 < ds.drop_first().len() ==> ds.drop_first()[i - 1] == ds[i]);
        lemma_def_index_is(ds.drop_first(), name, i - 1);
    }
}

impl Config {
    /// Looks a cluster up by name: the first definition bearing it, or
    /// nothing — a request naming an unknown cluster can never succeed.
    pub fn find_cluster(&self, name: &str) -> (r: Option<&ClusterDefinition>)
        ensures
            (match r {
                Some(d) => def_index(self@, name@) < self@.len() && d@ == self@[def_index(
                    self@,
                    name@,
                ) as int] && d@.name == name@,
                None => def_index(self@, name@) == self@.len() && (forall|i: int|
                    0 <= i < self@.len() ==> self@[i].name != name@),
            }),
    {
        let n = self.clusters.len();
        let mut i: usize = 0;
        while i < n
            invariant
                0 <= i <= n,
                n == self@.len(),
                forall|j: int| 0 <= j < i ==> self@[j].name != name@,
            decreases n - i,
        {
            if str_eq(self.clusters[i].name.as_str(), name) {
                proof {
                    assert(self@[i as int] == self.clusters@[i as int]@);
                    lemma_def_index_is(self@, name@, i as int);
                }
                return Some(&self.clusters[i]);
            }
            proof {
                assert(self@[i as int] == self.clusters@[i as int]@);
            }
            i = i + 1;
        }
        proof {
            lemma_def_index_is(self@, name@, n as int);
        }
        None
    }
}

/// Sets a walk up for the named cluster: the walker and its first command, or
/// the configuration error that makes the request impossible — the name is
/// unknown, or the definition has no seeds.
pub fn walker_for(config: &Config, name: &str) -> (r: Result<(Walker, WalkCommand), ConfigError>)
    ensures
        (forall|i: int| 0 <= i < config@.len() ==> config@[i].name != name@) ==> (r matches Err(e)
            && e == ConfigError::UnknownCluster),
        (def_index(config@, name@) < config@.len() && config@[def_index(config@, name@) as int]
            .seeds.len() == 0) ==> (r matches Err(e) && e == ConfigError::NoSeeds),
        (def_index(config@, name@) < config@.len() && config@[def_index(config@, name@) as int]
            .seeds.len() > 0) ==> (r matches Ok(p) && (p.0@, p.1@) == spec_start(
            config@[def_index(config@, name@) as int].seeds,
        ) && p.0@.wf()),
{
    match config.find_cluster(name) {
        Some(def) => Walker::new(def),
        None => Err(ConfigError::UnknownCluster),
    }
}

/// The names are sorted and each comes no later than anything left to place.
spec fn sort_split(done: Seq<Seq<char>>, left: Seq<Seq<char>>) -> bool {
    &&& (forall|i: int, j: int| 0 <= i <= j < done.len() ==> char_le(done[i], done[j]))
    &&& (forall|i: int, j: int|
        0 <= i < done.len() && 0 <= j < left.len() ==> char_le(done[i], left[j]))
}

/// Sorts names lexicographically by code point — the order in which their
/// encoded forms sort. The result is a reordering of the input: same names,
/// same multiplicities.
pub fn sort_names(names: Vec<String>) -> (r: Vec<String>)
    ensures
        forall|i: int, j: int|
            0 <= i <= j < r.deep_view().len() ==> char_le(r.deep_view()[i], r.deep_view()[j]),
        r.deep_view().to_multiset() == names.deep_view().to_multiset(),
{
    broadcast use group_to_multiset_ensures;

    let ghost orig = names.deep_view();
    let mut left = names;
    let mut r: Vec<String> = Vec::new();
    proof {
        assert(r.deep_view() =~= Seq::<Seq<char>>::empty());
        assert(r.deep_view().to_multiset().add(left.deep_view().to_multiset()) =~= orig.to_multiset());
    }
    while left.len() > 0
        invariant
            sort_split(r.deep_view(), left.deep_view()),
            r.deep_view().to_multiset().add(left.deep_view().to_multiset()) == orig.to_multiset(),
        decreases left.len(),
    {
        let n = left.len();
        let mut best: usize = 0;
        let mut j: usize = 1;
        proof {
            lemma_char_le_total(left.deep_view()[0], left.deep_view()[0]);
        }
        while j < n
            invariant
                0 <= best < j <= n,
                n == left.deep_view().len(),
                forall|k: int| 0 <= k < j ==> char_le(left.deep_view()[best as int], left.deep_view()[k]),
            decreases n - j,
        {
            proof {
                assert(left.deep_view()[j as int] == left@[j as int]@);
                assert(left.deep_view()[best as int] == left@[best as int]@);
            }
            if str_le(left[j].as_str(), left[best].as_str()) {
                proof {
                    lemma_char_le_total(left.deep_view()[j as int], left.deep_view()[best as int]);
                    assert forall|k: int| 0 <= k < j + 1 implies char_le(
                        left.deep_view()[j as int],
                        left.deep_view()[k],
                    ) by {
                        if k < j {
                            lemma_char_le_trans(
                                left.deep_view()[j as int],
                                left.deep_view()[best as int],
                                left.deep_view()[k],
                            );
                        } else {
                            lemma_char_le_total(
                                left.deep_view()[j as int],
                                left.deep_view()[j as int],
                            );
                        }
                    }
                }
                best = j;
            } else {
                proof {
                    lemma_char_le_total(left.deep_view()[j as int], left.deep_view()[best as int]);
                }
            }
            j = j + 1;
        }
        let ghost lv = left.deep_view();
        let ghost rv = r.deep_view();
        let x = left.remove(best);
        proof {
            lv.to_multiset_ensures();
            rv.to_multiset_ensures();
            assert(left.deep_view() =~= lv.remove(best as int));
            assert(x@ == lv[best as int]);
            assert(lv.remove(best as int).to_multiset() =~= lv.to_multiset().remove(lv[best as int]));
        }
        r.push(x);
        proof {
            lv.to_multiset_ensures();
            rv.to_multiset_ensures();
            assert(lv.contains(x@)) by {
                assert(lv[best as int] == x@);
            }
            assert(r.deep_view() =~= rv.push(x@));
            assert(rv.push(x@).to_multiset() =~= rv.to_multiset().insert(x@));
            assert(r.deep_view().to_multiset().add(left.deep_view().to_multiset()) =~= orig.to_multiset());
            // the new last name is bounded by everything already placed and
            // bounds everything still left
            assert forall|i: int, j2: int|
                0 <= i <= j2 < r.deep_view().len() implies char_le(
                r.deep_view()[i],
                r.deep_view()[j2],
            ) by {
                if j2 < rv.len() {
                    assert(r.deep_view()[i] == rv[i] && r.deep_view()[j2] == rv[j2]);
                } else if i < rv.len() {
                    assert(r.deep_view()[i] == rv[i]);
                    assert(char_le(rv[i], lv[best as int]));
                } else {
                    lemma_char_le_total(x@, x@);
                }
            }
            assert forall|i: int, j2: int|
                0 <= i < r.deep_view().len() && 0 <= j2 < left.deep_view().len() implies char_le(
                r.deep_view()[i],
                left.deep_view()[j2],
            ) by {
                let orig_j = if j2 < best { j2 } else { j2 + 1 };
                assert(left.deep_view()[j2] == lv[orig_j]);
                if i < rv.len() {
                    assert(char_le(rv[i], lv[orig_j]));
                } else {
                    assert(char_le(lv[best as int], lv[orig_j]));
                }
            }
        }
    }
    proof {
        assert(left.deep_view().to_multiset() =~= Seq::<Seq<char>>::empty().to_multiset());
        assert(r.deep_view().to_multiset() =~= orig.to_multiset());
    }
    r
}

/// The configured cluster names, sorted.
pub fn sorted_names(config: &Config) -> (r: Vec<String>)
    ensures
        forall|i: int, j: int|
            0 <= i <= j < r.deep_view().len() ==> char_le(r.deep_view()[i], r.deep_view()[j]),
        r.deep_view().to_multiset() == Seq::new(config@.len(), |i: int| config@[i].name).to_multiset(),
{
    let n = config.clusters.len();
    let mut names: Vec<String> = Vec::new();
    let mut i: usize = 0;
    while i < n
        invariant
            0 <= i <= n,
            n == config.clusters@.len(),
            names.deep_view() =~= Seq::new(i as nat, |k: int| config@[k].name),
        decreases n - i,
    {
        let ghost nv = names.deep_view();
        names.push(config.clusters[i].name.clone());
        proof {
            assert(config@[i as int] == config.clusters@[i as int]@);
            assert(names.deep_view() =~= nv.push(config@[i as int].name));
            assert(names.deep_view() =~= Seq::new(i as nat + 1, |k: int| config@[k].name));
        }
        i = i + 1;
    }
    proof {
        assert(names.deep_view() =~= Seq::new(config@.len(), |k: int| config@[k].name));
    }
    sort_names(names)
}

} // verus!
