//! The diagnostic-info parser: a newline-delimited `key:value` blob becomes a
//! flat attribute mapping. Lines without a colon are skipped; on duplicate
//! keys the last occurrence wins.

use vstd::prelude::*;
use vstd::string::StrSliceExecFns;
use vstd::string::StringExecFns;
use crate::text::{
    first_at,
    lemma_first_at_is,
    split_once_at,
    split_once_char,
    str_eq,
    split_lines,
    spec_lines,
    lemma_lines_step,
    lemma_lines_concat,
    chomp,
    free_of,
};

verus! {

/// The key/value split of one line at its first colon, if it has one.
pub open spec fn line_kv(line: Seq<char>) -> Option<(Seq<char>, Seq<char>)> {
    split_once_at(line, ':')
}

/// The mapping built from a list of key/value pairs, a later pair
/// overwriting an earlier one with the same key.
pub open spec fn map_of_pairs(ps: Seq<(Seq<char>, Seq<char>)>) -> Map<Seq<char>, Seq<char>>
    decreases ps.len(),
{
    if ps.len() == 0 {
        Map::empty()
    } else {
        map_of_pairs(ps.drop_last()).insert(ps.last().0, ps.last().1)
    }
}

/// The mapping of the lines that split at a colon, a later line overwriting
/// an earlier one with the same key.
pub open spec fn map_of_lines(ls: Seq<Seq<char>>) -> Map<Seq<char>, Seq<char>>
    decreases ls.len(),
{
    if ls.len() == 0 {
        Map::empty()
    } else {
        let m = map_of_lines(ls.drop_last());
        match line_kv(ls.last()) {
            Some(kv) => m.insert(kv.0, kv.1),
            None => m,
        }
    }
}

/// What parsing a raw diagnostic blob yields.
pub open spec fn spec_parse_info(s: Seq<char>) -> Map<Seq<char>, Seq<char>> {
    map_of_lines(spec_lines(s))
}

/// No key occurs twice.
pub open spec fn unique_keys(ps: Seq<(Seq<char>, Seq<char>)>) -> bool {
    forall|i: int, j: int| 0 <= i < j < ps.len() ==> ps[i].0 != ps[j].0
}

/// Index of the first entry with key `k`, or `ps.len()` if there is none.
pub open spec fn key_index(ps: Seq<(Seq<char>, Seq<char>)>, k: Seq<char>) -> nat
    decreases ps.len(),
{
    if ps.len() == 0 {
        0
    } else if ps[0].0 == k {
        0
    } else {
        1 + key_index(ps.drop_first(), k)
    }
}

/// An index with no earlier entry keyed `k`, and an entry keyed `k` at it
/// unless it is the length, is exactly `key_index`.
pub proof fn lemma_key_index_is(ps: Seq<(Seq<char>, Seq<char>)>, k: Seq<char>, i: int)
    requires
        0 <= i <= ps.len(),
        forall|j: int| 0 <= j < i ==> ps[j].0 != k,
        i < ps.len() ==> ps[i].0 == k,
    ensures
        key_index(ps, k) == i,
    decreases ps.len(),
{
    if i > 0 {
        assert(ps[0].0 != k);
        assert forall|j: int| 0 <= j < i - 1 implies ps.drop_first()[j].0 != k by {
            assert(ps.drop_first()[j] == ps[j + 1]);
        }
        assert(i - 1 < ps.drop_first().len() ==> ps.drop_first()[i - 1] == ps[i]);
        lemma_key_index_is(ps.drop_first(), k, i - 1);
    }
}

/// The entry list after writing `v` under `k`: in place if `k` is present,
/// appended otherwise.
pub open spec fn entries_insert(
    ps: Seq<(Seq<char>, Seq<char>)>,
    k: Seq<char>,
    v: Seq<char>,
) -> Seq<(Seq<char>, Seq<char>)> {
    if key_index(ps, k) < ps.len() {
        ps.update(key_index(ps, k) as int, (k, v))
    } else {
        ps.push((k, v))
    }
}

/// Appending a pair inserts its key into the mapping.
pub proof fn lemma_map_of_pairs_push(ps: Seq<(Seq<char>, Seq<char>)>, k: Seq<char>, v: Seq<char>)
    ensures
        map_of_pairs(ps.push((k, v))) == map_of_pairs(ps).insert(k, v),
{
    assert(ps.push((k, v)).drop_last() =~= ps);
    assert(ps.push((k, v)).last() == (k, v));
}

/// Overwriting the one entry keyed `k` inserts its key into the mapping.
pub proof fn lemma_map_of_pairs_update(
    ps: Seq<(Seq<char>, Seq<char>)>,
    i: int,
    k: Seq<char>,
    v: Seq<char>,
)
    requires
        unique_keys(ps),
        0 <= i < ps.len(),
        ps[i].0 == k,
    ensures
        map_of_pairs(ps.update(i, (k, v))) == map_of_pairs(ps).insert(k, v),
    decreases ps.len(),
{
    let qs = ps.drop_last();
    if i == ps.len() - 1 {
        assert(ps.update(i, (k, v)).drop_last() =~= qs);
        assert(ps.update(i, (k, v)).last() == (k, v));
        assert(map_of_pairs(ps.update(i, (k, v))) == map_of_pairs(qs).insert(k, v));
        assert(map_of_pairs(qs).insert(k, ps.last().1).insert(k, v) =~= map_of_pairs(qs).insert(
            k,
            v,
        ));
    } else {
        assert forall|a: int, b: int| 0 <= a < b < qs.len() implies qs[a].0 != qs[b].0 by {
            assert(qs[a] == ps[a] && qs[b] == ps[b]);
        }
        lemma_map_of_pairs_update(qs, i, k, v);
        assert(ps.update(i, (k, v)).drop_last() =~= qs.update(i, (k, v)));
        assert(ps.update(i, (k, v)).last() == ps.last());
        // the overwritten key differs from the last entry's key
        assert(ps.last().0 != k);
        assert(map_of_pairs(qs).insert(k, v).insert(ps.last().0, ps.last().1)
            =~= map_of_pairs(qs).insert(ps.last().0, ps.last().1).insert(k, v));
    }
}

/// Every entry of a duplicate-free list is in its mapping.
pub proof fn lemma_map_of_pairs_get(ps: Seq<(Seq<char>, Seq<char>)>, i: int)
    requires
        unique_keys(ps),
        0 <= i < ps.len(),
    ensures
        map_of_pairs(ps).contains_key(ps[i].0),
        map_of_pairs(ps)[ps[i].0] == ps[i].1,
    decreases ps.len(),
{
    if i < ps.len() - 1 {
        let qs = ps.drop_last();
        assert forall|a: int, b: int| 0 <= a < b < qs.len() implies qs[a].0 != qs[b].0 by {
            assert(qs[a] == ps[a] && qs[b] == ps[b]);
        }
        lemma_map_of_pairs_get(qs, i);
        assert(ps.last().0 != ps[i].0);
    }
}

/// A key on no entry of a list is not in its mapping.
pub proof fn lemma_map_of_pairs_absent(ps: Seq<(Seq<char>, Seq<char>)>, k: Seq<char>)
    requires
        forall|j: int| 0 <= j < ps.len() ==> ps[j].0 != k,
    ensures
        !map_of_pairs(ps).contains_key(k),
    decreases ps.len(),
{
    if ps.len() > 0 {
        let qs = ps.drop_last();
        assert forall|j: int| 0 <= j < qs.len() implies qs[j].0 != k by {
            assert(qs[j] == ps[j]);
        }
        lemma_map_of_pairs_absent(qs, k);
    }
}

/// A flat mapping from attribute name to raw string value, produced fresh for
/// each visited node on each poll. Entries keep their first-insertion order
/// and carry no duplicate keys.
#[derive(Debug, Clone)]
pub struct DiagnosticMap {
    entries: Vec<(String, String)>,
}

impl View for DiagnosticMap {
    type V = Seq<(Seq<char>, Seq<char>)>;

    closed spec fn view(&self) -> Seq<(Seq<char>, Seq<char>)> {
        self.entries.deep_view()
    }
}

impl DiagnosticMap {
    /// The entries never hold the same key twice.
    pub open spec fn wf(&self) -> bool {
        unique_keys(self@)
    }

    /// The mapping the entries denote.
    pub open spec fn as_map(&self) -> Map<Seq<char>, Seq<char>> {
        map_of_pairs(self@)
    }

    /// An empty mapping.
    pub fn new() -> (d: DiagnosticMap)
        ensures
            d@ == Seq::<(Seq<char>, Seq<char>)>::empty(),
            d.wf(),
    {
        let d = DiagnosticMap { entries: Vec::new() };
        proof {
            assert(d@ =~= Seq::<(Seq<char>, Seq<char>)>::empty());
        }
        d
    }

    /// How many attributes the mapping holds.
    pub fn len(&self) -> (n: usize)
        ensures
            n == self@.len(),
    {
        self.entries.len()
    }

    /// The attribute name of the entry at `i`.
    pub fn key_at(&self, i: usize) -> (r: &String)
        requires
            i < self@.len(),
        ensures
            r@ == self@[i as int].0,
    {
        &self.entries[i].0
    }

    /// The raw value of the entry at `i`.
    pub fn value_at(&self, i: usize) -> (r: &String)
        requires
            i < self@.len(),
        ensures
            r@ == self@[i as int].1,
    {
        &self.entries[i].1
    }

    /// Writes `v` under `k`, overwriting in place if `k` is already present.
    pub fn insert(&mut self, k: String, v: String)
        requires
            old(self).wf(),
        ensures
            final(self).wf(),
            final(self)@ == entries_insert(old(self)@, k@, v@),
            final(self).as_map() == old(self).as_map().insert(k@, v@),
    {
        let n = self.entries.len();
        let mut i: usize = 0;
        while i < n
            invariant
                0 <= i <= n,
                n == self@.len(),
                self@ == old(self)@,
                unique_keys(self@),
                forall|j: int| 0 <= j < i ==> self@[j].0 != k@,
            decreases n - i,
        {
            if str_eq(self.entries[i].0.as_str(), k.as_str()) {
                proof {
                    lemma_key_index_is(self@, k@, i as int);
                    lemma_map_of_pairs_update(self@, i as int, k@, v@);
                }
                let ghost ps = self@;
                self.entries.set(i, (k, v));
                proof {
                    assert(self@ =~= ps.update(i as int, (k@, v@)));
                    assert forall|a: int, b: int|
                        0 <= a < b < self@.len() implies self@[a].0 != self@[b].0 by {
                        if a != i && b != i {
                            assert(self@[a] == ps[a] && self@[b] == ps[b]);
                        } else if a == i {
                            assert(ps[b].0 != ps[i as int].0);
                        } else {
                            assert(ps[a].0 != ps[i as int].0);
                        }
                    }
                }
                return ;
            }
            i = i + 1;
        }
        proof {
            lemma_key_index_is(self@, k@, n as int);
            lemma_map_of_pairs_push(self@, k@, v@);
            lemma_map_of_pairs_absent(self@, k@);
        }
        let ghost ps = self@;
        self.entries.push((k, v));
        proof {
            assert(self@ =~= ps.push((k@, v@)));
            assert forall|a: int, b: int|
                0 <= a < b < self@.len() implies self@[a].0 != self@[b].0 by {
                if b < ps.len() {
                    assert(self@[a] == ps[a] && self@[b] == ps[b]);
                } else {
                    assert(ps[a].0 != k@);
                }
            }
        }
    }

    /// Looks an attribute up by name.
    pub fn get(&self, k: &str) -> (r: Option<&String>)
        requires
            self.wf(),
        ensures
            (match r {
                Some(v) => self.as_map().contains_key(k@) && v@ == self.as_map()[k@],
                None => !self.as_map().contains_key(k@),
            }),
    {
        let n = self.entries.len();
        let mut i: usize = 0;
        while i < n
            invariant
                0 <= i <= n,
                n == self@.len(),
                unique_keys(self@),
                forall|j: int| 0 <= j < i ==> self@[j].0 != k@,
            decreases n - i,
        {
            if str_eq(self.entries[i].0.as_str(), k) {
                proof {
                    lemma_map_of_pairs_get(self@, i as int);
                }
                return Some(&self.entries[i].1);
            }
            i = i + 1;
        }
        proof {
            lemma_map_of_pairs_absent(self@, k@);
        }
        None
    }

    /// Whether the attribute `k` carries exactly the value `v`.
    pub fn has_value(&self, k: &str, v: &str) -> (r: bool)
        requires
            self.wf(),
        ensures
            r == (self.as_map().contains_key(k@) && self.as_map()[k@] == v@),
    {
        match self.get(k) {
            Some(w) => str_eq(w.as_str(), v),
            None => false,
        }
    }
}

/// Parses a raw diagnostic blob into an attribute mapping. Lines without a
/// colon are skipped; on duplicate keys the last line wins.
pub fn parse_redis_info(info: &str) -> (d: DiagnosticMap)
    ensures
        d.wf(),
        d.as_map() == spec_parse_info(info@),
{
    let lines = split_lines(info);
    let ghost ls = lines.deep_view();
    let mut d = DiagnosticMap::new();
    let n = lines.len();
    proof {
        assert(ls.take(0) =~= Seq::<Seq<char>>::empty());
        assert(map_of_lines(ls.take(0)) =~= map_of_pairs(d@));
    }
    let mut i: usize = 0;
    while i < n
        invariant
            0 <= i <= n,
            n == lines.len(),
            ls == lines.deep_view(),
            ls == spec_lines(info@),
            d.wf(),
            d.as_map() == map_of_lines(ls.take(i as int)),
        decreases n - i,
    {
        proof {
            assert(lines[i as int]@ == ls[i as int]);
            assert(ls.take(i + 1).drop_last() =~= ls.take(i as int));
            assert(ls.take(i + 1).last() == ls[i as int]);
        }
        match split_once_char(&lines[i], ':') {
            Some(p) => {
                d.insert(p.0, p.1);
            },
            None => {},
        }
        i = i + 1;
    }
    proof {
        assert(ls.take(n as int) =~= ls);
    }
    d
}

/// The serialized form of an entry list: one `key:value` line per entry, in
/// order, each ended by a line feed.
pub open spec fn info_text_of(ps: Seq<(Seq<char>, Seq<char>)>) -> Seq<char>
    decreases ps.len(),
{
    if ps.len() == 0 {
        Seq::empty()
    } else {
        info_text_of(ps.drop_last()) + ps.last().0 + seq![':'] + ps.last().1 + seq!['\n']
    }
}

/// The serialized text is empty or ends with a line feed.
pub proof fn lemma_info_text_ends(ps: Seq<(Seq<char>, Seq<char>)>)
    ensures
        info_text_of(ps).len() == 0 || info_text_of(ps).last() == '\n',
{
    if ps.len() > 0 {
        let t = info_text_of(ps.drop_last()) + ps.last().0 + seq![':'] + ps.last().1;
        assert(info_text_of(ps) == t + seq!['\n']);
        assert((t + seq!['\n']).last() == '\n');
    }
}

/// An entry whose serialized line parses back to it: the key carries no colon
/// and neither key nor value carries a line break.
pub open spec fn plain_entry(p: (Seq<char>, Seq<char>)) -> bool {
    free_of(p.0, ':') && free_of(p.0, '\n') && free_of(p.0, '\r') && free_of(p.1, '\n')
        && free_of(p.1, '\r')
}

/// Law: serializing a duplicate-free mapping whose keys bear no colon and
/// whose keys and values bear no line break, then parsing the text back,
/// restores the mapping.
pub proof fn lemma_info_round_trip(ps: Seq<(Seq<char>, Seq<char>)>)
    requires
        unique_keys(ps),
        forall|i: int| 0 <= i < ps.len() ==> plain_entry(#[trigger] ps[i]),
    ensures
        spec_parse_info(info_text_of(ps)) == map_of_pairs(ps),
    decreases ps.len(),
{
    if ps.len() == 0 {
        assert(spec_lines(info_text_of(ps)) == Seq::<Seq<char>>::empty());
    } else {
        let qs = ps.drop_last();
        let p = ps.last();
        assert(plain_entry(p));
        assert forall|a: int, b: int| 0 <= a < b < qs.len() implies qs[a].0 != qs[b].0 by {
            assert(qs[a] == ps[a] && qs[b] == ps[b]);
        }
        assert forall|i: int| 0 <= i < qs.len() implies plain_entry(#[trigger] qs[i]) by {
            assert(qs[i] == ps[i]);
        }
        lemma_info_round_trip(qs);
        let a = info_text_of(qs);
        let line = p.0 + seq![':'] + p.1;
        let b = line + seq!['\n'];
        assert(info_text_of(ps) == a + p.0 + seq![':'] + p.1 + seq!['\n']);
        assert(a + p.0 + seq![':'] + p.1 + seq!['\n'] =~= a + b);
        lemma_info_text_ends(qs);
        lemma_lines_concat(a, b);
        // b is the one line `line`, ended by its line feed
        let k = line.len() as int;
        assert(b[k] == '\n');
        assert forall|j: int| 0 <= j < k implies b[j] != '\n' by {
            assert(b[j] == line[j]);
            if j < p.0.len() {
                assert(line[j] == p.0[j]);
            } else if j > p.0.len() {
                assert(line[j] == p.1[j - p.0.len() - 1]);
            }
        }
        lemma_lines_step(b, k);
        assert(b.subrange(0, k) =~= line);
        assert(b.subrange(k + 1, b.len() as int) =~= Seq::<char>::empty());
        assert(spec_lines(b.subrange(k + 1, b.len() as int)) == Seq::<Seq<char>>::empty());
        // no carriage return ends the line, so nothing is chomped off
        if p.1.len() > 0 {
            assert(line.last() == p.1.last());
        } else {
            assert(line.last() == ':');
        }
        assert(chomp(line) == line);
        assert(spec_lines(b) =~= seq![line]);
        assert(spec_lines(a + b) =~= spec_lines(a) + seq![line]);
        // the one line splits back into the pair it came from
        assert forall|j: int| 0 <= j < p.0.len() implies line[j] != ':' by {
            assert(line[j] == p.0[j]);
        }
        assert(line[p.0.len() as int] == ':');
        lemma_first_at_is(line, ':', p.0.len() as int);
        assert(line.subrange(0, p.0.len() as int) =~= p.0);
        assert(line.subrange(p.0.len() as int + 1, line.len() as int) =~= p.1);
        assert(line_kv(line) == Some((p.0, p.1)));
        // fold the last line into the mapping
        let full = spec_lines(a + b);
        assert(full.drop_last() =~= spec_lines(a));
        assert(full.last() == line);
        assert(map_of_lines(full) == map_of_lines(spec_lines(a)).insert(p.0, p.1));
        assert(map_of_pairs(ps) == map_of_pairs(qs).insert(p.0, p.1));
    }
}

impl DiagnosticMap {
    /// Renders the mapping as `key:value` lines, one entry per line.
    pub fn to_info_text(&self) -> (r: String)
        ensures
            r@ == info_text_of(self@),
    {
        let mut r = String::new();
        let n = self.len();
        proof {
            reveal_strlit(":");
            reveal_strlit("\n");
            assert(self@.take(0) =~= Seq::<(Seq<char>, Seq<char>)>::empty());
            assert(r@ =~= info_text_of(self@.take(0)));
        }
        let mut i: usize = 0;
        while i < n
            invariant
                0 <= i <= n,
                n == self@.len(),
                r@ == info_text_of(self@.take(i as int)),
            decreases n - i,
        {
            proof {
                reveal_strlit(":");
                reveal_strlit("\n");
                assert(":"@ =~= seq![':']);
                assert("\n"@ =~= seq!['\n']);
                assert(self@.take(i + 1).drop_last() =~= self@.take(i as int));
                assert(self@.take(i + 1).last() == self@[i as int]);
            }
            r.append(self.key_at(i).as_str());
            r.append(":");
            r.append(self.value_at(i).as_str());
            r.append("\n");
            i = i + 1;
        }
        proof {
            assert(self@.take(n as int) =~= self@);
        }
        r
    }
}

} // verus!
