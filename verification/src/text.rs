//! Character-sequence helpers shared by the protocol parsers: first-occurrence
//! search, equality, line splitting and field splitting, all specified over
//! `Seq<char>` views.

use vstd::prelude::*;
use vstd::string::StrSliceExecFns;

verus! {

/// Index of the first occurrence of `c` in `s`, or `s.len()` if `c` is absent.
pub open spec fn first_at(s: Seq<char>, c: char) -> nat
    decreases s.len(),
{
    if s.len() == 0 {
        0
    } else if s[0] == c {
        0
    } else {
        1 + first_at(s.drop_first(), c)
    }
}

/// `first_at` points at the first occurrence: nothing before it matches, and
/// it matches unless it is the length.
pub proof fn lemma_first_at(s: Seq<char>, c: char)
    ensures
        first_at(s, c) <= s.len(),
        first_at(s, c) < s.len() ==> s[first_at(s, c) as int] == c,
        forall|j: int| 0 <= j < first_at(s, c) ==> s[j] != c,
    decreases s.len(),
{
    if s.len() > 0 && s[0] != c {
        lemma_first_at(s.drop_first(), c);
        assert forall|j: int| 0 <= j < first_at(s, c) implies s[j] != c by {
            if j > 0 {
                assert(s.drop_first()[j - 1] == s[j]);
            }
        }
    }
}

/// An index with no occurrence before it, and an occurrence at it unless it is
/// the length, is exactly `first_at`.
pub proof fn lemma_first_at_is(s: Seq<char>, c: char, i: int)
    requires
        0 <= i <= s.len(),
        forall|j: int| 0 <= j < i ==> s[j] != c,
        i < s.len() ==> s[i] == c,
    ensures
        first_at(s, c) == i,
    decreases s.len(),
{
    if i > 0 {
        assert(s[0] != c);
        assert forall|j: int| 0 <= j < i - 1 implies s.drop_first()[j] != c by {
            assert(s.drop_first()[j] == s[j + 1]);
        }
        assert(i - 1 < s.drop_first().len() ==> s.drop_first()[i - 1] == s[i]);
        lemma_first_at_is(s.drop_first(), c, i - 1);
    }
}

/// Index of the first occurrence of `c` in `s`, or `s.len()` if absent.
pub fn find_char(s: &str, c: char) -> (i: usize)
    ensures
        i as nat == first_at(s@, c),
        i <= s@.len(),
{
    let n: usize = s.unicode_len();
    let mut i: usize = 0;
    while i < n
        invariant
            0 <= i <= n,
            n == s@.len(),
            forall|j: int| 0 <= j < i ==> s@[j] != c,
        decreases n - i,
    {
        if s.get_char(i) == c {
            proof {
                lemma_first_at_is(s@, c, i as int);
            }
            return i;
        }
        i = i + 1;
    }
    proof {
        lemma_first_at_is(s@, c, n as int);
    }
    n
}

/// Character-for-character string equality.
pub fn str_eq(a: &str, b: &str) -> (r: bool)
    ensures
        r == (a@ == b@),
{
    let na = a.unicode_len();
    let nb = b.unicode_len();
    if na != nb {
        return false;
    }
    let mut i: usize = 0;
    while i < na
        invariant
            0 <= i <= na,
            na == a@.len(),
            na == b@.len(),
            forall|j: int| 0 <= j < i ==> a@[j] == b@[j],
        decreases na - i,
    {
        if a.get_char(i) != b.get_char(i) {
            return false;
        }
        i = i + 1;
    }
    proof {
        assert(a@ =~= b@);
    }
    true
}

/// The characters of `s` from `from` (inclusive) to `to` (exclusive), as an
/// owned string.
pub fn substr_copy(s: &str, from: usize, to: usize) -> (r: String)
    requires
        from <= to <= s@.len(),
    ensures
        r@ == s@.subrange(from as int, to as int),
{
    s.substring_char(from, to).to_owned()
}

/// A line with one carriage return stripped from its end, if there is one.
pub open spec fn chomp(line: Seq<char>) -> Seq<char> {
    if line.len() > 0 && line[line.len() - 1] == '\r' {
        line.drop_last()
    } else {
        line
    }
}

/// The lines of `s`: split at `'\n'`, with a carriage return immediately
/// before the line feed not counted as part of the line, and no empty line
/// after a terminating line feed.
pub open spec fn spec_lines(s: Seq<char>) -> Seq<Seq<char>>
    decreases s.len(),
{
    if s.len() == 0 {
        Seq::empty()
    } else if s[0] == '\n' {
        seq![Seq::<char>::empty()] + spec_lines(s.drop_first())
    } else if s[0] == '\r' && s.len() >= 2 && s[1] == '\n' {
        seq![Seq::<char>::empty()] + spec_lines(s.subrange(2, s.len() as int))
    } else {
        let rest = spec_lines(s.drop_first());
        if rest.len() == 0 {
            seq![seq![s[0]]]
        } else {
            seq![seq![s[0]] + rest[0]] + rest.drop_first()
        }
    }
}

/// A non-empty text has at least one line.
pub proof fn lemma_lines_nonempty(s: Seq<char>)
    requires
        s.len() > 0,
    ensures
        spec_lines(s).len() > 0,
    decreases s.len(),
{
}

/// A text without a line feed is one single line.
pub proof fn lemma_lines_single(s: Seq<char>)
    requires
        s.len() > 0,
        forall|j: int| 0 <= j < s.len() ==> s[j] != '\n',
    ensures
        spec_lines(s) == seq![s],
    decreases s.len(),
{
    assert(s[0] != '\n');
    if s.len() > 1 {
        assert(s[1] != '\n');
        assert forall|j: int| 0 <= j < s.drop_first().len() implies s.drop_first()[j] != '\n' by {
            assert(s.drop_first()[j] == s[j + 1]);
        }
        lemma_lines_single(s.drop_first());
        let rest = spec_lines(s.drop_first());
        assert(rest == seq![s.drop_first()]);
        assert(rest[0] == s.drop_first());
        assert(rest.len() == 1);
        assert(spec_lines(s) == seq![seq![s[0]] + rest[0]] + rest.drop_first());
        assert(seq![s[0]] + s.drop_first() =~= s);
        assert(rest.drop_first() =~= Seq::<Seq<char>>::empty());
        assert(spec_lines(s) =~= seq![s]);
    } else {
        assert(s.drop_first().len() == 0);
        assert(spec_lines(s.drop_first()) == Seq::<Seq<char>>::empty());
        assert(seq![s[0]] =~= s);
        assert(spec_lines(s) =~= seq![s]);
    }
}

/// Splitting off the first line: if the first line feed of `s` stands at `k`,
/// the lines of `s` are the chomped prefix before `k` followed by the lines of
/// what comes after `k`.
pub proof fn lemma_lines_step(s: Seq<char>, k: int)
    requires
        0 <= k < s.len(),
        s[k] == '\n',
        forall|j: int| 0 <= j < k ==> s[j] != '\n',
    ensures
        spec_lines(s) == seq![chomp(s.subrange(0, k))] + spec_lines(
            s.subrange(k + 1, s.len() as int),
        ),
    decreases s.len(),
{
    if k == 0 {
        assert(chomp(s.subrange(0, 0)) =~= Seq::<char>::empty());
        assert(s.drop_first() =~= s.subrange(1, s.len() as int));
        assert(spec_lines(s) =~= seq![chomp(s.subrange(0, 0))] + spec_lines(
            s.subrange(1, s.len() as int),
        ));
    } else if s[0] == '\r' && s.len() >= 2 && s[1] == '\n' {
        // the first line feed stands at 1, so k == 1 and the line is "\r"
        assert(k == 1);
        assert(chomp(s.subrange(0, 1)) =~= Seq::<char>::empty());
        assert(s.subrange(2, s.len() as int) =~= s.subrange(k + 1, s.len() as int));
        assert(spec_lines(s) =~= seq![chomp(s.subrange(0, 1))] + spec_lines(
            s.subrange(2, s.len() as int),
        ));
    } else {
        let t = s.drop_first();
        assert forall|j: int| 0 <= j < k - 1 implies t[j] != '\n' by {
            assert(t[j] == s[j + 1]);
        }
        assert(t[k - 1] == s[k]);
        lemma_lines_step(t, k - 1);
        lemma_lines_nonempty(t);
        assert(t.subrange(k, t.len() as int) =~= s.subrange(k + 1, s.len() as int));
        // the first line of s is s[0] prepended to the first line of t
        let line_t = t.subrange(0, k - 1);
        let line_s = s.subrange(0, k);
        assert(seq![s[0]] + line_t =~= line_s);
        if k == 1 {
            // the line is the single character s[0]; it is no carriage return
            // here, for that is the case handled above
            assert(s[0] != '\r');
            assert(chomp(line_s) == line_s);
            assert(seq![s[0]] + chomp(line_t) =~= chomp(line_s));
        } else if line_t[line_t.len() - 1] == '\r' {
            assert(line_s[line_s.len() - 1] == '\r');
            assert(seq![s[0]] + chomp(line_t) =~= chomp(line_s));
        } else {
            assert(line_s[line_s.len() - 1] != '\r');
            assert(chomp(line_s) == line_s);
            assert(seq![s[0]] + chomp(line_t) =~= chomp(line_s));
        }
        let rest = spec_lines(t);
        assert(rest[0] == chomp(line_t));
        assert(spec_lines(s) == seq![seq![s[0]] + rest[0]] + rest.drop_first());
        assert(rest.drop_first() =~= spec_lines(s.subrange(k + 1, s.len() as int)));
        assert(seq![s[0]] + rest[0] == chomp(s.subrange(0, k)));
        assert(spec_lines(s) =~= seq![chomp(s.subrange(0, k))] + spec_lines(
            s.subrange(k + 1, s.len() as int),
        ));
    }
}

/// The lines of `s`, as owned strings.
pub fn split_lines(s: &str) -> (r: Vec<String>)
    ensures
        r.deep_view() == spec_lines(s@),
{
    let n: usize = s.unicode_len();
    let mut r: Vec<String> = Vec::new();
    let mut start: usize = 0;
    let mut i: usize = 0;
    proof {
        assert(s@.subrange(0, n as int) =~= s@);
        assert(r.deep_view() =~= Seq::<Seq<char>>::empty());
        assert(r.deep_view() + spec_lines(s@) =~= spec_lines(s@));
    }
    while i < n
        invariant
            0 <= start <= i <= n,
            n == s@.len(),
            forall|j: int| start <= j < i ==> s@[j] != '\n',
            spec_lines(s@) =~= r.deep_view() + spec_lines(s@.subrange(start as int, n as int)),
        decreases n - i,
    {
        if s.get_char(i) == '\n' {
            let end: usize = if i > start && s.get_char(i - 1) == '\r' {
                i - 1
            } else {
                i
            };
            let line = substr_copy(s, start, end);
            proof {
                let t = s@.subrange(start as int, n as int);
                assert forall|j: int| 0 <= j < i - start implies t[j] != '\n' by {
                    assert(t[j] == s@[start + j]);
                }
                assert(t[i - start] == '\n');
                lemma_lines_step(t, i - start);
                assert(t.subrange(0, i - start) =~= s@.subrange(start as int, i as int));
                assert(chomp(s@.subrange(start as int, i as int)) =~= s@.subrange(
                    start as int,
                    end as int,
                ));
                assert(t.subrange(i - start + 1, t.len() as int) =~= s@.subrange(
                    i + 1,
                    n as int,
                ));
            }
            let ghost r0 = r.deep_view();
            r.push(line);
            proof {
                assert(r.deep_view() =~= r0.push(line@));
                assert(r.deep_view() + spec_lines(s@.subrange(i + 1, n as int)) =~= r0 + (seq![
                    line@,
                ] + spec_lines(s@.subrange(i + 1, n as int))));
            }
            start = i + 1;
        }
        i = i + 1;
    }
    if start < n {
        let line = substr_copy(s, start, n);
        proof {
            let t = s@.subrange(start as int, n as int);
            assert forall|j: int| 0 <= j < t.len() implies t[j] != '\n' by {
                assert(t[j] == s@[start + j]);
            }
            lemma_lines_single(t);
        }
        let ghost r0 = r.deep_view();
        r.push(line);
        proof {
            assert(r.deep_view() =~= r0.push(line@));
            assert(r.deep_view() =~= r0 + seq![line@]);
        }
    } else {
        proof {
            assert(s@.subrange(start as int, n as int) =~= Seq::<char>::empty());
            assert(r.deep_view() + spec_lines(s@.subrange(start as int, n as int)) =~= r.deep_view());
        }
    }
    r
}

/// The split of `s` around its first occurrence of `c`, if `c` occurs.
pub open spec fn split_once_at(s: Seq<char>, c: char) -> Option<(Seq<char>, Seq<char>)> {
    let i = first_at(s, c);
    if i < s.len() {
        Some((s.subrange(0, i as int), s.subrange(i as int + 1, s.len() as int)))
    } else {
        None
    }
}

/// Splits `s` around its first occurrence of `c`.
pub fn split_once_char(s: &str, c: char) -> (r: Option<(String, String)>)
    ensures
        (match split_once_at(s@, c) {
            Some(kv) => r matches Some(p) && p.0@ == kv.0 && p.1@ == kv.1,
            None => r is None,
        }),
{
    let n = s.unicode_len();
    let i = find_char(s, c);
    proof {
        lemma_first_at(s@, c);
    }
    if i < n {
        let k = substr_copy(s, 0, i);
        let v = substr_copy(s, i + 1, n);
        Some((k, v))
    } else {
        None
    }
}

/// `s` contains no occurrence of `c`.
pub open spec fn free_of(s: Seq<char>, c: char) -> bool {
    forall|j: int| 0 <= j < s.len() ==> s[j] != c
}

/// Lines distribute over concatenation at a line-feed boundary.
pub proof fn lemma_lines_concat(a: Seq<char>, b: Seq<char>)
    requires
        a.len() == 0 || a.last() == '\n',
    ensures
        spec_lines(a + b) == spec_lines(a) + spec_lines(b),
    decreases a.len(),
{
    let ab = a + b;
    if a.len() == 0 {
        assert(ab =~= b);
        assert(spec_lines(a) + spec_lines(b) =~= spec_lines(b));
    } else {
        assert(ab[0] == a[0]);
        if a[0] == '\n' {
            assert(ab.drop_first() =~= a.drop_first() + b);
            assert(a.drop_first().len() == 0 || a.drop_first().last() == '\n');
            lemma_lines_concat(a.drop_first(), b);
            assert(spec_lines(ab) == seq![Seq::<char>::empty()] + spec_lines(ab.drop_first()));
            assert(spec_lines(a) == seq![Seq::<char>::empty()] + spec_lines(a.drop_first()));
            assert(spec_lines(a + b) =~= spec_lines(a) + spec_lines(b));
        } else if a[0] == '\r' && ab.len() >= 2 && ab[1] == '\n' {
            // a itself has the line feed at index 1, since it ends with one
            assert(a.len() >= 2);
            assert(a[1] == ab[1]);
            let a2 = a.subrange(2, a.len() as int);
            assert(ab.subrange(2, ab.len() as int) =~= a2 + b);
            assert(a2.len() == 0 || a2.last() == '\n');
            lemma_lines_concat(a2, b);
            assert(spec_lines(ab) == seq![Seq::<char>::empty()] + spec_lines(
                ab.subrange(2, ab.len() as int),
            ));
            assert(spec_lines(a) == seq![Seq::<char>::empty()] + spec_lines(a2));
            assert(spec_lines(a + b) =~= spec_lines(a) + spec_lines(b));
        } else {
            assert(a.len() >= 2);
            assert(a[1] == ab[1]);
            assert(ab.drop_first() =~= a.drop_first() + b);
            assert(a.drop_first().len() == 0 || a.drop_first().last() == '\n');
            lemma_lines_concat(a.drop_first(), b);
            lemma_lines_nonempty(a.drop_first());
            let rest_a = spec_lines(a.drop_first());
            let rest_ab = spec_lines(ab.drop_first());
            assert(rest_ab == rest_a + spec_lines(b));
            assert(rest_a.len() > 0);
            assert(rest_ab[0] == rest_a[0]);
            assert(rest_ab.drop_first() =~= rest_a.drop_first() + spec_lines(b));
            assert(spec_lines(ab) == seq![seq![ab[0]] + rest_ab[0]] + rest_ab.drop_first());
            assert(spec_lines(a) == seq![seq![a[0]] + rest_a[0]] + rest_a.drop_first());
            assert(spec_lines(a + b) =~= spec_lines(a) + spec_lines(b));
        }
    }
}

/// The pieces of `s` between occurrences of `c`: an empty `s` gives one empty
/// piece, and a separator at either end gives an empty piece there.
pub open spec fn split_at_char(s: Seq<char>, c: char) -> Seq<Seq<char>>
    decreases s.len(),
{
    let i = first_at(s, c);
    if i < s.len() {
        seq![s.subrange(0, i as int)] + split_at_char(
            s.subrange(i as int + 1, s.len() as int),
            c,
        )
    } else {
        seq![s]
    }
}

/// The pieces of `s` between occurrences of `c`, as owned strings.
pub fn split_char(s: &str, c: char) -> (r: Vec<String>)
    ensures
        r.deep_view() == split_at_char(s@, c),
{
    let n: usize = s.unicode_len();
    let mut r: Vec<String> = Vec::new();
    let mut start: usize = 0;
    let mut i: usize = 0;
    proof {
        assert(s@.subrange(0, n as int) =~= s@);
        assert(r.deep_view() + split_at_char(s@, c) =~= split_at_char(s@, c));
    }
    while i < n
        invariant
            0 <= start <= i <= n,
            n == s@.len(),
            forall|j: int| start <= j < i ==> s@[j] != c,
            split_at_char(s@, c) =~= r.deep_view() + split_at_char(
                s@.subrange(start as int, n as int),
                c,
            ),
        decreases n - i,
    {
        if s.get_char(i) == c {
            let piece = substr_copy(s, start, i);
            proof {
                let t = s@.subrange(start as int, n as int);
                assert forall|j: int| 0 <= j < i - start implies t[j] != c by {
                    assert(t[j] == s@[start + j]);
                }
                assert(t[i - start] == c);
                lemma_first_at_is(t, c, i - start);
                assert(t.subrange(0, i - start) =~= s@.subrange(start as int, i as int));
                assert(t.subrange(i - start + 1, t.len() as int) =~= s@.subrange(
                    i + 1,
                    n as int,
                ));
            }
            let ghost r0 = r.deep_view();
            r.push(piece);
            proof {
                assert(r.deep_view() =~= r0.push(piece@));
                assert(r.deep_view() + split_at_char(s@.subrange(i + 1, n as int), c) =~= r0 + (
                seq![piece@] + split_at_char(s@.subrange(i + 1, n as int), c)));
            }
            start = i + 1;
        }
        i = i + 1;
    }
    let piece = substr_copy(s, start, n);
    proof {
        let t = s@.subrange(start as int, n as int);
        assert forall|j: int| 0 <= j < t.len() implies t[j] != c by {
            assert(t[j] == s@[start + j]);
        }
        lemma_first_at_is(t, c, t.len() as int);
        assert(split_at_char(t, c) == seq![t]);
    }
    let ghost r0 = r.deep_view();
    r.push(piece);
    proof {
        assert(r.deep_view() =~= r0.push(piece@));
        assert(r.deep_view() =~= r0 + seq![piece@]);
    }
    r
}

/// The separators of the node-table fields.
pub open spec fn is_space(c: char) -> bool {
    c == ' ' || c == '\t' || c == '\r' || c == '\n'
}

/// Executable mirror of `is_space`.
pub fn space_char(c: char) -> (r: bool)
    ensures
        r == is_space(c),
{
    c == ' ' || c == '\t' || c == '\r' || c == '\n'
}

/// Index of the first separator character in `s`, or `s.len()` if absent.
pub open spec fn first_space(s: Seq<char>) -> nat
    decreases s.len(),
{
    if s.len() == 0 {
        0
    } else if is_space(s[0]) {
        0
    } else {
        1 + first_space(s.drop_first())
    }
}

/// An index with no separator before it, and a separator at it unless it is
/// the length, is exactly `first_space`.
pub proof fn lemma_first_space_is(s: Seq<char>, i: int)
    requires
        0 <= i <= s.len(),
        forall|j: int| 0 <= j < i ==> !is_space(s[j]),
        i < s.len() ==> is_space(s[i]),
    ensures
        first_space(s) == i,
    decreases s.len(),
{
    if i > 0 {
        assert(!is_space(s[0]));
        assert forall|j: int| 0 <= j < i - 1 implies !is_space(s.drop_first()[j]) by {
            assert(s.drop_first()[j] == s[j + 1]);
        }
        assert(i - 1 < s.drop_first().len() ==> s.drop_first()[i - 1] == s[i]);
        lemma_first_space_is(s.drop_first(), i - 1);
    }
}

/// The maximal runs of non-separator characters in `s`, in order.
pub open spec fn split_spaces(s: Seq<char>) -> Seq<Seq<char>>
    decreases s.len(),
{
    if s.len() == 0 {
        Seq::empty()
    } else if is_space(s[0]) {
        split_spaces(s.drop_first())
    } else {
        let i = first_space(s);
        if i < s.len() {
            seq![s.subrange(0, i as int)] + split_spaces(s.subrange(i as int, s.len() as int))
        } else {
            seq![s]
        }
    }
}

/// The whitespace-separated fields of `s`, as owned strings.
pub fn split_fields(s: &str) -> (r: Vec<String>)
    ensures
        r.deep_view() == split_spaces(s@),
{
    let n: usize = s.unicode_len();
    let mut r: Vec<String> = Vec::new();
    let mut i: usize = 0;
    proof {
        assert(s@.subrange(0, n as int) =~= s@);
        assert(r.deep_view() + split_spaces(s@) =~= split_spaces(s@));
    }
    while i < n
        invariant
            0 <= i <= n,
            n == s@.len(),
            split_spaces(s@) =~= r.deep_view() + split_spaces(s@.subrange(i as int, n as int)),
        decreases n - i,
    {
        if space_char(s.get_char(i)) {
            proof {
                let t = s@.subrange(i as int, n as int);
                assert(is_space(t[0]));
                assert(t.drop_first() =~= s@.subrange(i + 1, n as int));
            }
            i = i + 1;
        } else {
            let start: usize = i;
            let mut j: usize = i + 1;
            while j < n
                invariant
                    start < j <= n,
                    n == s@.len(),
                    forall|k: int| start <= k < j ==> !is_space(s@[k]),
                ensures
                    start < j <= n,
                    forall|k: int| start <= k < j ==> !is_space(s@[k]),
                    j < n ==> is_space(s@[j as int]),
                decreases n - j,
            {
                if space_char(s.get_char(j)) {
                    break ;
                }
                j = j + 1;
            }
            let piece = substr_copy(s, start, j);
            proof {
                let t = s@.subrange(start as int, n as int);
                assert forall|k: int| 0 <= k < j - start implies !is_space(t[k]) by {
                    assert(t[k] == s@[start + k]);
                }
                assert((j as int) - (start as int) < t.len() ==> is_space(t[j - start]));
                lemma_first_space_is(t, j - start);
                assert(t.subrange(0, j - start) =~= s@.subrange(start as int, j as int));
                if j < n {
                    assert(t.subrange(j - start, t.len() as int) =~= s@.subrange(
                        j as int,
                        n as int,
                    ));
                    assert(split_spaces(t) == seq![piece@] + split_spaces(
                        s@.subrange(j as int, n as int),
                    ));
                } else {
                    assert(split_spaces(t) == seq![t]);
                    assert(t =~= piece@);
                    assert(s@.subrange(j as int, n as int) =~= Seq::<char>::empty());
                    assert(split_spaces(t) =~= seq![piece@] + split_spaces(
                        s@.subrange(j as int, n as int),
                    ));
                }
            }
            let ghost r0 = r.deep_view();
            r.push(piece);
            proof {
                assert(r.deep_view() =~= r0.push(piece@));
                assert(r.deep_view() + split_spaces(s@.subrange(j as int, n as int)) =~= r0 + (
                seq![piece@] + split_spaces(s@.subrange(j as int, n as int))));
            }
            i = j;
        }
    }
    proof {
        assert(s@.subrange(i as int, n as int) =~= Seq::<char>::empty());
        assert(r.deep_view() + split_spaces(s@.subrange(i as int, n as int)) =~= r.deep_view());
    }
    r
}

/// `needle` occurs in `hay` starting at `i`.
pub open spec fn match_at(hay: Seq<char>, needle: Seq<char>, i: int) -> bool {
    0 <= i && i + needle.len() <= hay.len() && hay.subrange(i, i + needle.len() as int) == needle
}

/// `needle` occurs somewhere in `hay`.
pub open spec fn contains_seq(hay: Seq<char>, needle: Seq<char>) -> bool {
    exists|i: int| match_at(hay, needle, i)
}

/// Substring search.
pub fn str_contains(hay: &str, needle: &str) -> (r: bool)
    ensures
        r == contains_seq(hay@, needle@),
{
    let n: usize = hay.unicode_len();
    let m: usize = needle.unicode_len();
    if m > n {
        return false;
    }
    if m == 0 {
        proof {
            assert(hay@.subrange(0, 0) =~= needle@);
            assert(match_at(hay@, needle@, 0));
        }
        return true;
    }
    let mut i: usize = 0;
    while i <= n - m
        invariant
            0 <= i <= n - m + 1,
            0 < m <= n,
            n == hay@.len(),
            m == needle@.len(),
            forall|k: int| 0 <= k < i ==> !match_at(hay@, needle@, k),
        decreases n - i,
    {
        let mut j: usize = 0;
        let mut hit: bool = true;
        while j < m
            invariant
                0 <= j <= m,
                0 <= i <= n - m,
                m <= n,
                n == hay@.len(),
                m == needle@.len(),
                hit ==> forall|k: int| 0 <= k < j ==> hay@[i + k] == needle@[k],
                !hit ==> !match_at(hay@, needle@, i as int),
            decreases m - j,
        {
            if hay.get_char(i + j) != needle.get_char(j) {
                proof {
                    if match_at(hay@, needle@, i as int) {
                        assert(hay@.subrange(i as int, i + m)[j as int] == needle@[j as int]);
                    }
                }
                hit = false;
                j = m;
            } else {
                j = j + 1;
            }
        }
        if hit {
            proof {
                assert(hay@.subrange(i as int, i + m) =~= needle@);
                assert(match_at(hay@, needle@, i as int));
            }
            return true;
        }
        i = i + 1;
    }
    proof {
        assert forall|k: int| match_at(hay@, needle@, k) implies false by {
            assert(0 <= k && k + m <= n);
            assert(k < i);
        }
    }
    false
}


/// Lexicographic order on character sequences, by code point: the order in
/// which their encoded bytes sort.
pub open spec fn char_le(a: Seq<char>, b: Seq<char>) -> bool
    decreases a.len(),
{
    if a.len() == 0 {
        true
    } else if b.len() == 0 {
        false
    } else if a[0] == b[0] {
        char_le(a.drop_first(), b.drop_first())
    } else {
        (a[0] as u32) < (b[0] as u32)
    }
}

/// Distinct characters have distinct code points.
proof fn lemma_char_code(a: char, b: char)
    ensures
        (a == b) <==> (a as u32 == b as u32),
{
}

/// The order is total: of any two sequences, one comes no later than the
/// other.
pub proof fn lemma_char_le_total(a: Seq<char>, b: Seq<char>)
    ensures
        char_le(a, b) || char_le(b, a),
    decreases a.len(),
{
    if a.len() == 0 {
        assert(char_le(a, b));
    } else if b.len() == 0 {
        assert(char_le(b, a));
    } else if a[0] == b[0] {
        lemma_char_le_total(a.drop_first(), b.drop_first());
    } else {
        lemma_char_code(a[0], b[0]);
        assert(a[0] as u32 != b[0] as u32);
        if (a[0] as u32) < (b[0] as u32) {
            assert(char_le(a, b));
        } else {
            assert((b[0] as u32) < (a[0] as u32));
            assert(char_le(b, a));
        }
    }
}

/// The order is transitive.
pub proof fn lemma_char_le_trans(a: Seq<char>, b: Seq<char>, c: Seq<char>)
    requires
        char_le(a, b),
        char_le(b, c),
    ensures
        char_le(a, c),
    decreases a.len(),
{
    if a.len() > 0 && b.len() > 0 && c.len() > 0 && a[0] == b[0] && b[0] == c[0] {
        lemma_char_le_trans(a.drop_first(), b.drop_first(), c.drop_first());
    }
}

/// A shared prefix does not decide the order.
proof fn lemma_char_le_skip(a: Seq<char>, b: Seq<char>, i: int)
    requires
        0 <= i <= a.len(),
        i <= b.len(),
        forall|j: int| 0 <= j < i ==> a[j] == b[j],
    ensures
        char_le(a, b) == char_le(a.skip(i), b.skip(i)),
    decreases i,
{
    if i == 0 {
        assert(a.skip(0) =~= a);
        assert(b.skip(0) =~= b);
    } else {
        assert(a[0] == b[0]);
        assert(a.len() > 0 && b.len() > 0);
        assert forall|j: int| 0 <= j < i - 1 implies a.drop_first()[j] == b.drop_first()[j] by {
            assert(a.drop_first()[j] == a[j + 1] && b.drop_first()[j] == b[j + 1]);
        }
        lemma_char_le_skip(a.drop_first(), b.drop_first(), i - 1);
        assert(a.drop_first().skip(i - 1) =~= a.skip(i));
        assert(b.drop_first().skip(i - 1) =~= b.skip(i));
    }
}

/// Whether `a` sorts no later than `b`.
pub fn str_le(a: &str, b: &str) -> (r: bool)
    ensures
        r == char_le(a@, b@),
{
    let na = a.unicode_len();
    let nb = b.unicode_len();
    let mut i: usize = 0;
    while i < na && i < nb
        invariant
            0 <= i <= na,
            i <= nb,
            na == a@.len(),
            nb == b@.len(),
            forall|j: int| 0 <= j < i ==> a@[j] == b@[j],
        decreases na - i,
    {
        let ca = a.get_char(i);
        let cb = b.get_char(i);
        if ca != cb {
            proof {
                lemma_char_le_skip(a@, b@, i as int);
                assert(a@.skip(i as int)[0] == a@[i as int]);
                assert(b@.skip(i as int)[0] == b@[i as int]);
            }
            return (ca as u32) < (cb as u32);
        }
        i = i + 1;
    }
    proof {
        lemma_char_le_skip(a@, b@, if i <= nb { i as int } else { nb as int });
    }
    if i >= na {
        proof {
            assert(a@.skip(i as int).len() == 0);
        }
        true
    } else {
        proof {
            assert(b@.skip(nb as int).len() == 0);
            assert(a@.skip(nb as int).len() > 0);
        }
        false
    }
}

} // verus!
