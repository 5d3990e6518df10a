//! Parsing of movie credit records.
//!
//! A record is one line of text: a movie title, a comma, and the cast field,
//! a semicolon-separated list of actor names. Whitespace around a name is
//! trimmed. A record with no comma, an all-whitespace title, or no nonempty
//! cast name is malformed; the builder skips such records and counts them
//! instead of failing the whole load.

use crate::graph::MovieGraph;
use vstd::prelude::*;
use vstd::string::StrSliceExecFns;

verus! {

/// Whether a character counts as trimmable whitespace.
pub uninterp spec fn spec_is_whitespace(c: char) -> bool;

/// Relies on char::is_whitespace: whether a character has the Unicode
/// White_Space property is a function of the character alone.
#[verifier::external_body]
fn is_whitespace_char(c: char) -> (r: bool)
    ensures
        r == spec_is_whitespace(c),
{
    c.is_whitespace()
}

/// The position of the first occurrence of `d` in `s`, or `s.len()` if `d`
/// does not occur.
pub open spec fn first_index_of(s: Seq<char>, d: char) -> int
    decreases s.len(),
{
    if s.len() == 0 {
        0
    } else if s.first() == d {
        0
    } else {
        1 + first_index_of(s.drop_first(), d)
    }
}

proof fn lemma_first_index_of_determined(s: Seq<char>, d: char, i: int)
    requires
        0 <= i <= s.len(),
        forall|k: int| 0 <= k < i ==> s[k] != d,
        i < s.len() ==> s[i] == d,
    ensures
        first_index_of(s, d) == i,
    decreases s.len(),
{
    if s.len() > 0 {
        if s.first() == d {
            assert(i == 0);
        } else {
            assert(i >= 1) by {
                if i == 0 {
                    assert(s[0] == d);
                }
            }
            lemma_first_index_of_determined(s.drop_first(), d, i - 1);
        }
    }
}

/// The segments of `s` between occurrences of the delimiter `d`; one more
/// segment than there are occurrences.
pub open spec fn split_on(s: Seq<char>, d: char) -> Seq<Seq<char>>
    decreases s.len(),
{
    let i = first_index_of(s, d);
    if 0 <= i < s.len() {
        seq![s.subrange(0, i)] + split_on(s.subrange(i + 1, s.len() as int), d)
    } else {
        seq![s]
    }
}

/// `s` without its leading whitespace.
pub open spec fn trim_start(s: Seq<char>) -> Seq<char>
    decreases s.len(),
{
    if s.len() > 0 && spec_is_whitespace(s.first()) {
        trim_start(s.drop_first())
    } else {
        s
    }
}

/// `s` without its trailing whitespace.
pub open spec fn trim_end(s: Seq<char>) -> Seq<char>
    decreases s.len(),
{
    if s.len() > 0 && spec_is_whitespace(s.last()) {
        trim_end(s.drop_last())
    } else {
        s
    }
}

/// `s` without leading and trailing whitespace.
pub open spec fn spec_trim(s: Seq<char>) -> Seq<char> {
    trim_end(trim_start(s))
}

proof fn lemma_trim_start_determined(s: Seq<char>, a: int)
    requires
        0 <= a <= s.len(),
        forall|k: int| 0 <= k < a ==> spec_is_whitespace(s[k]),
        a < s.len() ==> !spec_is_whitespace(s[a]),
    ensures
        trim_start(s) =~= s.subrange(a, s.len() as int),
    decreases s.len(),
{
    if s.len() > 0 && spec_is_whitespace(s.first()) {
        assert(a >= 1);
        lemma_trim_start_determined(s.drop_first(), a - 1);
        assert(s.drop_first().subrange(a - 1, s.drop_first().len() as int) =~= s.subrange(
            a,
            s.len() as int,
        ));
    } else {
        assert(a == 0);
        assert(s.subrange(0, s.len() as int) =~= s);
    }
}

proof fn lemma_trim_end_determined(s: Seq<char>, b: int)
    requires
        0 <= b <= s.len(),
        forall|k: int| b <= k < s.len() ==> spec_is_whitespace(s[k]),
        b > 0 ==> !spec_is_whitespace(s[b - 1]),
    ensures
        trim_end(s) =~= s.subrange(0, b),
    decreases s.len(),
{
    if s.len() > 0 && spec_is_whitespace(s.last()) {
        assert(b < s.len()) by {
            if b == s.len() {
                assert(!spec_is_whitespace(s[b - 1]));
            }
        }
        lemma_trim_end_determined(s.drop_last(), b);
        assert(s.drop_last().subrange(0, b) =~= s.subrange(0, b));
    } else {
        assert(b == s.len());
        assert(s.subrange(0, s.len() as int) =~= s);
    }
}

/// The segments of `s` between occurrences of `d`, as owned strings.
pub fn split_char(s: &str, d: char) -> (r: Vec<String>)
    ensures
        r.deep_view() == split_on(s@, d),
        r@.len() >= 1,
{
    let m = s.unicode_len();
    let mut r: Vec<String> = Vec::new();
    let mut start: usize = 0;
    let mut i: usize = 0;
    proof {
        assert(s@.subrange(0, m as int) =~= s@);
        assert(r.deep_view() =~= Seq::<Seq<char>>::empty());
        assert(Seq::<Seq<char>>::empty() + split_on(s@, d) =~= split_on(s@, d));
    }
    while i < m
        invariant
            m == s@.len(),
            start <= i <= m,
            forall|k: int| start <= k < i ==> s@[k] != d,
            r.deep_view() + split_on(s@.subrange(start as int, m as int), d) == split_on(s@, d),
        decreases m - i,
    {
        if s.get_char(i) == d {
            let ghost dv0 = r.deep_view();
            let seg = s.substring_char(start, i);
            r.push(seg.to_owned());
            proof {
                assert(r.deep_view() =~= dv0.push(seg@));
                let tail = s@.subrange(start as int, m as int);
                assert forall|k: int| 0 <= k < i - start implies tail[k] != d by {
                    assert(tail[k] == s@[start + k]);
                }
                assert(tail[i - start] == d);
                lemma_first_index_of_determined(tail, d, i - start);
                assert(tail.subrange(0, i - start) =~= s@.subrange(start as int, i as int));
                assert(tail.subrange(i - start + 1, tail.len() as int) =~= s@.subrange(
                    i + 1,
                    m as int,
                ));
                assert(seg@ == tail.subrange(0, i - start));
                assert(split_on(tail, d) == seq![seg@] + split_on(
                    s@.subrange(i + 1, m as int),
                    d,
                ));
                assert(dv0.push(seg@) + split_on(s@.subrange(i + 1, m as int), d) =~= dv0 + (seq![
                    seg@,
                ] + split_on(s@.subrange(i + 1, m as int), d)));
            }
            start = i + 1;
        }
        i += 1;
    }
    let ghost dv0 = r.deep_view();
    let seg = s.substring_char(start, m);
    r.push(seg.to_owned());
    proof {
        assert(r.deep_view() =~= dv0.push(seg@));
        let tail = s@.subrange(start as int, m as int);
        assert forall|k: int| 0 <= k < tail.len() implies tail[k] != d by {
            assert(tail[k] == s@[start + k]);
        }
        lemma_first_index_of_determined(tail, d, tail.len() as int);
        assert(split_on(tail, d) == seq![tail]);
        assert(seg@ == tail);
        assert(dv0.push(seg@) =~= dv0 + seq![tail]);
    }
    r
}

/// `s` without leading and trailing whitespace, as an owned string.
pub fn trim_str(s: &str) -> (r: String)
    ensures
        r@ == spec_trim(s@),
{
    let m = s.unicode_len();
    let mut a: usize = 0;
    loop
        invariant_except_break
            m == s@.len(),
            a <= m,
            forall|k: int| 0 <= k < a ==> spec_is_whitespace(s@[k]),
        ensures
            m == s@.len(),
            a <= m,
            forall|k: int| 0 <= k < a ==> spec_is_whitespace(s@[k]),
            a == m || !spec_is_whitespace(s@[a as int]),
        decreases m - a,
    {
        if a < m && is_whitespace_char(s.get_char(a)) {
            a += 1;
        } else {
            break ;
        }
    }
    proof {
        lemma_trim_start_determined(s@, a as int);
    }
    let mut b: usize = m;
    loop
        invariant_except_break
            m == s@.len(),
            a <= b <= m,
            forall|k: int| b <= k < m ==> spec_is_whitespace(s@[k]),
        ensures
            m == s@.len(),
            a <= b <= m,
            forall|k: int| b <= k < m ==> spec_is_whitespace(s@[k]),
            b == a || !spec_is_whitespace(s@[b - 1]),
        decreases b,
    {
        if b > a && is_whitespace_char(s.get_char(b - 1)) {
            b -= 1;
        } else {
            break ;
        }
    }
    let seg = s.substring_char(a, b);
    proof {
        let head = s@.subrange(a as int, m as int);
        assert forall|k: int| b - a <= k < head.len() implies spec_is_whitespace(head[k]) by {
            assert(head[k] == s@[a + k]);
        }
        if b > a {
            assert(!spec_is_whitespace(head[b - a - 1])) by {
                assert(head[b - a - 1] == s@[b - 1]);
            }
        }
        lemma_trim_end_determined(head, b - a as int);
        assert(head.subrange(0, b - a as int) =~= s@.subrange(a as int, b as int));
        assert(seg@ == spec_trim(s@));
    }
    seg.to_owned()
}

/// The trimmed nonempty names among the raw cast segments, in order.
pub open spec fn kept_names(raw: Seq<Seq<char>>) -> Seq<Seq<char>>
    decreases raw.len(),
{
    if raw.len() == 0 {
        Seq::empty()
    } else {
        let rest = kept_names(raw.drop_last());
        let t = spec_trim(raw.last());
        if t.len() > 0 {
            rest.push(t)
        } else {
            rest
        }
    }
}

/// What a line of input means: `None` for a malformed record (no comma,
/// all-whitespace title, or no nonempty cast name), else the cast list. The
/// cast field is the text between the first comma and the second comma or
/// the end of the line.
pub open spec fn spec_parse_record(line: Seq<char>) -> Option<Seq<Seq<char>>> {
    let fields = split_on(line, ',');
    if fields.len() < 2 {
        None
    } else if spec_trim(fields[0]).len() == 0 {
        None
    } else {
        let names = kept_names(split_on(fields[1], ';'));
        if names.len() == 0 {
            None
        } else {
            Some(names)
        }
    }
}

/// Parse one record: the cast list of a well-formed record, or `None` for a
/// malformed one.
pub fn parse_record(line: &str) -> (r: Option<Vec<String>>)
    ensures
        match r {
            Some(cast) => spec_parse_record(line@) == Some(cast.deep_view()) && cast@.len() >= 1,
            None => spec_parse_record(line@) is None,
        },
{
    let fields = split_char(line, ',');
    if fields.len() < 2 {
        return None;
    }
    let title = trim_str(fields[0].as_str());
    proof {
        assert(fields.deep_view()[0] == fields@[0]@);
    }
    if title.as_str().unicode_len() == 0 {
        return None;
    }
    proof {
        assert(fields.deep_view()[1] == fields@[1]@);
    }
    let raw_names = split_char(fields[1].as_str(), ';');
    let ghost raw = raw_names.deep_view();
    let total = raw_names.len();
    let mut cast: Vec<String> = Vec::new();
    proof {
        assert(raw.subrange(0, 0) =~= Seq::<Seq<char>>::empty());
        assert(cast.deep_view() =~= kept_names(raw.subrange(0, 0)));
    }
    for k in 0..total
        invariant
            total == raw_names@.len(),
            raw == raw_names.deep_view(),
            cast.deep_view() == kept_names(raw.subrange(0, k as int)),
    {
        proof {
            assert(raw[k as int] == raw_names@[k as int]@);
        }
        let nm = trim_str(raw_names[k].as_str());
        let ghost dv0 = cast.deep_view();
        if nm.as_str().unicode_len() > 0 {
            cast.push(nm);
            proof {
                assert(cast.deep_view() =~= dv0.push(spec_trim(raw[k as int])));
            }
        }
        proof {
            let pre = raw.subrange(0, k as int);
            let cur = raw.subrange(0, k + 1);
            assert(cur.drop_last() =~= pre);
            assert(cur.last() == raw[k as int]);
        }
    }
    proof {
        assert(raw.subrange(0, total as int) =~= raw);
    }
    if cast.len() == 0 {
        None
    } else {
        Some(cast)
    }
}

/// A cast brings an actor into the graph when it has at least two members
/// and mentions that actor.
pub open spec fn cast_mentions(cast: Seq<Seq<char>>, nm: Seq<char>) -> bool {
    cast.len() >= 2 && cast.contains(nm)
}

/// A cast joins two distinct actors when both appear in it at different
/// positions.
pub open spec fn cast_pairs(cast: Seq<Seq<char>>, a: Seq<char>, b: Seq<char>) -> bool {
    a != b && exists|i: int, j: int|
        #![trigger cast[i], cast[j]]
        0 <= i < cast.len() && 0 <= j < cast.len() && i != j && cast[i] == a && cast[j] == b
}

/// The cast of a line, empty for a malformed line.
pub open spec fn record_cast(line: Seq<char>) -> Seq<Seq<char>> {
    match spec_parse_record(line) {
        Some(c) => c,
        None => Seq::empty(),
    }
}

/// Some line among the first `upto` brings this actor into the graph.
pub open spec fn lines_have_name(lines: Seq<Seq<char>>, upto: int, nm: Seq<char>) -> bool {
    exists|r: int| 0 <= r < upto && cast_mentions(record_cast(#[trigger] lines[r]), nm)
}

/// Some line among the first `upto` joins these two actors.
pub open spec fn lines_have_edge(lines: Seq<Seq<char>>, upto: int, a: Seq<char>, b: Seq<char>) -> bool {
    exists|r: int| 0 <= r < upto && cast_pairs(record_cast(#[trigger] lines[r]), a, b)
}

/// How many of the first `upto` lines are malformed.
pub open spec fn malformed_upto(lines: Seq<Seq<char>>, upto: int) -> nat
    decreases upto,
{
    if upto <= 0 {
        0
    } else {
        malformed_upto(lines, upto - 1) + if spec_parse_record(lines[upto - 1]) is None {
            1nat
        } else {
            0nat
        }
    }
}

/// The pairs of cast positions that the double loop over a cast has
/// handled so far: all pairs `(i, j)` with `i < j` whose first position is
/// below `fst`, together with those at `fst` whose second position is below
/// `snd`. Defined by peeling off the pair handled last.
spec fn covers_name(c: Seq<Seq<char>>, nm: Seq<char>, fst: int, snd: int) -> bool
    decreases fst, snd,
{
    if fst >= 0 && snd > fst + 1 {
        covers_name(c, nm, fst, snd - 1) || nm == c[fst] || nm == c[snd - 1]
    } else if fst > 0 {
        covers_name(c, nm, fst - 1, c.len() as int)
    } else {
        false
    }
}

/// As `covers_name`, for the unordered pairs of names already joined.
spec fn covers_pair(c: Seq<Seq<char>>, a: Seq<char>, b: Seq<char>, fst: int, snd: int) -> bool
    decreases fst, snd,
{
    if fst >= 0 && snd > fst + 1 {
        covers_pair(c, a, b, fst, snd - 1) || (c[fst] != c[snd - 1] && ((a == c[fst] && b == c[snd
            - 1]) || (a == c[snd - 1] && b == c[fst])))
    } else if fst > 0 {
        covers_pair(c, a, b, fst - 1, c.len() as int)
    } else {
        false
    }
}

proof fn lemma_covers_name_sound(c: Seq<Seq<char>>, nm: Seq<char>, fst: int, snd: int)
    requires
        0 <= fst <= c.len(),
        fst + 1 <= snd,
        snd <= c.len() || snd == fst + 1,
        covers_name(c, nm, fst, snd),
    ensures
        cast_mentions(c, nm),
    decreases fst, snd,
{
    if fst >= 0 && snd > fst + 1 {
        if nm == c[fst] || nm == c[snd - 1] {
            assert(c.contains(nm)) by {
                if nm == c[fst] {
                    assert(c[fst] == nm);
                } else {
                    assert(c[snd - 1] == nm);
                }
            }
        } else {
            lemma_covers_name_sound(c, nm, fst, snd - 1);
        }
    } else {
        lemma_covers_name_sound(c, nm, fst - 1, c.len() as int);
    }
}

proof fn lemma_covers_pair_sound(c: Seq<Seq<char>>, a: Seq<char>, b: Seq<char>, fst: int, snd: int)
    requires
        0 <= fst <= c.len(),
        fst + 1 <= snd,
        snd <= c.len() || snd == fst + 1,
        covers_pair(c, a, b, fst, snd),
    ensures
        cast_pairs(c, a, b),
    decreases fst, snd,
{
    if fst >= 0 && snd > fst + 1 {
        if c[fst] != c[snd - 1] && ((a == c[fst] && b == c[snd - 1]) || (a == c[snd - 1] && b == c[
            fst
        ])) {
            if a == c[fst] && b == c[snd - 1] {
                assert(c[fst] == a && c[snd - 1] == b && fst != snd - 1);
            } else {
                assert(c[snd - 1] == a && c[fst] == b && snd - 1 != fst);
            }
        } else {
            lemma_covers_pair_sound(c, a, b, fst, snd - 1);
        }
    } else {
        lemma_covers_pair_sound(c, a, b, fst - 1, c.len() as int);
    }
}

proof fn lemma_covers_name_mono(c: Seq<Seq<char>>, nm: Seq<char>, fst: int, snd: int, snd2: int)
    requires
        0 <= fst,
        fst + 1 <= snd <= snd2,
        covers_name(c, nm, fst, snd),
    ensures
        covers_name(c, nm, fst, snd2),
    decreases snd2 - snd,
{
    if snd2 > snd {
        lemma_covers_name_mono(c, nm, fst, snd, snd2 - 1);
    }
}

proof fn lemma_covers_pair_mono(
    c: Seq<Seq<char>>,
    a: Seq<char>,
    b: Seq<char>,
    fst: int,
    snd: int,
    snd2: int,
)
    requires
        0 <= fst,
        fst + 1 <= snd <= snd2,
        covers_pair(c, a, b, fst, snd),
    ensures
        covers_pair(c, a, b, fst, snd2),
    decreases snd2 - snd,
{
    if snd2 > snd {
        lemma_covers_pair_mono(c, a, b, fst, snd, snd2 - 1);
    }
}

proof fn lemma_covers_name_lift(c: Seq<Seq<char>>, nm: Seq<char>, fst: int)
    requires
        0 <= fst < c.len(),
        covers_name(c, nm, fst, c.len() as int),
    ensures
        covers_name(c, nm, c.len() as int, c.len() as int + 1),
    decreases c.len() - fst,
{
    assert(covers_name(c, nm, fst + 1, fst + 2));
    if fst + 1 == c.len() {
        assert(covers_name(c, nm, c.len() as int, c.len() as int + 1));
    } else {
        lemma_covers_name_mono(c, nm, fst + 1, fst + 2, c.len() as int);
        lemma_covers_name_lift(c, nm, fst + 1);
    }
}

proof fn lemma_covers_pair_lift(c: Seq<Seq<char>>, a: Seq<char>, b: Seq<char>, fst: int)
    requires
        0 <= fst < c.len(),
        covers_pair(c, a, b, fst, c.len() as int),
    ensures
        covers_pair(c, a, b, c.len() as int, c.len() as int + 1),
    decreases c.len() - fst,
{
    assert(covers_pair(c, a, b, fst + 1, fst + 2));
    if fst + 1 == c.len() {
        assert(covers_pair(c, a, b, c.len() as int, c.len() as int + 1));
    } else {
        lemma_covers_pair_mono(c, a, b, fst + 1, fst + 2, c.len() as int);
        lemma_covers_pair_lift(c, a, b, fst + 1);
    }
}

proof fn lemma_covers_name_complete(c: Seq<Seq<char>>, nm: Seq<char>)
    requires
        cast_mentions(c, nm),
    ensures
        covers_name(c, nm, c.len() as int, c.len() as int + 1),
{
    let k = choose|k: int| 0 <= k < c.len() && c[k] == nm;
    if k == 0 {
        assert(covers_name(c, nm, 0, 2));
        lemma_covers_name_mono(c, nm, 0, 2, c.len() as int);
        lemma_covers_name_lift(c, nm, 0);
    } else {
        assert(covers_name(c, nm, 0, k + 1));
        lemma_covers_name_mono(c, nm, 0, k + 1, c.len() as int);
        lemma_covers_name_lift(c, nm, 0);
    }
}

proof fn lemma_covers_pair_complete(c: Seq<Seq<char>>, a: Seq<char>, b: Seq<char>)
    requires
        cast_pairs(c, a, b),
    ensures
        covers_pair(c, a, b, c.len() as int, c.len() as int + 1),
{
    let (i, j) = choose|i: int, j: int|
        #![trigger c[i], c[j]]
        0 <= i < c.len() && 0 <= j < c.len() && i != j && c[i] == a && c[j] == b;
    let lo = if i < j {
        i
    } else {
        j
    };
    let hi = if i < j {
        j
    } else {
        i
    };
    assert(c[lo] != c[hi]);
    assert(covers_pair(c, a, b, lo, hi + 1));
    lemma_covers_pair_mono(c, a, b, lo, hi + 1, c.len() as int);
    lemma_covers_pair_lift(c, a, b, lo);
}

impl MovieGraph {
    /// Record the co-appearances of one cast: every unordered pair of
    /// distinct positions becomes an edge, so every actor of a cast of two
    /// or more becomes a vertex, and no actor is joined to itself.
    pub fn add_cast(&mut self, cast: &Vec<String>)
        requires
            old(self).wf(),
        ensures
            final(self).wf(),
            forall|nm: Seq<char>|
                final(self).contains_name(nm) <==> (old(self).contains_name(nm) || cast_mentions(
                    cast.deep_view(),
                    nm,
                )),
            forall|a: Seq<char>, b: Seq<char>|
                final(self).spec_has_edge(a, b) <==> (old(self).spec_has_edge(a, b) || cast_pairs(
                    cast.deep_view(),
                    a,
                    b,
                )),
    {
        let ghost c = cast.deep_view();
        let len = cast.len();
        proof {
            assert(c.len() == len);
        }
        for fst in 0..len
            invariant
                self.wf(),
                len == cast@.len(),
                c == cast.deep_view(),
                forall|nm: Seq<char>|
                    self.contains_name(nm) <==> (old(self).contains_name(nm) || covers_name(
                        c,
                        nm,
                        fst as int,
                        fst + 1,
                    )),
                forall|a: Seq<char>, b: Seq<char>|
                    self.spec_has_edge(a, b) <==> (old(self).spec_has_edge(a, b) || covers_pair(
                        c,
                        a,
                        b,
                        fst as int,
                        fst + 1,
                    )),
        {
            let mut snd = fst + 1;
            while snd < len
                invariant
                    self.wf(),
                    len == cast@.len(),
                    c == cast.deep_view(),
                    fst < len,
                    fst < snd <= len,
                    forall|nm: Seq<char>|
                        self.contains_name(nm) <==> (old(self).contains_name(nm) || covers_name(
                            c,
                            nm,
                            fst as int,
                            snd as int,
                        )),
                    forall|a: Seq<char>, b: Seq<char>|
                        self.spec_has_edge(a, b) <==> (old(self).spec_has_edge(a, b)
                            || covers_pair(c, a, b, fst as int, snd as int)),
                decreases len - snd,
            {
                proof {
                    assert(c[fst as int] == cast@[fst as int]@);
                    assert(c[snd as int] == cast@[snd as int]@);
                }
                self.add_edge(cast[fst].clone(), cast[snd].clone());
                snd = snd + 1;
            }
        }
        proof {
            assert forall|nm: Seq<char>|
                self.contains_name(nm) <==> (old(self).contains_name(nm) || cast_mentions(c, nm)) by {
                if self.contains_name(nm) && !old(self).contains_name(nm) {
                    lemma_covers_name_sound(c, nm, len as int, len + 1);
                }
                if cast_mentions(c, nm) {
                    lemma_covers_name_complete(c, nm);
                }
            }
            assert forall|a: Seq<char>, b: Seq<char>|
                self.spec_has_edge(a, b) <==> (old(self).spec_has_edge(a, b) || cast_pairs(
                    c,
                    a,
                    b,
                )) by {
                if self.spec_has_edge(a, b) && !old(self).spec_has_edge(a, b) {
                    lemma_covers_pair_sound(c, a, b, len as int, len + 1);
                }
                if cast_pairs(c, a, b) {
                    lemma_covers_pair_complete(c, a, b);
                }
            }
        }
    }

    /// Build the graph from a sequence of records, one line each: every
    /// well-formed record joins all distinct members of its cast, and the
    /// second result counts the malformed records that were skipped.
    pub fn from_records(lines: &Vec<String>) -> (r: (Self, usize))
        ensures
            r.0.wf(),
            forall|nm: Seq<char>|
                r.0.contains_name(nm) <==> lines_have_name(
                    lines.deep_view(),
                    lines.deep_view().len() as int,
                    nm,
                ),
            forall|a: Seq<char>, b: Seq<char>|
                r.0.spec_has_edge(a, b) <==> lines_have_edge(
                    lines.deep_view(),
                    lines.deep_view().len() as int,
                    a,
                    b,
                ),
            r.1 == malformed_upto(lines.deep_view(), lines.deep_view().len() as int),
    {
        let ghost lv = lines.deep_view();
        let mut g = MovieGraph::new();
        let mut skipped: usize = 0;
        let m = lines.len();
        proof {
            assert(lv.len() == m);
        }
        for r in 0..m
            invariant
                g.wf(),
                m == lines@.len(),
                lv == lines.deep_view(),
                skipped <= r,
                skipped == malformed_upto(lv, r as int),
                forall|nm: Seq<char>| g.contains_name(nm) <==> lines_have_name(lv, r as int, nm),
                forall|a: Seq<char>, b: Seq<char>|
                    g.spec_has_edge(a, b) <==> lines_have_edge(lv, r as int, a, b),
        {
            let ghost g0 = g;
            proof {
                assert(lv[r as int] == lines@[r as int]@);
            }
            match parse_record(lines[r].as_str()) {
                Some(cast) => {
                    g.add_cast(&cast);
                    proof {
                        assert(record_cast(lv[r as int]) == cast.deep_view());
                        lemma_lines_step(lv, r as int, g0, g);
                    }
                },
                None => {
                    skipped = skipped + 1;
                    proof {
                        assert(record_cast(lv[r as int]) =~= Seq::<Seq<char>>::empty());
                        assert forall|nm: Seq<char>|
                            !cast_mentions(record_cast(lv[r as int]), nm) by {}
                        assert forall|a: Seq<char>, b: Seq<char>|
                            !cast_pairs(record_cast(lv[r as int]), a, b) by {}
                        lemma_lines_step(lv, r as int, g0, g);
                    }
                },
            }
        }
        proof {
            assert(lv.len() == m);
        }
        (g, skipped)
    }
}

/// Extending the processed prefix by one line extends what the input brings
/// into the graph by exactly that line's contribution.
proof fn lemma_lines_step(lv: Seq<Seq<char>>, r: int, g0: MovieGraph, g: MovieGraph)
    requires
        0 <= r < lv.len(),
        forall|nm: Seq<char>| g0.contains_name(nm) <==> lines_have_name(lv, r, nm),
        forall|a: Seq<char>, b: Seq<char>| g0.spec_has_edge(a, b) <==> lines_have_edge(lv, r, a, b),
        forall|nm: Seq<char>|
            g.contains_name(nm) <==> (g0.contains_name(nm) || cast_mentions(
                record_cast(lv[r]),
                nm,
            )),
        forall|a: Seq<char>, b: Seq<char>|
            g.spec_has_edge(a, b) <==> (g0.spec_has_edge(a, b) || cast_pairs(
                record_cast(lv[r]),
                a,
                b,
            )),
    ensures
        forall|nm: Seq<char>| g.contains_name(nm) <==> lines_have_name(lv, r + 1, nm),
        forall|a: Seq<char>, b: Seq<char>| g.spec_has_edge(a, b) <==> lines_have_edge(lv, r + 1, a, b),
{
    assert forall|nm: Seq<char>| g.contains_name(nm) <==> lines_have_name(lv, r + 1, nm) by {
        if g.contains_name(nm) {
            if g0.contains_name(nm) {
                let w = choose|w: int| 0 <= w < r && cast_mentions(record_cast(lv[w]), nm);
                assert(cast_mentions(record_cast(lv[w]), nm));
            } else {
                assert(cast_mentions(record_cast(lv[r]), nm));
            }
        }
        if lines_have_name(lv, r + 1, nm) {
            let w = choose|w: int| 0 <= w < r + 1 && cast_mentions(record_cast(#[trigger] lv[w]), nm);
            if w < r {
                assert(lines_have_name(lv, r, nm));
            }
        }
    }
    assert forall|a: Seq<char>, b: Seq<char>|
        g.spec_has_edge(a, b) <==> lines_have_edge(lv, r + 1, a, b) by {
        if g.spec_has_edge(a, b) {
            if g0.spec_has_edge(a, b) {
                let w = choose|w: int| 0 <= w < r && cast_pairs(record_cast(#[trigger] lv[w]), a, b);
                assert(cast_pairs(record_cast(lv[w]), a, b));
            } else {
                assert(cast_pairs(record_cast(lv[r]), a, b));
            }
        }
        if lines_have_edge(lv, r + 1, a, b) {
            let w = choose|w: int| 0 <= w < r + 1 && cast_pairs(record_cast(#[trigger] lv[w]), a, b);
            if w < r {
                assert(lines_have_edge(lv, r, a, b));
            }
        }
    }
}

} // verus!
