//! Splitting a document's text into fragments and normalised terms.
use vstd::prelude::*;

verus! {

broadcast use vstd::string::axiom_spec_iter;

/// A character that `char::is_whitespace` accepts: the Unicode `White_Space` set.
pub open spec fn is_space(c: char) -> bool {
    ('\t' <= c && c <= '\r') || c == ' ' || c == '\u{85}' || c == '\u{a0}' || c == '\u{1680}'
        || ('\u{2000}' <= c && c <= '\u{200a}') || c == '\u{2028}' || c == '\u{2029}'
        || c == '\u{202f}' || c == '\u{205f}' || c == '\u{3000}'
}

/// An ASCII punctuation character.
pub open spec fn is_punct(c: char) -> bool {
    ('!' <= c && c <= '/') || (':' <= c && c <= '@') || ('[' <= c && c <= '`') || ('{' <= c
        && c <= '~')
}

/// A character that separates fragments.
pub open spec fn is_delim(c: char) -> bool {
    is_space(c) || is_punct(c)
}

/// After reading `s`: the fragments already closed, and the fragment still open.
pub open spec fn split_state(s: Seq<char>) -> (Seq<Seq<char>>, Seq<char>)
    decreases s.len(),
{
    if s.len() == 0 {
        (Seq::empty(), Seq::empty())
    } else {
        let (done, cur) = split_state(s.drop_last());
        let c = s.last();
        if is_delim(c) {
            if cur.len() > 0 {
                (done.push(cur), Seq::empty())
            } else {
                (done, Seq::empty())
            }
        } else {
            (done, cur.push(c))
        }
    }
}

/// The maximal non-empty runs of non-delimiter characters of `s`, in order.
pub open spec fn fragments(s: Seq<char>) -> Seq<Seq<char>> {
    let (done, cur) = split_state(s);
    if cur.len() > 0 {
        done.push(cur)
    } else {
        done
    }
}

/// Byte-wise ASCII lowercase.
pub open spec fn lower_char(c: char) -> char {
    if 'A' <= c && c <= 'Z' {
        ((c as u32 + 32) as u8) as char
    } else {
        c
    }
}

pub open spec fn is_letter(c: char) -> bool {
    'a' <= c && c <= 'z'
}

/// The lowercased fragment reduced to the letters `a` to `z`.
pub open spec fn letters(f: Seq<char>) -> Seq<char>
    decreases f.len(),
{
    if f.len() == 0 {
        Seq::empty()
    } else {
        let p = letters(f.drop_last());
        let c = lower_char(f.last());
        if is_letter(c) {
            p.push(c)
        } else {
            p
        }
    }
}

pub open spec fn all_ascii(f: Seq<char>) -> bool {
    forall|i: int| 0 <= i < f.len() ==> f[i] <= '\x7f'
}

/// A fragment yields a term when it is all ASCII and holds at least one letter.
pub open spec fn yields_term(f: Seq<char>) -> bool {
    all_ascii(f) && letters(f).len() > 0
}

/// The terms that a sequence of fragments yields, in order.
pub open spec fn terms_of(fs: Seq<Seq<char>>) -> Seq<Seq<char>>
    decreases fs.len(),
{
    if fs.len() == 0 {
        Seq::empty()
    } else {
        let p = terms_of(fs.drop_last());
        if yields_term(fs.last()) {
            p.push(letters(fs.last()))
        } else {
            p
        }
    }
}

/// The terms of a text, in order, with repetitions.
pub open spec fn terms(text: Seq<char>) -> Seq<Seq<char>> {
    terms_of(fragments(text))
}

/// How often `t` occurs in `ts`.
pub open spec fn occurrences(ts: Seq<Seq<char>>, t: Seq<char>) -> nat
    decreases ts.len(),
{
    if ts.len() == 0 {
        0
    } else {
        occurrences(ts.drop_last(), t) + if ts.last() == t {
            1nat
        } else {
            0nat
        }
    }
}

/// The distinct elements of `ts`, in the order of their first occurrence.
pub open spec fn distinct(ts: Seq<Seq<char>>) -> Seq<Seq<char>>
    decreases ts.len(),
{
    if ts.len() == 0 {
        Seq::empty()
    } else {
        let p = distinct(ts.drop_last());
        if p.contains(ts.last()) {
            p
        } else {
            p.push(ts.last())
        }
    }
}

/// `v` lists each distinct term of `ts` once, in order of first occurrence, with its count.
pub open spec fn counts_of(v: Seq<(String, u32)>, ts: Seq<Seq<char>>) -> bool {
    &&& v.len() == distinct(ts).len()
    &&& forall|i: int|
        0 <= i < v.len() ==> (#[trigger] v[i]).0@ == distinct(ts)[i] && v[i].1 == occurrences(
            ts,
            distinct(ts)[i],
        )
}

/// The result of tokenizing one text.
pub struct Tokens {
    /// The number of fragments, counted before any is rejected. Empty runs
    /// between adjacent delimiters are no fragments, so an empty text has length 0.
    pub length: u32,
    /// Each distinct term with its number of occurrences, in order of first occurrence.
    pub counts: Vec<(String, u32)>,
}

pub proof fn lemma_occurrences_bound(ts: Seq<Seq<char>>, t: Seq<char>)
    ensures
        occurrences(ts, t) <= ts.len(),
    decreases ts.len(),
{
    if ts.len() > 0 {
        lemma_occurrences_bound(ts.drop_last(), t);
    }
}

pub proof fn lemma_occurring_is_listed(ts: Seq<Seq<char>>, t: Seq<char>)
    ensures
        occurrences(ts, t) > 0 <==> distinct(ts).contains(t),
    decreases ts.len(),
{
    if ts.len() > 0 {
        let p = ts.drop_last();
        lemma_occurring_is_listed(p, t);
        let dp = distinct(p);
        if !dp.contains(ts.last()) {
            assert(dp.push(ts.last())[dp.len() as int] == ts.last());
            if dp.contains(t) {
                let k = choose|k: int| 0 <= k < dp.len() && dp[k] == t;
                assert(dp.push(ts.last())[k] == t);
            }
            if dp.push(ts.last()).contains(t) && ts.last() != t {
                let k = choose|k: int| 0 <= k < dp.len() + 1 && dp.push(ts.last())[k] == t;
                assert(dp[k] == t);
            }
        }
    }
}

pub proof fn lemma_distinct_unique(ts: Seq<Seq<char>>)
    ensures
        forall|i: int, j: int|
            0 <= i < j < distinct(ts).len() ==> distinct(ts)[i] != distinct(ts)[j],
    decreases ts.len(),
{
    if ts.len() > 0 {
        let p = ts.drop_last();
        lemma_distinct_unique(p);
        let dp = distinct(p);
        if !dp.contains(ts.last()) {
            let d = dp.push(ts.last());
            assert forall|i: int, j: int| 0 <= i < j < d.len() implies d[i] != d[j] by {
                if j == dp.len() {
                    assert(d[i] == dp[i]);
                    assert(dp.contains(dp[i]));
                } else {
                    assert(d[i] == dp[i] && d[j] == dp[j]);
                }
            }
        }
    }
}

proof fn lemma_split_state_bound(s: Seq<char>)
    ensures
        split_state(s).0.len() + (if split_state(s).1.len() > 0 { 1int } else { 0int }) <= s.len(),
    decreases s.len(),
{
    if s.len() > 0 {
        lemma_split_state_bound(s.drop_last());
    }
}

/// A text has at most as many fragments as characters.
pub proof fn lemma_fragments_bound(s: Seq<char>)
    ensures
        fragments(s).len() <= s.len(),
{
    lemma_split_state_bound(s);
}

pub proof fn lemma_terms_bound(fs: Seq<Seq<char>>)
    ensures
        terms_of(fs).len() <= fs.len(),
    decreases fs.len(),
{
    if fs.len() > 0 {
        lemma_terms_bound(fs.drop_last());
    }
}

/// Relies on `String::push`: appends one character at the end.
#[verifier::external_body]
fn push_char(s: &mut String, c: char)
    ensures
        final(s)@ == old(s)@.push(c),
{
    s.push(c)
}

pub fn is_whitespace(c: char) -> (r: bool)
    ensures
        r == is_space(c),
{
    ('\t' <= c && c <= '\r') || c == ' ' || c == '\u{85}' || c == '\u{a0}' || c == '\u{1680}'
        || ('\u{2000}' <= c && c <= '\u{200a}') || c == '\u{2028}' || c == '\u{2029}'
        || c == '\u{202f}' || c == '\u{205f}' || c == '\u{3000}'
}

pub fn is_delimiter(c: char) -> (r: bool)
    ensures
        r == is_delim(c),
{
    is_whitespace(c) || ('!' <= c && c <= '/') || (':' <= c && c <= '@') || ('[' <= c && c <= '`')
        || ('{' <= c && c <= '~')
}

pub fn to_lower(c: char) -> (r: char)
    ensures
        r == lower_char(c),
{
    if 'A' <= c && c <= 'Z' {
        let b: u8 = (c as u32 + 32) as u8;
        b as char
    } else {
        c
    }
}

/// Adds one occurrence of `t` to the count list.
fn count_term(counts: &mut Vec<(String, u32)>, t: String, Ghost(ts): Ghost<Seq<Seq<char>>>)
    requires
        counts_of(old(counts)@, ts),
        ts.len() < u32::MAX,
    ensures
        counts_of(final(counts)@, ts.push(t@)),
{
    let ghost nts = ts.push(t@);
    assert(nts.drop_last() =~= ts);
    proof {
        lemma_occurrences_bound(ts, t@);
        lemma_occurring_is_listed(ts, t@);
    }
    let mut i: usize = 0;
    while i < counts.len()
        invariant
            counts@ == old(counts)@,
            counts_of(counts@, ts),
            0 <= i <= counts.len(),
            forall|j: int| 0 <= j < i ==> distinct(ts)[j] != t@,
            nts == ts.push(t@),
            ts.len() < u32::MAX,
        decreases counts.len() - i,
    {
        if counts[i].0 == t {
            let n = counts[i].1;
            assert(counts@[i as int].0@ == distinct(ts)[i as int]);
            assert(n == occurrences(ts, t@));
            proof {
                lemma_occurrences_bound(ts, t@);
                lemma_distinct_unique(ts);
            }
            assert(nts.drop_last() =~= ts);
            let name = counts[i].0.clone();
            counts.set(i, (name, n + 1));
            assert(distinct(ts).contains(t@)) by {
                assert(distinct(ts)[i as int] == t@);
            }
            assert(nts.last() == t@);
            assert(distinct(nts) == distinct(ts));
            assert(counts_of(counts@, nts)) by {
                assert forall|j: int| 0 <= j < counts@.len() implies (#[trigger] counts@[j]).0@
                    == distinct(nts)[j] && counts@[j].1 == occurrences(nts, distinct(nts)[j]) by {
                    if j != i {
                        assert(counts@[j] == old(counts)@[j]);
                    }
                }
            }
            return;
        }
        i += 1;
    }
    assert(!distinct(ts).contains(t@));
    assert(nts.last() == t@);
    assert(distinct(nts) == distinct(ts).push(t@));
    counts.push((t, 1));
    assert(counts_of(counts@, nts)) by {
        assert forall|j: int| 0 <= j < counts@.len() implies (#[trigger] counts@[j]).0@
            == distinct(nts)[j] && counts@[j].1 == occurrences(nts, distinct(nts)[j]) by {
            if j < counts@.len() - 1 {
                assert(counts@[j] == old(counts)@[j]);
                assert(distinct(ts).contains(distinct(ts)[j]));
            }
        }
    }
}

/// Splits `text` into fragments at whitespace and ASCII punctuation, counts
/// them, and counts the terms that they yield.
pub fn tokenize(text: &str) -> (r: Tokens)
    requires
        text@.len() <= u32::MAX,
    ensures
        r.length == fragments(text@).len(),
        counts_of(r.counts@, terms(text@)),
{
    let mut length: u32 = 0;
    let mut counts: Vec<(String, u32)> = Vec::new();
    let mut open = false;
    let mut ascii = true;
    let mut letter = false;
    let mut cur_term = String::new();
    let ghost mut done: Seq<Seq<char>> = Seq::empty();
    let ghost mut cur: Seq<char> = Seq::empty();
    for c in it: text.chars()
        invariant
            it.seq() == text@,
            text@.len() <= u32::MAX,
            (done, cur) == split_state(text@.take(it.index() as int)),
            length == done.len(),
            done.len() + (if cur.len() > 0 { 1int } else { 0int }) <= it.index(),
            open == (cur.len() > 0),
            ascii == all_ascii(cur),
            cur_term@ == letters(cur),
            letter == (letters(cur).len() > 0),
            counts_of(counts@, terms_of(done)),
    {
        let ghost i = it.index() as int;
        assert(text@.take(i + 1).drop_last() =~= text@.take(i));
        assert(text@.take(i + 1).last() == c);
        if is_delimiter(c) {
            if open {
                proof {
                    lemma_terms_bound(done);
                }
                assert(done.push(cur).drop_last() =~= done);
                if ascii && letter {
                    count_term(&mut counts, cur_term, Ghost(terms_of(done)));
                }
                length += 1;
                proof {
                    done = done.push(cur);
                }
            }
            open = false;
            ascii = true;
            letter = false;
            cur_term = String::new();
            proof {
                cur = Seq::empty();
            }
        } else {
            let ghost ncur = cur.push(c);
            assert(ncur.drop_last() =~= cur);
            open = true;
            proof {
                if all_ascii(cur) && c <= '\x7f' {
                    assert forall|k: int| 0 <= k < ncur.len() implies ncur[k] <= '\x7f' by {
                        if k < cur.len() {
                            assert(ncur[k] == cur[k]);
                        }
                    }
                } else if !all_ascii(cur) {
                    let k = choose|k: int| 0 <= k < cur.len() && !(cur[k] <= '\x7f');
                    assert(ncur[k] == cur[k]);
                } else {
                    assert(ncur[cur.len() as int] == c);
                }
            }
            ascii = ascii && c <= '\x7f';
            let lc = to_lower(c);
            if 'a' <= lc && lc <= 'z' {
                push_char(&mut cur_term, lc);
                letter = true;
            }
            proof {
                cur = ncur;
            }
        }
    }
    assert(text@.take(text@.len() as int) =~= text@);
    if open {
        proof {
            lemma_terms_bound(done);
        }
        assert(done.push(cur).drop_last() =~= done);
        if ascii && letter {
            count_term(&mut counts, cur_term, Ghost(terms_of(done)));
        }
        length += 1;
    }
    Tokens { length, counts }
}

} // verus!
