//! Properties of a whole build, stated over its input lines.
use vstd::prelude::*;
use crate::index::{
    bump_all, docs_model, doc_postings, first_space, has_space, lemma_first_space,
    lemma_skip_spaces_range, postings_model, split_line, terms_model, Indexer,
};
use crate::tables::{bump, keys_distinct, sat_add, DocView};
use crate::tokenizer::{
    distinct, fragments, lemma_distinct_unique, lemma_fragments_bound, lemma_occurrences_bound,
    lemma_occurring_is_listed, lemma_terms_bound, occurrences, terms,
};

verus! {

/// The sum of the lengths of a sequence of documents.
pub open spec fn total_length(ds: Seq<DocView>) -> nat
    decreases ds.len(),
{
    if ds.len() == 0 {
        0
    } else {
        total_length(ds.drop_last()) + ds.last().2
    }
}

/// The number of fragments in the texts of the well-formed lines.
pub open spec fn total_fragments(lines: Seq<Seq<char>>) -> nat
    decreases lines.len(),
{
    if lines.len() == 0 {
        0
    } else {
        total_fragments(lines.drop_last()) + match split_line(lines.last()) {
            Some((id, text)) => fragments(text).len(),
            None => 0,
        }
    }
}

/// The texts of the well-formed lines, in order: the text of document `k` is at `k`.
pub open spec fn texts_model(lines: Seq<Seq<char>>) -> Seq<Seq<char>>
    decreases lines.len(),
{
    if lines.len() == 0 {
        Seq::empty()
    } else {
        let p = texts_model(lines.drop_last());
        match split_line(lines.last()) {
            Some((id, text)) => p.push(text),
            None => p,
        }
    }
}

/// The external id of a well-formed line.
pub open spec fn line_id(line: Seq<char>) -> Seq<char> {
    line.take(first_space(line))
}

/// The terms of all well-formed lines, in input order.
pub open spec fn corpus_terms(lines: Seq<Seq<char>>) -> Seq<Seq<char>>
    decreases lines.len(),
{
    if lines.len() == 0 {
        Seq::empty()
    } else {
        let p = corpus_terms(lines.drop_last());
        match split_line(lines.last()) {
            Some((id, text)) => p + terms(text),
            None => p,
        }
    }
}

/// `n`, held at `u32::MAX`.
pub open spec fn capped(n: nat) -> u32 {
    if n > u32::MAX {
        u32::MAX
    } else {
        n as u32
    }
}

/// `v` holds, once each, exactly the terms with a positive count under `f`,
/// each with that count held at `u32::MAX`.
pub open spec fn tallies(v: Seq<(Seq<char>, u32)>, f: spec_fn(Seq<char>) -> nat) -> bool {
    &&& keys_distinct(v)
    &&& forall|k: int|
        0 <= k < v.len() ==> f((#[trigger] v[k]).0) > 0 && v[k].1 == capped(f(v[k].0))
    &&& forall|t: Seq<char>| #[trigger] f(t) > 0 ==> exists|k: int| 0 <= k < v.len() && (#[trigger] v[k]).0 == t
}

proof fn lemma_occurrences_concat(a: Seq<Seq<char>>, b: Seq<Seq<char>>, t: Seq<char>)
    ensures
        occurrences(a + b, t) == occurrences(a, t) + occurrences(b, t),
    decreases b.len(),
{
    if b.len() == 0 {
        assert(a + b =~= a);
    } else {
        lemma_occurrences_concat(a, b.drop_last(), t);
        assert((a + b).drop_last() =~= a + b.drop_last());
    }
}

proof fn lemma_tallies_ext(v: Seq<(Seq<char>, u32)>, f: spec_fn(Seq<char>) -> nat, g: spec_fn(Seq<char>) -> nat)
    requires
        tallies(v, f),
        forall|x: Seq<char>| #[trigger] f(x) == g(x),
    ensures
        tallies(v, g),
{
    assert forall|t: Seq<char>| #[trigger] g(t) > 0 implies exists|k: int|
        0 <= k < v.len() && (#[trigger] v[k]).0 == t by {
        assert(f(t) > 0);
    }
}

proof fn lemma_bump_tallies(v: Seq<(Seq<char>, u32)>, f: spec_fn(Seq<char>) -> nat, t: Seq<char>, n: u32)
    requires
        tallies(v, f),
        n > 0,
    ensures
        tallies(bump(v, t, n), |x: Seq<char>| if x == t { (f(x) + n) as nat } else { f(x) }),
{
    let g = |x: Seq<char>| if x == t { (f(x) + n) as nat } else { f(x) };
    let w = bump(v, t, n);
    if exists|i: int| 0 <= i < v.len() && v[i].0 == t {
        let i = choose|i: int| 0 <= i < v.len() && v[i].0 == t;
        assert(w == v.update(i, (t, sat_add(v[i].1, n))));
        assert(sat_add(capped(f(t)), n) == capped((f(t) + n) as nat));
        assert forall|k: int| 0 <= k < w.len() implies g((#[trigger] w[k]).0) > 0 && w[k].1 == capped(
            g(w[k].0),
        ) by {
            if k != i {
                assert(w[k] == v[k]);
                assert(v[k].0 != t);
            }
        }
        assert forall|x: Seq<char>| #[trigger] g(x) > 0 implies exists|k: int|
            0 <= k < w.len() && (#[trigger] w[k]).0 == x by {
            if x == t {
                assert(w[i].0 == t);
            } else {
                assert(f(x) > 0);
                let k = choose|k: int| 0 <= k < v.len() && v[k].0 == x;
                assert(w[k].0 == x);
            }
        }
        assert(keys_distinct(w)) by {
            assert forall|a: int, b: int| 0 <= a < b < w.len() implies w[a].0 != w[b].0 by {
                assert(v[a].0 != v[b].0);
            }
        }
    } else {
        assert(w == v.push((t, n)));
        assert(f(t) == 0) by {
            if f(t) > 0 {
                let k = choose|k: int| 0 <= k < v.len() && v[k].0 == t;
                assert(v[k].0 == t);
            }
        }
        assert forall|k: int| 0 <= k < w.len() implies g((#[trigger] w[k]).0) > 0 && w[k].1 == capped(
            g(w[k].0),
        ) by {
            if k < v.len() {
                assert(w[k] == v[k]);
                assert(v[k].0 != t);
            }
        }
        assert forall|x: Seq<char>| #[trigger] g(x) > 0 implies exists|k: int|
            0 <= k < w.len() && (#[trigger] w[k]).0 == x by {
            if x == t {
                assert(w[v.len() as int].0 == t);
            } else {
                assert(f(x) > 0);
                let k = choose|k: int| 0 <= k < v.len() && v[k].0 == x;
                assert(w[k].0 == x);
            }
        }
        assert(keys_distinct(w)) by {
            assert forall|a: int, b: int| 0 <= a < b < w.len() implies w[a].0 != w[b].0 by {
                if b == v.len() {
                    assert(w[a] == v[a]);
                } else {
                    assert(w[a] == v[a] && w[b] == v[b]);
                }
            }
        }
    }
}

proof fn lemma_bump_all_tallies(
    v: Seq<(Seq<char>, u32)>,
    f: spec_fn(Seq<char>) -> nat,
    ds: Seq<Seq<char>>,
    us: Seq<Seq<char>>,
)
    requires
        tallies(v, f),
        forall|i: int, j: int| 0 <= i < j < ds.len() ==> ds[i] != ds[j],
        forall|i: int| 0 <= i < ds.len() ==> 0 < occurrences(us, #[trigger] ds[i]) <= u32::MAX,
    ensures
        tallies(
            bump_all(v, ds, us),
            |x: Seq<char>| (f(x) + if ds.contains(x) { occurrences(us, x) } else { 0 }) as nat,
        ),
    decreases ds.len(),
{
    if ds.len() > 0 {
        let pre = ds.drop_last();
        let d = ds.last();
        lemma_bump_all_tallies(v, f, pre, us);
        let fp = |x: Seq<char>| (f(x) + if pre.contains(x) { occurrences(us, x) } else { 0 }) as nat;
        let n = occurrences(us, d) as u32;
        assert(0 < occurrences(us, ds[ds.len() - 1]));
        lemma_bump_tallies(bump_all(v, pre, us), fp, d, n);
        let g = |x: Seq<char>| if x == d { (fp(x) + n) as nat } else { fp(x) };
        let h = |x: Seq<char>| (f(x) + if ds.contains(x) { occurrences(us, x) } else { 0 }) as nat;
        assert(!pre.contains(d)) by {
            if pre.contains(d) {
                let i = choose|i: int| 0 <= i < pre.len() && pre[i] == d;
                assert(ds[i] == ds[ds.len() - 1]);
            }
        }
        assert forall|x: Seq<char>| #[trigger] g(x) == h(x) by {
            if x == d {
                assert(ds[ds.len() - 1] == x);
            } else if pre.contains(x) {
                let i = choose|i: int| 0 <= i < pre.len() && pre[i] == x;
                assert(ds[i] == x);
            } else if ds.contains(x) {
                let i = choose|i: int| 0 <= i < ds.len() && ds[i] == x;
                assert(i < pre.len());
                assert(pre[i] == x);
            }
        }
        lemma_tallies_ext(bump(bump_all(v, pre, us), d, n), g, h);
    } else {
        let h = |x: Seq<char>| (f(x) + if ds.contains(x) { occurrences(us, x) } else { 0 }) as nat;
        lemma_tallies_ext(v, f, h);
    }
}

/// The term counters of a build list each term of the corpus once, with its
/// number of occurrences over all documents, held at `u32::MAX`.
pub proof fn lemma_term_totals(lines: Seq<Seq<char>>)
    requires
        forall|i: int| 0 <= i < lines.len() ==> (#[trigger] lines[i]).len() <= u32::MAX,
    ensures
        tallies(terms_model(lines), |t: Seq<char>| occurrences(corpus_terms(lines), t)),
    decreases lines.len(),
{
    let f = |t: Seq<char>| occurrences(corpus_terms(lines), t);
    if lines.len() == 0 {
        assert(terms_model(lines) == Seq::<(Seq<char>, u32)>::empty());
    } else {
        let pre = lines.drop_last();
        assert forall|i: int| 0 <= i < pre.len() implies (#[trigger] pre[i]).len() <= u32::MAX by {
            assert(pre[i] == lines[i]);
        }
        lemma_term_totals(pre);
        let fp = |t: Seq<char>| occurrences(corpus_terms(pre), t);
        let line = lines.last();
        assert(line == lines[lines.len() - 1]);
        if let Some((id, text)) = split_line(line) {
            let us = terms(text);
            let ds = distinct(us);
            lemma_first_space(line);
            lemma_skip_spaces_range(line, first_space(line) + 1);
            lemma_fragments_bound(text);
            lemma_terms_bound(fragments(text));
            lemma_distinct_unique(us);
            assert forall|i: int| 0 <= i < ds.len() implies 0 < occurrences(us, #[trigger] ds[i])
                <= u32::MAX by {
                assert(ds.contains(ds[i]));
                lemma_occurring_is_listed(us, ds[i]);
                lemma_occurrences_bound(us, ds[i]);
            }
            lemma_bump_all_tallies(terms_model(pre), fp, ds, us);
            let h = |x: Seq<char>| (fp(x) + if ds.contains(x) { occurrences(us, x) } else { 0 }) as nat;
            assert forall|x: Seq<char>| #[trigger] h(x) == f(x) by {
                lemma_occurrences_concat(corpus_terms(pre), us, x);
                lemma_occurring_is_listed(us, x);
            }
            lemma_tallies_ext(terms_model(lines), h, f);
        } else {
            assert forall|x: Seq<char>| #[trigger] fp(x) == f(x) by {
            }
            lemma_tallies_ext(terms_model(lines), fp, f);
        }
    }
}

/// The term counters of any build, flushed at any points, hold each term of
/// the lines fed so far once, with its number of occurrences over all of them.
pub proof fn lemma_build_term_totals(ix: &Indexer)
    requires
        ix.wf(),
    ensures
        tallies(ix.term_counts(), |t: Seq<char>| occurrences(corpus_terms(ix.input()), t)),
{
    ix.lemma_output();
    lemma_term_totals(ix.input());
}

/// The lengths of all documents add up to the number of fragments of all
/// well-formed lines.
pub proof fn lemma_total_length(lines: Seq<Seq<char>>)
    ensures
        total_length(docs_model(lines)) == total_fragments(lines),
    decreases lines.len(),
{
    if lines.len() > 0 {
        lemma_total_length(lines.drop_last());
        let p = docs_model(lines.drop_last());
        if let Some((id, text)) = split_line(lines.last()) {
            assert(docs_model(lines).drop_last() =~= p);
        }
    }
}

/// Internal ids are 0, 1, 2, ... in the order of registration.
pub proof fn lemma_ids_dense(lines: Seq<Seq<char>>)
    ensures
        forall|k: int| 0 <= k < docs_model(lines).len() ==> #[trigger] docs_model(lines)[k].0 == k,
    decreases lines.len(),
{
    if lines.len() > 0 {
        let p = docs_model(lines.drop_last());
        lemma_ids_dense(lines.drop_last());
        if let Some((id, text)) = split_line(lines.last()) {
            let d = docs_model(lines);
            assert(d == p.push((p.len(), id, fragments(text).len())));
            assert forall|k: int| 0 <= k < d.len() implies #[trigger] d[k].0 == k by {
                if k < p.len() {
                    assert(d[k] == p[k]);
                }
            }
        }
    }
}

/// The documents are the well-formed lines, one each, in input order.
#[verifier::rlimit(40)]
pub proof fn lemma_one_record_per_line(lines: Seq<Seq<char>>)
    ensures
        docs_model(lines).map_values(|d: DocView| d.1) == lines.filter(|l: Seq<char>| has_space(l)).map_values(
            |l: Seq<char>| line_id(l),
        ),
    decreases lines.len(),
{
    reveal(Seq::filter);
    if lines.len() > 0 {
        lemma_one_record_per_line(lines.drop_last());
        let f = |l: Seq<char>| has_space(l);
        let g = |l: Seq<char>| line_id(l);
        let h = |d: DocView| d.1;
        assert(lines.filter(f) == if f(lines.last()) {
            lines.drop_last().filter(f).push(lines.last())
        } else {
            lines.drop_last().filter(f)
        });
        if has_space(lines.last()) {
            assert(docs_model(lines).map_values(h) =~= docs_model(lines.drop_last()).map_values(h).push(line_id(lines.last())));
            assert(lines.drop_last().filter(f).push(lines.last()).map_values(g) =~= lines.drop_last().filter(f).map_values(g).push(line_id(lines.last())));
        }
    }
}

/// The frequency of each posting is the number of occurrences of its term in
/// its document's text, and no two postings share a term and a document.
pub proof fn lemma_postings_exact(lines: Seq<Seq<char>>)
    ensures
        texts_model(lines).len() == docs_model(lines).len(),
        forall|k: int|
            0 <= k < postings_model(lines).len() ==> {
                let p = #[trigger] postings_model(lines)[k];
                &&& p.1 < docs_model(lines).len()
                &&& p.2 == occurrences(terms(texts_model(lines)[p.1 as int]), p.0)
                &&& p.2 > 0
            },
        forall|k1: int, k2: int|
            0 <= k1 < k2 < postings_model(lines).len() ==> !(postings_model(lines)[k1].0
                == postings_model(lines)[k2].0 && postings_model(lines)[k1].1
                == postings_model(lines)[k2].1),
    decreases lines.len(),
{
    if lines.len() > 0 {
        let pre = lines.drop_last();
        lemma_postings_exact(pre);
        if let Some((id, text)) = split_line(lines.last()) {
            let n = docs_model(pre).len();
            let ps = postings_model(pre);
            let ts = terms(text);
            let ds = distinct(ts);
            let dp = doc_postings(n, text);
            let all = postings_model(lines);
            assert(all == ps + dp);
            assert(docs_model(lines).len() == n + 1);
            assert(texts_model(lines) == texts_model(pre).push(text));
            lemma_distinct_unique(ts);
            assert forall|k: int| 0 <= k < all.len() implies {
                let p = #[trigger] all[k];
                &&& p.1 < docs_model(lines).len()
                &&& p.2 == occurrences(terms(texts_model(lines)[p.1 as int]), p.0)
                &&& p.2 > 0
            } by {
                if k < ps.len() {
                    assert(all[k] == ps[k]);
                } else {
                    let j = k - ps.len();
                    assert(all[k] == dp[j]);
                    assert(ds.contains(ds[j]));
                    lemma_occurring_is_listed(ts, ds[j]);
                }
            }
            assert forall|k1: int, k2: int| 0 <= k1 < k2 < all.len() implies !(all[k1].0 == all[k2].0
                && all[k1].1 == all[k2].1) by {
                if k2 < ps.len() {
                    assert(all[k1] == ps[k1] && all[k2] == ps[k2]);
                } else if k1 < ps.len() {
                    assert(all[k1] == ps[k1]);
                    assert(all[k2] == dp[k2 - ps.len()]);
                } else {
                    assert(all[k1] == dp[k1 - ps.len()]);
                    assert(all[k2] == dp[k2 - ps.len()]);
                }
            }
        } else {
            assert(postings_model(lines) == postings_model(pre));
            assert(docs_model(lines) == docs_model(pre));
            assert(texts_model(lines) == texts_model(pre));
        }
    }
}

/// The postings of one document all carry its id, name each term of its text
/// once, and give each the number of its occurrences in the text.
pub proof fn lemma_doc_postings_exact(docid: nat, text: Seq<char>)
    ensures
        forall|k: int|
            0 <= k < doc_postings(docid, text).len() ==> {
                let p = #[trigger] doc_postings(docid, text)[k];
                &&& p.1 == docid
                &&& p.2 == occurrences(terms(text), p.0)
                &&& p.2 > 0
            },
        forall|k1: int, k2: int|
            0 <= k1 < k2 < doc_postings(docid, text).len() ==> doc_postings(docid, text)[k1].0
                != doc_postings(docid, text)[k2].0,
        forall|t: Seq<char>|
            occurrences(terms(text), t) > 0 ==> exists|k: int|
                0 <= k < doc_postings(docid, text).len() && (#[trigger] doc_postings(
                    docid,
                    text,
                )[k]).0 == t,
{
    let ts = terms(text);
    let ds = distinct(ts);
    let dp = doc_postings(docid, text);
    lemma_distinct_unique(ts);
    assert forall|k: int| 0 <= k < dp.len() implies {
        let p = #[trigger] dp[k];
        &&& p.1 == docid
        &&& p.2 == occurrences(ts, p.0)
        &&& p.2 > 0
    } by {
        assert(ds.contains(ds[k]));
        lemma_occurring_is_listed(ts, ds[k]);
    }
    assert forall|k1: int, k2: int| 0 <= k1 < k2 < dp.len() implies dp[k1].0 != dp[k2].0 by {
        assert(dp[k1].0 == ds[k1] && dp[k2].0 == ds[k2]);
    }
    assert forall|t: Seq<char>| occurrences(ts, t) > 0 implies exists|k: int|
        0 <= k < dp.len() && (#[trigger] dp[k]).0 == t by {
        lemma_occurring_is_listed(ts, t);
        let k = choose|k: int| 0 <= k < ds.len() && ds[k] == t;
        assert(dp[k].0 == t);
    }
}

/// Two builds fed the same lines have handed out and still hold the same
/// documents, postings and term counters, whatever their flush thresholds and
/// whenever they flushed.
pub proof fn lemma_threshold_unobservable(a: &Indexer, b: &Indexer)
    requires
        a.wf(),
        b.wf(),
        a.input() == b.input(),
    ensures
        a.sent_docs() + a.pending_docs() == b.sent_docs() + b.pending_docs(),
        a.sent_postings() + a.pending_postings() == b.sent_postings() + b.pending_postings(),
        a.term_counts() == b.term_counts(),
        total_length(a.sent_docs() + a.pending_docs()) == total_fragments(a.input()),
{
    a.lemma_output();
    b.lemma_output();
    lemma_total_length(a.input());
}

} // verus!
