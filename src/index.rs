//! Driving one build: registering documents line by line, accumulating
//! postings and term counts, and deciding when a batch is flushed.
use vstd::prelude::*;
use vstd::string::StringExecFns;
use vstd::string::StrSliceExecFns;
use crate::tables::{
    bump, counts_view, docs_view, keys_distinct, postings_view, DocTable, DocView, Document,
    Posting, PostingView, Postings, WordTable,
};
use crate::tokenizer::{
    distinct, fragments, is_space, is_whitespace, occurrences, terms, tokenize, counts_of,
};

verus! {

/// The line holds a whitespace character.
pub open spec fn has_space(line: Seq<char>) -> bool {
    exists|i: int| 0 <= i < line.len() && is_space(line[i])
}

/// The position of the first whitespace character of the line.
pub open spec fn first_space(line: Seq<char>) -> int {
    choose|i: int|
        0 <= i < line.len() && is_space(line[i]) && forall|j: int| 0 <= j < i ==> !is_space(line[j])
}

/// The first position at or after `k` that holds no whitespace character,
/// or the line's length where there is none.
pub open spec fn skip_spaces(line: Seq<char>, k: int) -> int
    decreases line.len() - k,
{
    if 0 <= k < line.len() && is_space(line[k]) {
        skip_spaces(line, k + 1)
    } else {
        k
    }
}

/// A line is an external id and a text, split at its first whitespace run;
/// a line without whitespace is malformed.
pub open spec fn split_line(line: Seq<char>) -> Option<(Seq<char>, Seq<char>)> {
    if has_space(line) {
        let i = first_space(line);
        Some((line.take(i), line.skip(skip_spaces(line, i + 1))))
    } else {
        None
    }
}

/// The postings of one document: one per distinct term, in order of first occurrence.
pub open spec fn doc_postings(docid: nat, text: Seq<char>) -> Seq<PostingView> {
    distinct(terms(text)).map_values(|t: Seq<char>| (t, docid, occurrences(terms(text), t)))
}

/// The term counters after adding the counts of the terms `ds`, in order.
pub open spec fn bump_all(v: Seq<(Seq<char>, u32)>, ds: Seq<Seq<char>>, ts: Seq<Seq<char>>) -> Seq<
    (Seq<char>, u32),
>
    decreases ds.len(),
{
    if ds.len() == 0 {
        v
    } else {
        bump(bump_all(v, ds.drop_last(), ts), ds.last(), occurrences(ts, ds.last()) as u32)
    }
}

/// The documents registered for a sequence of input lines.
pub open spec fn docs_model(lines: Seq<Seq<char>>) -> Seq<DocView>
    decreases lines.len(),
{
    if lines.len() == 0 {
        Seq::empty()
    } else {
        let p = docs_model(lines.drop_last());
        match split_line(lines.last()) {
            Some((id, text)) => p.push((p.len(), id, fragments(text).len())),
            None => p,
        }
    }
}

/// The postings recorded for a sequence of input lines.
pub open spec fn postings_model(lines: Seq<Seq<char>>) -> Seq<PostingView>
    decreases lines.len(),
{
    if lines.len() == 0 {
        Seq::empty()
    } else {
        let p = postings_model(lines.drop_last());
        match split_line(lines.last()) {
            Some((id, text)) => p + doc_postings(docs_model(lines.drop_last()).len(), text),
            None => p,
        }
    }
}

/// The term counters for a sequence of input lines.
pub open spec fn terms_model(lines: Seq<Seq<char>>) -> Seq<(Seq<char>, u32)>
    decreases lines.len(),
{
    if lines.len() == 0 {
        Seq::empty()
    } else {
        let p = terms_model(lines.drop_last());
        match split_line(lines.last()) {
            Some((id, text)) => bump_all(p, distinct(terms(text)), terms(text)),
            None => p,
        }
    }
}

proof fn lemma_space_from(line: Seq<char>, w: int)
    requires
        0 <= w < line.len(),
        is_space(line[w]),
    ensures
        exists|i: int|
            0 <= i < line.len() && is_space(line[i]) && forall|j: int| 0 <= j < i ==> !is_space(line[j]),
    decreases w,
{
    if exists|j: int| 0 <= j < w && is_space(line[j]) {
        let j = choose|j: int| 0 <= j < w && is_space(line[j]);
        lemma_space_from(line, j);
    }
}

/// A line that holds whitespace has a first whitespace character.
pub proof fn lemma_first_space(line: Seq<char>)
    requires
        has_space(line),
    ensures
        0 <= first_space(line) < line.len(),
        is_space(line[first_space(line)]),
        forall|j: int| 0 <= j < first_space(line) ==> !is_space(line[j]),
{
    let w = choose|i: int| 0 <= i < line.len() && is_space(line[i]);
    lemma_space_from(line, w);
}

pub proof fn lemma_skip_spaces_range(line: Seq<char>, k: int)
    requires
        0 <= k <= line.len(),
    ensures
        k <= skip_spaces(line, k) <= line.len(),
    decreases line.len() - k,
{
    if k < line.len() && is_space(line[k]) {
        lemma_skip_spaces_range(line, k + 1);
    }
}

/// Splits a line at its first whitespace run and registers its external id.
/// Returns the new internal id and the text, or `None` for a malformed line.
pub fn insert_doc(line: &str, docs: &mut DocTable) -> (r: Option<(u32, String)>)
    requires
        line@.len() <= u32::MAX,
        old(docs).wf(),
        old(docs).next_id() < u32::MAX,
    ensures
        final(docs).wf(),
        final(docs).first_id() == old(docs).first_id(),
        match split_line(line@) {
            Some((id, text)) => {
                &&& r matches Some((d, t))
                &&& d == old(docs).next_id()
                &&& old(docs).first_id() + old(docs).view().len() == d
                &&& t@ == text
                &&& final(docs).next_id() == old(docs).next_id() + 1
                &&& final(docs).view() == old(docs).view().push((d as nat, id, 0nat))
            },
            None => r is None && final(docs).view() == old(docs).view() && final(docs).next_id()
                == old(docs).next_id(),
        },
{
    let mut found: Option<usize> = None;
    let mut pos: usize = 0;
    for c in it: line.chars()
        invariant
            it.seq() == line@,
            pos == it.index(),
            line@.len() <= u32::MAX,
            match found {
                Some(k) => k < it.index() && is_space(line@[k as int]) && forall|j: int|
                    0 <= j < k ==> !is_space(line@[j]),
                None => forall|j: int| 0 <= j < it.index() ==> !is_space(line@[j]),
            },
    {
        if found.is_none() && is_whitespace(c) {
            found = Some(pos);
        }
        pos += 1;
    }
    match found {
        None => {
            assert(!has_space(line@));
            assert(split_line(line@) is None);
            None
        },
        Some(k) => {
            let ghost f = first_space(line@);
            assert(has_space(line@));
            assert(f == k as int) by {
                if f < k as int {
                    assert(!is_space(line@[f]));
                }
            }
            let n = line.unicode_len();
            let mut j = k + 1;
            while j < n && is_whitespace(line.get_char(j))
                invariant
                    n == line@.len(),
                    k < j <= n,
                    skip_spaces(line@, j as int) == skip_spaces(line@, k as int + 1),
                decreases n - j,
            {
                j += 1;
            }
            let id = String::from_str(line.substring_char(0, k));
            let text = String::from_str(line.substring_char(j, n));
            proof {
                docs.lemma_id_range();
            }
            let d = docs.add(id);
            Some((d, text))
        },
    }
}

/// Tokenizes the text of document `docid`, sets its length, and records its
/// postings and term counts.
pub fn parse(
    text: &str,
    docs: &mut DocTable,
    postings: &mut Postings,
    words: &mut WordTable,
    docid: u32,
)
    requires
        text@.len() <= u32::MAX,
        old(docs).wf(),
        old(words).wf(),
        old(docs).first_id() <= docid < old(docs).first_id() + old(docs).view().len(),
    ensures
        final(docs).wf(),
        final(words).wf(),
        final(docs).first_id() == old(docs).first_id(),
        final(docs).next_id() == old(docs).next_id(),
        final(docs).view() == old(docs).view().update(
            docid - old(docs).first_id(),
            (docid as nat, old(docs).view()[docid - old(docs).first_id()].1, fragments(text@).len()),
        ),
        final(postings).view() == old(postings).view() + doc_postings(docid as nat, text@),
        final(words).view() == bump_all(old(words).view(), distinct(terms(text@)), terms(text@)),
{
    proof {
        docs.lemma_id_range();
    }
    let tokens = tokenize(text);
    docs.set_length(docid, tokens.length);
    let ghost ts = terms(text@);
    let ghost ds = distinct(ts);
    let ghost dp = doc_postings(docid as nat, text@);
    let counts = tokens.counts;
    let mut i: usize = 0;
    while i < counts.len()
        invariant
            counts_of(counts@, ts),
            ds == distinct(ts),
            dp == doc_postings(docid as nat, text@),
            ts == terms(text@),
            0 <= i <= counts.len(),
            words.wf(),
            words.view() == bump_all(old(words).view(), ds.take(i as int), ts),
            postings.view() == old(postings).view() + dp.take(i as int),
        decreases counts.len() - i,
    {
        let term = counts[i].0.clone();
        let c = counts[i].1;
        assert(counts@[i as int].0@ == ds[i as int]);
        words.add(term.as_str(), c);
        postings.add(term, c, docid);
        assert(ds.take(i + 1).drop_last() =~= ds.take(i as int));
        assert(dp.take(i + 1) =~= dp.take(i as int).push(dp[i as int]));
        assert(old(postings).view() + dp.take(i + 1) =~= (old(postings).view() + dp.take(
            i as int,
        )).push(dp[i as int]));
        i += 1;
    }
    assert(ds.take(counts.len() as int) =~= ds);
    assert(dp.take(counts.len() as int) =~= dp);
}

/// Why a line was not indexed.
#[derive(Debug, Clone, Copy, PartialEq, Eq, Structural)]
pub enum LineError {
    /// The line holds no whitespace, so it has no id and text.
    Malformed,
}

/// The records drained at one flush.
pub struct Batch {
    pub documents: Vec<Document>,
    pub postings: Vec<Posting>,
}

/// One index build: the three tables, the flush counter and the history of
/// what was fed in and handed out. Flushes drain documents and postings only:
/// the term counters live for the whole build, so they count every occurrence
/// in the corpus and are handed out once, by `finish`.
pub struct Indexer {
    docs: DocTable,
    words: WordTable,
    postings: Postings,
    threshold: u64,
    since_flush: u64,
    lines: u64,
    skipped: u64,
    input: Ghost<Seq<Seq<char>>>,
    sent_docs: Ghost<Seq<DocView>>,
    sent_postings: Ghost<Seq<PostingView>>,
}

impl Indexer {
    /// Every line handed to `process_line`, in order.
    pub closed spec fn input(&self) -> Seq<Seq<char>> {
        self.input@
    }

    /// The documents handed out by flushes so far.
    pub closed spec fn sent_docs(&self) -> Seq<DocView> {
        self.sent_docs@
    }

    /// The postings handed out by flushes so far.
    pub closed spec fn sent_postings(&self) -> Seq<PostingView> {
        self.sent_postings@
    }

    /// The documents not yet flushed.
    pub closed spec fn pending_docs(&self) -> Seq<DocView> {
        self.docs.view()
    }

    /// The postings not yet flushed.
    pub closed spec fn pending_postings(&self) -> Seq<PostingView> {
        self.postings.view()
    }

    /// The term counters of the whole build so far.
    pub closed spec fn term_counts(&self) -> Seq<(Seq<char>, u32)> {
        self.words.view()
    }

    pub closed spec fn threshold(&self) -> nat {
        self.threshold as nat
    }

    /// Documents registered since the last flush.
    pub closed spec fn since_flush(&self) -> nat {
        self.since_flush as nat
    }

    /// Lines rejected as malformed.
    pub closed spec fn skip_count(&self) -> nat {
        self.skipped as nat
    }

    pub closed spec fn wf(&self) -> bool {
        &&& self.docs.wf()
        &&& self.words.wf()
        &&& self.sent_docs@ + self.docs.view() == docs_model(self.input@)
        &&& self.sent_postings@ + self.postings.view() == postings_model(self.input@)
        &&& self.words.view() == terms_model(self.input@)
        &&& self.docs.next_id() == docs_model(self.input@).len()
        &&& self.lines == self.input@.len()
        &&& self.skipped + docs_model(self.input@).len() == self.lines
        &&& self.since_flush <= self.lines
        &&& forall|i: int| 0 <= i < self.input@.len() ==> (#[trigger] self.input@[i]).len() <= u32::MAX
    }

    /// What a build has handed out and still holds is fixed by its input alone.
    pub proof fn lemma_output(&self)
        requires
            self.wf(),
        ensures
            self.sent_docs() + self.pending_docs() == docs_model(self.input()),
            self.sent_postings() + self.pending_postings() == postings_model(self.input()),
            self.term_counts() == terms_model(self.input()),
            self.skip_count() + docs_model(self.input()).len() == self.input().len(),
            forall|i: int| 0 <= i < self.input().len() ==> (#[trigger] self.input()[i]).len() <= u32::MAX,
    {
    }

    /// A build that flushes once more than `threshold` documents are pending.
    pub fn new(threshold: u64) -> (r: Self)
        ensures
            r.wf(),
            r.input() == Seq::<Seq<char>>::empty(),
            r.sent_docs() == Seq::<DocView>::empty(),
            r.sent_postings() == Seq::<PostingView>::empty(),
            r.threshold() == threshold,
            r.since_flush() == 0,
            r.skip_count() == 0,
    {
        let r = Indexer {
            docs: DocTable::new(),
            words: WordTable::new(),
            postings: Postings::new(),
            threshold,
            since_flush: 0,
            lines: 0,
            skipped: 0,
            input: Ghost(Seq::empty()),
            sent_docs: Ghost(Seq::empty()),
            sent_postings: Ghost(Seq::empty()),
        };
        assert(r.sent_docs@ + r.docs.view() =~= docs_model(r.input@));
        assert(r.sent_postings@ + r.postings.view() =~= postings_model(r.input@));
        r
    }

    /// The number of documents registered so far, which is the next internal id.
    pub fn doc_count(&self) -> (r: u32)
        requires
            self.wf(),
        ensures
            r == docs_model(self.input()).len(),
    {
        self.docs.next()
    }

    /// The number of lines handed in so far.
    pub fn lines_seen(&self) -> (r: u64)
        requires
            self.wf(),
        ensures
            r == self.input().len(),
    {
        self.lines
    }

    /// The number of malformed lines skipped so far.
    pub fn skipped(&self) -> (r: u64)
        ensures
            r == self.skip_count(),
    {
        self.skipped
    }

    /// The number of distinct terms seen so far.
    pub fn term_count(&self) -> (r: usize)
        ensures
            r == self.term_counts().len(),
    {
        self.words.len()
    }

    /// The number of postings not yet flushed.
    pub fn pending_posting_count(&self) -> (r: usize)
        ensures
            r == self.pending_postings().len(),
    {
        self.postings.len()
    }

    /// The number of documents not yet flushed.
    pub fn pending_doc_count(&self) -> (r: usize)
        ensures
            r == self.pending_docs().len(),
    {
        self.docs.len()
    }

    /// Indexes one input line. A malformed line registers nothing and is counted
    /// as skipped; otherwise the line's document gets the next internal id.
    pub fn process_line(&mut self, line: &str) -> (r: Result<u32, LineError>)
        requires
            old(self).wf(),
            line@.len() <= u32::MAX,
            old(self).input().len() < u64::MAX,
            docs_model(old(self).input()).len() < u32::MAX,
        ensures
            final(self).wf(),
            final(self).input() == old(self).input().push(line@),
            final(self).sent_docs() == old(self).sent_docs(),
            final(self).sent_postings() == old(self).sent_postings(),
            final(self).threshold() == old(self).threshold(),
            match split_line(line@) {
                Some(_) => {
                    &&& r == Ok::<u32, LineError>(docs_model(old(self).input()).len() as u32)
                    &&& final(self).since_flush() == old(self).since_flush() + 1
                    &&& final(self).skip_count() == old(self).skip_count()
                },
                None => {
                    &&& r == Err::<u32, LineError>(LineError::Malformed)
                    &&& final(self).since_flush() == old(self).since_flush()
                    &&& final(self).skip_count() == old(self).skip_count() + 1
                },
            },
    {
        let ghost lines = self.input@.push(line@);
        assert(lines.drop_last() =~= self.input@);
        match insert_doc(line, &mut self.docs) {
            None => {
                self.skipped = self.skipped + 1;
                self.lines = self.lines + 1;
                self.input = Ghost(lines);
                Err(LineError::Malformed)
            },
            Some((docid, text)) => {
                proof {
                    lemma_first_space(line@);
                    lemma_skip_spaces_range(line@, first_space(line@) + 1);
                }
                assert(lines.last() == line@);
                proof {
                    self.docs.lemma_id_range();
                }
                parse(text.as_str(), &mut self.docs, &mut self.postings, &mut self.words, docid);
                self.lines = self.lines + 1;
                self.since_flush = self.since_flush + 1;
                self.input = Ghost(lines);
                assert(self.sent_docs@ + self.docs.view() =~= docs_model(lines));
                assert(self.sent_postings@ + self.postings.view() =~= postings_model(lines));
                Ok(docid)
            },
        }
    }

    /// Whether more than `threshold` documents were registered since the last flush.
    pub fn flush_due(&self) -> (r: bool)
        ensures
            r == (self.since_flush() > self.threshold()),
    {
        self.since_flush > self.threshold
    }

    /// Drains the pending documents and postings; term counters stay.
    pub fn flush(&mut self) -> (b: Batch)
        requires
            old(self).wf(),
        ensures
            final(self).wf(),
            docs_view(b.documents@) == old(self).pending_docs(),
            postings_view(b.postings@) == old(self).pending_postings(),
            final(self).sent_docs() == old(self).sent_docs() + old(self).pending_docs(),
            final(self).sent_postings() == old(self).sent_postings() + old(
                self,
            ).pending_postings(),
            final(self).pending_docs() == Seq::<DocView>::empty(),
            final(self).pending_postings() == Seq::<PostingView>::empty(),
            final(self).input() == old(self).input(),
            final(self).term_counts() == old(self).term_counts(),
            final(self).threshold() == old(self).threshold(),
            final(self).skip_count() == old(self).skip_count(),
            final(self).since_flush() == 0,
    {
        let ghost d = self.docs.view();
        let ghost p = self.postings.view();
        let documents = self.docs.drain();
        let postings = self.postings.drain();
        self.sent_docs = Ghost(self.sent_docs@ + d);
        self.sent_postings = Ghost(self.sent_postings@ + p);
        self.since_flush = 0;
        assert(self.sent_docs@ + self.docs.view() =~= self.sent_docs@);
        assert(self.sent_postings@ + self.postings.view() =~= self.sent_postings@);
        Batch { documents, postings }
    }

    /// Flushes when more than `threshold` documents were registered since the last flush.
    pub fn flush_if_due(&mut self) -> (r: Option<Batch>)
        requires
            old(self).wf(),
        ensures
            final(self).wf(),
            final(self).input() == old(self).input(),
            final(self).term_counts() == old(self).term_counts(),
            final(self).threshold() == old(self).threshold(),
            final(self).skip_count() == old(self).skip_count(),
            old(self).since_flush() > old(self).threshold() ==> {
                &&& r matches Some(b)
                &&& docs_view(b.documents@) == old(self).pending_docs()
                &&& postings_view(b.postings@) == old(self).pending_postings()
                &&& final(self).sent_docs() == old(self).sent_docs() + old(self).pending_docs()
                &&& final(self).sent_postings() == old(self).sent_postings() + old(
                    self,
                ).pending_postings()
                &&& final(self).since_flush() == 0
            },
            old(self).since_flush() <= old(self).threshold() ==> r is None && *final(self)
                == *old(self),
    {
        if self.flush_due() {
            Some(self.flush())
        } else {
            None
        }
    }

    /// Ends the build: the last batch, and the term counters of the whole build.
    pub fn finish(self) -> (r: (Batch, Vec<(String, u32)>))
        requires
            self.wf(),
        ensures
            self.sent_docs() + docs_view(r.0.documents@) == docs_model(self.input()),
            self.sent_postings() + postings_view(r.0.postings@) == postings_model(self.input()),
            counts_view(r.1@) == terms_model(self.input()),
            keys_distinct(counts_view(r.1@)),
    {
        let mut s = self;
        let b = s.flush();
        let words = s.words.drain();
        (b, words)
    }
}

} // verus!
