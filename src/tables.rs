//! The in-memory tables that accumulate one flush cycle of index data.
use vstd::prelude::*;
use vstd::string::StringExecFns;

verus! {

/// A document as the contracts see it: internal id, external id, length.
pub type DocView = (nat, Seq<char>, nat);

/// A posting as the contracts see it: term, internal document id, frequency.
pub type PostingView = (Seq<char>, nat, nat);

/// One registered document.
pub struct Document {
    pub id: u32,
    pub external_id: String,
    pub length: u32,
}

impl View for Document {
    type V = DocView;

    open spec fn view(&self) -> DocView {
        (self.id as nat, self.external_id@, self.length as nat)
    }
}

/// One row of the inverted index.
pub struct Posting {
    pub term: String,
    pub doc_id: u32,
    pub frequency: u32,
}

impl View for Posting {
    type V = PostingView;

    open spec fn view(&self) -> PostingView {
        (self.term@, self.doc_id as nat, self.frequency as nat)
    }
}

pub open spec fn docs_view(v: Seq<Document>) -> Seq<DocView> {
    v.map_values(|d: Document| d@)
}

pub open spec fn postings_view(v: Seq<Posting>) -> Seq<PostingView> {
    v.map_values(|p: Posting| p@)
}

/// The documents of the current flush cycle. Internal ids keep counting
/// across cycles: a drained table hands out the next id after the last one.
pub struct DocTable {
    first_id: u32,
    docs: Vec<Document>,
}

impl DocTable {
    /// The id of the first document that the table holds.
    pub closed spec fn first_id(&self) -> nat {
        self.first_id as nat
    }

    /// The id that the next registered document receives.
    pub closed spec fn next_id(&self) -> nat {
        (self.first_id + self.docs.len()) as nat
    }

    pub closed spec fn view(&self) -> Seq<DocView> {
        docs_view(self.docs@)
    }

    pub closed spec fn wf(&self) -> bool {
        &&& self.first_id + self.docs.len() <= u32::MAX
        &&& forall|i: int| 0 <= i < self.docs.len() ==> #[trigger] self.docs@[i].id == self.first_id + i
    }

    /// The held documents carry the ids from `first_id` up to `next_id`.
    pub proof fn lemma_id_range(&self)
        ensures
            self.first_id() + self.view().len() == self.next_id(),
    {
    }

    pub fn new() -> (r: Self)
        ensures
            r.wf(),
            r.view() == Seq::<DocView>::empty(),
            r.first_id() == 0,
            r.next_id() == 0,
    {
        DocTable { first_id: 0, docs: Vec::new() }
    }

    /// The number of documents held.
    pub fn len(&self) -> (r: usize)
        ensures
            r == self.view().len(),
    {
        self.docs.len()
    }

    /// The id that the next registered document receives.
    pub fn next(&self) -> (r: u32)
        requires
            self.wf(),
        ensures
            r == self.next_id(),
    {
        self.first_id + self.docs.len() as u32
    }

    /// Registers a document with length 0 and returns its internal id.
    pub fn add(&mut self, doc: String) -> (id: u32)
        requires
            old(self).wf(),
            old(self).next_id() < u32::MAX,
        ensures
            final(self).wf(),
            id == old(self).next_id(),
            final(self).first_id() == old(self).first_id(),
            final(self).next_id() == old(self).next_id() + 1,
            final(self).view() == old(self).view().push((id as nat, doc@, 0nat)),
    {
        let id = self.first_id + self.docs.len() as u32;
        self.docs.push(Document { id, external_id: doc, length: 0 });
        assert(docs_view(self.docs@) =~= docs_view(old(self).docs@).push((id as nat, doc@, 0nat)));
        id
    }

    /// Sets the length of a document that the table holds.
    pub fn set_length(&mut self, docid: u32, length: u32)
        requires
            old(self).wf(),
            old(self).first_id() <= docid < old(self).next_id(),
        ensures
            final(self).wf(),
            final(self).first_id() == old(self).first_id(),
            final(self).next_id() == old(self).next_id(),
            final(self).view() == old(self).view().update(
                docid - old(self).first_id(),
                (docid as nat, old(self).view()[docid - old(self).first_id()].1, length as nat),
            ),
    {
        let i = (docid - self.first_id) as usize;
        let ghost d = self.docs@[i as int];
        self.docs[i].length = length;
        assert(self.docs@[i as int].id == d.id);
        assert(forall|j: int| 0 <= j < self.docs.len() && j != i ==> self.docs@[j] == old(self).docs@[j]);
        assert(docs_view(self.docs@) =~= docs_view(old(self).docs@).update(
            i as int,
            (docid as nat, d.external_id@, length as nat),
        ));
    }

    /// Sets the length of the document registered last.
    pub fn set_last_length(&mut self, length: u32)
        requires
            old(self).wf(),
            old(self).view().len() > 0,
        ensures
            final(self).wf(),
            final(self).first_id() == old(self).first_id(),
            final(self).next_id() == old(self).next_id(),
            final(self).view() == old(self).view().update(
                old(self).view().len() - 1,
                (
                    old(self).view().last().0,
                    old(self).view().last().1,
                    length as nat,
                ),
            ),
    {
        let id = self.last_id();
        self.set_length(id, length);
    }

    /// The internal id of the document registered last.
    pub fn last_id(&self) -> (r: u32)
        requires
            self.wf(),
            self.view().len() > 0,
        ensures
            r == self.next_id() - 1,
            r == self.view().last().0,
    {
        let ind = self.docs.len() - 1;
        self.docs[ind].id
    }

    /// Hands out every document held and empties the table.
    pub fn drain(&mut self) -> (r: Vec<Document>)
        requires
            old(self).wf(),
        ensures
            final(self).wf(),
            docs_view(r@) == old(self).view(),
            final(self).view() == Seq::<DocView>::empty(),
            final(self).first_id() == old(self).next_id(),
            final(self).next_id() == old(self).next_id(),
    {
        self.first_id = self.first_id + self.docs.len() as u32;
        let mut out: Vec<Document> = Vec::new();
        std::mem::swap(&mut out, &mut self.docs);
        assert(docs_view(self.docs@) =~= Seq::<DocView>::empty());
        out
    }
}

/// The postings of the current flush cycle, in the order of recording.
pub struct Postings {
    posts: Vec<Posting>,
}

impl Postings {
    pub closed spec fn view(&self) -> Seq<PostingView> {
        postings_view(self.posts@)
    }

    pub fn new() -> (r: Self)
        ensures
            r.view() == Seq::<PostingView>::empty(),
    {
        Postings { posts: Vec::new() }
    }

    /// The number of postings held.
    pub fn len(&self) -> (r: usize)
        ensures
            r == self.view().len(),
    {
        self.posts.len()
    }

    /// Records one posting.
    pub fn add(&mut self, word: String, count: u32, docid: u32)
        ensures
            final(self).view() == old(self).view().push((word@, docid as nat, count as nat)),
    {
        self.posts.push(Posting { term: word, doc_id: docid, frequency: count });
        assert(postings_view(self.posts@) =~= postings_view(old(self).posts@).push(
            (word@, docid as nat, count as nat),
        ));
    }

    /// Hands out every posting held and empties the accumulator.
    pub fn drain(&mut self) -> (r: Vec<Posting>)
        ensures
            postings_view(r@) == old(self).view(),
            final(self).view() == Seq::<PostingView>::empty(),
    {
        let mut out: Vec<Posting> = Vec::new();
        std::mem::swap(&mut out, &mut self.posts);
        assert(postings_view(self.posts@) =~= Seq::<PostingView>::empty());
        out
    }
}

/// `a + b`, held at `u32::MAX` where it would pass it.
pub open spec fn sat_add(a: u32, b: u32) -> u32 {
    if a + b > u32::MAX {
        u32::MAX
    } else {
        (a + b) as u32
    }
}

pub open spec fn keys_distinct(v: Seq<(Seq<char>, u32)>) -> bool {
    forall|i: int, j: int| 0 <= i < j < v.len() ==> v[i].0 != v[j].0
}

/// `v` with the count of `t` raised by `n`, or `(t, n)` appended where `t` is absent.
pub open spec fn bump(v: Seq<(Seq<char>, u32)>, t: Seq<char>, n: u32) -> Seq<(Seq<char>, u32)> {
    if exists|i: int| 0 <= i < v.len() && v[i].0 == t {
        let i = choose|i: int| 0 <= i < v.len() && v[i].0 == t;
        v.update(i, (t, sat_add(v[i].1, n)))
    } else {
        v.push((t, n))
    }
}

pub open spec fn counts_view(v: Seq<(String, u32)>) -> Seq<(Seq<char>, u32)> {
    v.map_values(|p: (String, u32)| (p.0@, p.1))
}

/// Term counters, one per distinct term, in the order of first sight.
/// A counter that would pass `u32::MAX` stays there. Lookup is a linear scan.
pub struct WordTable {
    words: Vec<(String, u32)>,
}

impl WordTable {
    pub closed spec fn view(&self) -> Seq<(Seq<char>, u32)> {
        counts_view(self.words@)
    }

    pub closed spec fn wf(&self) -> bool {
        keys_distinct(self.view())
    }

    pub fn new() -> (r: Self)
        ensures
            r.wf(),
            keys_distinct(r.view()),
            r.view() == Seq::<(Seq<char>, u32)>::empty(),
    {
        let r = WordTable { words: Vec::new() };
        assert(r.view() =~= Seq::<(Seq<char>, u32)>::empty());
        r
    }

    /// The number of distinct terms held.
    pub fn len(&self) -> (r: usize)
        ensures
            r == self.view().len(),
    {
        self.words.len()
    }

    /// Raises the counter of `word` by `count`, creating it with `count` where absent.
    pub fn add(&mut self, word: &str, count: u32)
        requires
            old(self).wf(),
        ensures
            final(self).wf(),
            keys_distinct(final(self).view()),
            final(self).view() == bump(old(self).view(), word@, count),
    {
        let w = String::from_str(word);
        let ghost v = old(self).view();
        let mut i: usize = 0;
        while i < self.words.len()
            invariant
                self.words@ == old(self).words@,
                v == counts_view(self.words@),
                keys_distinct(v),
                w@ == word@,
                0 <= i <= self.words.len(),
                forall|j: int| 0 <= j < i ==> v[j].0 != word@,
            decreases self.words.len() - i,
        {
            if self.words[i].0 == w {
                let c = self.words[i].1;
                let n = if c > u32::MAX - count {
                    u32::MAX
                } else {
                    c + count
                };
                assert(v[i as int].0 == word@);
                let ghost k = choose|k: int| 0 <= k < v.len() && v[k].0 == word@;
                assert(k == i);
                self.words.set(i, (w, n));
                assert(counts_view(self.words@) =~= v.update(i as int, (word@, sat_add(v[i as int].1, count))));
                return;
            }
            i += 1;
        }
        self.words.push((w, count));
        assert(counts_view(self.words@) =~= v.push((word@, count)));
    }

    /// Hands out every counter held and empties the table.
    pub fn drain(&mut self) -> (r: Vec<(String, u32)>)
        requires
            old(self).wf(),
        ensures
            final(self).wf(),
            counts_view(r@) == old(self).view(),
            keys_distinct(counts_view(r@)),
            final(self).view() == Seq::<(Seq<char>, u32)>::empty(),
    {
        let mut out: Vec<(String, u32)> = Vec::new();
        std::mem::swap(&mut out, &mut self.words);
        assert(counts_view(self.words@) =~= Seq::<(Seq<char>, u32)>::empty());
        out
    }
}

} // verus!
