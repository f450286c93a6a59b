use inverted_index::index::{insert_doc, parse, Batch, Indexer, LineError};
use inverted_index::tables::{DocTable, Postings, WordTable};

type Out = (Vec<(String, u32, u32)>, Vec<(String, u32, u32)>, Vec<(String, u32)>);

fn collect(batch: Batch, docs: &mut Vec<(String, u32, u32)>, posts: &mut Vec<(String, u32, u32)>) {
    for d in batch.documents {
        docs.push((d.external_id, d.id, d.length));
    }
    for p in batch.postings {
        posts.push((p.term, p.doc_id, p.frequency));
    }
}

fn run(lines: &[&str], threshold: u64) -> Out {
    let mut ix = Indexer::new(threshold);
    let mut docs = Vec::new();
    let mut posts = Vec::new();
    for line in lines {
        let _ = ix.process_line(line);
        if let Some(b) = ix.flush_if_due() {
            collect(b, &mut docs, &mut posts);
        }
    }
    let (b, words) = ix.finish();
    collect(b, &mut docs, &mut posts);
    (docs, posts, words)
}

const CORPUS: [&str; 6] = [
    "d1\tHello, world! Hello.",
    "d2\t",
    "onlyid",
    "d3 the cat and the hat",
    "d1\tworld peace: 42 times",
    "d4\tCafé déjà vu, vu",
];

#[test]
fn greeting_line_gives_two_postings() {
    let mut ix = Indexer::new(100);
    assert_eq!(ix.process_line("d1\tHello, world! Hello."), Ok(0));
    let b = ix.flush();
    assert_eq!(b.documents.len(), 1);
    assert_eq!(b.documents[0].external_id, "d1");
    assert_eq!(b.documents[0].id, 0);
    assert_eq!(b.documents[0].length, 3);
    let posts: Vec<(String, u32, u32)> =
        b.postings.into_iter().map(|p| (p.term, p.doc_id, p.frequency)).collect();
    assert_eq!(posts, vec![("hello".to_string(), 0, 2), ("world".to_string(), 0, 1)]);
}

#[test]
fn empty_text_registers_document_of_length_zero() {
    let mut ix = Indexer::new(100);
    assert_eq!(ix.process_line("d2\t"), Ok(0));
    let b = ix.flush();
    assert_eq!(b.documents.len(), 1);
    assert_eq!(b.documents[0].external_id, "d2");
    assert_eq!(b.documents[0].length, 0);
    assert!(b.postings.is_empty());
}

#[test]
fn malformed_line_is_skipped_without_taking_an_id() {
    let mut ix = Indexer::new(100);
    assert_eq!(ix.process_line("onlyid"), Err(LineError::Malformed));
    assert_eq!(ix.skipped(), 1);
    assert_eq!(ix.doc_count(), 0);
    assert_eq!(ix.process_line("d5 text"), Ok(0));
    assert_eq!(ix.process_line("d6 more"), Ok(1));
    assert_eq!(ix.skipped(), 1);
    assert_eq!(ix.lines_seen(), 3);
}

#[test]
fn ids_stay_dense_across_flushes() {
    let (docs, _, _) = run(&CORPUS, 0);
    let ids: Vec<u32> = docs.iter().map(|d| d.1).collect();
    assert_eq!(ids, vec![0, 1, 2, 3, 4]);
}

#[test]
fn flush_threshold_is_not_observable() {
    let (mut docs_a, mut posts_a, mut words_a) = run(&CORPUS, 0);
    let (mut docs_b, mut posts_b, mut words_b) = run(&CORPUS, 2);
    let (docs_c, posts_c, words_c) = run(&CORPUS, 1_000_000);
    assert_eq!((&docs_a, &posts_a, &words_a), (&docs_c, &posts_c, &words_c));
    docs_a.sort();
    docs_b.sort();
    posts_a.sort();
    posts_b.sort();
    words_a.sort();
    words_b.sort();
    assert_eq!(docs_a, docs_b);
    assert_eq!(posts_a, posts_b);
    assert_eq!(words_a, words_b);
}

#[test]
fn total_length_is_total_fragment_count() {
    let (docs, _, _) = run(&CORPUS, 1);
    let total: u32 = docs.iter().map(|d| d.2).sum();
    // 3 + 0 + 5 + 4 + 4
    assert_eq!(total, 16);
}

#[test]
fn one_document_per_well_formed_line_in_order() {
    let (docs, _, _) = run(&CORPUS, 1);
    let ext: Vec<&str> = docs.iter().map(|d| d.0.as_str()).collect();
    assert_eq!(ext, vec!["d1", "d2", "d3", "d1", "d4"]);
}

#[test]
fn postings_hold_exact_frequencies() {
    let (_, posts, _) = run(&CORPUS, 3);
    assert_eq!(
        posts,
        vec![
            ("hello".to_string(), 0, 2),
            ("world".to_string(), 0, 1),
            ("the".to_string(), 2, 2),
            ("cat".to_string(), 2, 1),
            ("and".to_string(), 2, 1),
            ("hat".to_string(), 2, 1),
            ("world".to_string(), 3, 1),
            ("peace".to_string(), 3, 1),
            ("times".to_string(), 3, 1),
            ("vu".to_string(), 4, 2),
        ]
    );
}

#[test]
fn term_counts_cover_the_whole_build() {
    let (_, _, words) = run(&CORPUS, 0);
    assert_eq!(
        words,
        vec![
            ("hello".to_string(), 2),
            ("world".to_string(), 2),
            ("the".to_string(), 2),
            ("cat".to_string(), 1),
            ("and".to_string(), 1),
            ("hat".to_string(), 1),
            ("peace".to_string(), 1),
            ("times".to_string(), 1),
            ("vu".to_string(), 2),
        ]
    );
}

#[test]
fn flush_happens_once_threshold_is_exceeded() {
    let mut ix = Indexer::new(1);
    assert_eq!(ix.process_line("a x"), Ok(0));
    assert!(!ix.flush_due());
    assert!(ix.flush_if_due().is_none());
    assert_eq!(ix.pending_doc_count(), 1);
    assert_eq!(ix.process_line("b y"), Ok(1));
    assert!(ix.flush_due());
    let b = ix.flush_if_due().unwrap();
    assert_eq!(b.documents.len(), 2);
    assert_eq!(b.postings.len(), 2);
    assert_eq!(ix.pending_doc_count(), 0);
    assert_eq!(ix.pending_posting_count(), 0);
    assert_eq!(ix.term_count(), 2);
    assert!(!ix.flush_due());
}

#[test]
fn insert_doc_splits_at_first_whitespace() {
    let mut docs = DocTable::new();
    assert_eq!(insert_doc("abc def  ghi", &mut docs), Some((0, "def  ghi".to_string())));
    assert_eq!(insert_doc("x\u{3000}y", &mut docs), Some((1, "y".to_string())));
    assert_eq!(insert_doc("nospace", &mut docs), None);
    assert_eq!(insert_doc(" lead", &mut docs), Some((2, "lead".to_string())));
    let out = docs.drain();
    assert_eq!(out.len(), 3);
    assert_eq!(out[2].external_id, "");
}

#[test]
fn parse_fills_all_three_tables() {
    let mut docs = DocTable::new();
    let mut posts = Postings::new();
    let mut words = WordTable::new();
    let id = docs.add("q".to_string());
    parse("To be, or not to be", &mut docs, &mut posts, &mut words, id);
    let d = docs.drain();
    assert_eq!(d[0].length, 6);
    let p: Vec<(String, u32, u32)> =
        posts.drain().into_iter().map(|p| (p.term, p.doc_id, p.frequency)).collect();
    assert_eq!(
        p,
        vec![
            ("to".to_string(), 0, 2),
            ("be".to_string(), 0, 2),
            ("or".to_string(), 0, 1),
            ("not".to_string(), 0, 1),
        ]
    );
    assert_eq!(words.len(), 4);
}

#[test]
fn insert_doc_skips_the_whole_whitespace_run() {
    let mut docs = DocTable::new();
    assert_eq!(insert_doc("d1  hi", &mut docs), Some((0, "hi".to_string())));
    assert_eq!(insert_doc("a \t\u{3000} b c", &mut docs), Some((1, "b c".to_string())));
    assert_eq!(insert_doc("x   ", &mut docs), Some((2, "".to_string())));
    let out = docs.drain();
    assert_eq!(out[0].external_id, "d1");
    assert_eq!(out[1].external_id, "a");
    assert_eq!(out[2].external_id, "x");
}

#[test]
fn whitespace_run_after_id_makes_no_fragment() {
    let mut ix = Indexer::new(100);
    assert_eq!(ix.process_line("d1  hi"), Ok(0));
    let b = ix.flush();
    assert_eq!(b.documents[0].external_id, "d1");
    assert_eq!(b.documents[0].length, 1);
    assert_eq!(b.postings.len(), 1);
    assert_eq!(b.postings[0].term, "hi");
}
