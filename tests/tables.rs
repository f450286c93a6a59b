use inverted_index::tables::{DocTable, Postings, WordTable};

#[test]
fn doc_table_assigns_dense_ids_across_drains() {
    let mut docs = DocTable::new();
    assert_eq!(docs.add("a".to_string()), 0);
    assert_eq!(docs.add("b".to_string()), 1);
    assert_eq!(docs.last_id(), 1);
    docs.set_length(0, 7);
    docs.set_last_length(4);
    let out = docs.drain();
    assert_eq!(out.len(), 2);
    assert_eq!((out[0].id, out[0].external_id.as_str(), out[0].length), (0, "a", 7));
    assert_eq!((out[1].id, out[1].external_id.as_str(), out[1].length), (1, "b", 4));
    assert_eq!(docs.len(), 0);
    assert_eq!(docs.next(), 2);
    assert_eq!(docs.add("a".to_string()), 2);
    assert_eq!(docs.last_id(), 2);
}

#[test]
fn word_table_bumps_by_increment() {
    let mut words = WordTable::new();
    words.add("hello", 2);
    words.add("world", 1);
    words.add("hello", 3);
    assert_eq!(words.len(), 2);
    let out = words.drain();
    assert_eq!(out, vec![("hello".to_string(), 5), ("world".to_string(), 1)]);
    assert_eq!(words.len(), 0);
}

#[test]
fn word_table_counter_saturates() {
    let mut words = WordTable::new();
    words.add("x", u32::MAX - 1);
    words.add("x", 5);
    assert_eq!(words.drain(), vec![("x".to_string(), u32::MAX)]);
}

#[test]
fn postings_keep_order_and_drain() {
    let mut posts = Postings::new();
    posts.add("b".to_string(), 2, 9);
    posts.add("a".to_string(), 1, 9);
    assert_eq!(posts.len(), 2);
    let out = posts.drain();
    assert_eq!((out[0].term.as_str(), out[0].doc_id, out[0].frequency), ("b", 9, 2));
    assert_eq!((out[1].term.as_str(), out[1].doc_id, out[1].frequency), ("a", 9, 1));
    assert_eq!(posts.len(), 0);
}
