use fulltext_search::db::helper::{
    is_ascii_punctuation, is_whitespace, remove_punctuation, Document, RankValue, Value,
};
use fulltext_search::db::rocks::{
    add_document_rocks, check_stopword, remove_document_rocks, search_document_rocks,
    update_document_rocks, word_keys,
};
use fulltext_search::db::sqlite::{document_update, DocumentUpdate};
use fulltext_search::db::text::{decimal_string, join_range, split_words, str_eq};
use fulltext_search::db::{
    convert_to_search_results, rank_search_results, search_document, search_one_document,
    try_search_document,
};
use fulltext_search::kv::{KVStore, MemoryStore};

fn doc(id: i64, text: &str) -> Document {
    Document { id, name: String::from("name"), text: String::from(text) }
}

fn postings_of(store: &mut MemoryStore, word: &str) -> Option<Vec<(i64, i64)>> {
    store.find(word.as_bytes()).unwrap().map(|b| bincode::deserialize(&b).unwrap())
}

#[test]
fn remove_punctuation_drops_whitespace_and_punctuation() {
    assert_eq!(remove_punctuation(String::from("Book,")), "Book");
    assert_eq!(remove_punctuation(String::from("Hello, world!")), "Helloworld");
    assert_eq!(remove_punctuation(String::from(" \t.;")), "");
    assert_eq!(remove_punctuation(String::from("héllo-wörld\u{3000}")), "héllowörld");
    assert_eq!(remove_punctuation(String::from("e-mail's")), "emails");
    assert_eq!(remove_punctuation(String::new()), "");
}

#[test]
fn stopwords_are_recognised() {
    assert!(check_stopword("the"));
    assert!(check_stopword("with"));
    assert!(!check_stopword("The"));
    assert!(!check_stopword("comic"));
    assert!(!check_stopword(""));
}

#[test]
fn words_split_on_every_space() {
    assert_eq!(split_words("comic book"), vec!["comic", "book"]);
    assert_eq!(split_words("a  b "), vec!["a", "", "b", ""]);
    assert_eq!(split_words(""), vec![""]);
}

#[test]
fn words_join_with_spaces() {
    let words = split_words("one two three four");
    assert_eq!(join_range(&words, 1, 3), "two three");
    assert_eq!(join_range(&words, 2, 2), "");
}

#[test]
fn decimal_strings() {
    assert_eq!(decimal_string(0), "0");
    assert_eq!(decimal_string(28434), "28434");
    assert_eq!(decimal_string(-42), "-42");
    assert_eq!(decimal_string(i64::MIN), i64::MIN.to_string());
}

#[test]
fn strings_compare_by_characters() {
    assert!(str_eq("héllo", "héllo"));
    assert!(!str_eq("hello", "hellO"));
    assert!(!str_eq("hello", "hell"));
}

#[test]
fn memory_store_reads_back_writes() {
    let mut store = MemoryStore::new();
    assert!(store.find(b"k").unwrap().is_none());
    store.save(b"k", b"one").unwrap();
    store.save(b"j", b"two").unwrap();
    store.save(b"k", b"three").unwrap();
    assert_eq!(store.find(b"k").unwrap(), Some(b"three".to_vec()));
    assert_eq!(store.find(b"j").unwrap(), Some(b"two".to_vec()));
}

#[test]
fn adding_stores_bincode_postings_per_word() {
    let mut store = MemoryStore::new();
    add_document_rocks(&mut store, &doc(1, "the comic book of the comic")).unwrap();
    assert_eq!(postings_of(&mut store, "comic"), Some(vec![(1, 1), (1, 5)]));
    assert_eq!(postings_of(&mut store, "book"), Some(vec![(1, 2)]));
    assert_eq!(postings_of(&mut store, "the"), None);
    assert_eq!(postings_of(&mut store, "of"), None);
    let raw = store.find(b"book").unwrap().unwrap();
    let mut expected = vec![1, 0, 0, 0, 0, 0, 0, 0];
    expected.extend_from_slice(&1i64.to_le_bytes());
    expected.extend_from_slice(&2i64.to_le_bytes());
    assert_eq!(raw, expected);
}

#[test]
fn adding_appends_to_existing_postings() {
    let mut store = MemoryStore::new();
    add_document_rocks(&mut store, &doc(1, "comic book")).unwrap();
    add_document_rocks(&mut store, &doc(2, "a book")).unwrap();
    assert_eq!(postings_of(&mut store, "book"), Some(vec![(1, 1), (2, 1)]));
}

#[test]
fn removing_drops_the_document_and_writes_empty_lists() {
    let mut store = MemoryStore::new();
    add_document_rocks(&mut store, &doc(1, "comic book")).unwrap();
    add_document_rocks(&mut store, &doc(2, "book shelf")).unwrap();
    remove_document_rocks(&mut store, &doc(1, "comic book the")).unwrap();
    assert_eq!(postings_of(&mut store, "comic"), Some(vec![]));
    assert_eq!(postings_of(&mut store, "book"), Some(vec![(2, 0)]));
    assert_eq!(postings_of(&mut store, "shelf"), Some(vec![(2, 1)]));
    assert_eq!(postings_of(&mut store, "the"), Some(vec![]));
}

#[test]
fn removing_after_adding_restores_postings() {
    let mut store = MemoryStore::new();
    add_document_rocks(&mut store, &doc(1, "comic book")).unwrap();
    add_document_rocks(&mut store, &doc(9, "book comic comic")).unwrap();
    remove_document_rocks(&mut store, &doc(9, "book comic comic")).unwrap();
    assert_eq!(postings_of(&mut store, "comic"), Some(vec![(1, 0)]));
    assert_eq!(postings_of(&mut store, "book"), Some(vec![(1, 1)]));
}

#[test]
fn updating_reindexes() {
    let mut store = MemoryStore::new();
    let old = doc(3, "old words");
    add_document_rocks(&mut store, &old).unwrap();
    update_document_rocks(&mut store, &old, &doc(3, "new words")).unwrap();
    assert_eq!(postings_of(&mut store, "old"), Some(vec![]));
    assert_eq!(postings_of(&mut store, "words"), Some(vec![(3, 1)]));
    assert_eq!(postings_of(&mut store, "new"), Some(vec![(3, 0)]));
}

#[test]
fn searching_finds_postings_in_query_order() {
    let mut store = MemoryStore::new();
    add_document_rocks(&mut store, &doc(1, "the comic book he was reading")).unwrap();
    let found = search_document_rocks(&mut store, String::from("Book book comic the missing")).unwrap();
    let lists: Vec<Vec<Value>> = found.into_iter().map(|v| v.values).collect();
    assert_eq!(
        lists,
        vec![vec![Value { id: 1, position: 2 }], vec![Value { id: 1, position: 1 }]]
    );
}

#[test]
fn indexing_and_searching_normalise_words() {
    let mut store = MemoryStore::new();
    add_document_rocks(&mut store, &doc(1, "the comic book, he said. , x")).unwrap();
    assert_eq!(postings_of(&mut store, "book"), Some(vec![(1, 2)]));
    assert_eq!(postings_of(&mut store, "book,"), None);
    assert_eq!(postings_of(&mut store, "said"), Some(vec![(1, 4)]));
    assert_eq!(postings_of(&mut store, ""), Some(vec![(1, 5)]));
    let found = search_document_rocks(&mut store, String::from("(book) said!")).unwrap();
    let lists: Vec<Vec<Value>> = found.into_iter().map(|v| v.values).collect();
    assert_eq!(
        lists,
        vec![vec![Value { id: 1, position: 2 }], vec![Value { id: 1, position: 4 }]]
    );
    remove_document_rocks(&mut store, &doc(1, "the comic book, he said. , x")).unwrap();
    assert_eq!(postings_of(&mut store, "book"), Some(vec![]));
    assert_eq!(postings_of(&mut store, "said"), Some(vec![]));
}

#[test]
fn removing_twice_changes_nothing_more() {
    let mut store = MemoryStore::new();
    add_document_rocks(&mut store, &doc(1, "comic book")).unwrap();
    add_document_rocks(&mut store, &doc(2, "book shelf")).unwrap();
    remove_document_rocks(&mut store, &doc(1, "comic book")).unwrap();
    let once: Vec<_> = ["comic", "book", "shelf"].iter().map(|w| postings_of(&mut store, w)).collect();
    remove_document_rocks(&mut store, &doc(1, "comic book")).unwrap();
    let twice: Vec<_> = ["comic", "book", "shelf"].iter().map(|w| postings_of(&mut store, w)).collect();
    assert_eq!(once, twice);
    assert_eq!(twice, vec![Some(vec![]), Some(vec![(2, 0)]), Some(vec![(2, 1)])]);
}

#[test]
fn searching_ranks_close_words_first() {
    let mut store = MemoryStore::new();
    add_document_rocks(&mut store, &doc(1, "a comic book here")).unwrap();
    add_document_rocks(&mut store, &doc(2, "book x x x x x x x x x x comic")).unwrap();
    let ranked = search_document(&mut store, String::from("comic book"), 3).unwrap();
    assert_eq!(
        ranked,
        vec![
            RankValue { id: 1, position: 2, word_num: 2 },
            RankValue { id: 2, position: 0, word_num: 1 },
            RankValue { id: 2, position: 11, word_num: 1 },
        ]
    );
    let one = search_one_document(&mut store, String::from("comic book"), 2, 3).unwrap();
    assert_eq!(
        one,
        vec![
            RankValue { id: 2, position: 0, word_num: 1 },
            RankValue { id: 2, position: 11, word_num: 1 },
        ]
    );
}

#[test]
fn searching_for_nothing_indexed_gives_nothing() {
    let mut store = MemoryStore::new();
    add_document_rocks(&mut store, &doc(1, "comic book")).unwrap();
    assert_eq!(search_document(&mut store, String::from("the missing"), 3).unwrap(), vec![]);
    assert_eq!(try_search_document(&mut store, String::from("comic"), i64::MAX).unwrap(), Some(vec![
        RankValue { id: 1, position: 0, word_num: 1 },
    ]));
}

#[test]
fn searching_without_hits_gives_nothing() {
    let mut store = MemoryStore::new();
    add_document_rocks(&mut store, &doc(1, "comic book")).unwrap();
    assert_eq!(search_one_document(&mut store, String::from("comic"), 2, 3).unwrap(), vec![]);
    remove_document_rocks(&mut store, &doc(1, "comic book")).unwrap();
    assert_eq!(search_document(&mut store, String::from("comic"), 3).unwrap(), vec![]);
    assert_eq!(search_one_document(&mut store, String::from("comic"), 1, 3).unwrap(), vec![]);
}

#[test]
fn search_results_show_the_words_around_each_hit() {
    let values = vec![
        RankValue { id: 1, position: 3, word_num: 2 },
        RankValue { id: 2, position: 0, word_num: 1 },
    ];
    let texts = vec![
        String::from("The comic book he was reading was titled Spiderman"),
        String::from("book on the table"),
    ];
    let results = convert_to_search_results(values, texts, 2).unwrap();
    assert_eq!(results.results.len(), 2);
    assert_eq!(results.results[0].id, 1);
    assert_eq!(results.results[0].peri_text, "comic book he was");
    assert_eq!(results.results[0].word, "3");
    assert_eq!(results.results[1].id, 2);
    assert_eq!(results.results[1].peri_text, "book on");
    assert_eq!(results.results[1].word, "0");
}

#[test]
fn edits_write_the_columns_sent() {
    let mut d = doc(1, "");
    assert_eq!(document_update(&d), DocumentUpdate::Name);
    d.name = String::new();
    assert_eq!(document_update(&d), DocumentUpdate::Nothing);
    d.text = String::from("text");
    assert_eq!(document_update(&d), DocumentUpdate::Text);
    assert_eq!(document_update(&doc(1, "text")), DocumentUpdate::NameAndText);
}

#[test]
fn loaded_store_records_writes_in_order() {
    let mut store = MemoryStore::new();
    let mut existing = vec![1, 0, 0, 0, 0, 0, 0, 0];
    existing.extend_from_slice(&7i64.to_le_bytes());
    existing.extend_from_slice(&3i64.to_le_bytes());
    store.load(b"book", &existing);
    add_document_rocks(&mut store, &doc(8, "book book")).unwrap();
    assert_eq!(postings_of(&mut store, "book"), Some(vec![(7, 3), (8, 0), (8, 1)]));
    let writes = store.written();
    assert_eq!(writes.len(), 2);
    assert_eq!(writes[0].0, b"book".to_vec());
    let first: Vec<(i64, i64)> = bincode::deserialize(&writes[0].1).unwrap();
    let second: Vec<(i64, i64)> = bincode::deserialize(&writes[1].1).unwrap();
    assert_eq!(first, vec![(7, 3), (8, 0)]);
    assert_eq!(second, vec![(7, 3), (8, 0), (8, 1)]);
}

#[test]
fn word_keys_are_utf8_bytes_of_each_word() {
    assert_eq!(
        word_keys("héllo, the"),
        vec!["héllo".as_bytes().to_vec(), b"the".to_vec()]
    );
}

#[test]
fn character_classes_agree_with_std() {
    for c in ['a', ' ', '\t', '\u{3000}', '\u{85}', '~', '!', '`', 'é', '0', '\u{2028}', '-'] {
        assert_eq!(is_whitespace(c), c.is_whitespace());
        assert_eq!(is_ascii_punctuation(c), c.is_ascii_punctuation());
    }
}

#[test]
fn bounded_positions_rank_in_range() {
    let far = i64::MAX / 4;
    let values = vec![Value { id: 1, position: 0 }, Value { id: 1, position: far }];
    assert_eq!(
        rank_search_results(values, far).unwrap(),
        vec![RankValue { id: 1, position: far + far / 2, word_num: 2 }]
    );
}
