//! The inverted index kept in a key-value store: under the UTF-8 bytes of
//! each word, the encoded list of the `(document id, position)` pairs at
//! which the word occurs, in the order in which they were added.
use crate::db::codec::{
    decoded, deserialize_postings, encodes, is_postings, lemma_decoded_encoding,
    lemma_prefix_of_postings, postings_bytes, serialize_postings,
};
use crate::db::helper::{
    normalize, pairs_values, remove_punctuation, values_view, Document, GeneralError, Value, Values,
};
use crate::db::text::{lemma_split_spaces_len, split_spaces, split_words, str_eq, strings_view};
use crate::kv::{apply_writes, lemma_apply_writes_absent, lemma_apply_writes_found, KVStore, KvError};
use vstd::prelude::*;

verus! {

/// The words that are not indexed.
pub open spec fn stopwords() -> Seq<Seq<char>> {
    seq![
        "a"@, "an"@, "and"@, "are"@, "as"@, "at"@, "be"@, "but"@, "by"@, "for"@, "if"@, "in"@,
        "into"@, "is"@, "it"@, "no"@, "not"@, "of"@, "on"@, "or"@, "such"@, "that"@, "the"@,
        "their"@, "then"@, "there"@, "these"@, "they"@, "this"@, "to"@, "was"@, "will"@, "with"@,
    ]
}

/// `w` is a stopword.
pub open spec fn is_stopword(w: Seq<char>) -> bool {
    stopwords().contains(w)
}

/// The key under which the occurrences of `w` are stored.
pub open spec fn word_key(w: Seq<char>) -> Seq<u8> {
    vstd::utf8::encode_utf8(w)
}

/// Every stored value is an encoded postings list.
pub open spec fn well_formed(m: Map<Seq<u8>, Seq<u8>>) -> bool {
    forall|k: Seq<u8>| m.contains_key(k) ==> is_postings(#[trigger] m[k])
}

/// The postings stored under `k`, empty when there is no entry.
pub open spec fn postings(m: Map<Seq<u8>, Seq<u8>>, k: Seq<u8>) -> Seq<(i64, i64)> {
    if m.contains_key(k) {
        decoded(m[k])
    } else {
        Seq::<(i64, i64)>::empty()
    }
}

/// Indexing the word `w` found at `pos` in document `id`: unless it is a
/// stopword, the pair is appended to its postings.
pub open spec fn add_word(m: Map<Seq<u8>, Seq<u8>>, w: Seq<char>, id: i64, pos: i64) -> Map<
    Seq<u8>,
    Seq<u8>,
> {
    if is_stopword(w) {
        m
    } else {
        m.insert(word_key(w), postings_bytes(postings(m, word_key(w)).push((id, pos))))
    }
}

/// The normalised words of `text`: its space-separated pieces, each with
/// its whitespace and ASCII punctuation removed. The word at index `p` is at
/// position `p`.
pub open spec fn words_of(text: Seq<char>) -> Seq<Seq<char>> {
    split_spaces(text).map_values(|w: Seq<char>| normalize(w))
}

/// Indexing the first `n` words of `ws`, the word at index `p` being at
/// position `p`.
pub open spec fn add_words(m: Map<Seq<u8>, Seq<u8>>, ws: Seq<Seq<char>>, id: i64, n: nat) -> Map<
    Seq<u8>,
    Seq<u8>,
>
    decreases n,
{
    if n == 0 {
        m
    } else {
        add_word(add_words(m, ws, id, (n - 1) as nat), ws[n - 1], id, (n - 1) as i64)
    }
}

/// Indexing every word of `text` for document `id`.
pub open spec fn add_text(m: Map<Seq<u8>, Seq<u8>>, text: Seq<char>, id: i64) -> Map<Seq<u8>, Seq<u8>> {
    add_words(m, words_of(text), id, words_of(text).len())
}

/// The pairs that belong to some other document than `id`.
pub open spec fn other_doc(id: i64) -> spec_fn((i64, i64)) -> bool {
    |p: (i64, i64)| p.0 != id
}

/// Dropping document `id` from the postings of `w` (stopwords included); an
/// entry that did not exist is written as an empty list.
pub open spec fn remove_word(m: Map<Seq<u8>, Seq<u8>>, w: Seq<char>, id: i64) -> Map<Seq<u8>, Seq<u8>> {
    m.insert(
        word_key(w),
        postings_bytes(postings(m, word_key(w)).filter(other_doc(id))),
    )
}

/// Dropping document `id` from the postings of the first `n` words of `ws`.
pub open spec fn remove_words(m: Map<Seq<u8>, Seq<u8>>, ws: Seq<Seq<char>>, id: i64, n: nat) -> Map<
    Seq<u8>,
    Seq<u8>,
>
    decreases n,
{
    if n == 0 {
        m
    } else {
        remove_word(remove_words(m, ws, id, (n - 1) as nat), ws[n - 1], id)
    }
}

/// Dropping document `id` from the postings of every word of `text`.
pub open spec fn remove_text(m: Map<Seq<u8>, Seq<u8>>, text: Seq<char>, id: i64) -> Map<
    Seq<u8>,
    Seq<u8>,
> {
    remove_words(m, words_of(text), id, words_of(text).len())
}

/// The postings lists that a query over the words `ws` finds: one per word
/// that is not a stopword and has an entry, in query order.
pub open spec fn search_postings(m: Map<Seq<u8>, Seq<u8>>, ws: Seq<Seq<char>>) -> Seq<Seq<(i64, i64)>>
    decreases ws.len(),
{
    if ws.len() == 0 {
        Seq::<Seq<(i64, i64)>>::empty()
    } else {
        let prev = search_postings(m, ws.drop_last());
        let w = ws.last();
        if !is_stopword(w) && m.contains_key(word_key(w)) {
            prev.push(decoded(m[word_key(w)]))
        } else {
            prev
        }
    }
}

/// The stopwords, in the order of `stopwords()`.
fn keywords() -> (r: Vec<&'static str>)
    ensures
        r@.map_values(|s: &str| s@) == stopwords(),
{
    let r = vec![
        "a", "an", "and", "are", "as", "at", "be", "but", "by", "for", "if", "in", "into", "is",
        "it", "no", "not", "of", "on", "or", "such", "that", "the", "their", "then", "there",
        "these", "they", "this", "to", "was", "will", "with",
    ];
    assert(r@.map_values(|s: &str| s@) =~= stopwords());
    r
}

/// Whether `word` is a stopword.
pub fn check_stopword(word: &str) -> (r: bool)
    ensures
        r == is_stopword(word@),
{
    let kws = keywords();
    let mut i: usize = 0;
    while i < kws.len()
        invariant
            i <= kws.len(),
            kws@.map_values(|s: &str| s@) == stopwords(),
            forall|j: int| 0 <= j < i ==> stopwords()[j] != word@,
        decreases kws.len() - i,
    {
        if str_eq(kws[i], word) {
            assert(stopwords()[i as int] == word@);
            return true;
        }
        i += 1;
    }
    assert(!stopwords().contains(word@));
    false
}

/// The keys of the words of `text`, in order: the keys that indexing or
/// dropping a document with that text reads and writes, and that a query
/// with that text reads.
pub fn word_keys(text: &str) -> (r: Vec<Vec<u8>>)
    ensures
        r@.map_values(|k: Vec<u8>| k@) == words_of(text@).map_values(|w: Seq<char>| word_key(w)),
{
    let words = split_words(text);
    let ghost ws = words_of(text@);
    let mut keys: Vec<Vec<u8>> = Vec::new();
    let mut i: usize = 0;
    while i < words.len()
        invariant
            i <= words.len(),
            strings_view(words@) == split_spaces(text@),
            ws == words_of(text@),
            keys@.map_values(|k: Vec<u8>| k@) == ws.take(i as int).map_values(|w: Seq<char>| word_key(w)),
        decreases words.len() - i,
    {
        let normalised = remove_punctuation(words[i].clone());
        assert(strings_view(words@)[i as int] == words@[i as int]@);
        assert(normalised@ == ws[i as int]);
        let key = vstd::slice::slice_to_vec(normalised.as_str().as_bytes());
        assert(key@ == word_key(ws[i as int]));
        let ghost before = keys@;
        keys.push(key);
        assert(keys@ == before.push(key));
        assert(keys@.map_values(|k: Vec<u8>| k@) =~= before.map_values(|k: Vec<u8>| k@).push(key@));
        assert(ws.take(i + 1).map_values(|w: Seq<char>| word_key(w)) =~= ws.take(i as int).map_values(|w: Seq<char>| word_key(w)).push(word_key(ws[i as int])));
        assert(keys@.map_values(|k: Vec<u8>| k@) =~= ws.take(i + 1).map_values(|w: Seq<char>| word_key(w)));
        i += 1;
    }
    assert(ws.take(i as int) =~= ws);
    keys
}

/// `r` is what a call that reads or writes the store gave back, the store
/// having reported the failures `f0` before it and `f` after it: success
/// with no failure reported, or the one failure the store reported during
/// the call, passed on as a `Rocks` error.
pub open spec fn passes_on<T>(f0: Seq<KvError>, f: Seq<KvError>, r: Result<T, GeneralError>) -> bool {
    match r {
        Ok(_) => f == f0,
        Err(GeneralError::Rocks(e)) => f == f0.push(e),
        Err(_) => false,
    }
}

/// Reads the postings stored under `key`: `Some` of them when there is an
/// entry, `None` when there is none.
fn read_postings<S: KVStore>(db: &mut S, key: &[u8]) -> (r: Result<Option<Vec<(i64, i64)>>, GeneralError>)
    requires
        well_formed(old(db).contents()),
    ensures
        final(db).contents() == old(db).contents(),
        r matches Ok(Some(v)) ==> old(db).contents().contains_key(key@) && v@ == decoded(
            old(db).contents()[key@],
        ),
        r matches Ok(None) ==> !old(db).contents().contains_key(key@),
        passes_on(old(db).failures(), final(db).failures(), r),
        final(db).never_fails() == old(db).never_fails(),
        old(db).never_fails() ==> r is Ok,
{
    match db.find(key) {
        Ok(Some(value)) => {
            let ghost b = value@;
            assert(is_postings(b));
            let ghost v = decoded(b);
            assert(encodes(b, v));
            assert(postings_bytes(v).is_prefix_of(b));
            match deserialize_postings(value.as_slice()) {
                Ok(w) => {
                    proof {
                        assert(w@.len() == w.len());
                        lemma_prefix_of_postings(b, w@);
                    }
                    Ok(Some(w))
                },
                Err(_) => {
                    assert(false);
                    Ok(None)
                },
            }
        },
        Ok(None) => Ok(None),
        Err(e) => Err(GeneralError::Rocks(e)),
    }
}

/// Stores `v` under `key`.
fn write_postings<S: KVStore>(db: &mut S, key: &[u8], v: &Vec<(i64, i64)>) -> (r: Result<
    (),
    GeneralError,
>)
    requires
        well_formed(old(db).contents()),
    ensures
        well_formed(final(db).contents()),
        r is Ok ==> final(db).contents() == old(db).contents().insert(key@, postings_bytes(v@)),
        r is Err ==> final(db).contents() == old(db).contents(),
        passes_on(old(db).failures(), final(db).failures(), r),
        final(db).never_fails() == old(db).never_fails(),
        old(db).never_fails() ==> r is Ok,
{
    let bytes = match serialize_postings(v) {
        Ok(b) => b,
        Err(_) => {
            assert(false);
            Vec::new()
        },
    };
    proof {
        assert(v@.len() == v.len());
        lemma_decoded_encoding(v@);
    }
    match db.save(key, bytes.as_slice()) {
        Ok(()) => {
            assert(well_formed(db.contents()));
            Ok(())
        },
        Err(e) => Err(GeneralError::Rocks(e)),
    }
}

/// Indexing the first `n` words of `ws` for document `id` leaves every
/// stored list short enough to have its length written as a `u64`.
pub open spec fn fits_after(m: Map<Seq<u8>, Seq<u8>>, ws: Seq<Seq<char>>, id: i64, n: nat) -> bool {
    forall|k: Seq<u8>|
        #![trigger occurrences(ws, id, k, n)]
        postings(m, k).len() + occurrences(ws, id, k, n).len() <= u64::MAX
}

/// Indexing `text` for document `id` leaves every stored list short enough
/// to have its length written as a `u64`.
pub open spec fn add_fits(m: Map<Seq<u8>, Seq<u8>>, text: Seq<char>, id: i64) -> bool {
    fits_after(m, words_of(text), id, words_of(text).len())
}

/// What indexing `text` for document `id` may leave, starting from the
/// entries `m0` with the failures `f0` reported, ending with `m` and `f`, and
/// giving back `r`: on success `add_text` of `m0` (and the lists fit); on a
/// failure of the store, the words before some word that is not a stopword
/// indexed, the rest left alone, and the store's failure passed on.
pub open spec fn add_outcome(
    m0: Map<Seq<u8>, Seq<u8>>,
    f0: Seq<KvError>,
    m: Map<Seq<u8>, Seq<u8>>,
    f: Seq<KvError>,
    text: Seq<char>,
    id: i64,
    r: Result<(), GeneralError>,
) -> bool {
    &&& passes_on(f0, f, r)
    &&& r is Ok ==> m == add_text(m0, text, id) && add_fits(m0, text, id)
    &&& r is Err ==> exists|n: nat|
        #![trigger add_words(m0, words_of(text), id, n)]
        n < words_of(text).len() && !is_stopword(words_of(text)[n as int]) && m == add_words(
            m0,
            words_of(text),
            id,
            n,
        )
}

/// What dropping document `id` with text `text` may leave, as
/// `add_outcome` says of indexing: on success `remove_text` of `m0`; on a
/// failure of the store, the words before some word handled, the rest left
/// alone, and the store's failure passed on.
pub open spec fn remove_outcome(
    m0: Map<Seq<u8>, Seq<u8>>,
    f0: Seq<KvError>,
    m: Map<Seq<u8>, Seq<u8>>,
    f: Seq<KvError>,
    text: Seq<char>,
    id: i64,
    r: Result<(), GeneralError>,
) -> bool {
    &&& passes_on(f0, f, r)
    &&& r is Ok ==> m == remove_text(m0, text, id)
    &&& r is Err ==> exists|n: nat|
        #![trigger remove_words(m0, words_of(text), id, n)]
        n < words_of(text).len() && m == remove_words(m0, words_of(text), id, n)
}

/// Indexes every word of `doc.text`: each normalised word that is not a
/// stopword gets `(doc.id, position)` appended to its postings, the position
/// being the word's index among the space-separated pieces of the text. On
/// success the store holds `add_text` of what it held. When the store fails
/// at a word, that word is not a stopword, the words before it have been
/// indexed, the rest of the text is left alone, and the store's failure is
/// what comes back.
pub fn add_document_rocks<S: KVStore>(db: &mut S, doc: &Document) -> (r: Result<(), GeneralError>)
    requires
        well_formed(old(db).contents()),
        doc.text@.len() < i64::MAX,
    ensures
        well_formed(final(db).contents()),
        final(db).never_fails() == old(db).never_fails(),
        old(db).never_fails() ==> r is Ok,
        add_outcome(
            old(db).contents(),
            old(db).failures(),
            final(db).contents(),
            final(db).failures(),
            doc.text@,
            doc.id,
            r,
        ),
{
    let words = split_words(doc.text.as_str());
    let ghost ws = words_of(doc.text@);
    let ghost m0 = db.contents();
    proof {
        lemma_split_spaces_len(doc.text@);
        assert forall|k: Seq<u8>| #![trigger occurrences(ws, doc.id, k, 0)]
            postings(m0, k).len() + occurrences(ws, doc.id, k, 0).len() <= u64::MAX by {
            lemma_stored_len(m0, k);
        }
    }
    let mut i: usize = 0;
    while i < words.len()
        invariant
            strings_view(words@) == split_spaces(doc.text@),
            ws == words_of(doc.text@),
            ws.len() <= doc.text@.len() + 1,
            doc.text@.len() < i64::MAX,
            i <= words.len(),
            m0 == old(db).contents(),
            db.never_fails() == old(db).never_fails(),
            db.failures() == old(db).failures(),
            well_formed(m0),
            well_formed(db.contents()),
            db.contents() == add_words(m0, ws, doc.id, i as nat),
            fits_after(m0, ws, doc.id, i as nat),
        decreases words.len() - i,
    {
        let normalised = remove_punctuation(words[i].clone());
        assert(strings_view(words@)[i as int] == words@[i as int]@);
        assert(normalised@ == ws[i as int]);
        let pos = i as i64;
        if check_stopword(normalised.as_str()) {
            assert forall|k: Seq<u8>| #![trigger occurrences(ws, doc.id, k, (i + 1) as nat)]
                postings(m0, k).len() + occurrences(ws, doc.id, k, (i + 1) as nat).len() <= u64::MAX by {
                assert(occurrences(ws, doc.id, k, (i + 1) as nat) == occurrences(ws, doc.id, k, i as nat));
            }
            i += 1;
            continue;
        }
        let key = normalised.as_str().as_bytes();
        let mut new_values: Vec<(i64, i64)> = match read_postings(db, key) {
            Ok(Some(v)) => v,
            Ok(None) => Vec::new(),
            Err(e) => {
                assert(db.contents() == add_words(m0, ws, doc.id, i as nat));
                return Err(e);
            },
        };
        new_values.push((doc.id, pos));
        proof {
            lemma_add_words(m0, ws, doc.id, i as nat);
            let kw = word_key(ws[i as int]);
            assert(new_values@ =~= postings(add_words(m0, ws, doc.id, i as nat), kw).push((doc.id, pos)));
            assert(occurrences(ws, doc.id, kw, (i + 1) as nat) == occurrences(ws, doc.id, kw, i as nat).push((doc.id, pos)));
            assert forall|k: Seq<u8>| #![trigger occurrences(ws, doc.id, k, (i + 1) as nat)]
                postings(m0, k).len() + occurrences(ws, doc.id, k, (i + 1) as nat).len() <= u64::MAX by {
                if k != kw {
                    assert(occurrences(ws, doc.id, k, (i + 1) as nat) == occurrences(ws, doc.id, k, i as nat));
                } else {
                    assert(new_values@.len() == new_values.len());
                }
            }
        }
        match write_postings(db, key, &new_values) {
            Ok(()) => {},
            Err(e) => {
                assert(db.contents() == add_words(m0, ws, doc.id, i as nat));
                return Err(e);
            },
        }
        i += 1;
    }
    Ok(())
}

/// Drops document `doc.id` from the postings of every normalised word of
/// `doc.text`, stopwords included; a word with no entry gets an empty one.
/// On success the store holds `remove_text` of what it held. When the store
/// fails at a word, the words before it have been handled, the rest of the
/// text is left alone, and the store's failure is what comes back.
pub fn remove_document_rocks<S: KVStore>(db: &mut S, doc: &Document) -> (r: Result<(), GeneralError>)
    requires
        well_formed(old(db).contents()),
    ensures
        well_formed(final(db).contents()),
        final(db).never_fails() == old(db).never_fails(),
        old(db).never_fails() ==> r is Ok,
        remove_outcome(
            old(db).contents(),
            old(db).failures(),
            final(db).contents(),
            final(db).failures(),
            doc.text@,
            doc.id,
            r,
        ),
{
    let words = split_words(doc.text.as_str());
    let ghost ws = words_of(doc.text@);
    let ghost m0 = db.contents();
    let mut i: usize = 0;
    while i < words.len()
        invariant
            strings_view(words@) == split_spaces(doc.text@),
            ws == words_of(doc.text@),
            i <= words.len(),
            m0 == old(db).contents(),
            db.never_fails() == old(db).never_fails(),
            db.failures() == old(db).failures(),
            well_formed(db.contents()),
            db.contents() == remove_words(m0, ws, doc.id, i as nat),
        decreases words.len() - i,
    {
        let normalised = remove_punctuation(words[i].clone());
        assert(strings_view(words@)[i as int] == words@[i as int]@);
        assert(normalised@ == ws[i as int]);
        let key = normalised.as_str().as_bytes();
        assert(key@ == word_key(ws[i as int]));
        let old_values: Vec<(i64, i64)> = match read_postings(db, key) {
            Ok(Some(v)) => v,
            Ok(None) => Vec::new(),
            Err(e) => {
                assert(db.contents() == remove_words(m0, ws, doc.id, i as nat));
                return Err(e);
            },
        };
        let ghost pred = other_doc(doc.id);
        let ghost mi = db.contents();
        assert(old_values@ == postings(mi, key@));
        let mut new_values: Vec<(i64, i64)> = Vec::new();
        let mut j: usize = 0;
        assert(old_values@.take(0) =~= Seq::<(i64, i64)>::empty());
        while j < old_values.len()
            invariant
                j <= old_values.len(),
                pred == other_doc(doc.id),
                new_values@ == old_values@.take(j as int).filter(pred),
            decreases old_values.len() - j,
        {
            let p = old_values[j];
            assert(old_values@.take(j + 1) =~= old_values@.take(j as int).push(p));
            proof {
                old_values@.take(j as int).lemma_filter_push(p, pred);
            }
            if p.0 != doc.id {
                new_values.push(p);
            }
            j += 1;
        }
        assert(old_values@.take(j as int) =~= old_values@);
        match write_postings(db, key, &new_values) {
            Ok(()) => {},
            Err(e) => {
                assert(db.contents() == remove_words(m0, ws, doc.id, i as nat));
                return Err(e);
            },
        }
        assert(db.contents() == mi.insert(key@, postings_bytes(new_values@)));
        assert(new_values@ =~= postings(remove_words(m0, ws, doc.id, i as nat), word_key(ws[i as int])).filter(pred));
        assert(remove_words(m0, ws, doc.id, (i + 1) as nat) == remove_word(remove_words(m0, ws, doc.id, i as nat), ws[i as int], doc.id));
        i += 1;
    }
    Ok(())
}

/// Re-indexes a document whose text changed: drops `old_doc` from the index,
/// then indexes `new_doc`. What it gives back and leaves is what dropping
/// gives and leaves when dropping fails (and `new_doc` is then not indexed),
/// and otherwise what indexing `new_doc` gives and leaves, starting from the
/// store that dropping left.
pub fn update_document_rocks<S: KVStore>(db: &mut S, old_doc: &Document, new_doc: &Document) -> (r:
    Result<(), GeneralError>)
    requires
        well_formed(old(db).contents()),
        new_doc.text@.len() < i64::MAX,
    ensures
        well_formed(final(db).contents()),
        final(db).never_fails() == old(db).never_fails(),
        old(db).never_fails() ==> r is Ok,
        ({
            let m0 = old(db).contents();
            let f0 = old(db).failures();
            let m1 = remove_text(m0, old_doc.text@, old_doc.id);
            ||| r is Err && remove_outcome(
                m0,
                f0,
                final(db).contents(),
                final(db).failures(),
                old_doc.text@,
                old_doc.id,
                r,
            )
            ||| remove_outcome(m0, f0, m1, f0, old_doc.text@, old_doc.id, Ok(())) && add_outcome(
                m1,
                f0,
                final(db).contents(),
                final(db).failures(),
                new_doc.text@,
                new_doc.id,
                r,
            )
        }),
        r is Ok ==> final(db).contents() == add_text(
            remove_text(old(db).contents(), old_doc.text@, old_doc.id),
            new_doc.text@,
            new_doc.id,
        ),
{
    match remove_document_rocks(db, old_doc) {
        Ok(()) => {},
        Err(e) => {
            return Err(e);
        },
    }
    add_document_rocks(db, new_doc)
}

/// Looks up every normalised word of `query` that is not a stopword, and
/// returns the postings of those that have an entry, in query order. It
/// fails only when the store fails at a lookup, which is of such a word; the
/// store's failure is then what comes back. The entries are left as they
/// were.
pub fn search_document_rocks<S: KVStore>(db: &mut S, query: String) -> (r: Result<Vec<Values>, GeneralError>)
    requires
        well_formed(old(db).contents()),
    ensures
        final(db).contents() == old(db).contents(),
        final(db).never_fails() == old(db).never_fails(),
        r matches Ok(res) ==> values_view(res@) == search_postings(
            old(db).contents(),
            words_of(query@),
        ).map_values(|s: Seq<(i64, i64)>| pairs_values(s)),
        passes_on(old(db).failures(), final(db).failures(), r),
        r is Err ==> exists|n: int|
            0 <= n < words_of(query@).len() && !is_stopword(#[trigger] words_of(query@)[n]),
        old(db).never_fails() ==> r is Ok,
{
    let ghost m0 = db.contents();
    let words = split_words(query.as_str());
    let ghost ws = words_of(query@);
    let mut search_results: Vec<Values> = Vec::new();
    let mut i: usize = 0;
    assert(ws.take(0) =~= Seq::<Seq<char>>::empty());
    while i < words.len()
        invariant
            strings_view(words@) == split_spaces(query@),
            ws == words_of(query@),
            i <= words.len(),
            m0 == old(db).contents(),
            db.contents() == m0,
            db.failures() == old(db).failures(),
            db.never_fails() == old(db).never_fails(),
            well_formed(db.contents()),
            values_view(search_results@) == search_postings(db.contents(), ws.take(i as int)).map_values(
                |s: Seq<(i64, i64)>| pairs_values(s),
            ),
        decreases words.len() - i,
    {
        let normalised = remove_punctuation(words[i].clone());
        assert(strings_view(words@)[i as int] == words@[i as int]@);
        assert(normalised@ == ws[i as int]);
        assert(ws.take(i + 1).drop_last() =~= ws.take(i as int));
        if check_stopword(normalised.as_str()) {
            i += 1;
            continue;
        }
        let key = normalised.as_str().as_bytes();
        let ghost prev = search_postings(db.contents(), ws.take(i as int));
        assert(key@ == word_key(ws[i as int]));
        match read_postings(db, key) {
            Ok(Some(found)) => {
                let mut decoded_values: Vec<Value> = Vec::new();
                let mut j: usize = 0;
                while j < found.len()
                    invariant
                        j <= found.len(),
                        decoded_values@ == pairs_values(found@.take(j as int)),
                    decreases found.len() - j,
                {
                    let p = found[j];
                    decoded_values.push(Value { id: p.0, position: p.1 });
                    assert(pairs_values(found@.take(j + 1)) =~= pairs_values(found@.take(j as int)).push(Value { id: p.0, position: p.1 }));
                    j += 1;
                }
                assert(found@.take(j as int) =~= found@);
                let ghost old_view = values_view(search_results@);
                search_results.push(Values { values: decoded_values });
                assert(search_postings(db.contents(), ws.take(i + 1)) == prev.push(found@));
                assert(values_view(search_results@) =~= old_view.push(pairs_values(found@)));
            },
            Ok(None) => {
                assert(search_postings(db.contents(), ws.take(i + 1)) == prev);
            },
            Err(e) => {
                assert(!is_stopword(ws[i as int]));
                return Err(e);
            },
        }
        assert(values_view(search_results@) =~= search_postings(db.contents(), ws.take(i + 1)).map_values(
            |s: Seq<(i64, i64)>| pairs_values(s),
        ));
        i += 1;
    }
    assert(ws.take(i as int) =~= ws);
    Ok(search_results)
}

/// The pairs that indexing the first `n` words of `ws` for document `id`
/// appends under the key `k`, in order.
pub open spec fn occurrences(ws: Seq<Seq<char>>, id: i64, k: Seq<u8>, n: nat) -> Seq<(i64, i64)>
    decreases n,
{
    if n == 0 {
        Seq::<(i64, i64)>::empty()
    } else {
        let prev = occurrences(ws, id, k, (n - 1) as nat);
        if !is_stopword(ws[n - 1]) && word_key(ws[n - 1]) == k {
            prev.push((id, (n - 1) as i64))
        } else {
            prev
        }
    }
}

/// One of the first `n` words of `ws` has the key `k`.
pub open spec fn mentions(ws: Seq<Seq<char>>, k: Seq<u8>, n: nat) -> bool
    decreases n,
{
    n > 0 && (mentions(ws, k, (n - 1) as nat) || word_key(ws[n - 1]) == k)
}

proof fn lemma_stored_len(m: Map<Seq<u8>, Seq<u8>>, k: Seq<u8>)
    requires
        well_formed(m),
    ensures
        postings(m, k).len() <= u64::MAX,
{
    if m.contains_key(k) {
        assert(is_postings(m[k]));
        assert(encodes(m[k], decoded(m[k])));
    }
}

proof fn lemma_occurrences_facts(ws: Seq<Seq<char>>, id: i64, k: Seq<u8>, n: nat)
    ensures
        occurrences(ws, id, k, n).len() <= n,
        forall|i: int|
            0 <= i < occurrences(ws, id, k, n).len() ==> (#[trigger] occurrences(ws, id, k, n)[i]).0
                == id,
        occurrences(ws, id, k, n).len() > 0 ==> mentions(ws, k, n),
    decreases n,
{
    if n > 0 {
        lemma_occurrences_facts(ws, id, k, (n - 1) as nat);
    }
}

proof fn lemma_add_word(m: Map<Seq<u8>, Seq<u8>>, w: Seq<char>, id: i64, pos: i64)
    requires
        well_formed(m),
        !is_stopword(w) ==> postings(m, word_key(w)).len() < u64::MAX,
    ensures
        well_formed(add_word(m, w, id, pos)),
        forall|k: Seq<u8>|
            #[trigger] postings(add_word(m, w, id, pos), k) == if !is_stopword(w) && k == word_key(w) {
                postings(m, k).push((id, pos))
            } else {
                postings(m, k)
            },
        !is_stopword(w) ==> add_word(m, w, id, pos).contains_key(word_key(w)),
        forall|k: Seq<u8>| m.contains_key(k) ==> #[trigger] add_word(m, w, id, pos).contains_key(k),
{
    if !is_stopword(w) {
        lemma_decoded_encoding(postings(m, word_key(w)).push((id, pos)));
    }
}

proof fn lemma_add_words(m: Map<Seq<u8>, Seq<u8>>, ws: Seq<Seq<char>>, id: i64, n: nat)
    requires
        well_formed(m),
        n <= ws.len(),
        fits_after(m, ws, id, n),
    ensures
        well_formed(add_words(m, ws, id, n)),
        forall|k: Seq<u8>|
            #[trigger] postings(add_words(m, ws, id, n), k) == postings(m, k) + occurrences(
                ws,
                id,
                k,
                n,
            ),
        forall|k: Seq<u8>|
            occurrences(ws, id, k, n).len() > 0 ==> #[trigger] add_words(m, ws, id, n).contains_key(k),
    decreases n,
{
    if n == 0 {
        assert forall|k: Seq<u8>| #[trigger]
            postings(add_words(m, ws, id, n), k) == postings(m, k) + occurrences(ws, id, k, n) by {
            assert(postings(m, k) + Seq::<(i64, i64)>::empty() =~= postings(m, k));
        }
    } else {
        let n1 = (n - 1) as nat;
        assert forall|k: Seq<u8>| #![trigger occurrences(ws, id, k, n1)]
            postings(m, k).len() + occurrences(ws, id, k, n1).len() <= u64::MAX by {
            assert(occurrences(ws, id, k, n).len() >= occurrences(ws, id, k, n1).len());
        }
        lemma_add_words(m, ws, id, n1);
        let m1 = add_words(m, ws, id, n1);
        let w = ws[n - 1];
        let kw = word_key(w);
        lemma_occurrences_facts(ws, id, kw, n1);
        assert(postings(m, kw).len() + occurrences(ws, id, kw, n).len() <= u64::MAX);
        assert(postings(m1, kw) == postings(m, kw) + occurrences(ws, id, kw, n1));
        lemma_add_word(m1, w, id, n1 as i64);
        assert forall|k: Seq<u8>| #[trigger]
            postings(add_words(m, ws, id, n), k) == postings(m, k) + occurrences(ws, id, k, n) by {
            assert(postings(m1, k) == postings(m, k) + occurrences(ws, id, k, n1));
            if !is_stopword(w) && k == kw {
                assert(postings(m, k) + occurrences(ws, id, k, n1).push((id, n1 as i64)) =~= (
                postings(m, k) + occurrences(ws, id, k, n1)).push((id, n1 as i64)));
            }
        }
        assert forall|k: Seq<u8>|
            occurrences(ws, id, k, n).len() > 0 implies #[trigger] add_words(
            m,
            ws,
            id,
            n,
        ).contains_key(k) by {
            if !(!is_stopword(w) && k == kw) {
                assert(occurrences(ws, id, k, n) == occurrences(ws, id, k, n1));
            }
        }
    }
}

/// Indexing the text of a document appends, under each key, exactly the
/// `(id, position)` pairs of the words of the text that have that key and
/// are not stopwords, in text order; the store stays well-formed.
pub proof fn law_add_text_postings(m: Map<Seq<u8>, Seq<u8>>, text: Seq<char>, id: i64, k: Seq<u8>)
    requires
        well_formed(m),
        add_fits(m, text, id),
    ensures
        well_formed(add_text(m, text, id)),
        postings(add_text(m, text, id), k) == postings(m, k) + occurrences(
            words_of(text),
            id,
            k,
            words_of(text).len(),
        ),
{
    lemma_add_words(m, words_of(text), id, words_of(text).len());
}

proof fn lemma_filter_twice(s: Seq<(i64, i64)>, p: spec_fn((i64, i64)) -> bool)
    ensures
        s.filter(p).filter(p) == s.filter(p),
    decreases s.len(),
{
    broadcast use vstd::seq_lib::group_filter_ensures;

    if s.len() > 0 {
        lemma_filter_twice(s.drop_last(), p);
        assert(s =~= s.drop_last().push(s.last()));
        s.drop_last().lemma_filter_push(s.last(), p);
        if p(s.last()) {
            s.drop_last().filter(p).lemma_filter_push(s.last(), p);
        }
    }
}

proof fn lemma_filter_keeps_all(s: Seq<(i64, i64)>, id: i64)
    requires
        forall|i: int| 0 <= i < s.len() ==> (#[trigger] s[i]).0 != id,
    ensures
        s.filter(other_doc(id)) == s,
    decreases s.len(),
{
    if s.len() > 0 {
        lemma_filter_keeps_all(s.drop_last(), id);
        assert(s =~= s.drop_last().push(s.last()));
        s.drop_last().lemma_filter_push(s.last(), other_doc(id));
    }
}

proof fn lemma_filter_drops_all(s: Seq<(i64, i64)>, id: i64)
    requires
        forall|i: int| 0 <= i < s.len() ==> (#[trigger] s[i]).0 == id,
    ensures
        s.filter(other_doc(id)) == Seq::<(i64, i64)>::empty(),
    decreases s.len(),
{
    if s.len() > 0 {
        lemma_filter_drops_all(s.drop_last(), id);
        assert(s =~= s.drop_last().push(s.last()));
        s.drop_last().lemma_filter_push(s.last(), other_doc(id));
    }
}

proof fn lemma_remove_words(m: Map<Seq<u8>, Seq<u8>>, ws: Seq<Seq<char>>, id: i64, n: nat)
    requires
        well_formed(m),
        n <= ws.len(),
    ensures
        well_formed(remove_words(m, ws, id, n)),
        forall|k: Seq<u8>|
            #[trigger] postings(remove_words(m, ws, id, n), k) == if mentions(ws, k, n) {
                postings(m, k).filter(other_doc(id))
            } else {
                postings(m, k)
            },
        forall|k: Seq<u8>|
            mentions(ws, k, n) ==> #[trigger] remove_words(m, ws, id, n).contains_key(k)
                && remove_words(m, ws, id, n)[k] == postings_bytes(
                postings(m, k).filter(other_doc(id)),
            ),
        forall|k: Seq<u8>| !mentions(ws, k, n) ==> #[trigger] same_at(remove_words(m, ws, id, n), m, k),
    decreases n,
{
    if n > 0 {
        let n1 = (n - 1) as nat;
        lemma_remove_words(m, ws, id, n1);
        let m1 = remove_words(m, ws, id, n1);
        let kw = word_key(ws[n - 1]);
        let x = postings(m1, kw).filter(other_doc(id));
        lemma_stored_len(m1, kw);
        postings(m1, kw).lemma_filter_len(other_doc(id));
        lemma_decoded_encoding(x);
        lemma_filter_twice(postings(m, kw), other_doc(id));
        assert forall|k: Seq<u8>| #[trigger]
            postings(remove_words(m, ws, id, n), k) == if mentions(ws, k, n) {
                postings(m, k).filter(other_doc(id))
            } else {
                postings(m, k)
            } by {
            if k == kw {
                assert(postings(remove_words(m, ws, id, n), k) == x);
            } else {
                assert(postings(remove_words(m, ws, id, n), k) == postings(m1, k));
            }
        }
        assert forall|k: Seq<u8>|
            mentions(ws, k, n) implies #[trigger] remove_words(m, ws, id, n).contains_key(k)
                && remove_words(m, ws, id, n)[k] == postings_bytes(
                postings(m, k).filter(other_doc(id)),
            ) by {
            if k == kw {
                assert(x == postings(m, k).filter(other_doc(id)));
            } else {
                assert(mentions(ws, k, n1));
            }
        }
        assert forall|k: Seq<u8>| !mentions(ws, k, n) implies #[trigger] same_at(
            remove_words(m, ws, id, n),
            m,
            k,
        ) by {
            assert(!mentions(ws, k, n1));
            assert(same_at(m1, m, k));
        }
    }
}

/// Dropping a document from the index drops its pairs from the postings
/// under the key of every word of its text, and leaves every other key's
/// postings as they were; the store stays well-formed.
pub proof fn law_remove_text_postings(m: Map<Seq<u8>, Seq<u8>>, text: Seq<char>, id: i64, k: Seq<u8>)
    requires
        well_formed(m),
    ensures
        well_formed(remove_text(m, text, id)),
        postings(remove_text(m, text, id), k) == if mentions(
            words_of(text),
            k,
            words_of(text).len(),
        ) {
            postings(m, k).filter(other_doc(id))
        } else {
            postings(m, k)
        },
{
    lemma_remove_words(m, words_of(text), id, words_of(text).len());
}

/// Dropping a document a second time, with the same text, changes nothing.
pub proof fn law_remove_twice(m: Map<Seq<u8>, Seq<u8>>, text: Seq<char>, id: i64)
    requires
        well_formed(m),
    ensures
        remove_text(remove_text(m, text, id), text, id) == remove_text(m, text, id),
{
    let ws = words_of(text);
    let n = ws.len();
    let m1 = remove_text(m, text, id);
    let m2 = remove_text(m1, text, id);
    lemma_remove_words(m, ws, id, n);
    lemma_remove_words(m1, ws, id, n);
    assert forall|k: Seq<u8>| #[trigger] same_at(m2, m1, k) by {
        if mentions(ws, k, n) {
            lemma_filter_twice(postings(m, k), other_doc(id));
            assert(postings(m1, k) == postings(m, k).filter(other_doc(id)));
        }
    }
    assert(m2 =~= m1) by {
        assert forall|k: Seq<u8>| m2.contains_key(k) <==> m1.contains_key(k) by {
            assert(same_at(m2, m1, k));
        }
        assert forall|k: Seq<u8>| m2.contains_key(k) implies m2[k] == m1[k] by {
            assert(same_at(m2, m1, k));
        }
    }
}

/// Dropping a document right after indexing it gives every key back the
/// postings it had, provided that document had no pairs under that key.
pub proof fn law_remove_undoes_add(m: Map<Seq<u8>, Seq<u8>>, text: Seq<char>, id: i64, k: Seq<u8>)
    requires
        well_formed(m),
        add_fits(m, text, id),
        forall|i: int| 0 <= i < postings(m, k).len() ==> (#[trigger] postings(m, k)[i]).0 != id,
    ensures
        postings(remove_text(add_text(m, text, id), text, id), k) == postings(m, k),
{
    broadcast use vstd::seq_lib::group_filter_ensures;

    let ws = words_of(text);
    let n = ws.len();
    law_add_text_postings(m, text, id, k);
    let m1 = add_text(m, text, id);
    law_remove_text_postings(m1, text, id, k);
    let occ = occurrences(ws, id, k, n);
    lemma_occurrences_facts(ws, id, k, n);
    lemma_filter_keeps_all(postings(m, k), id);
    if mentions(ws, k, n) {
        vstd::seq::Seq::filter_distributes_over_add(postings(m, k), occ, other_doc(id));
        lemma_filter_drops_all(occ, id);
        assert(postings(m, k) + Seq::<(i64, i64)>::empty() =~= postings(m, k));
    } else {
        assert(occ.len() == 0);
        assert(postings(m, k) + occ =~= postings(m, k));
    }
}

proof fn lemma_split_without_space(w: Seq<char>)
    requires
        !w.contains(' '),
    ensures
        split_spaces(w) == seq![w],
    decreases w.len(),
{
    if w.len() > 0 {
        assert(!w.drop_last().contains(' ')) by {
            if w.drop_last().contains(' ') {
                let i = choose|i: int| 0 <= i < w.drop_last().len() && w.drop_last()[i] == ' ';
                assert(w[i] == ' ');
            }
        }
        lemma_split_without_space(w.drop_last());
        assert(w.last() != ' ') by {
            assert(w[w.len() - 1] == w.last());
        }
        assert(w.drop_last().push(w.last()) =~= w);
    } else {
        assert(w =~= Seq::<char>::empty());
    }
}

proof fn lemma_occurrence_listed(ws: Seq<Seq<char>>, id: i64, k: Seq<u8>, n: nat, p: int)
    requires
        0 <= p < n,
        !is_stopword(ws[p]),
        word_key(ws[p]) == k,
    ensures
        occurrences(ws, id, k, n).contains((id, p as i64)),
    decreases n,
{
    let n1 = (n - 1) as nat;
    if p == n1 {
        assert(occurrences(ws, id, k, n).last() == (id, p as i64));
    } else {
        lemma_occurrence_listed(ws, id, k, n1, p);
        let i = choose|i: int|
            0 <= i < occurrences(ws, id, k, n1).len() && occurrences(ws, id, k, n1)[i] == (
            id,
            p as i64,
        );
        assert(occurrences(ws, id, k, n)[i] == (id, p as i64));
    }
}

/// After a document is indexed, a query made of one piece `q` (no space)
/// whose normalised form is one of the document's words, not a stopword,
/// finds one list: that word's postings, which end with the word's
/// occurrences in the document and so hold the pair of each of them.
pub proof fn law_search_after_add(
    m: Map<Seq<u8>, Seq<u8>>,
    text: Seq<char>,
    id: i64,
    q: Seq<char>,
    p: int,
)
    requires
        well_formed(m),
        add_fits(m, text, id),
        !is_stopword(normalize(q)),
        !q.contains(' '),
        text.len() < i64::MAX,
        0 <= p < words_of(text).len(),
        words_of(text)[p] == normalize(q),
    ensures
        search_postings(add_text(m, text, id), words_of(q)) == seq![
            postings(m, word_key(normalize(q))) + occurrences(
                words_of(text),
                id,
                word_key(normalize(q)),
                words_of(text).len(),
            ),
        ],
        search_postings(add_text(m, text, id), words_of(q))[0].contains((id, p as i64)),
{
    let ws = words_of(text);
    let n = ws.len();
    let w = normalize(q);
    let k = word_key(w);
    lemma_add_words(m, ws, id, n);
    lemma_split_without_space(q);
    assert(words_of(q) =~= seq![w]);
    lemma_occurrence_listed(ws, id, k, n, p);
    let m1 = add_text(m, text, id);
    assert(m1.contains_key(k));
    lemma_split_spaces_len(text);
    assert(seq![w].drop_last() =~= Seq::<Seq<char>>::empty());
    assert(search_postings(m1, Seq::<Seq<char>>::empty()) == Seq::<Seq<(i64, i64)>>::empty());
    assert(search_postings(m1, seq![w]) =~= seq![decoded(m1[k])]);
    let occ = occurrences(ws, id, k, n);
    assert(postings(add_words(m, ws, id, n), k) == postings(m, k) + occ);
    assert(decoded(m1[k]) == postings(m, k) + occ);
    let i = choose|i: int| 0 <= i < occ.len() && occ[i] == (id, p as i64);
    assert((postings(m, k) + occ)[postings(m, k).len() + i] == (id, p as i64));
}

/// `m1` and `m2` hold the same entry, or none, under `k`.
pub open spec fn same_at(m1: Map<Seq<u8>, Seq<u8>>, m2: Map<Seq<u8>, Seq<u8>>, k: Seq<u8>) -> bool {
    &&& m1.contains_key(k) == m2.contains_key(k)
    &&& m1.contains_key(k) ==> m1[k] == m2[k]
}

/// `k` is the key of one of the words of `ws`.
pub open spec fn is_word_key(ws: Seq<Seq<char>>, k: Seq<u8>) -> bool {
    exists|i: int| 0 <= i < ws.len() && word_key(ws[i]) == k
}

/// `m1` and `m2` hold the same entries under the keys of the words of `ws`.
pub open spec fn agree_on_words(m1: Map<Seq<u8>, Seq<u8>>, m2: Map<Seq<u8>, Seq<u8>>, ws: Seq<Seq<char>>) -> bool {
    forall|k: Seq<u8>| is_word_key(ws, k) ==> #[trigger] same_at(m1, m2, k)
}

proof fn lemma_add_words_local(
    m1: Map<Seq<u8>, Seq<u8>>,
    m2: Map<Seq<u8>, Seq<u8>>,
    ws: Seq<Seq<char>>,
    id: i64,
    n: nat,
)
    requires
        n <= ws.len(),
        agree_on_words(m1, m2, ws),
    ensures
        agree_on_words(add_words(m1, ws, id, n), add_words(m2, ws, id, n), ws),
        forall|k: Seq<u8>| !is_word_key(ws, k) ==> #[trigger] same_at(add_words(m1, ws, id, n), m1, k),
    decreases n,
{
    if n > 0 {
        let n1 = (n - 1) as nat;
        lemma_add_words_local(m1, m2, ws, id, n1);
        let a1 = add_words(m1, ws, id, n1);
        let a2 = add_words(m2, ws, id, n1);
        let kw = word_key(ws[n - 1]);
        assert(is_word_key(ws, kw));
        assert(same_at(a1, a2, kw));
        assert(postings(a1, kw) == postings(a2, kw));
        assert forall|k: Seq<u8>| is_word_key(ws, k) implies #[trigger] same_at(
            add_words(m1, ws, id, n),
            add_words(m2, ws, id, n),
            k,
        ) by {
            assert(same_at(a1, a2, k));
        }
        assert forall|k: Seq<u8>| !is_word_key(ws, k) implies #[trigger] same_at(
            add_words(m1, ws, id, n),
            m1,
            k,
        ) by {
            assert(same_at(a1, m1, k));
        }
    }
}

proof fn lemma_remove_words_local(
    m1: Map<Seq<u8>, Seq<u8>>,
    m2: Map<Seq<u8>, Seq<u8>>,
    ws: Seq<Seq<char>>,
    id: i64,
    n: nat,
)
    requires
        n <= ws.len(),
        agree_on_words(m1, m2, ws),
    ensures
        agree_on_words(remove_words(m1, ws, id, n), remove_words(m2, ws, id, n), ws),
        forall|k: Seq<u8>| !is_word_key(ws, k) ==> #[trigger] same_at(remove_words(m1, ws, id, n), m1, k),
    decreases n,
{
    if n > 0 {
        let n1 = (n - 1) as nat;
        lemma_remove_words_local(m1, m2, ws, id, n1);
        let a1 = remove_words(m1, ws, id, n1);
        let a2 = remove_words(m2, ws, id, n1);
        let kw = word_key(ws[n - 1]);
        assert(is_word_key(ws, kw));
        assert(same_at(a1, a2, kw));
        assert(postings(a1, kw) == postings(a2, kw));
        assert forall|k: Seq<u8>| is_word_key(ws, k) implies #[trigger] same_at(
            remove_words(m1, ws, id, n),
            remove_words(m2, ws, id, n),
            k,
        ) by {
            assert(same_at(a1, a2, k));
        }
        assert forall|k: Seq<u8>| !is_word_key(ws, k) implies #[trigger] same_at(
            remove_words(m1, ws, id, n),
            m1,
            k,
        ) by {
            assert(same_at(a1, m1, k));
        }
    }
}

/// The key `k` is written by one of the writes `w`.
pub open spec fn written_key(w: Seq<(Seq<u8>, Seq<u8>)>, k: Seq<u8>) -> bool {
    exists|i: int| 0 <= i < w.len() && w[i].0 == k
}

proof fn last_write_index(w: Seq<(Seq<u8>, Seq<u8>)>, k: Seq<u8>, from: int) -> (i: int)
    requires
        0 <= from < w.len(),
        w[from].0 == k,
    ensures
        from <= i < w.len(),
        w[i].0 == k,
        forall|j: int| i < j < w.len() ==> w[j].0 != k,
    decreases w.len() - from,
{
    if exists|j: int| from < j < w.len() && w[j].0 == k {
        let j = choose|j: int| from < j < w.len() && w[j].0 == k;
        last_write_index(w, k, j)
    } else {
        from
    }
}

proof fn lemma_apply_writes_at(
    m: Map<Seq<u8>, Seq<u8>>,
    m2: Map<Seq<u8>, Seq<u8>>,
    w: Seq<(Seq<u8>, Seq<u8>)>,
    k: Seq<u8>,
)
    ensures
        written_key(w, k) ==> apply_writes(m, w).contains_key(k),
        written_key(w, k) ==> same_at(apply_writes(m, w), apply_writes(m2, w), k),
        !written_key(w, k) ==> same_at(apply_writes(m, w), m, k),
{
    if written_key(w, k) {
        let i0 = choose|i: int| 0 <= i < w.len() && w[i].0 == k;
        let i = last_write_index(w, k, i0);
        lemma_apply_writes_found(m, w, i, k);
        lemma_apply_writes_found(m2, w, i, k);
    } else {
        lemma_apply_writes_absent(m, w, k);
    }
}

proof fn lemma_agree_symmetric(m1: Map<Seq<u8>, Seq<u8>>, m2: Map<Seq<u8>, Seq<u8>>, ws: Seq<Seq<char>>)
    requires
        agree_on_words(m1, m2, ws),
    ensures
        agree_on_words(m2, m1, ws),
{
    assert forall|k: Seq<u8>| is_word_key(ws, k) implies #[trigger] same_at(m2, m1, k) by {
        assert(same_at(m1, m2, k));
    }
}

/// Indexing a document through a part of the store: if `base` holds the
/// entries of `full` under the keys of the words of `text` and nothing else,
/// and the writes `w` turn `base` into what indexing gives, then making
/// those writes in `full` turns it into what indexing `full` gives.
pub proof fn law_replay_add(
    full: Map<Seq<u8>, Seq<u8>>,
    base: Map<Seq<u8>, Seq<u8>>,
    w: Seq<(Seq<u8>, Seq<u8>)>,
    text: Seq<char>,
    id: i64,
)
    requires
        agree_on_words(full, base, words_of(text)),
        forall|k: Seq<u8>| #[trigger] base.contains_key(k) ==> is_word_key(words_of(text), k),
        apply_writes(base, w) == add_text(base, text, id),
    ensures
        apply_writes(full, w) == add_text(full, text, id),
{
    let ws = words_of(text);
    let n = ws.len();
    lemma_add_words_local(full, base, ws, id, n);
    lemma_agree_symmetric(full, base, ws);
    lemma_add_words_local(base, full, ws, id, n);
    assert forall|k: Seq<u8>| #[trigger] same_at(apply_writes(full, w), add_text(full, text, id), k) by {
        lemma_apply_writes_at(full, base, w, k);
        lemma_apply_writes_at(base, full, w, k);
        assert(same_at(apply_writes(base, w), add_text(base, text, id), k));
        if is_word_key(ws, k) {
            assert(same_at(add_words(full, ws, id, n), add_words(base, ws, id, n), k));
            assert(same_at(full, base, k));
        } else {
            assert(same_at(add_words(full, ws, id, n), full, k));
            assert(same_at(add_words(base, ws, id, n), base, k));
            assert(!base.contains_key(k));
        }
    }
    assert(apply_writes(full, w) =~= add_text(full, text, id)) by {
        assert forall|k: Seq<u8>| apply_writes(full, w).contains_key(k) <==> add_text(full, text, id).contains_key(k) by {
            assert(same_at(apply_writes(full, w), add_text(full, text, id), k));
        }
        assert forall|k: Seq<u8>| apply_writes(full, w).contains_key(k) implies apply_writes(full, w)[k] == add_text(full, text, id)[k] by {
            assert(same_at(apply_writes(full, w), add_text(full, text, id), k));
        }
    }
}

/// Dropping a document through a part of the store, as `law_replay_add`
/// says of indexing.
pub proof fn law_replay_remove(
    full: Map<Seq<u8>, Seq<u8>>,
    base: Map<Seq<u8>, Seq<u8>>,
    w: Seq<(Seq<u8>, Seq<u8>)>,
    text: Seq<char>,
    id: i64,
)
    requires
        agree_on_words(full, base, words_of(text)),
        forall|k: Seq<u8>| #[trigger] base.contains_key(k) ==> is_word_key(words_of(text), k),
        apply_writes(base, w) == remove_text(base, text, id),
    ensures
        apply_writes(full, w) == remove_text(full, text, id),
{
    let ws = words_of(text);
    let n = ws.len();
    lemma_remove_words_local(full, base, ws, id, n);
    lemma_agree_symmetric(full, base, ws);
    lemma_remove_words_local(base, full, ws, id, n);
    assert forall|k: Seq<u8>| #[trigger] same_at(apply_writes(full, w), remove_text(full, text, id), k) by {
        lemma_apply_writes_at(full, base, w, k);
        lemma_apply_writes_at(base, full, w, k);
        assert(same_at(apply_writes(base, w), remove_text(base, text, id), k));
        if is_word_key(ws, k) {
            assert(same_at(remove_words(full, ws, id, n), remove_words(base, ws, id, n), k));
            assert(same_at(full, base, k));
        } else {
            assert(same_at(remove_words(full, ws, id, n), full, k));
            assert(same_at(remove_words(base, ws, id, n), base, k));
            assert(!base.contains_key(k));
        }
    }
    assert(apply_writes(full, w) =~= remove_text(full, text, id)) by {
        assert forall|k: Seq<u8>| apply_writes(full, w).contains_key(k) <==> remove_text(full, text, id).contains_key(k) by {
            assert(same_at(apply_writes(full, w), remove_text(full, text, id), k));
        }
        assert forall|k: Seq<u8>| apply_writes(full, w).contains_key(k) implies apply_writes(full, w)[k] == remove_text(full, text, id)[k] by {
            assert(same_at(apply_writes(full, w), remove_text(full, text, id), k));
        }
    }
}

/// A query finds the same postings in two stores that hold the same
/// entries under the keys of its words.
pub proof fn law_search_local(m1: Map<Seq<u8>, Seq<u8>>, m2: Map<Seq<u8>, Seq<u8>>, ws: Seq<Seq<char>>)
    requires
        agree_on_words(m1, m2, ws),
    ensures
        search_postings(m1, ws) == search_postings(m2, ws),
    decreases ws.len(),
{
    if ws.len() > 0 {
        let d = ws.drop_last();
        assert forall|k: Seq<u8>| is_word_key(d, k) implies #[trigger] same_at(m1, m2, k) by {
            let i = choose|i: int| 0 <= i < d.len() && word_key(d[i]) == k;
            assert(word_key(ws[i]) == k);
        }
        law_search_local(m1, m2, d);
        assert(is_word_key(ws, word_key(ws.last())));
        assert(same_at(m1, m2, word_key(ws.last())));
    }
}

/// A query's lookup over two runs of words is the lookup over the first run
/// followed by the lookup over the second: no word, stopword or not, ends
/// or changes the lookup of the words after it.
pub proof fn law_search_concat(m: Map<Seq<u8>, Seq<u8>>, ws1: Seq<Seq<char>>, ws2: Seq<Seq<char>>)
    ensures
        search_postings(m, ws1 + ws2) == search_postings(m, ws1) + search_postings(m, ws2),
    decreases ws2.len(),
{
    if ws2.len() == 0 {
        assert(ws1 + ws2 =~= ws1);
        assert(search_postings(m, ws1) + search_postings(m, ws2) =~= search_postings(m, ws1));
    } else {
        law_search_concat(m, ws1, ws2.drop_last());
        assert((ws1 + ws2).drop_last() =~= ws1 + ws2.drop_last());
        assert((ws1 + ws2).last() == ws2.last());
        let w = ws2.last();
        if !is_stopword(w) && m.contains_key(word_key(w)) {
            assert(search_postings(m, ws1) + search_postings(m, ws2.drop_last()).push(
                decoded(m[word_key(w)]),
            ) =~= (search_postings(m, ws1) + search_postings(m, ws2.drop_last())).push(
                decoded(m[word_key(w)]),
            ));
        }
    }
}

/// A one-word query finds the postings stored under the word's key when
/// the word is not a stopword and has an entry, and nothing otherwise.
pub proof fn law_search_one_word(m: Map<Seq<u8>, Seq<u8>>, w: Seq<char>)
    ensures
        search_postings(m, seq![w]) == if !is_stopword(w) && m.contains_key(word_key(w)) {
            seq![postings(m, word_key(w))]
        } else {
            Seq::<Seq<(i64, i64)>>::empty()
        },
{
    assert(seq![w].drop_last() =~= Seq::<Seq<char>>::empty());
    assert(search_postings(m, Seq::<Seq<char>>::empty()) == Seq::<Seq<(i64, i64)>>::empty());
    assert(Seq::<Seq<(i64, i64)>>::empty().push(postings(m, word_key(w))) =~= seq![
        postings(m, word_key(w)),
    ]);
}

} // verus!
