//! The records the index and the search work with, and word normalisation.
use crate::db::text::{chars_of, push_char};
use crate::kv::KvError;
use vstd::prelude::*;

verus! {

/// One occurrence of a word: the document it is in and its position there
/// (the index of the word among the space-separated pieces of the text).
#[derive(PartialEq, Eq, Structural, Debug, Clone, Copy)]
pub struct Value {
    pub id: i64,
    pub position: i64,
}

/// A group of occurrences close to each other in one document: the
/// document, a position standing for the group, and how many occurrences it
/// holds.
#[derive(PartialEq, Eq, Structural, Debug, Clone, Copy)]
pub struct RankValue {
    pub id: i64,
    pub position: i64,
    pub word_num: i64,
}

/// The occurrences of one word.
#[derive(PartialEq, Debug)]
pub struct Values {
    pub values: Vec<Value>,
}

/// A document: its id, its name and its text.
#[derive(Debug)]
pub struct Document {
    pub id: i64,
    pub name: String,
    pub text: String,
}

/// One search hit: the document, the words around the hit, and the hit's
/// position written in decimal.
#[derive(Debug)]
pub struct SearchResult {
    pub id: i64,
    pub peri_text: String,
    pub word: String,
}

/// The hits of a search, best first.
#[derive(Debug)]
pub struct SearchResults {
    pub results: Vec<SearchResult>,
}

/// What can go wrong: the document database, the web layer, or the key-value
/// store of the index failed. The first two carry the message of the failure.
#[derive(Debug)]
pub enum GeneralError {
    Rusqlite(String),
    ActixWeb(String),
    Rocks(KvError),
}

/// The view of an occurrence as a `(document id, position)` pair.
pub open spec fn value_pair(v: Value) -> (i64, i64) {
    (v.id, v.position)
}

/// The occurrence that a `(document id, position)` pair stands for.
pub open spec fn pair_value(p: (i64, i64)) -> Value {
    Value { id: p.0, position: p.1 }
}

/// The occurrences that a list of pairs stands for.
pub open spec fn pairs_values(s: Seq<(i64, i64)>) -> Seq<Value> {
    s.map_values(|p: (i64, i64)| pair_value(p))
}

/// The lists of occurrences held by a sequence of `Values`.
pub open spec fn values_view(s: Seq<Values>) -> Seq<Seq<Value>> {
    s.map_values(|vs: Values| vs.values@)
}

/// `char::is_whitespace`: the Unicode `White_Space` characters.
pub open spec fn is_whitespace_char(c: char) -> bool {
    let u = c as u32;
    ||| 0x09 <= u <= 0x0d
    ||| u == 0x20
    ||| u == 0x85
    ||| u == 0xa0
    ||| u == 0x1680
    ||| 0x2000 <= u <= 0x200a
    ||| u == 0x2028
    ||| u == 0x2029
    ||| u == 0x202f
    ||| u == 0x205f
    ||| u == 0x3000
}

/// `char::is_ascii_punctuation`: `!` to `/`, `:` to `@`, `[` to `` ` `` and
/// `{` to `~`.
pub open spec fn is_ascii_punctuation_char(c: char) -> bool {
    let u = c as u32;
    ||| 0x21 <= u <= 0x2f
    ||| 0x3a <= u <= 0x40
    ||| 0x5b <= u <= 0x60
    ||| 0x7b <= u <= 0x7e
}

/// Whether normalisation keeps `c`: it is dropped when it is whitespace or
/// ASCII punctuation.
pub open spec fn keeps_char(c: char) -> bool {
    !is_whitespace_char(c) && !is_ascii_punctuation_char(c)
}

/// `keeps_char` as a predicate on characters.
pub open spec fn kept() -> spec_fn(char) -> bool {
    |c: char| keeps_char(c)
}

/// A word with its whitespace and ASCII punctuation removed, the other
/// characters kept in order.
pub open spec fn normalize(w: Seq<char>) -> Seq<char> {
    w.filter(kept())
}

/// Whether `c` is a whitespace character.
pub fn is_whitespace(c: char) -> (r: bool)
    ensures
        r == is_whitespace_char(c),
{
    let u = c as u32;
    (0x09 <= u && u <= 0x0d) || u == 0x20 || u == 0x85 || u == 0xa0 || u == 0x1680 || (0x2000 <= u
        && u <= 0x200a) || u == 0x2028 || u == 0x2029 || u == 0x202f || u == 0x205f || u == 0x3000
}

/// Whether `c` is an ASCII punctuation character.
pub fn is_ascii_punctuation(c: char) -> (r: bool)
    ensures
        r == is_ascii_punctuation_char(c),
{
    let u = c as u32;
    (0x21 <= u && u <= 0x2f) || (0x3a <= u && u <= 0x40) || (0x5b <= u && u <= 0x60) || (0x7b <= u
        && u <= 0x7e)
}

/// Normalises a word: removes every whitespace and ASCII punctuation
/// character and keeps the others in their order.
pub fn remove_punctuation(word: String) -> (r: String)
    ensures
        r@ == normalize(word@),
{
    let chars = chars_of(word.as_str());
    let mut r = String::new();
    let mut i: usize = 0;
    assert(chars@.take(0) =~= Seq::<char>::empty());
    while i < chars.len()
        invariant
            i <= chars.len(),
            chars@ == word@,
            r@ == chars@.take(i as int).filter(kept()),
        decreases chars.len() - i,
    {
        let c = chars[i];
        assert(chars@.take(i + 1) =~= chars@.take(i as int).push(c));
        proof {
            chars@.take(i as int).lemma_filter_push(c, kept());
        }
        if !is_whitespace(c) && !is_ascii_punctuation(c) {
            push_char(&mut r, c);
        }
        i += 1;
    }
    assert(chars@.take(i as int) =~= word@);
    r
}

/// Normalising a one-character word keeps the character exactly when it is
/// neither whitespace nor ASCII punctuation.
pub proof fn law_normalize_char(c: char)
    ensures
        normalize(seq![c]) == if is_whitespace_char(c) || is_ascii_punctuation_char(c) {
            Seq::<char>::empty()
        } else {
            seq![c]
        },
{
    assert(seq![c].drop_last() =~= Seq::<char>::empty());
    Seq::<char>::empty().lemma_filter_push(c, kept());
    assert(Seq::<char>::empty().push(c) =~= seq![c]);
    assert(Seq::<char>::empty().filter(kept()) =~= Seq::<char>::empty()) by {
        reveal(Seq::filter);
    }
}

/// Normalisation works character by character: normalising two pieces put
/// together puts their normalised forms together.
pub proof fn law_normalize_concat(a: Seq<char>, b: Seq<char>)
    ensures
        normalize(a + b) == normalize(a) + normalize(b),
{
    Seq::filter_distributes_over_add(a, b, kept());
}

/// ASCII letters and digits are never removed: a word made of them alone
/// is its own normalised form.
pub proof fn law_normalize_keeps_ascii_alphanumerics(w: Seq<char>)
    requires
        forall|i: int|
            0 <= i < w.len() ==> {
                let u = (#[trigger] w[i]) as u32;
                (0x30 <= u <= 0x39) || (0x41 <= u <= 0x5a) || (0x61 <= u <= 0x7a)
            },
    ensures
        normalize(w) == w,
    decreases w.len(),
{
    if w.len() == 0 {
        assert(w.filter(kept()) =~= w) by {
            reveal(Seq::filter);
        }
    } else {
        let d = w.drop_last();
        assert forall|i: int| 0 <= i < d.len() implies {
            let u = (#[trigger] d[i]) as u32;
            (0x30 <= u <= 0x39) || (0x41 <= u <= 0x5a) || (0x61 <= u <= 0x7a)
        } by {
            assert(d[i] == w[i]);
        }
        law_normalize_keeps_ascii_alphanumerics(d);
        assert(w[w.len() - 1] == w.last());
        d.lemma_filter_push(w.last(), kept());
        assert(d.push(w.last()) =~= w);
    }
}

} // verus!
