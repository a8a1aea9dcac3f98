//! Indexing documents, searching the index, and turning ranked hits into
//! search results.
pub mod codec;
pub mod helper;
pub mod ranking;
pub mod rocks;
pub mod sqlite;
pub mod text;

use crate::db::helper::{
    pairs_values, values_view, GeneralError, RankValue, SearchResult, SearchResults, Value, Values,
};
use crate::db::ranking::{
    in_i64, law_ranking_counts_occurrences, law_ranking_in_one_document, ranked, ranking_fits,
    total_size, try_rank,
};
use crate::db::rocks::{
    is_stopword, passes_on, search_document_rocks, search_postings, well_formed, words_of,
};
use crate::db::text::{decimal, decimal_string, join_range, join_spaces, split_spaces, split_words};
use crate::kv::KVStore;
use vstd::prelude::*;

verus! {

/// The first word shown around a hit at `pos`: `peri` words before it, but
/// not before the start of the text.
pub open spec fn window_start(pos: int, peri: int) -> int {
    if pos - peri > 0 {
        pos - peri
    } else {
        0
    }
}

/// Where the words shown around a hit at `pos` end: `peri` words after it,
/// but not after the end of the text of `len` words.
pub open spec fn window_end(pos: int, peri: int, len: int) -> int {
    if pos + peri < len {
        pos + peri
    } else {
        len
    }
}

/// The window around a hit at `pos` in a text of `len` words can be taken:
/// its bounds are computed in range and the window is not reversed.
pub open spec fn window_fits(pos: i64, peri: i64, len: int) -> bool {
    &&& in_i64(pos - peri)
    &&& in_i64(pos + peri)
    &&& len <= i64::MAX
    &&& window_start(pos as int, peri as int) <= window_end(pos as int, peri as int, len)
}

/// The words of `text` shown around a hit at `pos`, joined with spaces.
pub open spec fn peri_text_of(text: Seq<char>, pos: i64, peri: i64) -> Seq<char> {
    let words = split_spaces(text);
    join_spaces(
        words.subrange(
            window_start(pos as int, peri as int),
            window_end(pos as int, peri as int, words.len() as int),
        ),
    )
}

/// `r` is the search result for the group `v` in a document whose text is
/// `text`.
pub open spec fn result_for(r: SearchResult, v: RankValue, text: Seq<char>, peri: i64) -> bool {
    &&& r.id == v.id
    &&& r.peri_text@ == peri_text_of(text, v.position, peri)
    &&& r.word@ == decimal(v.position as int)
}

/// The occurrences found for a query, as one list.
pub open spec fn found_values(m: Map<Seq<u8>, Seq<u8>>, query: Seq<char>) -> Seq<Value> {
    search_postings(m, words_of(query)).map_values(|s: Seq<(i64, i64)>| pairs_values(s)).flatten()
}

/// A query finds nothing when none of its words (stopwords aside) has an
/// entry.
pub open spec fn nothing_found(m: Map<Seq<u8>, Seq<u8>>, query: Seq<char>) -> bool {
    search_postings(m, words_of(query)).len() == 0
}

/// The ranking a search over all documents gives: empty when nothing is
/// found, else the ranking of every occurrence found.
pub open spec fn search_ranking(m: Map<Seq<u8>, Seq<u8>>, query: Seq<char>, peri: i64) -> Seq<RankValue> {
    if nothing_found(m, query) {
        Seq::<RankValue>::empty()
    } else {
        ranked(found_values(m, query), peri)
    }
}

/// Ranking a search over all documents computes in range.
pub open spec fn search_fits(m: Map<Seq<u8>, Seq<u8>>, query: Seq<char>, peri: i64) -> bool {
    nothing_found(m, query) || ranking_fits(found_values(m, query), peri)
}

/// The occurrences that belong to document `id`.
pub open spec fn in_document(id: i64) -> spec_fn(Value) -> bool {
    |v: Value| v.id == id
}

/// The ranking a search in document `id` gives: empty when nothing is
/// found in any document, else the ranking of the occurrences in `id`.
pub open spec fn search_one_ranking(m: Map<Seq<u8>, Seq<u8>>, query: Seq<char>, id: i64, peri: i64) -> Seq<
    RankValue,
> {
    if nothing_found(m, query) {
        Seq::<RankValue>::empty()
    } else {
        ranked(found_values(m, query).filter(in_document(id)), peri)
    }
}

/// Ranking a search in document `id` computes in range.
pub open spec fn search_one_fits(m: Map<Seq<u8>, Seq<u8>>, query: Seq<char>, id: i64, peri: i64) -> bool {
    nothing_found(m, query) || ranking_fits(found_values(m, query).filter(in_document(id)), peri)
}

/// A search in document `id` gives groups of that document only.
pub proof fn law_search_one_in_document(m: Map<Seq<u8>, Seq<u8>>, query: Seq<char>, id: i64, peri: i64)
    ensures
        forall|i: int|
            0 <= i < search_one_ranking(m, query, id, peri).len() ==> (#[trigger] search_one_ranking(
                m,
                query,
                id,
                peri,
            )[i]).id == id,
{
    broadcast use vstd::seq_lib::group_filter_ensures;

    let f = found_values(m, query).filter(in_document(id));
    assert forall|j: int| 0 <= j < f.len() implies (#[trigger] f[j]).id == id by {
        assert(in_document(id)(f[j]));
    }
    law_ranking_in_one_document(f, id, peri);
}

/// The words shown around a hit at `pos` are the text's words from index
/// `a` up to, not including, index `b`: `a` is `pos - peri` or, when that
/// is negative, 0; `b` is `pos + peri` or, when that is past the text's `n`
/// words, `n`. So a window that reaches past the end stops at the text's
/// last word, included.
pub proof fn law_peri_text_window(text: Seq<char>, pos: i64, peri: i64)
    ensures
        ({
            let words = split_spaces(text);
            let n = words.len() as int;
            let a = window_start(pos as int, peri as int);
            let b = window_end(pos as int, peri as int, n);
            &&& peri_text_of(text, pos, peri) == join_spaces(words.subrange(a, b))
            &&& 0 <= a && pos - peri <= a && (a == 0 || a == pos - peri)
            &&& b <= n && b <= pos + peri && (b == n || b == pos + peri)
        }),
{
}

proof fn lemma_nothing_found_values(m: Map<Seq<u8>, Seq<u8>>, query: Seq<char>)
    requires
        nothing_found(m, query),
    ensures
        found_values(m, query).len() == 0,
{
    let lists = search_postings(m, words_of(query)).map_values(|s: Seq<(i64, i64)>| pairs_values(s));
    assert(lists =~= Seq::<Seq<Value>>::empty());
    assert(lists.flatten() =~= Seq::<Value>::empty()) by {
        reveal(Seq::flatten);
    }
}

/// A search over all documents accounts for every occurrence it found: the
/// sizes of its groups add up to the number of occurrences found.
pub proof fn law_search_counts_found(m: Map<Seq<u8>, Seq<u8>>, query: Seq<char>, peri: i64)
    requires
        search_fits(m, query, peri),
    ensures
        total_size(search_ranking(m, query, peri)) == found_values(m, query).len(),
{
    if nothing_found(m, query) {
        lemma_nothing_found_values(m, query);
    } else {
        law_ranking_counts_occurrences(found_values(m, query), peri);
    }
}

/// A search in document `id` accounts for every occurrence found in that
/// document: the sizes of its groups add up to the number of occurrences
/// found there.
pub proof fn law_search_one_counts_found(m: Map<Seq<u8>, Seq<u8>>, query: Seq<char>, id: i64, peri: i64)
    requires
        search_one_fits(m, query, id, peri),
    ensures
        total_size(search_one_ranking(m, query, id, peri)) == found_values(m, query).filter(
            in_document(id),
        ).len(),
{
    if nothing_found(m, query) {
        lemma_nothing_found_values(m, query);
        found_values(m, query).lemma_filter_len(in_document(id));
    } else {
        law_ranking_counts_occurrences(found_values(m, query).filter(in_document(id)), peri);
    }
}

/// All the occurrences of all the lists, in order.
pub fn flatten_results(values: Vec<Values>) -> (r: Vec<Value>)
    ensures
        r@ == values_view(values@).flatten(),
{
    let mut flattened: Vec<Value> = Vec::new();
    let mut i: usize = 0;
    assert(values_view(values@).take(0) =~= Seq::<Seq<Value>>::empty());
    while i < values.len()
        invariant
            i <= values.len(),
            flattened@ == values_view(values@).take(i as int).flatten(),
        decreases values.len() - i,
    {
        let vs = &values[i].values;
        let ghost before = flattened@;
        let mut j: usize = 0;
        while j < vs.len()
            invariant
                j <= vs.len(),
                flattened@ == before + vs@.take(j as int),
            decreases vs.len() - j,
        {
            flattened.push(vs[j]);
            assert(flattened@ =~= before + vs@.take(j + 1));
            j += 1;
        }
        proof {
            let vv = values_view(values@);
            assert(vv.take(i + 1) =~= vv.take(i as int).push(vs@));
            vv.take(i as int).lemma_flatten_push(vs@);
            assert(vs@.take(j as int) =~= vs@);
        }
        i += 1;
    }
    assert(values_view(values@).take(i as int) =~= values_view(values@));
    flattened
}

/// Ranks the occurrences a search found: sorted by document and position,
/// those of one document that lie close together grouped, the groups sorted
/// by decreasing size (groups of one size keeping their order).
pub fn rank_search_results(values: Vec<Value>, peri_text: i64) -> (r: Result<Vec<RankValue>, GeneralError>)
    requires
        ranking_fits(values@, peri_text),
    ensures
        r matches Ok(v) && v@ == ranked(values@, peri_text),
{
    match try_rank(&values, peri_text) {
        Some(v) => Ok(v),
        None => {
            assert(false);
            Ok(Vec::new())
        },
    }
}

/// Whether the window around a hit at `position` in `text` can be taken
/// (what `search_result_for` needs).
pub fn window_fits_text(position: i64, peri_text: i64, text: &String) -> (r: bool)
    ensures
        r == window_fits(position, peri_text, split_spaces(text@).len() as int),
{
    let n = split_words(text.as_str()).len();
    if n as u64 > i64::MAX as u64 {
        return false;
    }
    let len = n as i64;
    let low = match position.checked_sub(peri_text) {
        Some(x) => x,
        None => {
            return false;
        },
    };
    let high = match position.checked_add(peri_text) {
        Some(x) => x,
        None => {
            return false;
        },
    };
    let start: i64 = if low > 0 {
        low
    } else {
        0
    };
    let end: i64 = if high < len {
        high
    } else {
        len
    };
    start <= end
}

/// The search result for the group `val` in a document whose text is
/// `text`: the words around the group's position, and that position in
/// decimal.
pub fn search_result_for(val: &RankValue, text: &String, peri_text: i64) -> (r: SearchResult)
    requires
        window_fits(val.position, peri_text, split_spaces(text@).len() as int),
    ensures
        result_for(r, *val, text@, peri_text),
{
    let split_text = split_words(text.as_str());
    let ghost ws = split_spaces(text@);
    let len = split_text.len() as i64;
    let low = val.position - peri_text;
    let start: i64 = if low > 0 {
        low
    } else {
        0
    };
    let high = val.position + peri_text;
    let end: i64 = if high < len {
        high
    } else {
        len
    };
    let pt = join_range(&split_text, start as usize, end as usize);
    SearchResult { id: val.id, peri_text: pt, word: decimal_string(val.position) }
}

/// The search results for the ranked groups `values`, `texts[i]` being the
/// text of the document of `values[i]`.
pub fn convert_to_search_results(values: Vec<RankValue>, texts: Vec<String>, peri_text: i64) -> (r:
    Result<SearchResults, GeneralError>)
    requires
        texts.len() == values.len(),
        forall|i: int|
            0 <= i < values.len() ==> window_fits(
                #[trigger] values@[i].position,
                peri_text,
                split_spaces(texts@[i]@).len() as int,
            ),
    ensures
        r matches Ok(res) && res.results.len() == values.len() && forall|i: int|
            0 <= i < values.len() ==> result_for(
                #[trigger] res.results@[i],
                values@[i],
                texts@[i]@,
                peri_text,
            ),
{
    let mut results = SearchResults { results: Vec::new() };
    let mut i: usize = 0;
    while i < values.len()
        invariant
            i <= values.len(),
            texts.len() == values.len(),
            forall|k: int|
                0 <= k < values.len() ==> window_fits(
                    #[trigger] values@[k].position,
                    peri_text,
                    split_spaces(texts@[k]@).len() as int,
                ),
            results.results.len() == i,
            forall|k: int|
                0 <= k < i ==> result_for(
                    #[trigger] results.results@[k],
                    values@[k],
                    texts@[k]@,
                    peri_text,
                ),
        decreases values.len() - i,
    {
        let res = search_result_for(&values[i], &texts[i], peri_text);
        results.results.push(res);
        i += 1;
    }
    Ok(results)
}

/// Searches all documents for `query`, as far as the index takes it: the
/// ranking of every occurrence found, or nothing when nothing is found.
/// `None` in place of a ranking exactly when ranking would compute out of
/// range. A failure of the store is passed on; the entries are left as they
/// were.
pub fn try_search_document<S: KVStore>(rocks: &mut S, query: String, peri_text: i64) -> (r: Result<
    Option<Vec<RankValue>>,
    GeneralError,
>)
    requires
        well_formed(old(rocks).contents()),
    ensures
        r matches Ok(res) ==> (res is Some <==> search_fits(old(rocks).contents(), query@, peri_text)),
        r matches Ok(Some(v)) ==> v@ == search_ranking(old(rocks).contents(), query@, peri_text),
        final(rocks).contents() == old(rocks).contents(),
        final(rocks).never_fails() == old(rocks).never_fails(),
        passes_on(old(rocks).failures(), final(rocks).failures(), r),
        r is Err ==> exists|n: int|
            0 <= n < words_of(query@).len() && !is_stopword(#[trigger] words_of(query@)[n]),
        old(rocks).never_fails() ==> r is Ok,
{
    let rocks_result = match search_document_rocks(rocks, query) {
        Ok(v) => v,
        Err(e) => {
            return Err(e);
        },
    };
    if rocks_result.len() == 0 {
        return Ok(Some(Vec::new()));
    }
    let flattened = flatten_results(rocks_result);
    Ok(try_rank(&flattened, peri_text))
}

/// Searches all documents for `query`, as far as the index takes it: the
/// ranking of every occurrence found, or nothing when nothing is found.
pub fn search_document<S: KVStore>(rocks: &mut S, query: String, peri_text: i64) -> (r: Result<
    Vec<RankValue>,
    GeneralError,
>)
    requires
        well_formed(old(rocks).contents()),
        search_fits(old(rocks).contents(), query@, peri_text),
    ensures
        r matches Ok(v) ==> v@ == search_ranking(old(rocks).contents(), query@, peri_text),
        final(rocks).contents() == old(rocks).contents(),
        final(rocks).never_fails() == old(rocks).never_fails(),
        passes_on(old(rocks).failures(), final(rocks).failures(), r),
        r is Err ==> exists|n: int|
            0 <= n < words_of(query@).len() && !is_stopword(#[trigger] words_of(query@)[n]),
        old(rocks).never_fails() ==> r is Ok,
{
    match try_search_document(rocks, query, peri_text) {
        Ok(Some(v)) => Ok(v),
        Ok(None) => {
            assert(false);
            Ok(Vec::new())
        },
        Err(e) => Err(e),
    }
}

/// Searches document `id` for `query`, as far as the index takes it.
/// `None` in place of a ranking exactly when ranking would compute out of
/// range. A failure of the store is passed on; the entries are left as they
/// were.
pub fn try_search_one_document<S: KVStore>(rocks: &mut S, query: String, id: i64, peri_text: i64) -> (r:
    Result<Option<Vec<RankValue>>, GeneralError>)
    requires
        well_formed(old(rocks).contents()),
    ensures
        r matches Ok(res) ==> (res is Some <==> search_one_fits(old(rocks).contents(), query@, id, peri_text)),
        r matches Ok(Some(v)) ==> v@ == search_one_ranking(old(rocks).contents(), query@, id, peri_text),
        final(rocks).contents() == old(rocks).contents(),
        final(rocks).never_fails() == old(rocks).never_fails(),
        passes_on(old(rocks).failures(), final(rocks).failures(), r),
        r is Err ==> exists|n: int|
            0 <= n < words_of(query@).len() && !is_stopword(#[trigger] words_of(query@)[n]),
        old(rocks).never_fails() ==> r is Ok,
{
    let rocks_result = match search_document_rocks(rocks, query) {
        Ok(v) => v,
        Err(e) => {
            return Err(e);
        },
    };
    if rocks_result.len() == 0 {
        return Ok(Some(Vec::new()));
    }
    let flattened = flatten_results(rocks_result);
    let ghost pred = in_document(id);
    let mut filtered: Vec<Value> = Vec::new();
    let mut i: usize = 0;
    assert(flattened@.take(0) =~= Seq::<Value>::empty());
    while i < flattened.len()
        invariant
            i <= flattened.len(),
            pred == in_document(id),
            filtered@ == flattened@.take(i as int).filter(pred),
        decreases flattened.len() - i,
    {
        let v = flattened[i];
        assert(flattened@.take(i + 1) =~= flattened@.take(i as int).push(v));
        proof {
            flattened@.take(i as int).lemma_filter_push(v, pred);
        }
        if v.id == id {
            filtered.push(v);
        }
        i += 1;
    }
    assert(flattened@.take(i as int) =~= flattened@);
    Ok(try_rank(&filtered, peri_text))
}

/// Searches document `id` for `query`, as far as the index takes it.
pub fn search_one_document<S: KVStore>(rocks: &mut S, query: String, id: i64, peri_text: i64) -> (r: Result<
    Vec<RankValue>,
    GeneralError,
>)
    requires
        well_formed(old(rocks).contents()),
        search_one_fits(old(rocks).contents(), query@, id, peri_text),
    ensures
        r matches Ok(v) ==> v@ == search_one_ranking(old(rocks).contents(), query@, id, peri_text),
        final(rocks).contents() == old(rocks).contents(),
        final(rocks).never_fails() == old(rocks).never_fails(),
        passes_on(old(rocks).failures(), final(rocks).failures(), r),
        r is Err ==> exists|n: int|
            0 <= n < words_of(query@).len() && !is_stopword(#[trigger] words_of(query@)[n]),
        old(rocks).never_fails() ==> r is Ok,
{
    match try_search_one_document(rocks, query, id, peri_text) {
        Ok(Some(v)) => Ok(v),
        Ok(None) => {
            assert(false);
            Ok(Vec::new())
        },
        Err(e) => Err(e),
    }
}

} // verus!
