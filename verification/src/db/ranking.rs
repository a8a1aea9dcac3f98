//! Ranking the occurrences a search found: occurrences of one document close
//! to each other are grouped, and groups with more occurrences come first.
use crate::db::helper::{RankValue, Value};
use vstd::prelude::*;
use vstd::relations::{sorted_by, total_ordering};

verus! {

/// The order occurrences are grouped in: by document, then by position.
pub open spec fn value_leq(a: Value, b: Value) -> bool {
    a.id < b.id || (a.id == b.id && a.position <= b.position)
}

/// `value_leq` as a relation.
pub open spec fn value_order() -> spec_fn(Value, Value) -> bool {
    |a: Value, b: Value| value_leq(a, b)
}

/// The occurrences sorted by document, then by position.
pub open spec fn sort_values(s: Seq<Value>) -> Seq<Value> {
    s.sort_by(value_order())
}

/// Ordering by document, then by position, is a total order.
pub proof fn lemma_value_order_total()
    ensures
        total_ordering(value_order()),
{
}

/// Whether `a` comes no later than `b` in `value_order`.
fn value_le(a: &Value, b: &Value) -> (r: bool)
    ensures
        r == value_leq(*a, *b),
{
    a.id < b.id || (a.id == b.id && a.position <= b.position)
}

/// Sorts the occurrences by document, then by position.
pub fn sort_by_document(values: &Vec<Value>) -> (r: Vec<Value>)
    ensures
        r@ == sort_values(values@),
{
    broadcast use vstd::seq_lib::group_to_multiset_ensures;

    let mut r: Vec<Value> = Vec::new();
    let mut i: usize = 0;
    assert(values@.take(0) =~= Seq::<Value>::empty());
    while i < values.len()
        invariant
            i <= values.len(),
            sorted_by(r@, value_order()),
            r@.to_multiset() == values@.take(i as int).to_multiset(),
        decreases values.len() - i,
    {
        let x = values[i];
        let mut j = r.len();
        while j > 0 && !value_le(&r[j - 1], &x)
            invariant
                j <= r.len(),
                i < values.len(),
                x == values@[i as int],
                sorted_by(r@, value_order()),
                r@.to_multiset() == values@.take(i as int).to_multiset(),
                forall|k: int| j <= k < r.len() ==> !value_leq(#[trigger] r@[k], x),
            decreases j,
        {
            j -= 1;
        }
        let ghost old_r = r@;
        r.insert(j, x);
        assert(r@ == old_r.insert(j as int, x));
        proof {
            old_r.insert_ensures(j as int, x);
            assert forall|a: int, b: int| 0 <= a < b < r@.len() implies #[trigger] value_leq(
                r@[a],
                r@[b],
            ) by {
                let ra = r@[a];
                let rb = r@[b];
                if b < j {
                    assert(value_order()(old_r[a], old_r[b]));
                } else if a < j && b == j {
                    assert(value_leq(old_r[j - 1], x));
                    if a < j - 1 {
                        assert(value_order()(old_r[a], old_r[j - 1]));
                    }
                } else if a < j {
                    assert(!value_leq(old_r[b - 1], x));
                    assert(value_leq(old_r[j - 1], x));
                    assert(value_order()(old_r[a], old_r[j - 1]));
                } else if a == j {
                    assert(!value_leq(old_r[b - 1], x));
                } else {
                    assert(value_order()(old_r[a - 1], old_r[b - 1]));
                }
            }
            vstd::seq_lib::to_multiset_insert(old_r, j as int, x);
            assert(values@.take(i + 1) =~= values@.take(i as int).push(x));
            values@.take(i as int).to_multiset_ensures();
            assert(values@.take(i as int).push(x).to_multiset() =~= values@.take(i as int).to_multiset().insert(x));
            assert(r@.to_multiset() =~= old_r.to_multiset().insert(x));
        }
        i += 1;
    }
    proof {
        assert(values@.take(i as int) =~= values@);
        values@.lemma_sort_by_ensures(value_order());
        lemma_value_order_total();
        vstd::seq_lib::lemma_sorted_unique(r@, sort_values(values@), value_order());
    }
    r
}

/// `d / 2` as integer division in Rust gives it: rounded toward zero.
pub open spec fn half(d: int) -> int {
    if d >= 0 {
        d / 2
    } else {
        -((-d) / 2)
    }
}

/// `x` fits in an `i64`.
pub open spec fn in_i64(x: int) -> bool {
    i64::MIN <= x <= i64::MAX
}

/// Where the grouping stands after some occurrences: the groups closed so
/// far, the last occurrence seen (none before the first), how many
/// occurrences the open group holds, and how far its last occurrence lies
/// from its first.
pub ghost struct RankState {
    pub results: Seq<RankValue>,
    pub prev: Option<Value>,
    pub w_num: int,
    pub dist: int,
}

/// Before any occurrence: no group, and no group open.
pub open spec fn rank_start() -> RankState {
    RankState { results: Seq::<RankValue>::empty(), prev: None, w_num: 1, dist: 0 }
}

/// The group the state holds open (when an occurrence has been seen): its
/// document, the position of its last occurrence plus half its spread, and
/// its size.
pub open spec fn open_group(st: RankState) -> RankValue {
    RankValue {
        id: st.prev->0.id,
        position: (st.prev->0.position + half(st.dist)) as i64,
        word_num: st.w_num as i64,
    }
}

/// `v` joins the open group: same document, and no further from the last
/// occurrence than `peri` less the group's spread so far (that is, no
/// further than `peri` from the group's first occurrence).
pub open spec fn joins(st: RankState, v: Value, peri: i64) -> bool {
    st.prev matches Some(p) && v.id == p.id && v.position <= p.position + (peri - st.dist)
}

/// One occurrence more: it joins the open group; or it opens the first
/// group; or it closes the open group and opens a new one.
pub open spec fn rank_step(st: RankState, v: Value, peri: i64) -> RankState {
    if joins(st, v, peri) {
        RankState {
            results: st.results,
            prev: Some(v),
            w_num: st.w_num + 1,
            dist: st.dist + (v.position - st.prev->0.position),
        }
    } else if st.prev is None {
        RankState { results: st.results, prev: Some(v), w_num: 1, dist: 0 }
    } else {
        RankState { results: st.results.push(open_group(st)), prev: Some(v), w_num: 1, dist: 0 }
    }
}

/// The state after the occurrences of `s`, in order.
pub open spec fn rank_fold(s: Seq<Value>, peri: i64) -> RankState
    decreases s.len(),
{
    if s.len() == 0 {
        rank_start()
    } else {
        rank_step(rank_fold(s.drop_last(), peri), s.last(), peri)
    }
}

/// Every integer that the step computes fits in an `i64`.
pub open spec fn step_fits(st: RankState, v: Value, peri: i64) -> bool {
    &&& (st.prev matches Some(p) && v.id == p.id) ==> in_i64(peri - st.dist) && in_i64(
        st.prev->0.position + (peri - st.dist),
    )
    &&& joins(st, v, peri) ==> {
        &&& in_i64(v.position - st.prev->0.position)
        &&& in_i64(st.dist + (v.position - st.prev->0.position))
        &&& in_i64(st.w_num + 1)
    }
    &&& !joins(st, v, peri) && st.prev is Some ==> in_i64(st.prev->0.position + half(st.dist))
}

/// Every step over `s` computes in range.
pub open spec fn steps_fit(s: Seq<Value>, peri: i64) -> bool
    decreases s.len(),
{
    if s.len() == 0 {
        true
    } else {
        steps_fit(s.drop_last(), peri) && step_fits(rank_fold(s.drop_last(), peri), s.last(), peri)
    }
}

/// Grouping `s` computes in range, the closing of the last group included.
pub open spec fn grouping_fits(s: Seq<Value>, peri: i64) -> bool {
    &&& steps_fit(s, peri)
    &&& rank_fold(s, peri).prev is Some ==> in_i64(
        rank_fold(s, peri).prev->0.position + half(rank_fold(s, peri).dist),
    )
}

/// The groups of `s`: those closed along the way, then the one left open;
/// none when `s` is empty.
pub open spec fn groups(s: Seq<Value>, peri: i64) -> Seq<RankValue> {
    if rank_fold(s, peri).prev is Some {
        rank_fold(s, peri).results.push(open_group(rank_fold(s, peri)))
    } else {
        rank_fold(s, peri).results
    }
}

/// Where `x` goes in `s` (sorted by decreasing size): after every group at
/// least as large.
pub open spec fn insert_pos(s: Seq<RankValue>, x: RankValue) -> int
    decreases s.len(),
{
    if s.len() == 0 {
        0
    } else if s.last().word_num < x.word_num {
        insert_pos(s.drop_last(), x)
    } else {
        s.len() as int
    }
}

/// The groups sorted by decreasing size, groups of the same size keeping
/// their order.
pub open spec fn rank_sort(s: Seq<RankValue>) -> Seq<RankValue>
    decreases s.len(),
{
    if s.len() == 0 {
        s
    } else {
        let r = rank_sort(s.drop_last());
        r.insert(insert_pos(r, s.last()), s.last())
    }
}

/// The ranking of a search's occurrences.
pub open spec fn ranked(values: Seq<Value>, peri: i64) -> Seq<RankValue> {
    rank_sort(groups(sort_values(values), peri))
}

/// Ranking `values` computes in range.
pub open spec fn ranking_fits(values: Seq<Value>, peri: i64) -> bool {
    grouping_fits(sort_values(values), peri)
}

proof fn lemma_steps_fit_prefix(s: Seq<Value>, peri: i64, n: int)
    requires
        0 <= n <= s.len(),
        steps_fit(s, peri),
    ensures
        steps_fit(s.take(n), peri),
    decreases s.len(),
{
    if n < s.len() {
        lemma_steps_fit_prefix(s.drop_last(), peri, n);
        assert(s.drop_last().take(n) =~= s.take(n));
    } else {
        assert(s.take(n) =~= s);
    }
}

/// A step that does not compute in range makes the whole grouping fail.
proof fn lemma_step_out_of_range(s: Seq<Value>, peri: i64, i: int)
    requires
        0 <= i < s.len(),
        !step_fits(rank_fold(s.take(i), peri), s[i], peri),
    ensures
        !grouping_fits(s, peri),
{
    if steps_fit(s, peri) {
        lemma_steps_fit_prefix(s, peri, i + 1);
        assert(s.take(i + 1).drop_last() =~= s.take(i));
    }
}

/// Groups the occurrences of `sorted` (sorted by document, then position);
/// `None` when some integer computed on the way would not fit in an `i64`.
fn group_values(sorted: &Vec<Value>, peri: i64) -> (r: Option<Vec<RankValue>>)
    ensures
        r is Some <==> grouping_fits(sorted@, peri),
        r matches Some(v) ==> v@ == groups(sorted@, peri),
{
    let mut results: Vec<RankValue> = Vec::new();
    let mut prev: Option<Value> = None;
    let mut w_num: i64 = 1;
    let mut dist: i64 = 0;
    let mut i: usize = 0;
    assert(sorted@.take(0) =~= Seq::<Value>::empty());
    while i < sorted.len()
        invariant
            i <= sorted.len(),
            steps_fit(sorted@.take(i as int), peri),
            results@ == rank_fold(sorted@.take(i as int), peri).results,
            prev == rank_fold(sorted@.take(i as int), peri).prev,
            w_num as int == rank_fold(sorted@.take(i as int), peri).w_num,
            dist as int == rank_fold(sorted@.take(i as int), peri).dist,
        decreases sorted.len() - i,
    {
        let val = sorted[i];
        let ghost st = rank_fold(sorted@.take(i as int), peri);
        assert(sorted@.take(i + 1).drop_last() =~= sorted@.take(i as int));
        assert(sorted@.take(i + 1).last() == val);
        match prev {
            None => {
                w_num = 1;
                dist = 0;
            },
            Some(p) => {
                let mut joined = false;
                if val.id == p.id {
                    let room = match peri.checked_sub(dist) {
                        Some(x) => x,
                        None => {
                            proof {
                                lemma_step_out_of_range(sorted@, peri, i as int);
                            }
                            return None;
                        },
                    };
                    let limit = match p.position.checked_add(room) {
                        Some(x) => x,
                        None => {
                            proof {
                                lemma_step_out_of_range(sorted@, peri, i as int);
                            }
                            return None;
                        },
                    };
                    joined = val.position <= limit;
                }
                assert(joined == joins(st, val, peri));
                if joined {
                    let gap = match val.position.checked_sub(p.position) {
                        Some(x) => x,
                        None => {
                            proof {
                                lemma_step_out_of_range(sorted@, peri, i as int);
                            }
                            return None;
                        },
                    };
                    let new_dist = match dist.checked_add(gap) {
                        Some(x) => x,
                        None => {
                            proof {
                                lemma_step_out_of_range(sorted@, peri, i as int);
                            }
                            return None;
                        },
                    };
                    let new_w_num = match w_num.checked_add(1) {
                        Some(x) => x,
                        None => {
                            proof {
                                lemma_step_out_of_range(sorted@, peri, i as int);
                            }
                            return None;
                        },
                    };
                    dist = new_dist;
                    w_num = new_w_num;
                } else {
                    let h = dist / 2;
                    assert(h as int == half(dist as int));
                    let position = match p.position.checked_add(h) {
                        Some(x) => x,
                        None => {
                            proof {
                                lemma_step_out_of_range(sorted@, peri, i as int);
                            }
                            return None;
                        },
                    };
                    results.push(RankValue { id: p.id, position, word_num: w_num });
                    dist = 0;
                    w_num = 1;
                }
            },
        }
        prev = Some(val);
        i += 1;
    }
    assert(sorted@.take(i as int) =~= sorted@);
    if let Some(p) = prev {
        let h = dist / 2;
        assert(h as int == half(dist as int));
        let position = match p.position.checked_add(h) {
            Some(x) => x,
            None => {
                return None;
            },
        };
        results.push(RankValue { id: p.id, position, word_num: w_num });
    }
    Some(results)
}

/// Sorts the groups by decreasing size; groups of the same size keep their
/// order.
fn sort_by_word_num(groups: &Vec<RankValue>) -> (r: Vec<RankValue>)
    ensures
        r@ == rank_sort(groups@),
{
    let mut r: Vec<RankValue> = Vec::new();
    let mut i: usize = 0;
    assert(groups@.take(0) =~= Seq::<RankValue>::empty());
    while i < groups.len()
        invariant
            i <= groups.len(),
            r@ == rank_sort(groups@.take(i as int)),
        decreases groups.len() - i,
    {
        let x = groups[i];
        let mut j = r.len();
        assert(r@.take(j as int) =~= r@);
        while j > 0 && r[j - 1].word_num < x.word_num
            invariant
                j <= r.len(),
                insert_pos(r@.take(j as int), x) == insert_pos(r@, x),
            decreases j,
        {
            assert(r@.take(j as int).drop_last() =~= r@.take(j - 1));
            j -= 1;
        }
        assert(insert_pos(r@.take(j as int), x) == j);
        r.insert(j, x);
        assert(groups@.take(i + 1).drop_last() =~= groups@.take(i as int));
        i += 1;
    }
    assert(groups@.take(i as int) =~= groups@);
    r
}

/// Ranks the occurrences a search found: sorts them by document and
/// position, groups those close together, and sorts the groups by
/// decreasing size. `None` exactly when some integer computed on the way
/// would not fit in an `i64`.
pub fn try_rank(values: &Vec<Value>, peri: i64) -> (r: Option<Vec<RankValue>>)
    ensures
        r is Some <==> ranking_fits(values@, peri),
        r matches Some(v) ==> v@ == ranked(values@, peri),
{
    let sorted = sort_by_document(values);
    match group_values(&sorted, peri) {
        Some(groups) => Some(sort_by_word_num(&groups)),
        None => None,
    }
}

/// The groups of size `w`.
pub open spec fn of_size(w: i64) -> spec_fn(RankValue) -> bool {
    |g: RankValue| g.word_num == w
}

/// `s` is sorted by decreasing size.
pub open spec fn by_decreasing_size(s: Seq<RankValue>) -> bool {
    forall|i: int, j: int| 0 <= i < j < s.len() ==> (#[trigger] s[i]).word_num >= (#[trigger] s[j]).word_num
}

proof fn lemma_insert_pos(s: Seq<RankValue>, x: RankValue)
    requires
        by_decreasing_size(s),
    ensures
        0 <= insert_pos(s, x) <= s.len(),
        forall|i: int| 0 <= i < insert_pos(s, x) ==> (#[trigger] s[i]).word_num >= x.word_num,
        forall|i: int| insert_pos(s, x) <= i < s.len() ==> (#[trigger] s[i]).word_num < x.word_num,
    decreases s.len(),
{
    if s.len() > 0 {
        if s.last().word_num < x.word_num {
            let d = s.drop_last();
            lemma_insert_pos(d, x);
            assert forall|i: int| 0 <= i < insert_pos(s, x) implies (#[trigger] s[i]).word_num
                >= x.word_num by {
                assert(s[i] == d[i]);
            }
            assert forall|i: int| insert_pos(s, x) <= i < s.len() implies (#[trigger] s[i]).word_num
                < x.word_num by {
                if i < s.len() - 1 {
                    assert(s[i] == d[i]);
                }
            }
        } else {
            assert forall|i: int| 0 <= i < s.len() implies (#[trigger] s[i]).word_num >= x.word_num by {
                if i < s.len() - 1 {
                    assert(s[i].word_num >= s[s.len() - 1].word_num);
                }
            }
        }
    }
}

/// Sorting the groups by size is a stable sort: the result is sorted by
/// decreasing size, and the groups of each size are those of the input in
/// their input order.
pub proof fn law_rank_sort_stable(s: Seq<RankValue>)
    ensures
        by_decreasing_size(rank_sort(s)),
        forall|w: i64| #[trigger] rank_sort(s).filter(of_size(w)) == s.filter(of_size(w)),
        rank_sort(s).len() == s.len(),
    decreases s.len(),
{
    broadcast use vstd::seq_lib::group_filter_ensures;

    if s.len() > 0 {
        let x = s.last();
        let r = rank_sort(s.drop_last());
        law_rank_sort_stable(s.drop_last());
        lemma_insert_pos(r, x);
        let p = insert_pos(r, x);
        let r2 = r.insert(p, x);
        r.insert_ensures(p, x);
        assert(rank_sort(s) == r2);
        assert forall|i: int, j: int| 0 <= i < j < r2.len() implies (#[trigger] r2[i]).word_num >= (
        #[trigger] r2[j]).word_num by {
            if j < p {
                assert(r[i].word_num >= r[j].word_num);
            } else if j == p {
            } else if i < p {
                assert(r[i].word_num >= x.word_num);
            } else if i == p {
            } else {
                assert(r[i - 1].word_num >= r[j - 1].word_num);
            }
        }
        assert forall|w: i64| #[trigger] r2.filter(of_size(w)) == s.filter(of_size(w)) by {
            let a = r.take(p);
            let b = r.skip(p);
            assert(r =~= a + b);
            assert(r2 =~= a.push(x) + b);
            vstd::seq::Seq::filter_distributes_over_add(a.push(x), b, of_size(w));
            vstd::seq::Seq::filter_distributes_over_add(a, b, of_size(w));
            a.lemma_filter_push(x, of_size(w));
            assert(s =~= s.drop_last().push(x));
            s.drop_last().lemma_filter_push(x, of_size(w));
            if w == x.word_num {
                assert(b.filter(of_size(w)) =~= Seq::<RankValue>::empty()) by {
                    if b.filter(of_size(w)).len() > 0 {
                        let e = b.filter(of_size(w))[0];
                        assert(b.filter(of_size(w)).contains(e));
                        b.lemma_filter_contains_rev(of_size(w), e);
                        let k = choose|k: int| 0 <= k < b.len() && b[k] == e;
                        assert(r[p + k] == e);
                    }
                }
                assert(a.filter(of_size(w)) + Seq::<RankValue>::empty() =~= a.filter(of_size(w)));
                assert(a.filter(of_size(w)).push(x) =~= a.filter(of_size(w)).push(x) + Seq::<
                    RankValue,
                >::empty());
            }
        }
    }
}

/// A search's ranking lists the groups by decreasing size, each size's
/// groups in the order in which grouping produced them.
pub proof fn law_ranking_order(values: Seq<Value>, peri: i64)
    ensures
        by_decreasing_size(ranked(values, peri)),
        forall|w: i64| #[trigger] ranked(values, peri).filter(of_size(w)) == groups(
            sort_values(values),
            peri,
        ).filter(of_size(w)),
{
    law_rank_sort_stable(groups(sort_values(values), peri));
}

/// The number of occurrences the groups hold together.
pub open spec fn total_size(s: Seq<RankValue>) -> int
    decreases s.len(),
{
    if s.len() == 0 {
        0
    } else {
        total_size(s.drop_last()) + s.last().word_num
    }
}

proof fn lemma_total_size_add(a: Seq<RankValue>, b: Seq<RankValue>)
    ensures
        total_size(a + b) == total_size(a) + total_size(b),
    decreases b.len(),
{
    if b.len() == 0 {
        assert(a + b =~= a);
    } else {
        lemma_total_size_add(a, b.drop_last());
        assert((a + b).drop_last() =~= a + b.drop_last());
    }
}

proof fn lemma_rank_sort_total_size(s: Seq<RankValue>)
    ensures
        total_size(rank_sort(s)) == total_size(s),
    decreases s.len(),
{
    if s.len() > 0 {
        let x = s.last();
        let r = rank_sort(s.drop_last());
        lemma_rank_sort_total_size(s.drop_last());
        let p = insert_pos(r, x);
        law_rank_sort_stable(s.drop_last());
        lemma_insert_pos(r, x);
        let a = r.take(p);
        let b = r.skip(p);
        assert(r =~= a + b);
        assert(r.insert(p, x) =~= a.push(x) + b);
        lemma_total_size_add(a.push(x), b);
        lemma_total_size_add(a, b);
        assert(a.push(x).drop_last() =~= a);
    }
}

proof fn lemma_fold_counts(s: Seq<Value>, peri: i64)
    requires
        steps_fit(s, peri),
    ensures
        s.len() == 0 <==> rank_fold(s, peri).prev is None,
        1 <= rank_fold(s, peri).w_num <= i64::MAX,
        total_size(rank_fold(s, peri).results) + (if rank_fold(s, peri).prev is Some {
            rank_fold(s, peri).w_num
        } else {
            0
        }) == s.len(),
    decreases s.len(),
{
    if s.len() > 0 {
        let d = s.drop_last();
        lemma_fold_counts(d, peri);
        let st = rank_fold(d, peri);
        if !joins(st, s.last(), peri) && st.prev is Some {
            assert(st.results.push(open_group(st)).drop_last() =~= st.results);
        }
    }
}

/// Every occurrence counts in exactly one group: the sizes of the groups
/// add up to the number of occurrences (and no occurrence gives no group).
pub proof fn law_ranking_counts_occurrences(values: Seq<Value>, peri: i64)
    requires
        ranking_fits(values, peri),
    ensures
        total_size(ranked(values, peri)) == values.len(),
{
    broadcast use vstd::seq_lib::group_to_multiset_ensures;

    let sorted = sort_values(values);
    values.lemma_sort_by_ensures(value_order());
    assert(sorted.len() == values.len()) by {
        assert(sorted.to_multiset().len() == values.to_multiset().len());
    }
    lemma_fold_counts(sorted, peri);
    let st = rank_fold(sorted, peri);
    if st.prev is Some {
        assert(groups(sorted, peri).drop_last() =~= st.results);
    }
    lemma_rank_sort_total_size(groups(sorted, peri));
}

/// The ranking depends on the occurrences found, not on the order in which
/// they come.
pub proof fn law_ranking_ignores_order(v1: Seq<Value>, v2: Seq<Value>, peri: i64)
    requires
        v1.to_multiset() == v2.to_multiset(),
    ensures
        ranked(v1, peri) == ranked(v2, peri),
        ranking_fits(v1, peri) == ranking_fits(v2, peri),
{
    v1.lemma_sort_by_ensures(value_order());
    v2.lemma_sort_by_ensures(value_order());
    lemma_value_order_total();
    vstd::seq_lib::lemma_sorted_unique(sort_values(v1), sort_values(v2), value_order());
}

/// How many groups the state has closed or holds open.
pub open spec fn group_count(st: RankState) -> int {
    st.results.len() + if st.prev is Some {
        1int
    } else {
        0int
    }
}

/// Where the open group starts.
pub open spec fn group_start(st: RankState) -> int {
    st.prev->0.position - st.dist
}

proof fn lemma_window_ahead(s: Seq<Value>, p1: i64, p2: i64)
    requires
        sorted_by(s, value_order()),
        p1 <= p2,
    ensures
        rank_fold(s, p1).prev == rank_fold(s, p2).prev,
        s.len() > 0 ==> rank_fold(s, p1).prev == Some(s.last()),
        rank_fold(s, p1).dist >= 0,
        rank_fold(s, p2).dist >= 0,
        group_count(rank_fold(s, p2)) < group_count(rank_fold(s, p1)) || (group_count(
            rank_fold(s, p2),
        ) == group_count(rank_fold(s, p1)) && group_start(rank_fold(s, p2)) >= group_start(
            rank_fold(s, p1),
        )),
    decreases s.len(),
{
    if s.len() > 0 {
        let d = s.drop_last();
        assert forall|i: int, j: int| 0 <= i < j < d.len() implies #[trigger] value_order()(
            d[i],
            d[j],
        ) by {
            assert(value_order()(s[i], s[j]));
        }
        lemma_window_ahead(d, p1, p2);
        let v = s.last();
        if d.len() > 0 {
            assert(value_order()(s[d.len() - 1], s[s.len() - 1]));
        }
    }
}

/// A wider window never gives more groups.
pub proof fn law_wider_window(values: Seq<Value>, p1: i64, p2: i64)
    requires
        p1 <= p2,
    ensures
        ranked(values, p2).len() <= ranked(values, p1).len(),
{
    let sorted = sort_values(values);
    values.lemma_sort_by_ensures(value_order());
    lemma_window_ahead(sorted, p1, p2);
    law_rank_sort_stable(groups(sorted, p1));
    law_rank_sort_stable(groups(sorted, p2));
}

/// Some occurrence of `s` is in document `id`.
pub open spec fn has_document(s: Seq<Value>, id: i64) -> bool {
    exists|j: int| 0 <= j < s.len() && (#[trigger] s[j]).id == id
}

proof fn lemma_fold_documents(s: Seq<Value>, peri: i64)
    ensures
        forall|i: int|
            0 <= i < rank_fold(s, peri).results.len() ==> has_document(
                s,
                (#[trigger] rank_fold(s, peri).results[i]).id,
            ),
        rank_fold(s, peri).prev is Some ==> has_document(s, rank_fold(s, peri).prev->0.id),
    decreases s.len(),
{
    if s.len() > 0 {
        let d = s.drop_last();
        lemma_fold_documents(d, peri);
        let st = rank_fold(d, peri);
        assert forall|id: i64| has_document(d, id) implies has_document(s, id) by {
            let j = choose|j: int| 0 <= j < d.len() && (#[trigger] d[j]).id == id;
            assert(s[j] == d[j]);
        }
        assert(s[s.len() - 1] == s.last());
        let r = rank_fold(s, peri).results;
        assert forall|i: int| 0 <= i < r.len() implies has_document(s, (#[trigger] r[i]).id) by {
            if i < st.results.len() {
                assert(r[i] == st.results[i]);
            }
        }
    }
}

/// Every group of the ranking is in a document in which some occurrence of
/// `values` is.
pub proof fn law_ranking_documents(values: Seq<Value>, peri: i64)
    ensures
        forall|i: int|
            0 <= i < ranked(values, peri).len() ==> has_document(
                values,
                (#[trigger] ranked(values, peri)[i]).id,
            ),
{
    broadcast use vstd::seq_lib::group_to_multiset_ensures;
    broadcast use vstd::seq_lib::group_filter_ensures;

    let sorted = sort_values(values);
    values.lemma_sort_by_ensures(value_order());
    lemma_fold_documents(sorted, peri);
    let g = groups(sorted, peri);
    assert forall|i: int| 0 <= i < g.len() implies has_document(sorted, (#[trigger] g[i]).id) by {
        if i < rank_fold(sorted, peri).results.len() {
            assert(g[i] == rank_fold(sorted, peri).results[i]);
        }
    }
    assert forall|id: i64| has_document(sorted, id) implies has_document(values, id) by {
        let j = choose|j: int| 0 <= j < sorted.len() && (#[trigger] sorted[j]).id == id;
        assert(sorted.to_multiset().count(sorted[j]) > 0);
        assert(values.contains(sorted[j]));
    }
    law_rank_sort_stable(g);
    let r = ranked(values, peri);
    assert forall|i: int| 0 <= i < r.len() implies has_document(values, (#[trigger] r[i]).id) by {
        let x = r[i];
        let w = x.word_num;
        r.lemma_filter_contains(of_size(w), i);
        assert(g.filter(of_size(w)).contains(x));
        g.lemma_filter_contains_rev(of_size(w), x);
        let k = choose|k: int| 0 <= k < g.len() && g[k] == x;
        assert(has_document(sorted, g[k].id));
    }
}

/// Ranking the occurrences of one document gives groups of that document
/// only.
pub proof fn law_ranking_in_one_document(values: Seq<Value>, id: i64, peri: i64)
    requires
        forall|j: int| 0 <= j < values.len() ==> (#[trigger] values[j]).id == id,
    ensures
        forall|i: int| 0 <= i < ranked(values, peri).len() ==> (#[trigger] ranked(values, peri)[i]).id == id,
{
    law_ranking_documents(values, peri);
}

/// Every position in `s` lies between 0 and a quarter of `i64::MAX`.
pub open spec fn positions_bounded(s: Seq<Value>) -> bool {
    forall|j: int| 0 <= j < s.len() ==> 0 <= (#[trigger] s[j]).position <= i64::MAX / 4
}

/// The open group of `st`, after `n` occurrences with bounded positions,
/// starts and ends at bounded positions and holds at most `n` occurrences.
spec fn bounded_state(st: RankState, n: int) -> bool {
    st.prev matches Some(p) ==> {
        &&& 0 <= p.position <= i64::MAX / 4
        &&& 0 <= p.position - st.dist <= i64::MAX / 4
        &&& 1 <= st.w_num <= n
    }
}

proof fn lemma_bounded_fold(s: Seq<Value>, peri: i64)
    requires
        0 <= peri <= i64::MAX / 4,
        s.len() < i64::MAX,
        positions_bounded(s),
    ensures
        steps_fit(s, peri),
        bounded_state(rank_fold(s, peri), s.len() as int),
    decreases s.len(),
{
    if s.len() > 0 {
        let d = s.drop_last();
        assert forall|j: int| 0 <= j < d.len() implies 0 <= (#[trigger] d[j]).position <= i64::MAX / 4 by {
            assert(d[j] == s[j]);
        }
        lemma_bounded_fold(d, peri);
        assert(s.last() == s[s.len() - 1]);
    }
}

/// Ranking computes in range when the window and every position lie between
/// 0 and a quarter of `i64::MAX` and there are fewer than `i64::MAX`
/// occurrences.
pub proof fn law_bounded_ranking_fits(values: Seq<Value>, peri: i64)
    requires
        0 <= peri <= i64::MAX / 4,
        values.len() < i64::MAX,
        positions_bounded(values),
    ensures
        ranking_fits(values, peri),
{
    broadcast use vstd::seq_lib::group_to_multiset_ensures;

    let sorted = sort_values(values);
    values.lemma_sort_by_ensures(value_order());
    assert(sorted.len() == values.len()) by {
        assert(sorted.to_multiset().len() == values.to_multiset().len());
    }
    assert forall|j: int| 0 <= j < sorted.len() implies 0 <= (#[trigger] sorted[j]).position
        <= i64::MAX / 4 by {
        assert(sorted.to_multiset().count(sorted[j]) > 0);
        assert(values.contains(sorted[j]));
    }
    lemma_bounded_fold(sorted, peri);
}

/// `g` stands for occurrences of `s` in its document that lie close
/// together: `s` holds a first occurrence `f` and a last occurrence `l` of
/// that document, `l` at most `peri` positions after `f` (or at `f`'s
/// position), and `g` stands at `l`'s position plus half the span, rounded
/// toward zero.
pub open spec fn spans_group(g: RankValue, s: Seq<Value>, peri: i64) -> bool {
    exists|f: Value, l: Value|
        #![trigger s.contains(f), s.contains(l)]
        s.contains(f) && s.contains(l) && f.id == g.id && l.id == g.id && f.position <= l.position
            && (l.position - f.position <= peri || l.position == f.position) && g.position
            == l.position + half(l.position - f.position)
}

/// What the grouping of `s` has built so far: each closed group stands for
/// occurrences of `s`, and the open group runs from an occurrence of `s`
/// to the last occurrence seen, within the window.
spec fn fold_spans(st: RankState, s: Seq<Value>, peri: i64) -> bool {
    &&& forall|i: int| 0 <= i < st.results.len() ==> spans_group(#[trigger] st.results[i], s, peri)
    &&& st.prev matches Some(p) ==> {
        &&& s.contains(p)
        &&& 0 <= st.dist
        &&& (st.dist <= peri || st.dist == 0)
        &&& exists|f: Value| #[trigger] s.contains(f) && f.id == p.id && f.position == p.position - st.dist
    }
}

proof fn lemma_spans_grow(g: RankValue, d: Seq<Value>, s: Seq<Value>, peri: i64)
    requires
        spans_group(g, d, peri),
        forall|x: Value| d.contains(x) ==> #[trigger] s.contains(x),
    ensures
        spans_group(g, s, peri),
{
    let (f, l) = choose|f: Value, l: Value|
        #![trigger d.contains(f), d.contains(l)]
        d.contains(f) && d.contains(l) && f.id == g.id && l.id == g.id && f.position <= l.position
            && (l.position - f.position <= peri || l.position == f.position) && g.position
            == l.position + half(l.position - f.position);
    assert(s.contains(f) && s.contains(l));
}

proof fn lemma_fold_spans(s: Seq<Value>, peri: i64)
    requires
        sorted_by(s, value_order()),
        steps_fit(s, peri),
    ensures
        fold_spans(rank_fold(s, peri), s, peri),
        s.len() > 0 ==> rank_fold(s, peri).prev == Some(s.last()),
    decreases s.len(),
{
    if s.len() > 0 {
        let d = s.drop_last();
        assert forall|i: int, j: int| 0 <= i < j < d.len() implies #[trigger] value_order()(
            d[i],
            d[j],
        ) by {
            assert(value_order()(s[i], s[j]));
        }
        lemma_fold_spans(d, peri);
        let st = rank_fold(d, peri);
        let v = s.last();
        assert(s[s.len() - 1] == v);
        assert forall|x: Value| d.contains(x) implies #[trigger] s.contains(x) by {
            let j = choose|j: int| 0 <= j < d.len() && d[j] == x;
            assert(s[j] == x);
        }
        assert(s.contains(v));
        if d.len() > 0 {
            assert(value_order()(s[d.len() - 1], s[s.len() - 1]));
        }
        let r = rank_fold(s, peri).results;
        assert forall|i: int| 0 <= i < st.results.len() implies spans_group(#[trigger] st.results[i], s, peri) by {
            lemma_spans_grow(st.results[i], d, s, peri);
        }
        if joins(st, v, peri) {
            let p = st.prev->0;
            let f = choose|f: Value| #[trigger] d.contains(f) && f.id == p.id && f.position == p.position - st.dist;
            assert(s.contains(f));
        } else if st.prev is None {
            assert(s.contains(v));
        } else {
            let p = st.prev->0;
            let f = choose|f: Value| #[trigger] d.contains(f) && f.id == p.id && f.position == p.position - st.dist;
            assert(s.contains(f));
            assert(s.contains(p));
            let g = open_group(st);
            assert(g.position == p.position + half(p.position - f.position));
            assert(spans_group(g, s, peri));
            assert forall|i: int| 0 <= i < r.len() implies spans_group(#[trigger] r[i], s, peri) by {
                if i < st.results.len() {
                    assert(r[i] == st.results[i]);
                }
            }
        }
    }
}

/// Each group of the ranking covers occurrences of one document that lie
/// within the window of the group's first occurrence: `values` holds a
/// first occurrence and a last occurrence of the group's document, the last
/// at most `peri` positions after the first (or at the same position), and
/// the group stands at the last position plus half the span.
pub proof fn law_ranking_group_spans(values: Seq<Value>, peri: i64)
    requires
        ranking_fits(values, peri),
    ensures
        forall|i: int|
            0 <= i < ranked(values, peri).len() ==> spans_group(
                #[trigger] ranked(values, peri)[i],
                values,
                peri,
            ),
{
    broadcast use vstd::seq_lib::group_to_multiset_ensures;

    let sorted = sort_values(values);
    values.lemma_sort_by_ensures(value_order());
    lemma_fold_spans(sorted, peri);
    let st = rank_fold(sorted, peri);
    let g = groups(sorted, peri);
    assert forall|x: Value| sorted.contains(x) implies #[trigger] values.contains(x) by {
        assert(sorted.to_multiset().count(x) > 0);
    }
    assert forall|i: int| 0 <= i < g.len() implies spans_group(#[trigger] g[i], values, peri) by {
        if i < st.results.len() {
            assert(g[i] == st.results[i]);
            lemma_spans_grow(g[i], sorted, values, peri);
        } else {
            let p = st.prev->0;
            let f = choose|f: Value| #[trigger] sorted.contains(f) && f.id == p.id && f.position == p.position - st.dist;
            assert(values.contains(f));
            assert(values.contains(p));
            assert(spans_group(g[i], values, peri));
        }
    }
    law_rank_sort_stable(g);
    let r = ranked(values, peri);
    assert forall|i: int| 0 <= i < r.len() implies spans_group(#[trigger] r[i], values, peri) by {
        let x = r[i];
        let w = x.word_num;
        r.lemma_filter_contains(of_size(w), i);
        assert(g.filter(of_size(w)).contains(x));
        g.lemma_filter_contains_rev(of_size(w), x);
        let k = choose|k: int| 0 <= k < g.len() && g[k] == x;
        assert(spans_group(g[k], values, peri));
    }
}

/// The occurrences of document `id` at positions from `lo` to `hi`.
pub open spec fn within(id: i64, lo: i64, hi: i64) -> spec_fn(Value) -> bool {
    |v: Value| v.id == id && lo <= v.position && v.position <= hi
}

/// `g` is the group that a window of `peri` words makes in `s`: `s` holds
/// its first occurrence `f` and its last occurrence `l` in `g`'s document,
/// `l` at most `peri` positions after `f`; `g` counts the occurrences of
/// its document from `f`'s position to `l`'s; no occurrence of its document
/// lies after `l` within the window of `f`; and `g` stands at `l`'s
/// position plus half the span, rounded toward zero.
pub open spec fn window_group(g: RankValue, s: Seq<Value>, peri: i64) -> bool {
    exists|f: Value, l: Value|
        #![trigger s.contains(f), s.contains(l)]
        s.contains(f) && s.contains(l) && f.id == g.id && l.id == g.id && f.position <= l.position
            && l.position <= f.position + peri && g.position == l.position + half(
            l.position - f.position,
        ) && g.word_num == s.filter(within(g.id, f.position, l.position)).len() && (forall|v: Value|
            #[trigger] s.contains(v) && v.id == g.id && l.position < v.position ==> f.position
                + peri < v.position)
}

/// `s[a..=b]` is a run of occurrences of one document within `peri` of its
/// first, and every earlier occurrence of that document lies before it.
spec fn seg_ok(s: Seq<Value>, a: int, b: int, peri: i64) -> bool {
    &&& 0 <= a <= b < s.len()
    &&& forall|j: int| a <= j <= b ==> (#[trigger] s[j]).id == s[a].id
    &&& s[b].position <= s[a].position + peri
    &&& forall|j: int| 0 <= j < a && (#[trigger] s[j]).id == s[a].id ==> s[j].position < s[a].position
}

/// The run `s[a..=b]` was closed by the occurrence after it.
spec fn closed_ok(s: Seq<Value>, a: int, b: int, peri: i64) -> bool {
    &&& seg_ok(s, a, b, peri)
    &&& b + 1 < s.len()
    &&& (s[b + 1].id != s[a].id || s[b + 1].position > s[a].position + peri)
}

/// `g` is made from the run `s[a..=b]`.
spec fn group_of(g: RankValue, s: Seq<Value>, a: int, b: int) -> bool {
    &&& g.id == s[a].id
    &&& g.position == s[b].position + half(s[b].position - s[a].position)
    &&& g.word_num == b - a + 1
}

/// `g` is made from a closed run of `s`.
spec fn closed_group(g: RankValue, s: Seq<Value>, peri: i64) -> bool {
    exists|a: int, b: int| closed_ok(s, a, b, peri) && #[trigger] group_of(g, s, a, b)
}

spec fn results_segs(results: Seq<RankValue>, s: Seq<Value>, peri: i64) -> bool {
    forall|i: int| 0 <= i < results.len() ==> #[trigger] closed_group(results[i], s, peri)
}

spec fn open_seg(st: RankState, s: Seq<Value>, peri: i64) -> bool {
    match st.prev {
        Some(p) => {
            &&& s.len() > 0
            &&& p == s.last()
            &&& 1 <= st.w_num <= i64::MAX
            &&& exists|a: int|
                #[trigger] seg_ok(s, a, s.len() - 1, peri) && st.dist == s.last().position
                    - s[a].position && st.w_num == s.len() - a
        },
        None => s.len() == 0,
    }
}

spec fn fold_segs(st: RankState, s: Seq<Value>, peri: i64) -> bool {
    results_segs(st.results, s, peri) && open_seg(st, s, peri)
}

proof fn lemma_seg_grow(d: Seq<Value>, s: Seq<Value>, a: int, b: int, peri: i64)
    requires
        d == s.drop_last(),
        s.len() > 0,
        seg_ok(d, a, b, peri),
    ensures
        seg_ok(s, a, b, peri),
{
    assert forall|j: int| a <= j <= b implies (#[trigger] s[j]).id == s[a].id by {
        assert(s[j] == d[j]);
    }
    assert forall|j: int| 0 <= j < a && (#[trigger] s[j]).id == s[a].id implies s[j].position
        < s[a].position by {
        assert(s[j] == d[j]);
    }
}

proof fn lemma_closed_group_grow(g: RankValue, d: Seq<Value>, s: Seq<Value>, peri: i64)
    requires
        d == s.drop_last(),
        s.len() > 0,
        closed_group(g, d, peri),
    ensures
        closed_group(g, s, peri),
{
    let (a, b) = choose|a: int, b: int| closed_ok(d, a, b, peri) && #[trigger] group_of(g, d, a, b);
    lemma_seg_grow(d, s, a, b, peri);
    assert(s[a] == d[a] && s[b] == d[b] && s[b + 1] == d[b + 1]);
    assert(closed_ok(s, a, b, peri) && group_of(g, s, a, b));
}

proof fn lemma_fold_segs(s: Seq<Value>, peri: i64)
    requires
        sorted_by(s, value_order()),
        steps_fit(s, peri),
        peri >= 0,
    ensures
        fold_segs(rank_fold(s, peri), s, peri),
    decreases s.len(),
{
    if s.len() > 0 {
        let d = s.drop_last();
        let n = d.len() as int;
        assert forall|i: int, j: int| 0 <= i < j < d.len() implies #[trigger] value_order()(
            d[i],
            d[j],
        ) by {
            assert(value_order()(s[i], s[j]));
        }
        lemma_fold_segs(d, peri);
        let st = rank_fold(d, peri);
        let nst = rank_fold(s, peri);
        let v = s.last();
        assert(s[n] == v);
        assert(step_fits(st, v, peri));
        assert forall|i: int| 0 <= i < st.results.len() implies #[trigger] closed_group(
            st.results[i],
            s,
            peri,
        ) by {
            lemma_closed_group_grow(st.results[i], d, s, peri);
        }
        if joins(st, v, peri) {
            let a = choose|a: int|
                #[trigger] seg_ok(d, a, d.len() - 1, peri) && st.dist == d.last().position
                    - d[a].position && st.w_num == d.len() - a;
            lemma_seg_grow(d, s, a, n - 1, peri);
            assert(s[a] == d[a] && s[n - 1] == d[n - 1]);
            let p = st.prev->0;
            assert(p == s[n - 1]);
            assert(seg_ok(s, a, s.len() - 1, peri)) by {
                assert forall|j: int| a <= j <= n implies (#[trigger] s[j]).id == s[a].id by {
                    if j < n {
                        assert(s[j] == d[j]);
                    }
                }
            }
            assert(nst.results == st.results);
            assert(open_seg(nst, s, peri));
            assert(results_segs(nst.results, s, peri));
        } else if st.prev is None {
            assert(seg_ok(s, 0, 0, peri));
            assert(nst.results == st.results);
            assert(open_seg(nst, s, peri));
            assert(results_segs(nst.results, s, peri));
        } else {
            let a = choose|a: int|
                #[trigger] seg_ok(d, a, d.len() - 1, peri) && st.dist == d.last().position
                    - d[a].position && st.w_num == d.len() - a;
            lemma_seg_grow(d, s, a, n - 1, peri);
            let p = st.prev->0;
            assert(s[a] == d[a] && s[n - 1] == d[n - 1]);
            assert(p == s[n - 1]);
            assert(!joins(st, v, peri));
            assert(v.id != p.id || v.position > s[a].position + peri);
            assert(closed_ok(s, a, n - 1, peri));
            assert(in_i64(p.position + half(st.dist)));
            assert(group_of(open_group(st), s, a, n - 1));
            assert(closed_group(open_group(st), s, peri));
            assert(value_order()(s[n - 1], s[n]));
            assert forall|j: int| 0 <= j < n && (#[trigger] s[j]).id == s[n].id implies s[j].position
                < s[n].position by {
                assert(value_order()(s[j], s[n]));
                if j < n - 1 {
                    assert(value_order()(s[j], s[n - 1]));
                }
                assert(s[j].id <= p.id);
                assert(p.id == v.id);
                assert(v.position > s[a].position + peri);
                if j >= a {
                    assert(s[j].id == s[a].id);
                    if j < n - 1 {
                        assert(s[j].position <= s[n - 1].position);
                    }
                } else {
                    assert(s[j].position < s[a].position);
                }
            }
            assert(seg_ok(s, n, n, peri));
            assert(nst.results == st.results.push(open_group(st)));
            assert forall|i: int| 0 <= i < nst.results.len() implies #[trigger] closed_group(
                nst.results[i],
                s,
                peri,
            ) by {
                if i < st.results.len() {
                    assert(nst.results[i] == st.results[i]);
                }
            }
            assert(open_seg(nst, s, peri));
        }
    }
}

proof fn lemma_filter_run_len(s: Seq<Value>, p: spec_fn(Value) -> bool, a: int, b: int)
    requires
        0 <= a <= b + 1 <= s.len(),
        forall|j: int| 0 <= j < s.len() ==> (p(#[trigger] s[j]) <==> a <= j <= b),
    ensures
        s.filter(p).len() == b - a + 1,
    decreases s.len(),
{
    if s.len() == 0 {
        assert(s.filter(p) =~= Seq::<Value>::empty()) by {
            reveal(Seq::filter);
        }
    } else {
        let d = s.drop_last();
        let n = d.len() as int;
        assert(s =~= d.push(s.last()));
        d.lemma_filter_push(s.last(), p);
        assert(s[n] == s.last());
        assert forall|j: int| 0 <= j < d.len() implies (p(#[trigger] d[j]) <==> a <= j <= b) by {
            assert(d[j] == s[j]);
        }
        if a <= b && b == n {
            assert forall|j: int| 0 <= j < d.len() implies (p(#[trigger] d[j]) <==> a <= j <= b - 1) by {
                assert(d[j] == s[j]);
            }
            lemma_filter_run_len(d, p, a, b - 1);
        } else if a <= b {
            lemma_filter_run_len(d, p, a, b);
        } else {
            assert forall|j: int| 0 <= j < d.len() implies (p(#[trigger] d[j]) <==> 0 <= j <= -1) by {
                assert(d[j] == s[j]);
            }
            lemma_filter_run_len(d, p, 0, -1);
        }
    }
}

proof fn lemma_filter_multiset(s: Seq<Value>, p: spec_fn(Value) -> bool)
    ensures
        s.filter(p).to_multiset() =~= s.to_multiset().filter(p),
    decreases s.len(),
{
    broadcast use vstd::seq_lib::group_to_multiset_ensures;
    broadcast use vstd::multiset::group_multiset_axioms;

    if s.len() == 0 {
        assert(s.filter(p) =~= Seq::<Value>::empty()) by {
            reveal(Seq::filter);
        }
        assert(s =~= Seq::<Value>::empty());
    } else {
        let d = s.drop_last();
        let x = s.last();
        assert(s =~= d.push(x));
        lemma_filter_multiset(d, p);
        d.lemma_filter_push(x, p);
        vstd::seq_lib::to_multiset_build(d, x);
        if p(x) {
            vstd::seq_lib::to_multiset_build(d.filter(p), x);
        }
    }
}

proof fn lemma_window_group_perm(g: RankValue, s1: Seq<Value>, s2: Seq<Value>, peri: i64)
    requires
        s1.to_multiset() == s2.to_multiset(),
        window_group(g, s1, peri),
    ensures
        window_group(g, s2, peri),
{
    broadcast use vstd::seq_lib::group_to_multiset_ensures;

    let (f, l) = choose|f: Value, l: Value|
        #![trigger s1.contains(f), s1.contains(l)]
        s1.contains(f) && s1.contains(l) && f.id == g.id && l.id == g.id && f.position <= l.position
            && l.position <= f.position + peri && g.position == l.position + half(
            l.position - f.position,
        ) && g.word_num == s1.filter(within(g.id, f.position, l.position)).len() && (forall|v: Value|
            #[trigger] s1.contains(v) && v.id == g.id && l.position < v.position ==> f.position
                + peri < v.position);
    let p = within(g.id, f.position, l.position);
    lemma_filter_multiset(s1, p);
    lemma_filter_multiset(s2, p);
    assert(s1.filter(p).to_multiset().len() == s2.filter(p).to_multiset().len());
    assert(s1.contains(f) ==> s1.to_multiset().count(f) > 0);
    assert(s1.contains(l) ==> s1.to_multiset().count(l) > 0);
    assert(s2.contains(f) && s2.contains(l));
    assert forall|v: Value| #[trigger] s2.contains(v) && v.id == g.id && l.position < v.position
        implies f.position + peri < v.position by {
        assert(s2.to_multiset().count(v) > 0);
        assert(s1.contains(v));
    }
}

proof fn lemma_run_window_group(g: RankValue, s: Seq<Value>, a: int, b: int, peri: i64)
    requires
        sorted_by(s, value_order()),
        seg_ok(s, a, b, peri),
        b + 1 == s.len() || (s[b + 1].id != s[a].id || s[b + 1].position > s[a].position + peri),
        group_of(g, s, a, b),
    ensures
        window_group(g, s, peri),
{
    let f = s[a];
    let l = s[b];
    if a < b {
        assert(value_order()(s[a], s[b]));
    }
    let p = within(g.id, f.position, l.position);
    assert forall|j: int| 0 <= j < s.len() implies (p(#[trigger] s[j]) <==> a <= j <= b) by {
        if j < a {
        } else if j <= b {
            if a < j {
                assert(value_order()(s[a], s[j]));
            }
            if j < b {
                assert(value_order()(s[j], s[b]));
            }
        } else {
            assert(b + 1 < s.len());
            assert(value_order()(s[b], s[j]));
            assert(value_order()(s[b], s[b + 1]));
            if j > b + 1 {
                assert(value_order()(s[b + 1], s[j]));
            }
            if s[j].id == g.id {
                assert(s[b + 1].id == s[a].id);
                assert(s[b + 1].position > s[a].position + peri);
            }
        }
    }
    lemma_filter_run_len(s, p, a, b);
    assert(s.contains(f) && s.contains(l));
    assert forall|v: Value| #[trigger] s.contains(v) && v.id == g.id && l.position < v.position
        implies f.position + peri < v.position by {
        let j = choose|j: int| 0 <= j < s.len() && s[j] == v;
        if j < a {
        } else if j <= b {
            if j < b {
                assert(value_order()(s[j], s[b]));
            }
        } else {
            assert(b + 1 < s.len());
            assert(value_order()(s[b], s[j]));
            assert(value_order()(s[b], s[b + 1]));
            if j > b + 1 {
                assert(value_order()(s[b + 1], s[j]));
            }
            assert(s[b + 1].id == s[a].id);
            assert(s[b + 1].position > s[a].position + peri);
        }
    }
}

/// With a window of `peri >= 0` words, each group of the ranking is the one
/// the window makes: it starts at an occurrence of its document, counts
/// exactly the occurrences of that document from there to its last one,
/// which lies within `peri` of its first, and no occurrence of the document
/// after its last one lies within that window.
pub proof fn law_ranking_window_groups(values: Seq<Value>, peri: i64)
    requires
        ranking_fits(values, peri),
        peri >= 0,
    ensures
        forall|i: int|
            0 <= i < ranked(values, peri).len() ==> window_group(
                #[trigger] ranked(values, peri)[i],
                values,
                peri,
            ),
{
    broadcast use vstd::seq_lib::group_to_multiset_ensures;

    let sorted = sort_values(values);
    values.lemma_sort_by_ensures(value_order());
    lemma_fold_segs(sorted, peri);
    let st = rank_fold(sorted, peri);
    let g = groups(sorted, peri);
    assert forall|i: int| 0 <= i < g.len() implies window_group(#[trigger] g[i], values, peri) by {
        if i < st.results.len() {
            assert(g[i] == st.results[i]);
            assert(closed_group(st.results[i], sorted, peri));
            let (a, b) = choose|a: int, b: int|
                closed_ok(sorted, a, b, peri) && #[trigger] group_of(st.results[i], sorted, a, b);
            lemma_run_window_group(g[i], sorted, a, b, peri);
        } else {
            let a = choose|a: int|
                #[trigger] seg_ok(sorted, a, sorted.len() - 1, peri) && st.dist
                    == sorted.last().position - sorted[a].position && st.w_num == sorted.len() - a;
            assert(sorted[sorted.len() - 1] == sorted.last());
            assert(group_of(g[i], sorted, a, sorted.len() - 1));
            lemma_run_window_group(g[i], sorted, a, sorted.len() - 1, peri);
        }
        lemma_window_group_perm(g[i], sorted, values, peri);
    }
    law_rank_sort_stable(g);
    let r = ranked(values, peri);
    assert forall|i: int| 0 <= i < r.len() implies window_group(#[trigger] r[i], values, peri) by {
        let x = r[i];
        let w = x.word_num;
        r.lemma_filter_contains(of_size(w), i);
        assert(g.filter(of_size(w)).contains(x));
        g.lemma_filter_contains_rev(of_size(w), x);
        let k = choose|k: int| 0 <= k < g.len() && g[k] == x;
        assert(window_group(g[k], values, peri));
    }
}

} // verus!
