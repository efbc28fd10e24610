//! Tables of rows: the queries that the relay makes of them.
//!
//! A table is a sequence of rows in insertion order. A row is found by a
//! predicate, most often one that fixes the row's key.

use vstd::prelude::*;

verus! {

/// The rows of a table, each taken by its view.
pub open spec fn rows<T: View>(table: Seq<T>) -> Seq<T::V> {
    table.map_values(|row: T| row@)
}

/// Row `i` is the first one that satisfies `p`.
pub open spec fn first_at<A>(s: Seq<A>, p: spec_fn(A) -> bool, i: int) -> bool {
    &&& 0 <= i < s.len()
    &&& p(s[i])
    &&& forall|j: int| 0 <= j < i ==> !p(#[trigger] s[j])
}

/// Some row satisfies `p`.
pub open spec fn present<A>(s: Seq<A>, p: spec_fn(A) -> bool) -> bool {
    exists|i: int| 0 <= i < s.len() && p(#[trigger] s[i])
}

/// The first row that satisfies `p`.
pub open spec fn find<A>(s: Seq<A>, p: spec_fn(A) -> bool) -> Option<A> {
    if present(s, p) {
        Some(s[choose|i: int| first_at(s, p, i)])
    } else {
        None
    }
}

/// The table after `row` was written: it takes the place of the first row that
/// satisfies `p`, or is appended where there is none.
pub open spec fn put<A>(s: Seq<A>, p: spec_fn(A) -> bool, row: A) -> Seq<A> {
    if present(s, p) {
        s.update(choose|i: int| first_at(s, p, i), row)
    } else {
        s.push(row)
    }
}

/// The rows that do not satisfy `p`.
pub open spec fn without<A>(s: Seq<A>, p: spec_fn(A) -> bool) -> Seq<A> {
    s.filter(|a: A| !p(a))
}

/// Where a row satisfies `p` there is a first such row, and only one.
pub proof fn lemma_first_exists<A>(s: Seq<A>, p: spec_fn(A) -> bool)
    requires
        present(s, p),
    ensures
        exists|i: int| first_at(s, p, i),
    decreases s.len(),
{
    let k = choose|i: int| 0 <= i < s.len() && p(#[trigger] s[i]);
    let front = s.take(k);
    if present(front, p) {
        lemma_first_exists(front, p);
        let i = choose|i: int| first_at(front, p, i);
        assert(first_at(s, p, i)) by {
            assert forall|j: int| 0 <= j < i implies !p(#[trigger] s[j]) by {
                assert(front[j] == s[j]);
            }
        }
    } else {
        assert(first_at(s, p, k)) by {
            assert forall|j: int| 0 <= j < k implies !p(#[trigger] s[j]) by {
                assert(front[j] == s[j]);
            }
        }
    }
}

/// What `find` and `put` mean once the first satisfying row is known.
pub proof fn lemma_first<A>(s: Seq<A>, p: spec_fn(A) -> bool, i: int)
    requires
        first_at(s, p, i),
    ensures
        present(s, p),
        find(s, p) == Some(s[i]),
        forall|row: A| #[trigger] put(s, p, row) == s.update(i, row),
{
    let c = choose|k: int| first_at(s, p, k);
    assert(c == i) by {
        if c < i {
            assert(!p(s[c]));
        }
        if i < c {
            assert(!p(s[i]));
        }
    }
}

/// A found row is a row of the table that satisfies the predicate.
pub proof fn lemma_found<A>(s: Seq<A>, p: spec_fn(A) -> bool)
    requires
        find(s, p) is Some,
    ensures
        present(s, p),
        exists|i: int| first_at(s, p, i) && find(s, p) == Some(s[i]),
        p(find(s, p)->0),
        s.contains(find(s, p)->0),
{
    lemma_first_exists(s, p);
    let i = choose|i: int| first_at(s, p, i);
    lemma_first(s, p, i);
}

/// Predicates that agree on the rows of a table select the same rows.
pub proof fn lemma_filter_congruent<A>(s: Seq<A>, p: spec_fn(A) -> bool, q: spec_fn(A) -> bool)
    requires
        forall|i: int| 0 <= i < s.len() ==> p(#[trigger] s[i]) == q(s[i]),
    ensures
        s.filter(p) == s.filter(q),
    decreases s.len(),
{
    reveal(Seq::filter);
    if s.len() > 0 {
        assert forall|i: int| 0 <= i < s.drop_last().len() implies p(#[trigger] s.drop_last()[i])
            == q(s.drop_last()[i]) by {
            assert(s.drop_last()[i] == s[i]);
        }
        lemma_filter_congruent(s.drop_last(), p, q);
        assert(s.last() == s[s.len() - 1]);
    }
}

/// Selecting twice selects the rows that satisfy both predicates.
pub proof fn lemma_filter_filter<A>(s: Seq<A>, p: spec_fn(A) -> bool, q: spec_fn(A) -> bool)
    ensures
        s.filter(p).filter(q) == s.filter(|a: A| p(a) && q(a)),
    decreases s.len(),
{
    reveal(Seq::filter);
    if s.len() > 0 {
        let front = s.drop_last();
        lemma_filter_filter(front, p, q);
        if p(s.last()) {
            front.filter(p).lemma_filter_push(s.last(), q);
        }
    }
}

/// The selected rows are the rows of the table that satisfy the predicate.
pub proof fn lemma_filter_member<A>(s: Seq<A>, p: spec_fn(A) -> bool, a: A)
    ensures
        s.filter(p).contains(a) <==> s.contains(a) && p(a),
    decreases s.len(),
{
    reveal(Seq::filter);
    if s.len() > 0 {
        let front = s.drop_last();
        lemma_filter_member(front, p, a);
        assert(s =~= front.push(s.last()));
        lemma_push_member(front, s.last(), a);
        lemma_push_member(front.filter(p), s.last(), a);
    }
}

/// A pushed row is the only new one.
pub proof fn lemma_push_member<A>(s: Seq<A>, last: A, a: A)
    ensures
        s.push(last).contains(a) <==> s.contains(a) || a == last,
{
    if s.contains(a) {
        let i = s.index_of(a);
        assert(s.push(last)[i] == a);
    }
    assert(s.push(last)[s.len() as int] == last);
    if s.push(last).contains(a) {
        let i = s.push(last).index_of(a);
        if i < s.len() {
            assert(s[i] == a);
        }
    }
}

/// Where no row satisfies the predicate, none is selected.
pub proof fn lemma_filter_none<A>(s: Seq<A>, p: spec_fn(A) -> bool)
    requires
        !present(s, p),
    ensures
        s.filter(p) == Seq::<A>::empty(),
        without(s, p) == s,
    decreases s.len(),
{
    reveal(Seq::filter);
    if s.len() > 0 {
        let front = s.drop_last();
        assert forall|i: int| 0 <= i < front.len() implies !p(#[trigger] front[i]) by {
            assert(front[i] == s[i]);
        }
        lemma_filter_none(front, p);
        assert(!p(s[s.len() - 1]));
        assert(s =~= front.push(s.last()));
    } else {
        assert(s =~= Seq::empty());
    }
}

/// Rows with pairwise different keys: no later row satisfies the predicate that
/// `key` makes of an earlier one.
pub open spec fn distinct<A>(s: Seq<A>, key: spec_fn(A) -> spec_fn(A) -> bool) -> bool {
    forall|i: int, j: int| 0 <= i < j < s.len() ==> !key(#[trigger] s[i])(#[trigger] s[j])
}

/// Selecting rows keeps their keys different.
pub proof fn lemma_filter_distinct<A>(
    s: Seq<A>,
    p: spec_fn(A) -> bool,
    key: spec_fn(A) -> spec_fn(A) -> bool,
)
    requires
        distinct(s, key),
    ensures
        distinct(s.filter(p), key),
    decreases s.len(),
{
    reveal(Seq::filter);
    if s.len() > 0 {
        let front = s.drop_last();
        assert forall|i: int, j: int| 0 <= i < j < front.len() implies !key(#[trigger] front[i])(
            #[trigger] front[j],
        ) by {
            assert(front[i] == s[i] && front[j] == s[j]);
        }
        lemma_filter_distinct(front, p, key);
        let f = front.filter(p);
        if p(s.last()) {
            assert forall|i: int, j: int| 0 <= i < j < s.filter(p).len() implies !key(
                #[trigger] s.filter(p)[i],
            )(#[trigger] s.filter(p)[j]) by {
                if j == f.len() {
                    assert(f.contains(f[i]));
                    lemma_filter_member(front, p, f[i]);
                    let k = front.index_of(f[i]);
                    assert(s[k] == f[i]);
                    assert(s[s.len() - 1] == s.last());
                } else {
                    assert(f[i] == s.filter(p)[i] && f[j] == s.filter(p)[j]);
                }
            }
        }
    }
}

/// Writing a row keeps the keys different.
pub proof fn lemma_put_distinct<A>(s: Seq<A>, row: A, key: spec_fn(A) -> spec_fn(A) -> bool)
    requires
        distinct(s, key),
        key(row)(row),
        forall|a: A| #[trigger] key(row)(a) ==> key(a) == key(row),
        forall|a: A| #[trigger] key(a)(row) ==> key(row)(a),
    ensures
        distinct(put(s, key(row), row), key),
{
    let p = key(row);
    let w = put(s, p, row);
    if present(s, p) {
        lemma_first_exists(s, p);
        let i = choose|i: int| first_at(s, p, i);
        lemma_first(s, p, i);
        assert(key(s[i]) == key(row));
        assert forall|j: int, k: int| 0 <= j < k < w.len() implies !key(#[trigger] w[j])(
            #[trigger] w[k],
        ) by {
            if k == i {
                if key(s[j])(row) {
                    assert(key(row)(s[j]));
                    assert(key(s[j]) == key(row));
                    assert(!key(s[j])(s[i]));
                }
            } else if j == i {
                assert(!key(s[i])(s[k]));
            } else {
                assert(!key(s[j])(s[k]));
            }
        }
    } else {
        lemma_push_distinct(s, row, key);
    }
}

/// Appending a row with a new key keeps the keys different.
pub proof fn lemma_push_distinct<A>(s: Seq<A>, row: A, key: spec_fn(A) -> spec_fn(A) -> bool)
    requires
        distinct(s, key),
        !present(s, key(row)),
        forall|a: A| #[trigger] key(a)(row) ==> key(row)(a),
    ensures
        distinct(s.push(row), key),
{
    let w = s.push(row);
    assert forall|j: int, k: int| 0 <= j < k < w.len() implies !key(#[trigger] w[j])(
        #[trigger] w[k],
    ) by {
        assert(w[j] == s[j]);
        if k == s.len() {
            assert(!key(row)(s[j]));
        } else {
            assert(w[k] == s[k]);
        }
    }
}

/// After a write every row is the written one or stood there before.
pub proof fn lemma_put_rows<A>(s: Seq<A>, p: spec_fn(A) -> bool, row: A)
    ensures
        forall|i: int|
            0 <= i < put(s, p, row).len() ==> #[trigger] put(s, p, row)[i] == row || (i < s.len()
                && put(s, p, row)[i] == s[i]),
        put(s, p, row).len() == (if present(s, p) {
            s.len()
        } else {
            s.len() + 1
        }),
{
    if present(s, p) {
        lemma_first_exists(s, p);
        let i = choose|i: int| first_at(s, p, i);
        lemma_first(s, p, i);
    }
}

/// A write is read back under its own predicate.
pub proof fn lemma_put_found<A>(s: Seq<A>, p: spec_fn(A) -> bool, row: A)
    requires
        p(row),
    ensures
        find(put(s, p, row), p) == Some(row),
{
    let w = put(s, p, row);
    if present(s, p) {
        lemma_first_exists(s, p);
        let i = choose|i: int| first_at(s, p, i);
        lemma_first(s, p, i);
        assert(first_at(w, p, i)) by {
            assert forall|j: int| 0 <= j < i implies !p(#[trigger] w[j]) by {
                assert(w[j] == s[j]);
            }
        }
        lemma_first(w, p, i);
    } else {
        let i = s.len() as int;
        assert(first_at(w, p, i)) by {
            assert forall|j: int| 0 <= j < i implies !p(#[trigger] w[j]) by {
                assert(w[j] == s[j]);
            }
        }
        lemma_first(w, p, i);
    }
}

/// A write leaves alone what is selected by a predicate that neither the old
/// nor the new row satisfies.
pub proof fn lemma_put_apart<A>(
    s: Seq<A>,
    p: spec_fn(A) -> bool,
    row: A,
    q: spec_fn(A) -> bool,
)
    requires
        forall|a: A| #[trigger] p(a) ==> !q(a),
        !q(row),
    ensures
        find(put(s, p, row), q) == find(s, q),
        put(s, p, row).filter(q) == s.filter(q),
        present(put(s, p, row), q) == present(s, q),
{
    let w = put(s, p, row);
    if present(s, p) {
        lemma_first_exists(s, p);
        let i = choose|i: int| first_at(s, p, i);
        lemma_first(s, p, i);
        lemma_update_apart(s, i, row, q);
    } else {
        s.lemma_filter_push(row, q);
        lemma_push_apart(s, row, q);
    }
}

/// Overwriting a row with another leaves alone a predicate that neither satisfies.
pub proof fn lemma_update_apart<A>(s: Seq<A>, i: int, row: A, q: spec_fn(A) -> bool)
    requires
        0 <= i < s.len(),
        !q(s[i]),
        !q(row),
    ensures
        find(s.update(i, row), q) == find(s, q),
        s.update(i, row).filter(q) == s.filter(q),
        present(s.update(i, row), q) == present(s, q),
{
    let w = s.update(i, row);
    assert(present(w, q) == present(s, q)) by {
        if present(s, q) {
            let k = choose|k: int| 0 <= k < s.len() && q(#[trigger] s[k]);
            assert(q(w[k]));
        }
        if present(w, q) {
            let k = choose|k: int| 0 <= k < w.len() && q(#[trigger] w[k]);
            assert(q(s[k]));
        }
    }
    if present(s, q) {
        lemma_first_exists(s, q);
        let k = choose|k: int| first_at(s, q, k);
        lemma_first(s, q, k);
        assert(first_at(w, q, k)) by {
            assert forall|j: int| 0 <= j < k implies !q(#[trigger] w[j]) by {
                assert(j == i || w[j] == s[j]);
            }
        }
        lemma_first(w, q, k);
    }
    lemma_update_filter(s, i, row, q);
}

proof fn lemma_update_filter<A>(s: Seq<A>, i: int, row: A, q: spec_fn(A) -> bool)
    requires
        0 <= i < s.len(),
        !q(s[i]),
        !q(row),
    ensures
        s.update(i, row).filter(q) == s.filter(q),
    decreases s.len(),
{
    reveal(Seq::filter);
    let w = s.update(i, row);
    if i == s.len() - 1 {
        assert(w.drop_last() =~= s.drop_last());
    } else {
        assert(w.drop_last() =~= s.drop_last().update(i, row));
        lemma_update_filter(s.drop_last(), i, row, q);
    }
}

/// Appending a row leaves alone a predicate that it does not satisfy.
pub proof fn lemma_push_apart<A>(s: Seq<A>, row: A, q: spec_fn(A) -> bool)
    requires
        !q(row),
    ensures
        find(s.push(row), q) == find(s, q),
        s.push(row).filter(q) == s.filter(q),
        present(s.push(row), q) == present(s, q),
{
    let w = s.push(row);
    s.lemma_filter_push(row, q);
    if present(w, q) {
        let k = choose|k: int| 0 <= k < w.len() && q(#[trigger] w[k]);
        assert(q(s[k]));
    }
    if present(s, q) {
        lemma_first_exists(s, q);
        let k = choose|k: int| first_at(s, q, k);
        lemma_first(s, q, k);
        assert(first_at(w, q, k)) by {
            assert forall|j: int| 0 <= j < k implies !q(#[trigger] w[j]) by {
                assert(w[j] == s[j]);
            }
        }
        lemma_first(w, q, k);
    }
}

/// A row appended to a table without a match is the match.
pub proof fn lemma_push_found<A>(s: Seq<A>, row: A, p: spec_fn(A) -> bool)
    requires
        !present(s, p),
        p(row),
    ensures
        find(s.push(row), p) == Some(row),
{
    assert(s.push(row) == put(s, p, row));
    lemma_put_found(s, p, row);
}

/// Looking a row up among the selected rows is looking it up in the table,
/// where every match is selected.
pub proof fn lemma_find_filter<A>(s: Seq<A>, p: spec_fn(A) -> bool, q: spec_fn(A) -> bool)
    requires
        forall|i: int| 0 <= i < s.len() && q(#[trigger] s[i]) ==> p(s[i]),
    ensures
        find(s.filter(p), q) == find(s, q),
        present(s.filter(p), q) == present(s, q),
    decreases s.len(),
{
    reveal(Seq::filter);
    if s.len() > 0 {
        let front = s.drop_last();
        assert forall|i: int| 0 <= i < front.len() && q(#[trigger] front[i]) implies p(front[i]) by {
            assert(front[i] == s[i]);
        }
        lemma_find_filter(front, p, q);
        let last = s.last();
        assert(s =~= front.push(last));
        assert(last == s[s.len() - 1]);
        lemma_find_push(front, last, q);
        if p(last) {
            lemma_find_push(front.filter(p), last, q);
        }
    }
}

/// The first match after an append.
pub proof fn lemma_find_push<A>(s: Seq<A>, row: A, q: spec_fn(A) -> bool)
    ensures
        present(s.push(row), q) == (present(s, q) || q(row)),
        find(s.push(row), q) == (if present(s, q) {
            find(s, q)
        } else if q(row) {
            Some(row)
        } else {
            None
        }),
{
    let w = s.push(row);
    if present(s, q) {
        lemma_first_exists(s, q);
        let k = choose|k: int| first_at(s, q, k);
        lemma_first(s, q, k);
        assert(first_at(w, q, k)) by {
            assert forall|j: int| 0 <= j < k implies !q(#[trigger] w[j]) by {
                assert(w[j] == s[j]);
            }
        }
        lemma_first(w, q, k);
    } else if q(row) {
        lemma_push_found(s, row, q);
        assert(q(w[s.len() as int]));
    } else {
        lemma_push_apart(s, row, q);
    }
}

/// The first match is still found after rows were dropped, where it is not one
/// of them.
pub proof fn lemma_find_kept<A>(s: Seq<A>, keep: spec_fn(A) -> bool, p: spec_fn(A) -> bool, i: int)
    requires
        first_at(s, p, i),
        keep(s[i]),
    ensures
        find(s.filter(keep), p) == Some(s[i]),
    decreases s.len(),
{
    reveal(Seq::filter);
    let front = s.drop_last();
    let last = s.last();
    assert(s =~= front.push(last));
    if i == s.len() - 1 {
        assert(!present(front.filter(keep), p)) by {
            if present(front.filter(keep), p) {
                let f = front.filter(keep);
                let k = choose|k: int| 0 <= k < f.len() && p(#[trigger] f[k]);
                assert(f.contains(f[k]));
                lemma_filter_member(front, keep, f[k]);
                let n = front.index_of(f[k]);
                assert(!p(s[n]));
            }
        }
        lemma_push_found(front.filter(keep), last, p);
    } else {
        assert(first_at(front, p, i)) by {
            assert forall|j: int| 0 <= j < i implies !p(#[trigger] front[j]) by {
                assert(front[j] == s[j]);
            }
        }
        lemma_find_kept(front, keep, p, i);
        assert(front[i] == s[i]);
        lemma_find_push(front.filter(keep), last, p);
        lemma_found(front.filter(keep), p);
    }
}

/// The first row of `table` that satisfies the predicate `p` that `test` decides.
pub(crate) fn position<T: View, F: Fn(&T) -> bool>(
    table: &Vec<T>,
    test: F,
    Ghost(p): Ghost<spec_fn(T::V) -> bool>,
) -> (r: Option<usize>)
    requires
        forall|row: &T| #[trigger] call_requires(test, (row,)),
        forall|row: &T, b: bool| #[trigger] call_ensures(test, (row,), b) ==> b == p(row@),
    ensures
        match r {
            Some(i) => i < table@.len() && first_at(rows(table@), p, i as int),
            None => !present(rows(table@), p),
        },
{
    let mut i: usize = 0;
    while i < table.len()
        invariant
            i <= table@.len(),
            forall|row: &T| #[trigger] call_requires(test, (row,)),
            forall|row: &T, b: bool| #[trigger] call_ensures(test, (row,), b) ==> b == p(row@),
            forall|j: int| 0 <= j < i ==> !p(#[trigger] rows(table@)[j]),
        decreases table@.len() - i,
    {
        if test(&table[i]) {
            return Some(i);
        }
        i = i + 1;
    }
    None
}

/// Splits `table` into the rows that satisfy the predicate `p` that `test`
/// decides and the others, each part in the order of the table.
pub(crate) fn partition<T: View, F: Fn(&T) -> bool>(
    table: Vec<T>,
    test: F,
    Ghost(p): Ghost<spec_fn(T::V) -> bool>,
) -> (r: (Vec<T>, Vec<T>))
    requires
        forall|row: &T| #[trigger] call_requires(test, (row,)),
        forall|row: &T, b: bool| #[trigger] call_ensures(test, (row,), b) ==> b == p(row@),
    ensures
        rows(r.0@) == rows(table@).filter(p),
        rows(r.1@) == without(rows(table@), p),
{
    let ghost all = rows(table@);
    let mut hit: Vec<T> = Vec::new();
    let mut miss: Vec<T> = Vec::new();
    proof {
        assert(all.take(0).filter(p) =~= Seq::empty());
        assert(without(all.take(0), p) =~= Seq::empty());
        assert(rows(hit@) =~= Seq::empty());
        assert(rows(miss@) =~= Seq::empty());
    }
    for row in it: table.into_iter()
        invariant
            it.seq() == table@,
            all == rows(table@),
            forall|row: &T| #[trigger] call_requires(test, (row,)),
            forall|row: &T, b: bool| #[trigger] call_ensures(test, (row,), b) ==> b == p(row@),
            rows(hit@) == all.take(it.index() as int).filter(p),
            rows(miss@) == without(all.take(it.index() as int), p),
    {
        proof {
            let k = it.index() as int;
            assert(all.take(k + 1) =~= all.take(k).push(row@));
            all.take(k).lemma_filter_push(row@, p);
            all.take(k).lemma_filter_push(row@, |a: T::V| !p(a));
            assert(rows(hit@.push(row)) =~= rows(hit@).push(row@));
            assert(rows(miss@.push(row)) =~= rows(miss@).push(row@));
        }
        if test(&row) {
            hit.push(row);
        } else {
            miss.push(row);
        }
    }
    proof {
        assert(all.take(all.len() as int) =~= all);
    }
    (hit, miss)
}

} // verus!
