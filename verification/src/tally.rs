//! Counting keyed records and ranking the totals: the records are folded
//! into one entry per key, in the order in which the keys first appear, and
//! the entries are then ordered by total, largest first, ties keeping that
//! order.
use vstd::prelude::*;
use crate::text::{chars_equal, copy_chars};

verus! {

/// A record or a total: a key with a count.
pub type Entry = (Seq<char>, nat);

/// The last position of key `k` in `t`, or -1 when `k` is absent.
pub open spec fn key_position(t: Seq<Entry>, k: Seq<char>) -> int
    decreases t.len(),
{
    if t.len() == 0 {
        -1
    } else if t.last().0 == k {
        t.len() - 1
    } else {
        key_position(t.drop_last(), k)
    }
}

/// One entry per key of `s`, in order of first appearance, each with the sum
/// of the counts of that key's records.
pub open spec fn tally(s: Seq<Entry>) -> Seq<Entry>
    decreases s.len(),
{
    if s.len() == 0 {
        Seq::empty()
    } else {
        tally_add(tally(s.drop_last()), s.last())
    }
}

/// Adds record `e` to tally `t`: to the entry of its key, or as a new entry.
pub open spec fn tally_add(t: Seq<Entry>, e: Entry) -> Seq<Entry> {
    let j = key_position(t, e.0);
    if j >= 0 {
        t.update(j, (e.0, t[j].1 + e.1))
    } else {
        t.push(e)
    }
}

/// The sum of the counts of the records of `s`.
pub open spec fn count_sum(s: Seq<Entry>) -> nat
    decreases s.len(),
{
    if s.len() == 0 {
        0
    } else {
        count_sum(s.drop_last()) + s.last().1
    }
}

/// The sum of the counts of the records of `s` whose key is `k`.
pub open spec fn key_sum(s: Seq<Entry>, k: Seq<char>) -> nat
    decreases s.len(),
{
    if s.len() == 0 {
        0
    } else {
        key_sum(s.drop_last(), k) + if s.last().0 == k { s.last().1 } else { 0 }
    }
}

/// No key occurs twice in `t`.
pub open spec fn keys_distinct(t: Seq<Entry>) -> bool {
    forall|i: int, j: int| 0 <= i < t.len() && 0 <= j < t.len() && i != j ==> t[i].0 != t[j].0
}

/// Some record of `s` has key `k`.
pub open spec fn has_key(s: Seq<Entry>, k: Seq<char>) -> bool {
    exists|i: int| 0 <= i < s.len() && s[i].0 == k
}

/// Where an entry of count `c` goes in `s`: before the first entry whose
/// count is smaller.
pub open spec fn insert_position(s: Seq<Entry>, c: nat) -> int
    decreases s.len(),
{
    if s.len() == 0 {
        0
    } else if s[0].1 < c {
        0
    } else {
        1 + insert_position(s.drop_first(), c)
    }
}

/// The entries of `t` ordered by count, largest first; entries of equal count
/// keep their order in `t`.
pub open spec fn ranked(t: Seq<Entry>) -> Seq<Entry>
    decreases t.len(),
{
    if t.len() == 0 {
        Seq::empty()
    } else {
        let r = ranked(t.drop_last());
        r.insert(insert_position(r, t.last().1), t.last())
    }
}

/// Counts never increase along `s`.
pub open spec fn sorted_by_count_desc(s: Seq<Entry>) -> bool {
    forall|i: int, j: int| 0 <= i <= j < s.len() ==> s[i].1 >= s[j].1
}

/// `key_position` finds key `k` exactly when some entry has it.
pub proof fn lemma_key_position(t: Seq<Entry>, k: Seq<char>)
    ensures
        -1 <= key_position(t, k) < t.len(),
        key_position(t, k) == -1 <==> !has_key(t, k),
        key_position(t, k) >= 0 ==> t[key_position(t, k)].0 == k,
    decreases t.len(),
{
    if t.len() > 0 {
        lemma_key_position(t.drop_last(), k);
        if t.last().0 != k {
            if has_key(t, k) {
                let i = choose|i: int| 0 <= i < t.len() && t[i].0 == k;
                assert(t.drop_last()[i].0 == k);
            }
            if has_key(t.drop_last(), k) {
                let i = choose|i: int| 0 <= i < t.len() - 1 && t.drop_last()[i].0 == k;
                assert(t[i].0 == k);
            }
        } else {
            assert(t[t.len() - 1].0 == k);
        }
    }
}

/// In a sequence with distinct keys, the entry with key `k` sits at
/// `key_position`.
proof fn lemma_key_position_unique(t: Seq<Entry>, k: Seq<char>, j: int)
    requires
        keys_distinct(t),
        0 <= j < t.len(),
        t[j].0 == k,
    ensures
        key_position(t, k) == j,
{
    lemma_key_position(t, k);
    assert(has_key(t, k));
}

/// The keys of a tally are distinct, and a key is in the tally exactly when
/// some record has it.
pub proof fn lemma_tally_keys(s: Seq<Entry>)
    ensures
        keys_distinct(tally(s)),
        forall|k: Seq<char>| has_key(tally(s), k) <==> has_key(s, k),
        tally(s).len() <= s.len(),
    decreases s.len(),
{
    if s.len() > 0 {
        let p = s.drop_last();
        let t = tally(p);
        let e = s.last();
        lemma_tally_keys(p);
        lemma_key_position(t, e.0);
        let j = key_position(t, e.0);
        let t2 = tally(s);
        assert forall|k: Seq<char>| has_key(t2, k) <==> has_key(s, k) by {
            if has_key(t2, k) {
                let i = choose|i: int| 0 <= i < t2.len() && t2[i].0 == k;
                if k == e.0 {
                    assert(s[s.len() - 1].0 == k);
                } else {
                    assert(i < t.len());
                    assert(t[i].0 == k);
                    assert(has_key(t, k));
                    assert(has_key(p, k));
                    let m = choose|m: int| 0 <= m < p.len() && p[m].0 == k;
                    assert(s[m].0 == k);
                }
            }
            if has_key(s, k) {
                let m = choose|m: int| 0 <= m < s.len() && s[m].0 == k;
                if m == s.len() - 1 {
                    if j >= 0 {
                        assert(t2[j].0 == k);
                    } else {
                        assert(t2[t2.len() - 1].0 == k);
                    }
                } else {
                    assert(p[m].0 == k);
                    assert(has_key(p, k));
                    assert(has_key(t, k));
                    let i = choose|i: int| 0 <= i < t.len() && t[i].0 == k;
                    assert(t2[i].0 == k);
                }
            }
        }
        assert(keys_distinct(t2)) by {
            if j < 0 {
                assert forall|a: int| 0 <= a < t.len() implies t2[a].0 != e.0 by {
                    if t2[a].0 == e.0 {
                        assert(t[a].0 == e.0);
                        assert(has_key(t, e.0));
                    }
                }
            }
        }
    }
}

proof fn lemma_key_sum_absent(s: Seq<Entry>, k: Seq<char>)
    requires
        !has_key(s, k),
    ensures
        key_sum(s, k) == 0,
    decreases s.len(),
{
    if s.len() > 0 {
        assert(s.last().0 != k) by {
            if s.last().0 == k {
                assert(s[s.len() - 1].0 == k);
            }
        }
        assert forall|i: int| 0 <= i < s.len() - 1 implies s.drop_last()[i].0 != k by {
            assert(s[i].0 != k);
        }
        lemma_key_sum_absent(s.drop_last(), k);
    }
}

/// Each entry of the tally holds the sum of the counts of its key's records.
pub proof fn lemma_tally_counts(s: Seq<Entry>)
    ensures
        forall|i: int| 0 <= i < tally(s).len() ==> #[trigger] tally(s)[i].1 == key_sum(s, tally(s)[i].0),
    decreases s.len(),
{
    if s.len() > 0 {
        let p = s.drop_last();
        let t = tally(p);
        let e = s.last();
        lemma_tally_counts(p);
        lemma_tally_keys(p);
        lemma_key_position(t, e.0);
        let j = key_position(t, e.0);
        let t2 = tally(s);
        assert forall|i: int| 0 <= i < t2.len() implies #[trigger] t2[i].1 == key_sum(s, t2[i].0) by {
            let k = t2[i].0;
            if j >= 0 {
                if i == j {
                } else {
                    assert(t[i].0 == k);
                    assert(k != e.0);
                }
            } else {
                if i == t.len() {
                    assert(!has_key(t, e.0));
                    assert(!has_key(p, e.0));
                    lemma_key_sum_absent(p, e.0);
                } else {
                    assert(t[i].0 == k);
                    assert(k != e.0) by {
                        if k == e.0 {
                            assert(has_key(t, e.0));
                        }
                    }
                }
            }
        }
    }
}

proof fn lemma_count_sum_update(t: Seq<Entry>, j: int, v: Entry)
    requires
        0 <= j < t.len(),
    ensures
        count_sum(t.update(j, v)) + t[j].1 == count_sum(t) + v.1,
    decreases t.len(),
{
    let u = t.update(j, v);
    if j == t.len() - 1 {
        assert(u.drop_last() =~= t.drop_last());
    } else {
        assert(u.drop_last() =~= t.drop_last().update(j, v));
        lemma_count_sum_update(t.drop_last(), j, v);
    }
}

/// The tally keeps the sum of all counts.
pub proof fn lemma_tally_total(s: Seq<Entry>)
    ensures
        count_sum(tally(s)) == count_sum(s),
    decreases s.len(),
{
    if s.len() > 0 {
        let p = s.drop_last();
        let t = tally(p);
        let e = s.last();
        lemma_tally_total(p);
        lemma_key_position(t, e.0);
        let j = key_position(t, e.0);
        if j >= 0 {
            lemma_count_sum_update(t, j, (e.0, t[j].1 + e.1));
        } else {
            assert(t.push(e).drop_last() =~= t);
        }
    }
}

proof fn lemma_insert_position(s: Seq<Entry>, c: nat)
    requires
        sorted_by_count_desc(s),
    ensures
        0 <= insert_position(s, c) <= s.len(),
        forall|i: int| 0 <= i < insert_position(s, c) ==> s[i].1 >= c,
        forall|i: int| insert_position(s, c) <= i < s.len() ==> s[i].1 < c,
    decreases s.len(),
{
    if s.len() > 0 {
        if s[0].1 >= c {
            let r = s.drop_first();
            lemma_insert_position(r, c);
            assert forall|i: int| 0 <= i < insert_position(s, c) implies s[i].1 >= c by {
                if i > 0 {
                    assert(s[i] == r[i - 1]);
                }
            }
            assert forall|i: int| insert_position(s, c) <= i < s.len() implies s[i].1 < c by {
                assert(s[i] == r[i - 1]);
            }
        }
    }
}

/// The ranking has the entries of `t`: as many as `t`, each as often.
pub proof fn lemma_ranked_permutation(t: Seq<Entry>)
    ensures
        ranked(t).len() == t.len(),
        ranked(t).to_multiset() == t.to_multiset(),
    decreases t.len(),
{
    broadcast use vstd::seq_lib::group_to_multiset_ensures;

    if t.len() > 0 {
        let p = t.drop_last();
        let r = ranked(p);
        let x = t.last();
        lemma_ranked_permutation(p);
        let q = insert_position(r, x.1);
        assert(0 <= q <= r.len()) by {
            lemma_ranked_sorted(p);
            lemma_insert_position(r, x.1);
        }
        let u = r.insert(q, x);
        assert(u.remove(q) =~= r);
        assert(u[q] == x);
        assert(u.to_multiset() =~= r.to_multiset().insert(x)) by {
            assert(u.remove(q).to_multiset() =~= u.to_multiset().remove(u[q]));
            assert(u.contains(x)) by {
                assert(u[q] == x);
            }
        }
        assert(p.push(x) =~= t);
    }
}

/// The ranking is ordered by count, largest first.
pub proof fn lemma_ranked_sorted(t: Seq<Entry>)
    ensures
        sorted_by_count_desc(ranked(t)),
        ranked(t).len() == t.len(),
    decreases t.len(),
{
    if t.len() > 0 {
        let p = t.drop_last();
        let r = ranked(p);
        let x = t.last();
        lemma_ranked_sorted(p);
        lemma_insert_position(r, x.1);
        let q = insert_position(r, x.1);
        let u = r.insert(q, x);
        assert forall|i: int, j: int| 0 <= i <= j < u.len() implies u[i].1 >= u[j].1 by {
            if i < q && j < q {
                assert(u[i] == r[i] && u[j] == r[j]);
            } else if i < q && j == q {
                assert(u[i] == r[i]);
            } else if i < q {
                assert(u[i] == r[i] && u[j] == r[j - 1]);
            } else if i == q && j > q {
                assert(u[j] == r[j - 1]);
            } else if i > q {
                assert(u[i] == r[i - 1] && u[j] == r[j - 1]);
            }
        }
    }
}

proof fn lemma_count_sum_insert(s: Seq<Entry>, p: int, x: Entry)
    requires
        0 <= p <= s.len(),
    ensures
        count_sum(s.insert(p, x)) == count_sum(s) + x.1,
    decreases s.len(),
{
    let u = s.insert(p, x);
    if p == s.len() {
        assert(u.drop_last() =~= s);
    } else {
        assert(u.drop_last() =~= s.drop_last().insert(p, x));
        lemma_count_sum_insert(s.drop_last(), p, x);
    }
}

/// Ranking keeps the sum of the counts: the totals of a report add up to the
/// sum of all the records' counts.
pub proof fn lemma_ranked_total(t: Seq<Entry>)
    ensures
        count_sum(ranked(t)) == count_sum(t),
    decreases t.len(),
{
    if t.len() > 0 {
        let p = t.drop_last();
        let r = ranked(p);
        lemma_ranked_total(p);
        lemma_ranked_sorted(p);
        lemma_insert_position(r, t.last().1);
        lemma_count_sum_insert(r, insert_position(r, t.last().1), t.last());
    }
}

/// The entries of `s` whose count is `c`, in order.
pub open spec fn with_count(s: Seq<Entry>, c: nat) -> Seq<Entry> {
    s.filter(count_is(c))
}

/// Holds of the entries whose count is `c`.
pub open spec fn count_is(c: nat) -> spec_fn(Entry) -> bool {
    |e: Entry| e.1 == c
}

/// The ranking keeps entries of equal count in their order in `t`.
pub proof fn lemma_ranked_stable(t: Seq<Entry>, c: nat)
    ensures
        with_count(ranked(t), c) == with_count(t, c),
    decreases t.len(),
{
    broadcast use Seq::filter_distributes_over_add;

    let pred = count_is(c);
    if t.len() == 0 {
        assert(ranked(t) =~= t);
    } else {
        let p = t.drop_last();
        let r = ranked(p);
        let x = t.last();
        lemma_ranked_stable(p, c);
        lemma_ranked_sorted(p);
        lemma_insert_position(r, x.1);
        let q = insert_position(r, x.1);
        let u = r.insert(q, x);
        assert(u =~= r.take(q) + seq![x] + r.skip(q));
        assert(r =~= r.take(q) + r.skip(q));
        assert(seq![x].drop_last() =~= Seq::<Entry>::empty());
        reveal_with_fuel(Seq::filter, 2);
        if x.1 == c {
            assert forall|i: int| 0 <= i < r.skip(q).len() implies !pred(r.skip(q)[i]) by {
                assert(r.skip(q)[i] == r[q + i]);
            }
            let tail = r.skip(q);
            assert(tail.filter(pred) =~= Seq::<Entry>::empty()) by {
                tail.lemma_filter_len(pred);
                if tail.filter(pred).len() > 0 {
                    tail.lemma_filter_contains_rev(pred, tail.filter(pred)[0]);
                    assert(tail.filter(pred).contains(tail.filter(pred)[0]));
                    tail.lemma_filter_pred(pred, 0);
                }
            }
        }
        let a = r.take(q);
        let b = r.skip(q);
        assert(seq![x].filter(pred) =~= if pred(x) { seq![x] } else { Seq::<Entry>::empty() });
        Seq::filter_distributes_over_add(a + seq![x], b, pred);
        Seq::filter_distributes_over_add(a, seq![x], pred);
        Seq::filter_distributes_over_add(a, b, pred);
        assert(t.drop_last() == p);
        assert(t.filter(pred) == if pred(x) { p.filter(pred).push(x) } else { p.filter(pred) });
        assert(u.filter(pred) == a.filter(pred) + seq![x].filter(pred) + b.filter(pred));
        assert(r.filter(pred) == a.filter(pred) + b.filter(pred));
        if pred(x) {
            assert(b.filter(pred) =~= Seq::<Entry>::empty());
            assert(u.filter(pred) =~= a.filter(pred).push(x));
            assert(p.filter(pred) =~= a.filter(pred));
        } else {
            assert(u.filter(pred) =~= r.filter(pred));
        }
        assert(u.filter(pred) =~= t.filter(pred));
        assert(with_count(u, c) == u.filter(pred));
        assert(with_count(t, c) == t.filter(pred));
    }
}

proof fn lemma_key_sum_le(s: Seq<Entry>, k: Seq<char>)
    ensures
        key_sum(s, k) <= count_sum(s),
    decreases s.len(),
{
    if s.len() > 0 {
        lemma_key_sum_le(s.drop_last(), k);
    }
}

/// No total of the tally exceeds the sum of all counts.
pub proof fn lemma_tally_entry_le_sum(s: Seq<Entry>)
    ensures
        forall|j: int| 0 <= j < tally(s).len() ==> #[trigger] tally(s)[j].1 <= count_sum(s),
{
    lemma_tally_counts(s);
    assert forall|j: int| 0 <= j < tally(s).len() implies #[trigger] tally(s)[j].1 <= count_sum(s) by {
        lemma_key_sum_le(s, tally(s)[j].0);
    }
}

/// Adding a record to a tally whose totals are within `bound` keeps them
/// within it exactly when the total of the record's key stays within it.
pub proof fn lemma_tally_add_bound(t: Seq<Entry>, e: Entry, bound: int)
    requires
        keys_distinct(t),
        forall|j: int| 0 <= j < t.len() ==> #[trigger] t[j].1 <= bound,
    ensures
        (forall|j: int| 0 <= j < tally_add(t, e).len() ==> #[trigger] tally_add(t, e)[j].1 <= bound)
            <==> tally_add(t, e)[key_position(tally_add(t, e), e.0)].1 <= bound,
{
    let u = tally_add(t, e);
    lemma_key_position(t, e.0);
    let j0 = key_position(t, e.0);
    if j0 >= 0 {
        assert(keys_distinct(u)) by {
            assert forall|a: int, b: int| 0 <= a < u.len() && 0 <= b < u.len() && a != b implies u[a].0 != u[b].0 by {
                assert(u[a].0 == t[a].0 && u[b].0 == t[b].0);
            }
        }
        lemma_key_position_unique(u, e.0, j0);
        assert forall|j: int| 0 <= j < u.len() && j != j0 implies u[j].1 <= bound by {
            assert(u[j] == t[j]);
        }
    } else {
        assert(!has_key(t, e.0));
        assert(keys_distinct(u)) by {
            assert forall|a: int, b: int| 0 <= a < u.len() && 0 <= b < u.len() && a != b implies u[a].0 != u[b].0 by {
                if a == t.len() {
                    assert(t[b].0 != e.0) by {
                        if t[b].0 == e.0 { assert(has_key(t, e.0)); }
                    }
                } else if b == t.len() {
                    assert(t[a].0 != e.0) by {
                        if t[a].0 == e.0 { assert(has_key(t, e.0)); }
                    }
                } else {
                    assert(u[a].0 == t[a].0 && u[b].0 == t[b].0);
                }
            }
        }
        lemma_key_position_unique(u, e.0, t.len() as int);
        assert forall|j: int| 0 <= j < t.len() implies u[j].1 <= bound by {
            assert(u[j] == t[j]);
        }
    }
}

proof fn lemma_key_sum_remove(s: Seq<Entry>, j: int, k: Seq<char>)
    requires
        0 <= j < s.len(),
    ensures
        key_sum(s, k) == key_sum(s.remove(j), k) + if s[j].0 == k { s[j].1 } else { 0 },
    decreases s.len(),
{
    if j == s.len() - 1 {
        assert(s.remove(j) =~= s.drop_last());
    } else {
        let r = s.remove(j);
        assert(r.drop_last() =~= s.drop_last().remove(j));
        assert(r.last() == s.last());
        lemma_key_sum_remove(s.drop_last(), j, k);
    }
}

/// The records `a` and `b` are the same up to order.
pub open spec fn same_records(a: Seq<Entry>, b: Seq<Entry>) -> bool {
    a.to_multiset() == b.to_multiset()
}

proof fn lemma_key_sum_reordered(a: Seq<Entry>, b: Seq<Entry>, k: Seq<char>)
    requires
        same_records(a, b),
    ensures
        key_sum(a, k) == key_sum(b, k),
    decreases a.len(),
{
    broadcast use vstd::seq_lib::group_to_multiset_ensures;
    broadcast use vstd::multiset::group_multiset_axioms;

    assert(a.to_multiset().len() == b.to_multiset().len());
    assert(a.len() == b.len());
    if a.len() > 0 {
        let x = a.last();
        assert(a.contains(x)) by {
            assert(a[a.len() - 1] == x);
        }
        assert(b.to_multiset().count(x) > 0);
        assert(b.contains(x));
        let j = choose|j: int| 0 <= j < b.len() && b[j] == x;
        assert(a.remove(a.len() - 1) =~= a.drop_last());
        assert(a.drop_last().to_multiset() =~= a.to_multiset().remove(x));
        assert(b.remove(j).to_multiset() =~= b.to_multiset().remove(x));
        lemma_key_sum_reordered(a.drop_last(), b.remove(j), k);
        lemma_key_sum_remove(b, j, k);
    }
}

proof fn lemma_has_key_reordered(a: Seq<Entry>, b: Seq<Entry>, k: Seq<char>)
    requires
        same_records(a, b),
    ensures
        has_key(a, k) == has_key(b, k),
{
    broadcast use vstd::seq_lib::group_to_multiset_ensures;
    broadcast use vstd::multiset::group_multiset_axioms;

    if has_key(a, k) {
        let i = choose|i: int| 0 <= i < a.len() && a[i].0 == k;
        assert(a.contains(a[i]));
        assert(b.to_multiset().count(a[i]) > 0);
        assert(b.contains(a[i]));
        let j = choose|j: int| 0 <= j < b.len() && b[j] == a[i];
        assert(b[j].0 == k);
    }
    if has_key(b, k) {
        let i = choose|i: int| 0 <= i < b.len() && b[i].0 == k;
        assert(b.contains(b[i]));
        assert(a.to_multiset().count(b[i]) > 0);
        assert(a.contains(b[i]));
        let j = choose|j: int| 0 <= j < a.len() && a[j] == b[i];
        assert(a[j].0 == k);
    }
}

/// An entry is in the tally exactly when its key has records and its count
/// is that key's sum.
proof fn lemma_tally_contains(s: Seq<Entry>, x: Entry)
    ensures
        tally(s).contains(x) <==> has_key(s, x.0) && x.1 == key_sum(s, x.0),
{
    lemma_tally_keys(s);
    lemma_tally_counts(s);
    let t = tally(s);
    if t.contains(x) {
        let i = choose|i: int| 0 <= i < t.len() && t[i] == x;
        assert(has_key(t, x.0));
    }
    if has_key(s, x.0) && x.1 == key_sum(s, x.0) {
        assert(has_key(t, x.0));
        let i = choose|i: int| 0 <= i < t.len() && t[i].0 == x.0;
        assert(t[i] == x);
    }
}

/// Reordering the records changes neither the tally's entries nor their
/// totals, only, possibly, their order.
pub proof fn lemma_tally_reordered(a: Seq<Entry>, b: Seq<Entry>)
    requires
        same_records(a, b),
    ensures
        tally(a).to_multiset() == tally(b).to_multiset(),
{
    broadcast use vstd::seq_lib::group_to_multiset_ensures;
    broadcast use vstd::multiset::group_multiset_axioms;

    lemma_tally_keys(a);
    lemma_tally_keys(b);
    assert(tally(a).no_duplicates()) by {
        assert forall|i: int, j: int| 0 <= i < tally(a).len() && 0 <= j < tally(a).len() && i != j implies tally(a)[i] != tally(a)[j] by {
            assert(tally(a)[i].0 != tally(a)[j].0);
        }
    }
    assert(tally(b).no_duplicates()) by {
        assert forall|i: int, j: int| 0 <= i < tally(b).len() && 0 <= j < tally(b).len() && i != j implies tally(b)[i] != tally(b)[j] by {
            assert(tally(b)[i].0 != tally(b)[j].0);
        }
    }
    tally(a).lemma_multiset_has_no_duplicates();
    tally(b).lemma_multiset_has_no_duplicates();
    assert forall|x: Entry| tally(a).to_multiset().count(x) == tally(b).to_multiset().count(x) by {
        lemma_tally_contains(a, x);
        lemma_tally_contains(b, x);
        lemma_has_key_reordered(a, b, x.0);
        lemma_key_sum_reordered(a, b, x.0);
        if tally(a).contains(x) {
            assert(tally(a).to_multiset().count(x) == 1);
            assert(tally(b).to_multiset().count(x) == 1);
        } else {
            assert(tally(a).to_multiset().count(x) == 0);
            assert(tally(b).to_multiset().count(x) == 0);
        }
    }
    assert(tally(a).to_multiset() =~= tally(b).to_multiset());
}

/// Reordering the records changes the ranking only in the order of entries
/// of equal total: both rankings hold the same entries, and both are ordered
/// by total.
pub proof fn lemma_ranked_reordered(a: Seq<Entry>, b: Seq<Entry>)
    requires
        same_records(a, b),
    ensures
        ranked(tally(a)).to_multiset() == ranked(tally(b)).to_multiset(),
        sorted_by_count_desc(ranked(tally(a))),
        sorted_by_count_desc(ranked(tally(b))),
{
    lemma_tally_reordered(a, b);
    lemma_ranked_permutation(tally(a));
    lemma_ranked_permutation(tally(b));
    lemma_ranked_sorted(tally(a));
    lemma_ranked_sorted(tally(b));
}

/// The records or totals held by a vector of keyed counts.
pub open spec fn entry_views(v: Seq<(Vec<char>, usize)>) -> Seq<Entry> {
    v.map_values(|e: (Vec<char>, usize)| (e.0@, e.1 as nat))
}

/// The position of the entry with key `k`, if there is one.
fn find_entry(t: &Vec<(Vec<char>, usize)>, k: &[char]) -> (r: Option<usize>)
    ensures
        r matches Some(j) ==> j < t@.len() && t@[j as int].0@ == k@,
        r is None ==> forall|j: int| 0 <= j < t@.len() ==> t@[j].0@ != k@,
{
    let mut j: usize = 0;
    while j < t.len()
        invariant
            j <= t@.len(),
            forall|m: int| 0 <= m < j ==> t@[m].0@ != k@,
        decreases t.len() - j,
    {
        if chars_equal(&t[j].0, k) {
            return Some(j);
        }
        j = j + 1;
    }
    None
}

/// Adds the record `(key, n)` to the tally `t`, unless that would take the
/// total of `key` above `bound`; returns whether it was added.
pub fn add_record(t: &mut Vec<(Vec<char>, usize)>, key: &[char], n: usize, bound: usize) -> (added: bool)
    requires
        keys_distinct(entry_views(old(t)@)),
    ensures
        added <==> tally_add(entry_views(old(t)@), (key@, n as nat))[key_position(
            tally_add(entry_views(old(t)@), (key@, n as nat)),
            key@,
        )].1 <= bound,
        added ==> entry_views(final(t)@) == tally_add(entry_views(old(t)@), (key@, n as nat)),
        !added ==> final(t)@ == old(t)@,
        keys_distinct(entry_views(final(t)@)),
{
    let ghost tv = entry_views(t@);
    let ghost e = (key@, n as nat);
    let ghost u = tally_add(tv, e);
    proof {
        lemma_key_position(tv, e.0);
    }
    match find_entry(t, key) {
        Some(j) => {
            proof {
                assert(tv[j as int].0 == e.0);
                lemma_key_position_unique(tv, e.0, j as int);
                assert(u == tv.update(j as int, (e.0, tv[j as int].1 + e.1)));
                assert(keys_distinct(u)) by {
                    assert forall|a: int, b: int| 0 <= a < u.len() && 0 <= b < u.len() && a != b implies u[a].0 != u[b].0 by {
                        assert(u[a].0 == tv[a].0 && u[b].0 == tv[b].0);
                    }
                }
                lemma_key_position_unique(u, e.0, j as int);
            }
            if t[j].1 > bound || n > bound - t[j].1 {
                return false;
            }
            let total: usize = t[j].1 + n;
            let k = copy_chars(key);
            t.set(j, (k, total));
            assert(entry_views(t@) =~= u);
            true
        },
        None => {
            proof {
                assert(!has_key(tv, e.0)) by {
                    if has_key(tv, e.0) {
                        let m = choose|m: int| 0 <= m < tv.len() && tv[m].0 == e.0;
                        assert(t@[m].0@ == e.0);
                    }
                }
                assert(u == tv.push(e));
                assert(keys_distinct(u)) by {
                    assert forall|a: int, b: int| 0 <= a < u.len() && 0 <= b < u.len() && a != b implies u[a].0 != u[b].0 by {
                        if a == tv.len() {
                            assert(tv[b].0 != e.0) by {
                                if tv[b].0 == e.0 { assert(has_key(tv, e.0)); }
                            }
                        } else if b == tv.len() {
                            assert(tv[a].0 != e.0) by {
                                if tv[a].0 == e.0 { assert(has_key(tv, e.0)); }
                            }
                        } else {
                            assert(u[a].0 == tv[a].0 && u[b].0 == tv[b].0);
                        }
                    }
                }
                lemma_key_position_unique(u, e.0, tv.len() as int);
            }
            if n > bound {
                return false;
            }
            let k = copy_chars(key);
            t.push((k, n));
            assert(entry_views(t@) =~= u);
            true
        },
    }
}

/// The entries `t` ranked by count, largest first, ties in their order in `t`.
pub fn rank_entries(t: &Vec<(Vec<char>, usize)>) -> (r: Vec<(Vec<char>, usize)>)
    ensures
        entry_views(r@) == ranked(entry_views(t@)),
{
    let ghost tv = entry_views(t@);
    let mut out: Vec<(Vec<char>, usize)> = Vec::new();
    let mut i: usize = 0;
    assert(entry_views(out@) =~= ranked(tv.take(0)));
    while i < t.len()
        invariant
            i <= t@.len(),
            tv == entry_views(t@),
            entry_views(out@) == ranked(tv.take(i as int)),
        decreases t.len() - i,
    {
        let ghost r = ranked(tv.take(i as int));
        let c = t[i].1;
        proof {
            lemma_ranked_sorted(tv.take(i as int));
            lemma_insert_position(r, c as nat);
            assert(tv.take(i + 1).drop_last() =~= tv.take(i as int));
            assert(tv.take(i + 1).last() == tv[i as int]);
        }
        let mut q: usize = 0;
        while q < out.len() && out[q].1 >= c
            invariant
                q <= out@.len(),
                entry_views(out@) == r,
                forall|m: int| 0 <= m < q ==> out@[m].1 >= c,
            decreases out.len() - q,
        {
            q = q + 1;
        }
        proof {
            let ip = insert_position(r, c as nat);
            if q < ip {
                assert(r[q as int].1 >= c);
            }
            if q > ip {
                assert(r[ip].1 < c);
                assert(out@[ip].1 >= c);
            }
        }
        let key = copy_chars(&t[i].0);
        out.insert(q, (key, c));
        assert(entry_views(out@) =~= r.insert(q as int, tv[i as int]));
        i = i + 1;
    }
    assert(tv.take(t.len() as int) =~= tv);
    out
}

} // verus!
