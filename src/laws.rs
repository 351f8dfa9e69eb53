//! Laws of grouping, proved over the specifications the grouping functions
//! are verified against.
use vstd::prelude::*;

use crate::group::{
    add_key, group, insert_entry, key_of, keys, lemma_lt_irrefl, lemma_lt_total, lemma_lt_trans, path_lt, seq_lt,
    sort_into, sort_by_path, forest, level, EntryView, GroupBy,
};
use crate::resource::{bucket_total, same_kind, sum_spec, Resource, ResourceQualifier};

verus! {

/// Sum of two optional amounts, an absent one adding nothing.
pub open spec fn osum(a: Option<int>, b: Option<int>) -> Option<int> {
    match (a, b) {
        (Some(x), Some(y)) => Some(x + y),
        (Some(x), None) => Some(x),
        (None, _) => b,
    }
}

/// The sum, over the keys `ks`, of the totals for qualifier `q` of the groups
/// of `rs` along `g`.
pub open spec fn keys_sum(rs: Seq<Resource>, g: GroupBy, ks: Seq<Seq<char>>, q: ResourceQualifier) -> Option<int>
    decreases ks.len(),
{
    if ks.len() == 0 {
        None
    } else {
        osum(bucket_total(group(rs, g, ks[0]), q), keys_sum(rs, g, ks.drop_first(), q))
    }
}

/// Every record has a key along `g`.
pub open spec fn all_keyed(rs: Seq<Resource>, g: GroupBy) -> bool {
    forall|i: int| 0 <= i < rs.len() ==> (#[trigger] key_of(g, rs[i])) is Some
}

/// No key is listed twice.
pub open spec fn no_dup(ks: Seq<Seq<char>>) -> bool {
    forall|i: int, j: int| 0 <= i < j < ks.len() ==> #[trigger] ks[i] != #[trigger] ks[j]
}

proof fn lemma_keys_nodup(rs: Seq<Resource>, g: GroupBy)
    ensures
        no_dup(keys(rs, g)),
    decreases rs.len(),
{
    if rs.len() > 0 {
        lemma_keys_nodup(rs.drop_last(), g);
        let ks = keys(rs.drop_last(), g);
        if let Some(k) = key_of(g, rs.last()) {
            if !ks.contains(k) {
                let r = ks.push(k);
                assert forall|i: int, j: int| 0 <= i < j < r.len() implies #[trigger] r[i] != #[trigger] r[j] by {
                    if j == ks.len() {
                        assert(r[i] == ks[i]);
                    } else {
                        assert(r[i] == ks[i] && r[j] == ks[j]);
                    }
                }
            }
        }
    }
}

/// A key that no record of `rs` has names an empty group.
proof fn lemma_group_empty(rs: Seq<Resource>, g: GroupBy, k: Seq<char>)
    requires
        !keys(rs, g).contains(k),
    ensures
        group(rs, g, k).len() == 0,
    decreases rs.len(),
{
    if rs.len() > 0 {
        let prev = rs.drop_last();
        let ks = keys(prev, g);
        if let Some(x) = key_of(g, rs.last()) {
            if !ks.contains(x) {
                assert(ks.push(x)[ks.len() as int] == x);
            }
            assert(keys(rs, g).contains(x));
            if ks.contains(k) {
                let l = choose|l: int| 0 <= l < ks.len() && ks[l] == k;
                if !ks.contains(x) {
                    assert(ks.push(x)[l] == k);
                }
            }
        }
        lemma_group_empty(prev, g, k);
    }
}

/// What the last record adds to the total of qualifier `q`.
pub open spec fn share(r: Resource, q: ResourceQualifier) -> Option<int> {
    if r.qualifier == q {
        Some(r.quantity.attos as int)
    } else {
        None
    }
}

proof fn lemma_group_push(prev: Seq<Resource>, r: Resource, g: GroupBy, x: Seq<char>, q: ResourceQualifier)
    ensures
        bucket_total(group(prev.push(r), g, x), q) == if key_of(g, r) == Some(x) {
            osum(bucket_total(group(prev, g, x), q), share(r, q))
        } else {
            bucket_total(group(prev, g, x), q)
        },
{
    let rs = prev.push(r);
    assert(rs.drop_last() =~= prev);
    assert(rs.last() == r);
    if key_of(g, r) == Some(x) {
        let gp = group(prev, g, x);
        assert(gp.push(r).drop_last() =~= gp);
    }
}

/// Over keys each listed once, adding a record to the groups changes the sum
/// by its share exactly where its key is listed.
proof fn lemma_keys_sum_push(prev: Seq<Resource>, r: Resource, g: GroupBy, ks: Seq<Seq<char>>, q: ResourceQualifier)
    requires
        key_of(g, r) is Some,
        no_dup(ks),
    ensures
        keys_sum(prev.push(r), g, ks, q) == if ks.contains(key_of(g, r)->Some_0) {
            osum(keys_sum(prev, g, ks, q), share(r, q))
        } else {
            keys_sum(prev, g, ks, q)
        },
    decreases ks.len(),
{
    let k = key_of(g, r)->Some_0;
    if ks.len() > 0 {
        let rest = ks.drop_first();
        assert(no_dup(rest)) by {
            assert forall|i: int, j: int| 0 <= i < j < rest.len() implies #[trigger] rest[i] != #[trigger] rest[j] by {
                assert(rest[i] == ks[i + 1] && rest[j] == ks[j + 1]);
            }
        }
        lemma_keys_sum_push(prev, r, g, rest, q);
        lemma_group_push(prev, r, g, ks[0], q);
        if ks[0] == k {
            assert(!rest.contains(k)) by {
                if rest.contains(k) {
                    let l = choose|l: int| 0 <= l < rest.len() && rest[l] == k;
                    assert(ks[l + 1] == k);
                }
            }
            assert(ks.contains(k)) by {
                assert(ks[0] == k);
            }
        } else {
            assert(ks.contains(k) == rest.contains(k)) by {
                if ks.contains(k) {
                    let l = choose|l: int| 0 <= l < ks.len() && ks[l] == k;
                    assert(rest[l - 1] == k);
                }
                if rest.contains(k) {
                    let l = choose|l: int| 0 <= l < rest.len() && rest[l] == k;
                    assert(ks[l + 1] == k);
                }
            }
        }
    }
}

proof fn lemma_osum_swap(a: Option<int>, b: Option<int>, c: Option<int>)
    ensures
        osum(a, osum(b, c)) == osum(b, osum(a, c)),
        osum(a, b) == osum(b, a),
        osum(osum(a, b), c) == osum(a, osum(b, c)),
{
}

/// Listing one more key adds its group's total to the sum.
proof fn lemma_keys_sum_append(rs: Seq<Resource>, g: GroupBy, ks: Seq<Seq<char>>, k: Seq<char>, q: ResourceQualifier)
    ensures
        keys_sum(rs, g, ks.push(k), q) == osum(bucket_total(group(rs, g, k), q), keys_sum(rs, g, ks, q)),
    decreases ks.len(),
{
    let r = ks.push(k);
    if ks.len() == 0 {
        assert(r.drop_first() =~= Seq::<Seq<char>>::empty());
        assert(keys_sum(rs, g, r.drop_first(), q) == None::<int>);
    } else {
        assert(r.drop_first() =~= ks.drop_first().push(k));
        assert(r[0] == ks[0]);
        lemma_keys_sum_append(rs, g, ks.drop_first(), k, q);
        lemma_osum_swap(
            bucket_total(group(rs, g, ks[0]), q),
            bucket_total(group(rs, g, k), q),
            keys_sum(rs, g, ks.drop_first(), q),
        );
    }
}

/// A group's total for each role is the sum of the totals of its subgroups
/// along a further dimension, when every record of the group has a key along
/// that dimension.
pub proof fn lemma_parent_is_sum_of_children(rs: Seq<Resource>, g: GroupBy, q: ResourceQualifier)
    requires
        all_keyed(rs, g),
    ensures
        bucket_total(rs, q) == keys_sum(rs, g, keys(rs, g), q),
    decreases rs.len(),
{
    if rs.len() > 0 {
        let prev = rs.drop_last();
        let r = rs.last();
        assert(rs =~= prev.push(r));
        assert(all_keyed(prev, g)) by {
            assert forall|i: int| 0 <= i < prev.len() implies (#[trigger] key_of(g, prev[i])) is Some by {
                assert(prev[i] == rs[i]);
            }
        }
        lemma_parent_is_sum_of_children(prev, g, q);
        assert(key_of(g, rs[rs.len() - 1]) is Some);
        let k = key_of(g, r)->Some_0;
        let ks = keys(prev, g);
        lemma_keys_nodup(prev, g);
        lemma_keys_sum_push(prev, r, g, ks, q);
        if !ks.contains(k) {
            lemma_keys_sum_append(rs, g, ks, k, q);
            lemma_group_empty(prev, g, k);
            lemma_group_push(prev, r, g, k, q);
            assert(group(prev, g, k) =~= Seq::<Resource>::empty());
        }
    }
}

/// The two record lists hold the same records, each as often.
pub open spec fn is_permutation(a: Seq<Resource>, b: Seq<Resource>) -> bool {
    a.to_multiset() == b.to_multiset()
}

proof fn lemma_perm_contains(a: Seq<Resource>, b: Seq<Resource>, r: Resource)
    requires
        is_permutation(a, b),
    ensures
        a.contains(r) <==> b.contains(r),
{
    a.to_multiset_ensures();
    b.to_multiset_ensures();
    assert(a.to_multiset().count(r) == b.to_multiset().count(r));
}

proof fn lemma_bucket_remove(s: Seq<Resource>, i: int, q: ResourceQualifier)
    requires
        0 <= i < s.len(),
    ensures
        bucket_total(s, q) == osum(bucket_total(s.remove(i), q), share(s[i], q)),
    decreases s.len(),
{
    let prev = s.drop_last();
    if i == s.len() - 1 {
        assert(s.remove(i) =~= prev);
    } else {
        lemma_bucket_remove(prev, i, q);
        assert(s.remove(i) =~= prev.remove(i).push(s.last()));
        assert(s.remove(i).drop_last() =~= prev.remove(i));
        lemma_osum_swap(bucket_total(prev.remove(i), q), share(s[i], q), share(s.last(), q));
        lemma_osum_swap(bucket_total(prev.remove(i), q), share(s.last(), q), share(s[i], q));
    }
}

proof fn lemma_bucket_perm(a: Seq<Resource>, b: Seq<Resource>, q: ResourceQualifier)
    requires
        is_permutation(a, b),
    ensures
        bucket_total(a, q) == bucket_total(b, q),
    decreases a.len(),
{
    a.to_multiset_ensures();
    b.to_multiset_ensures();
    if a.len() == 0 {
        assert(b.len() == 0);
    } else {
        let prev = a.drop_last();
        let x = a.last();
        assert(a =~= prev.push(x));
        prev.to_multiset_ensures();
        assert(a.to_multiset().count(x) > 0);
        assert(b.contains(x));
        let i = choose|i: int| 0 <= i < b.len() && b[i] == x;
        assert(b.remove(i).to_multiset() =~= prev.to_multiset());
        lemma_bucket_perm(prev, b.remove(i), q);
        lemma_bucket_remove(b, i, q);
    }
}

proof fn lemma_same_kind_perm(a: Seq<Resource>, b: Seq<Resource>)
    requires
        is_permutation(a, b),
        same_kind(a),
    ensures
        same_kind(b),
{
    assert forall|j: int| 0 <= j < b.len() implies (#[trigger] b[j]).kind@ == b[0].kind@ by {
        assert(b.contains(b[j]));
        assert(b.contains(b[0]));
        lemma_perm_contains(a, b, b[j]);
        lemma_perm_contains(a, b, b[0]);
        let p = choose|p: int| 0 <= p < a.len() && a[p] == b[j];
        let r = choose|r: int| 0 <= r < a.len() && a[r] == b[0];
    }
}

/// The totals of a group do not depend on the order of its records.
pub proof fn lemma_sum_perm(a: Seq<Resource>, b: Seq<Resource>)
    requires
        is_permutation(a, b),
    ensures
        sum_spec(a) == sum_spec(b),
{
    a.to_multiset_ensures();
    b.to_multiset_ensures();
    if same_kind(a) {
        lemma_same_kind_perm(a, b);
    }
    if same_kind(b) {
        b.to_multiset_ensures();
        assert(is_permutation(b, a));
        lemma_same_kind_perm(b, a);
    }
    lemma_bucket_perm(a, b, ResourceQualifier::Limit);
    lemma_bucket_perm(a, b, ResourceQualifier::Requested);
    lemma_bucket_perm(a, b, ResourceQualifier::Allocatable);
    lemma_bucket_perm(a, b, ResourceQualifier::Utilization);
}


/// Some entry of `s` has path `p`.
pub open spec fn has_path(s: Seq<EntryView>, p: Seq<Seq<char>>) -> bool {
    exists|i: int| 0 <= i < s.len() && #[trigger] s[i].0 == p
}

/// No entry's path comes before the path of an entry ahead of it.
pub open spec fn path_sorted(s: Seq<EntryView>) -> bool {
    forall|i: int, j: int| 0 <= i < j < s.len() ==> !path_lt(#[trigger] s[j].0, #[trigger] s[i].0)
}

/// `p` is a prefix of `c`.
pub open spec fn is_prefix(p: Seq<Seq<char>>, c: Seq<Seq<char>>) -> bool {
    p.len() <= c.len() && c.subrange(0, p.len() as int) == p
}

proof fn lemma_path_lt_irrefl(a: Seq<Seq<char>>)
    ensures
        !path_lt(a, a),
    decreases a.len(),
{
    if a.len() > 0 {
        lemma_path_lt_irrefl(a.drop_first());
    }
}

proof fn lemma_path_lt_trans(a: Seq<Seq<char>>, b: Seq<Seq<char>>, c: Seq<Seq<char>>)
    requires
        path_lt(a, b),
        path_lt(b, c),
    ensures
        path_lt(a, c),
    decreases a.len(),
{
    if a.len() > 0 {
        if a[0] != b[0] {
            if b[0] != c[0] {
                lemma_lt_trans(a[0], b[0], c[0]);
                if a[0] == c[0] {
                    lemma_lt_irrefl(a[0]);
                }
            }
        } else if b[0] != c[0] {
        } else {
            lemma_path_lt_trans(a.drop_first(), b.drop_first(), c.drop_first());
        }
    }
}

proof fn lemma_insert_entry(es: Seq<EntryView>, e: EntryView)
    requires
        path_sorted(es),
    ensures
        path_sorted(insert_entry(es, e)),
        forall|x: Seq<Seq<char>>| #[trigger] has_path(insert_entry(es, e), x) <==> (has_path(es, x) || e.0 == x),
    decreases es.len(),
{
    let r = insert_entry(es, e);
    if es.len() == 0 {
        assert forall|x: Seq<Seq<char>>| #[trigger] has_path(r, x) <==> (has_path(es, x) || e.0 == x) by {
            if e.0 == x {
                assert(r[0].0 == x);
            }
        }
    } else if path_lt(e.0, es[0].0) {
        assert forall|i: int, j: int| 0 <= i < j < r.len() implies !path_lt(#[trigger] r[j].0, #[trigger] r[i].0) by {
            assert(r[j] == es[j - 1]);
            if i > 0 {
                assert(r[i] == es[i - 1]);
            } else {
                lemma_path_lt_irrefl(es[0].0);
                if path_lt(es[j - 1].0, e.0) {
                    lemma_path_lt_trans(es[j - 1].0, e.0, es[0].0);
                    if j - 1 == 0 {
                    }
                }
            }
        }
        assert forall|x: Seq<Seq<char>>| #[trigger] has_path(r, x) <==> (has_path(es, x) || e.0 == x) by {
            if has_path(es, x) {
                let i = choose|i: int| 0 <= i < es.len() && #[trigger] es[i].0 == x;
                assert(r[i + 1] == es[i]);
            }
            if e.0 == x {
                assert(r[0].0 == x);
            }
            if has_path(r, x) {
                let i = choose|i: int| 0 <= i < r.len() && #[trigger] r[i].0 == x;
                if i > 0 {
                    assert(r[i] == es[i - 1]);
                }
            }
        }
    } else {
        let rest = es.drop_first();
        assert(path_sorted(rest)) by {
            assert forall|i: int, j: int| 0 <= i < j < rest.len() implies !path_lt(#[trigger] rest[j].0, #[trigger] rest[i].0) by {
                assert(rest[i] == es[i + 1] && rest[j] == es[j + 1]);
            }
        }
        lemma_insert_entry(rest, e);
        let sub = insert_entry(rest, e);
        assert(r == seq![es[0]] + sub);
        assert forall|i: int, j: int| 0 <= i < j < r.len() implies !path_lt(#[trigger] r[j].0, #[trigger] r[i].0) by {
            assert(r[j] == sub[j - 1]);
            if i > 0 {
                assert(r[i] == sub[i - 1]);
            } else {
                assert(has_path(sub, sub[j - 1].0));
                if sub[j - 1].0 != e.0 {
                    let l = choose|l: int| 0 <= l < rest.len() && #[trigger] rest[l].0 == sub[j - 1].0;
                    assert(es[l + 1] == rest[l]);
                }
            }
        }
        assert forall|x: Seq<Seq<char>>| #[trigger] has_path(r, x) <==> (has_path(es, x) || e.0 == x) by {
            if has_path(es, x) {
                let i = choose|i: int| 0 <= i < es.len() && #[trigger] es[i].0 == x;
                if i > 0 {
                    assert(rest[i - 1] == es[i]);
                    assert(rest[i - 1].0 == x);
                    assert(has_path(rest, x));
                    assert(has_path(sub, x));
                    let l = choose|l: int| 0 <= l < sub.len() && #[trigger] sub[l].0 == x;
                    assert(r[l + 1] == sub[l]);
                } else {
                    assert(r[0].0 == x);
                }
            }
            if e.0 == x {
                assert(has_path(sub, x));
                let l = choose|l: int| 0 <= l < sub.len() && #[trigger] sub[l].0 == x;
                assert(r[l + 1] == sub[l]);
            }
            if has_path(r, x) {
                let i = choose|i: int| 0 <= i < r.len() && #[trigger] r[i].0 == x;
                if i > 0 {
                    assert(r[i] == sub[i - 1]);
                    assert(has_path(sub, x));
                    if has_path(rest, x) {
                        let l = choose|l: int| 0 <= l < rest.len() && #[trigger] rest[l].0 == x;
                        assert(es[l + 1] == rest[l]);
                    }
                } else {
                    assert(es[0].0 == x);
                }
            }
        }
    }
}

proof fn lemma_sort_into(acc: Seq<EntryView>, es: Seq<EntryView>)
    requires
        path_sorted(acc),
    ensures
        path_sorted(sort_into(acc, es)),
        forall|x: Seq<Seq<char>>| #[trigger] has_path(sort_into(acc, es), x) <==> (has_path(acc, x) || has_path(es, x)),
    decreases es.len(),
{
    if es.len() > 0 {
        lemma_insert_entry(acc, es[0]);
        lemma_sort_into(insert_entry(acc, es[0]), es.drop_first());
        assert forall|x: Seq<Seq<char>>| #[trigger] has_path(sort_into(acc, es), x) <==> (has_path(acc, x) || has_path(es, x)) by {
            let rest = es.drop_first();
            if has_path(es, x) {
                let i = choose|i: int| 0 <= i < es.len() && #[trigger] es[i].0 == x;
                if i > 0 {
                    assert(rest[i - 1] == es[i]);
                }
            }
            if has_path(rest, x) {
                let i = choose|i: int| 0 <= i < rest.len() && #[trigger] rest[i].0 == x;
                assert(es[i + 1] == rest[i]);
            }
        }
    }
}


/// Each entry of `f` lies strictly below `prefix`, and each entry more than
/// one level below it has its parent's path in `f` too.
pub open spec fn closed_below(f: Seq<EntryView>, prefix: Seq<Seq<char>>) -> bool {
    forall|i: int|
        0 <= i < f.len() ==> prefix.len() < (#[trigger] f[i]).0.len() && is_prefix(prefix, f[i].0) && (f[i].0.len()
            > prefix.len() + 1 ==> has_path(f, f[i].0.drop_last()))
}

proof fn lemma_has_path_concat(a: Seq<EntryView>, b: Seq<EntryView>, x: Seq<Seq<char>>)
    ensures
        has_path(a, x) ==> has_path(a + b, x),
        has_path(b, x) ==> has_path(a + b, x),
{
    if has_path(a, x) {
        let i = choose|i: int| 0 <= i < a.len() && #[trigger] a[i].0 == x;
        assert((a + b)[i] == a[i]);
    }
    if has_path(b, x) {
        let i = choose|i: int| 0 <= i < b.len() && #[trigger] b[i].0 == x;
        assert((a + b)[a.len() + i] == b[i]);
    }
}

proof fn lemma_forest_closed(rs: Seq<Resource>, prefix: Seq<Seq<char>>, dims: Seq<GroupBy>)
    ensures
        closed_below(forest(rs, prefix, dims), prefix),
    decreases dims.len(), 1nat, 0nat,
{
    if dims.len() > 0 {
        lemma_level_closed(rs, prefix, dims, keys(rs, dims[0]), 0);
    }
}

proof fn lemma_level_closed(rs: Seq<Resource>, prefix: Seq<Seq<char>>, dims: Seq<GroupBy>, ks: Seq<Seq<char>>, i: int)
    ensures
        closed_below(level(rs, prefix, dims, ks, i), prefix),
    decreases dims.len(), 0nat, ks.len() - i,
{
    if dims.len() == 0 || i < 0 || i >= ks.len() {
    } else {
        let g = group(rs, dims[0], ks[i]);
        let p = prefix.push(ks[i]);
        let head = seq![(p, sum_spec(g))];
        let sub = forest(g, p, dims.drop_first());
        let tail = level(rs, prefix, dims, ks, i + 1);
        let l = level(rs, prefix, dims, ks, i);
        lemma_forest_closed(g, p, dims.drop_first());
        lemma_level_closed(rs, prefix, dims, ks, i + 1);
        assert(l == head + sub + tail);
        assert(p.subrange(0, prefix.len() as int) =~= prefix);
        assert forall|m: int| 0 <= m < l.len() implies prefix.len() < (#[trigger] l[m]).0.len() && is_prefix(prefix, l[m].0)
            && (l[m].0.len() > prefix.len() + 1 ==> has_path(l, l[m].0.drop_last())) by {
            if m == 0 {
                assert(l[0] == (p, sum_spec(g)));
            } else if m < 1 + sub.len() {
                let c = sub[m - 1].0;
                assert(l[m] == sub[m - 1]);
                assert(is_prefix(p, c));
                assert(c.subrange(0, prefix.len() as int) =~= c.subrange(0, p.len() as int).subrange(0, prefix.len() as int));
                if c.len() == p.len() {
                } else if c.len() == p.len() + 1 {
                    assert(c.drop_last() =~= c.subrange(0, p.len() as int));
                    assert(l[0].0 == c.drop_last());
                } else {
                    lemma_has_path_concat(head, sub, c.drop_last());
                    lemma_has_path_concat(head + sub, tail, c.drop_last());
                }
            } else {
                let c = tail[m - 1 - sub.len()].0;
                assert(l[m] == tail[m - 1 - sub.len()]);
                if c.len() > prefix.len() + 1 {
                    lemma_has_path_concat(head + sub, tail, c.drop_last());
                }
            }
        }
    }
}

proof fn lemma_prefix_lt(p: Seq<Seq<char>>, c: Seq<Seq<char>>)
    requires
        is_prefix(p, c),
        p.len() < c.len(),
    ensures
        path_lt(p, c),
    decreases p.len(),
{
    if p.len() > 0 {
        assert(p[0] == c.subrange(0, p.len() as int)[0]);
        assert(c.drop_first().subrange(0, p.len() - 1) =~= p.drop_first()) by {
            assert forall|k: int| 0 <= k < p.len() - 1 implies c.drop_first()[k] == p.drop_first()[k] by {
                assert(c.subrange(0, p.len() as int)[k + 1] == c[k + 1]);
            }
        }
        lemma_prefix_lt(p.drop_first(), c.drop_first());
    }
}

proof fn lemma_between(p: Seq<Seq<char>>, c: Seq<Seq<char>>, x: Seq<Seq<char>>)
    requires
        is_prefix(p, c),
        p.len() < c.len(),
        !path_lt(x, p),
        !path_lt(c, x),
    ensures
        is_prefix(p, x),
    decreases p.len(),
{
    if p.len() == 0 {
        assert(x.subrange(0, 0) =~= p);
    } else {
        assert(p[0] == c.subrange(0, p.len() as int)[0]);
        assert(x.len() > 0);
        if x[0] != p[0] {
            lemma_lt_total(x[0], p[0]);
        } else {
            assert(c.drop_first().subrange(0, p.len() - 1) =~= p.drop_first()) by {
                assert forall|k: int| 0 <= k < p.len() - 1 implies c.drop_first()[k] == p.drop_first()[k] by {
                    assert(c.subrange(0, p.len() as int)[k + 1] == c[k + 1]);
                }
            }
            lemma_between(p.drop_first(), c.drop_first(), x.drop_first());
            assert(x.subrange(0, p.len() as int) =~= p) by {
                assert forall|k: int| 0 <= k < p.len() implies x[k] == p[k] by {
                    if k > 0 {
                        assert(x.drop_first().subrange(0, p.len() - 1)[k - 1] == x[k]);
                    }
                }
            }
        }
    }
}

/// The sorted grouping forest is in pre-order: each entry below the top level
/// comes after the entry of its parent, and every entry between the two lies
/// in the parent's subtree.
pub proof fn lemma_sorted_forest_preorder(rs: Seq<Resource>, dims: Seq<GroupBy>)
    ensures
        ({
            let out = sort_by_path(forest(rs, Seq::empty(), dims));
            forall|i: int|
                0 <= i < out.len() && (#[trigger] out[i]).0.len() > 1 ==> exists|j: int|
                    0 <= j < i && out[j].0 == out[i].0.drop_last() && forall|k: int|
                        j < k < i ==> is_prefix(out[j].0, #[trigger] out[k].0)
        }),
{
    let f = forest(rs, Seq::empty(), dims);
    let out = sort_by_path(f);
    lemma_forest_closed(rs, Seq::empty(), dims);
    lemma_sort_into(Seq::empty(), f);
    assert(!has_path(Seq::<EntryView>::empty(), Seq::<Seq<char>>::empty()));
    assert forall|i: int| 0 <= i < out.len() && (#[trigger] out[i]).0.len() > 1 implies exists|j: int|
        0 <= j < i && out[j].0 == out[i].0.drop_last() && forall|k: int|
            j < k < i ==> is_prefix(out[j].0, #[trigger] out[k].0) by {
        let c = out[i].0;
        let par = c.drop_last();
        assert(has_path(out, c));
        assert(has_path(f, c));
        let m = choose|m: int| 0 <= m < f.len() && #[trigger] f[m].0 == c;
        assert(f[m].0 == c);
        assert(has_path(f, par));
        assert(has_path(out, par));
        let j = choose|j: int| 0 <= j < out.len() && #[trigger] out[j].0 == par;
        assert(is_prefix(par, c)) by {
            assert(c.subrange(0, par.len() as int) =~= par);
        }
        lemma_prefix_lt(par, c);
        if j >= i {
            if j == i {
                assert(par.len() != c.len());
            }
        }
        assert forall|k: int| j < k < i implies is_prefix(out[j].0, #[trigger] out[k].0) by {
            lemma_between(par, c, out[k].0);
        }
    }
}

} // verus!
