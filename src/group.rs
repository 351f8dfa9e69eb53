//! Grouping measurement records into an ordered forest of per-group totals.
use vstd::prelude::*;

use crate::resource::{
    Resource,
    QtyByQualifier,
    deref_seq,
    sum_by_qualifier,
    sum_spec,
    sum_view,
    total_attos,
};

verus! {

/// A dimension records can be grouped by.
#[derive(Clone, Copy, Debug, PartialEq, Eq, Structural)]
#[allow(non_camel_case_types)]
pub enum GroupBy {
    resource,
    node,
    pod,
    namespace,
}

/// One entry of a grouping forest, as values: its key path and its totals.
pub type EntryView = (Seq<Seq<char>>, Option<(Option<int>, Option<int>, Option<int>, Option<int>)>);

pub open spec fn opt_view(o: Option<String>) -> Option<Seq<char>> {
    match o {
        Some(s) => Some(s@),
        None => None,
    }
}

pub open spec fn strs_view(v: Seq<String>) -> Seq<Seq<char>> {
    v.map_values(|s: String| s@)
}

pub open spec fn entries_view(v: Seq<(Vec<String>, Option<QtyByQualifier>)>) -> Seq<EntryView> {
    v.map_values(|e: (Vec<String>, Option<QtyByQualifier>)| (strs_view(e.0@), sum_view(e.1)))
}

pub open spec fn pods_kind() -> Seq<char> {
    seq!['p', 'o', 'd', 's']
}

/// The key of a record along a dimension; `None` leaves the record out of
/// that level. The per-pod count is left out when grouping by pod.
pub open spec fn key_of(g: GroupBy, r: Resource) -> Option<Seq<char>> {
    match g {
        GroupBy::resource => Some(r.kind@),
        GroupBy::node => opt_view(r.location.node_name),
        GroupBy::pod => if r.kind@ == pods_kind() {
            None
        } else {
            opt_view(r.location.pod_name)
        },
        GroupBy::namespace => opt_view(r.location.namespace),
    }
}

/// `a` comes before `b` in lexicographic order of characters.
pub open spec fn seq_lt(a: Seq<char>, b: Seq<char>) -> bool
    decreases a.len(),
{
    if a.len() == 0 {
        b.len() > 0
    } else if b.len() == 0 {
        false
    } else if a[0] != b[0] {
        (a[0] as int) < (b[0] as int)
    } else {
        seq_lt(a.drop_first(), b.drop_first())
    }
}

/// `a` comes before `b` in lexicographic order of key paths.
pub open spec fn path_lt(a: Seq<Seq<char>>, b: Seq<Seq<char>>) -> bool
    decreases a.len(),
{
    if a.len() == 0 {
        b.len() > 0
    } else if b.len() == 0 {
        false
    } else if a[0] != b[0] {
        seq_lt(a[0], b[0])
    } else {
        path_lt(a.drop_first(), b.drop_first())
    }
}

/// Puts entry `e` into the path-ordered list `es`, after the entries whose
/// paths do not come after its own.
pub open spec fn insert_entry(es: Seq<EntryView>, e: EntryView) -> Seq<EntryView>
    decreases es.len(),
{
    if es.len() == 0 {
        seq![e]
    } else if path_lt(e.0, es[0].0) {
        seq![e] + es
    } else {
        seq![es[0]] + insert_entry(es.drop_first(), e)
    }
}

/// The entries of `es`, in turn, put into the path-ordered list `acc`: a
/// stable sort by path.
pub open spec fn sort_into(acc: Seq<EntryView>, es: Seq<EntryView>) -> Seq<EntryView>
    decreases es.len(),
{
    if es.len() == 0 {
        acc
    } else {
        sort_into(insert_entry(acc, es[0]), es.drop_first())
    }
}

/// The entries sorted by path, entries with equal paths kept in their order.
pub open spec fn sort_by_path(es: Seq<EntryView>) -> Seq<EntryView> {
    sort_into(Seq::empty(), es)
}

pub(crate) proof fn lemma_lt_irrefl(a: Seq<char>)
    ensures
        !seq_lt(a, a),
    decreases a.len(),
{
    if a.len() > 0 {
        lemma_lt_irrefl(a.drop_first());
    }
}

pub(crate) proof fn lemma_lt_trans(a: Seq<char>, b: Seq<char>, c: Seq<char>)
    requires
        seq_lt(a, b),
        seq_lt(b, c),
    ensures
        seq_lt(a, c),
    decreases a.len(),
{
    if a.len() > 0 && b.len() > 0 && c.len() > 0 && a[0] == b[0] && b[0] == c[0] {
        lemma_lt_trans(a.drop_first(), b.drop_first(), c.drop_first());
    }
}

pub(crate) proof fn lemma_lt_total(a: Seq<char>, b: Seq<char>)
    requires
        a != b,
    ensures
        seq_lt(a, b) || seq_lt(b, a),
    decreases a.len(),
{
    if a.len() > 0 && b.len() > 0 && a[0] == b[0] {
        if a.drop_first() == b.drop_first() {
            assert(a =~= seq![a[0]] + a.drop_first());
            assert(b =~= seq![b[0]] + b.drop_first());
        }
        lemma_lt_total(a.drop_first(), b.drop_first());
    } else if a.len() == 0 && b.len() == 0 {
        assert(a =~= b);
    } else if a.len() > 0 && b.len() > 0 {
        assert((a[0] as int) != (b[0] as int));
    }
}

/// Adds `k` at the end of the key list `ks`, where it is not there already.
pub open spec fn add_key(ks: Seq<Seq<char>>, k: Seq<char>) -> Seq<Seq<char>> {
    if ks.contains(k) {
        ks
    } else {
        ks.push(k)
    }
}

/// The distinct keys of the records along a dimension, in order of first
/// appearance.
pub open spec fn keys(rs: Seq<Resource>, g: GroupBy) -> Seq<Seq<char>>
    decreases rs.len(),
{
    if rs.len() == 0 {
        Seq::empty()
    } else {
        match key_of(g, rs.last()) {
            Some(k) => add_key(keys(rs.drop_last(), g), k),
            None => keys(rs.drop_last(), g),
        }
    }
}

/// The records whose key along `g` is `k`, in their order.
pub open spec fn group(rs: Seq<Resource>, g: GroupBy, k: Seq<char>) -> Seq<Resource>
    decreases rs.len(),
{
    if rs.len() == 0 {
        Seq::empty()
    } else if key_of(g, rs.last()) == Some(k) {
        group(rs.drop_last(), g, k).push(rs.last())
    } else {
        group(rs.drop_last(), g, k)
    }
}

/// The forest of the records under `prefix`, grouped by `dims` in turn: for
/// each key of the first dimension, in order of first appearance, the group's
/// entry followed by
/// the forest of that group under the rest of the dimensions.
pub open spec fn forest(rs: Seq<Resource>, prefix: Seq<Seq<char>>, dims: Seq<GroupBy>) -> Seq<EntryView>
    decreases dims.len(), 1nat, 0nat,
{
    if dims.len() == 0 {
        Seq::empty()
    } else {
        level(rs, prefix, dims, keys(rs, dims[0]), 0)
    }
}

/// The part of `forest(rs, prefix, dims)` that the keys from the `i`-th on give.
pub open spec fn level(rs: Seq<Resource>, prefix: Seq<Seq<char>>, dims: Seq<GroupBy>, ks: Seq<Seq<char>>, i: int) -> Seq<EntryView>
    decreases dims.len(), 0nat, ks.len() - i,
{
    if dims.len() == 0 || i < 0 || i >= ks.len() {
        Seq::empty()
    } else {
        let g = group(rs, dims[0], ks[i]);
        let p = prefix.push(ks[i]);
        seq![(p, sum_spec(g))] + forest(g, p, dims.drop_first()) + level(rs, prefix, dims, ks, i + 1)
    }
}

/// Whether `x` occurs in `s` as a run of characters.
pub open spec fn contains_at(s: Seq<char>, x: Seq<char>, i: int) -> bool {
    0 <= i && i + x.len() <= s.len() && s.subrange(i, i + x.len()) == x
}

pub open spec fn is_substring(x: Seq<char>, s: Seq<char>) -> bool {
    exists|i: int| contains_at(s, x, i)
}

/// A resource name passes the filter when the filter is empty or one of its
/// words occurs in the name.
pub open spec fn accepted(name: Seq<char>, filter: Seq<Seq<char>>) -> bool {
    filter.len() == 0 || exists|j: int| 0 <= j < filter.len() && is_substring(#[trigger] filter[j], name)
}

/// The records whose kind passes the filter, in their order.
pub open spec fn filter_kinds(rs: Seq<Resource>, filter: Seq<Seq<char>>) -> Seq<Resource>
    decreases rs.len(),
{
    if rs.len() == 0 {
        Seq::empty()
    } else if accepted(rs.last().kind@, filter) {
        filter_kinds(rs.drop_last(), filter).push(rs.last())
    } else {
        filter_kinds(rs.drop_last(), filter)
    }
}

pub(crate) fn opt_clone(o: &Option<String>) -> (r: Option<String>)
    ensures
        opt_view(r) == opt_view(*o),
{
    match o {
        Some(s) => Some(s.clone()),
        None => None,
    }
}

/// Whether the characters of `a` and `b` are the same.
pub(crate) fn str_eq(a: &str, b: &str) -> (r: bool)
    ensures
        r == (a@ == b@),
{
    let n = a.unicode_len();
    let m = b.unicode_len();
    if n != m {
        return false;
    }
    let mut i: usize = 0;
    while i < n
        invariant
            i <= n,
            n == a@.len(),
            m == b@.len(),
            n == m,
            forall|j: int| 0 <= j < i ==> a@[j] == b@[j],
        decreases n - i,
    {
        if a.get_char(i) != b.get_char(i) {
            return false;
        }
        i = i + 1;
    }
    assert(a@ =~= b@);
    true
}

impl GroupBy {
    /// The key of a record along this dimension.
    pub fn extract(&self, e: &Resource) -> (r: Option<String>)
        ensures
            opt_view(r) == key_of(*self, *e),
    {
        match self {
            GroupBy::resource => Some(e.kind.clone()),
            GroupBy::node => opt_clone(&e.location.node_name),
            GroupBy::pod => {
                proof {
                    reveal_strlit("pods");
                    assert("pods"@ =~= pods_kind());
                }
                if str_eq(e.kind.as_str(), "pods") {
                    None
                } else {
                    opt_clone(&e.location.pod_name)
                }
            },
            GroupBy::namespace => opt_clone(&e.location.namespace),
        }
    }
}

proof fn lemma_seq_lt_step(a: Seq<char>, b: Seq<char>, i: int)
    requires
        0 <= i < a.len(),
        i < b.len(),
        a[i] == b[i],
    ensures
        seq_lt(a.subrange(i, a.len() as int), b.subrange(i, b.len() as int)) == seq_lt(
            a.subrange(i + 1, a.len() as int),
            b.subrange(i + 1, b.len() as int),
        ),
{
    assert(a.subrange(i, a.len() as int).drop_first() =~= a.subrange(i + 1, a.len() as int));
    assert(b.subrange(i, b.len() as int).drop_first() =~= b.subrange(i + 1, b.len() as int));
}

/// Whether `a` comes before `b` in lexicographic order of characters.
pub(crate) fn str_lt(a: &str, b: &str) -> (r: bool)
    ensures
        r == seq_lt(a@, b@),
{
    let n = a.unicode_len();
    let m = b.unicode_len();
    let mut i: usize = 0;
    assert(a@.subrange(0, n as int) =~= a@);
    assert(b@.subrange(0, m as int) =~= b@);
    while i < n && i < m
        invariant
            i <= n,
            i <= m,
            n == a@.len(),
            m == b@.len(),
            seq_lt(a@, b@) == seq_lt(a@.subrange(i as int, n as int), b@.subrange(i as int, m as int)),
        decreases n - i,
    {
        let ca = a.get_char(i);
        let cb = b.get_char(i);
        if ca != cb {
            return (ca as u32) < (cb as u32);
        }
        proof {
            lemma_seq_lt_step(a@, b@, i as int);
        }
        i = i + 1;
    }
    i == n && i < m
}

/// Adds `k` at the end of `ks`, where it is not there already.
fn push_new_key(ks: &mut Vec<String>, k: String)
    ensures
        strs_view(final(ks)@) == add_key(strs_view(old(ks)@), k@),
{
    let ghost v = strs_view(ks@);
    let mut j: usize = 0;
    while j < ks.len()
        invariant
            j <= ks@.len(),
            ks@ == old(ks)@,
            v == strs_view(ks@),
            forall|l: int| 0 <= l < j ==> v[l] != k@,
        decreases ks@.len() - j,
    {
        if ks[j] == k {
            assert(v[j as int] == k@);
            assert(v.contains(k@));
            return;
        }
        j = j + 1;
    }
    assert(!v.contains(k@));
    ks.push(k);
    assert(strs_view(ks@) =~= v.push(k@));
}

/// The distinct keys of the records along `g`, in order of first appearance.
fn collect_keys(rsrcs: &[&Resource], g: GroupBy) -> (r: Vec<String>)
    ensures
        strs_view(r@) == keys(deref_seq(rsrcs@), g),
{
    let ghost rs = deref_seq(rsrcs@);
    let mut ks: Vec<String> = Vec::new();
    let mut i: usize = 0;
    assert(strs_view(ks@) =~= Seq::<Seq<char>>::empty());
    while i < rsrcs.len()
        invariant
            i <= rs.len(),
            rs == deref_seq(rsrcs@),
            strs_view(ks@) == keys(rs.take(i as int), g),
        decreases rs.len() - i,
    {
        assert(rs.take(i + 1).drop_last() =~= rs.take(i as int));
        assert(rs[i as int] == *rsrcs@[i as int]);
        match g.extract(rsrcs[i]) {
            Some(k) => push_new_key(&mut ks, k),
            None => {},
        }
        i = i + 1;
    }
    assert(rs.take(rs.len() as int) =~= rs);
    ks
}

/// The records whose key along `g` is `k`, in their order.
fn select<'a>(rsrcs: &[&'a Resource], g: GroupBy, k: &String) -> (r: Vec<&'a Resource>)
    ensures
        deref_seq(r@) == group(deref_seq(rsrcs@), g, k@),
{
    let ghost rs = deref_seq(rsrcs@);
    let mut out: Vec<&'a Resource> = Vec::new();
    let mut i: usize = 0;
    assert(deref_seq(out@) =~= Seq::<Resource>::empty());
    while i < rsrcs.len()
        invariant
            i <= rs.len(),
            rs == deref_seq(rsrcs@),
            deref_seq(out@) == group(rs.take(i as int), g, k@),
        decreases rs.len() - i,
    {
        assert(rs.take(i + 1).drop_last() =~= rs.take(i as int));
        assert(rs[i as int] == *rsrcs@[i as int]);
        let key = g.extract(rsrcs[i]);
        let hit = match &key {
            Some(x) => *x == *k,
            None => false,
        };
        if hit {
            out.push(rsrcs[i]);
            assert(deref_seq(out@) =~= group(rs.take(i as int), g, k@).push(rs[i as int]));
        }
        i = i + 1;
    }
    assert(rs.take(rs.len() as int) =~= rs);
    out
}

proof fn lemma_group_total(rs: Seq<Resource>, g: GroupBy, k: Seq<char>)
    ensures
        total_attos(group(rs, g, k)) <= total_attos(rs),
    decreases rs.len(),
{
    if rs.len() > 0 {
        lemma_group_total(rs.drop_last(), g, k);
        let sub = group(rs.drop_last(), g, k);
        assert(sub.push(rs.last()).drop_last() =~= sub);
    }
}

proof fn lemma_filter_total(rs: Seq<Resource>, filter: Seq<Seq<char>>)
    ensures
        total_attos(filter_kinds(rs, filter)) <= total_attos(rs),
    decreases rs.len(),
{
    if rs.len() > 0 {
        lemma_filter_total(rs.drop_last(), filter);
        let sub = filter_kinds(rs.drop_last(), filter);
        assert(sub.push(rs.last()).drop_last() =~= sub);
    }
}

/// `prefix` with `k` added at the end.
fn path_push(prefix: &[String], k: &String) -> (r: Vec<String>)
    ensures
        strs_view(r@) == strs_view(prefix@).push(k@),
{
    let mut out: Vec<String> = Vec::new();
    let mut j: usize = 0;
    while j < prefix.len()
        invariant
            j <= prefix@.len(),
            out@.len() == j,
            forall|l: int| 0 <= l < j ==> (#[trigger] out@[l])@ == prefix@[l]@,
        decreases prefix@.len() - j,
    {
        let c: String = prefix[j].clone();
        out.push(c);
        j = j + 1;
    }
    let c: String = k.clone();
    out.push(c);
    assert(strs_view(out@) =~= strs_view(prefix@).push(k@));
    out
}

/// The forest of the records under `prefix`, grouped by the dimensions of
/// `group_by` from `group_by_depth` on: each group's entry, with its path and
/// totals, comes right before the entries of its subgroups, and the groups of
/// one level come in the order in which their keys first appear. Past the
/// last dimension the forest is empty.
pub fn make_group_x_qualifier(
    rsrcs: &[&Resource],
    prefix: &[String],
    group_by: &[GroupBy],
    group_by_depth: usize,
) -> (out: Vec<(Vec<String>, Option<QtyByQualifier>)>)
    requires
        total_attos(deref_seq(rsrcs@)) <= u128::MAX,
    ensures
        entries_view(out@) == (if group_by_depth <= group_by@.len() {
            forest(deref_seq(rsrcs@), strs_view(prefix@), group_by@.skip(group_by_depth as int))
        } else {
            Seq::<EntryView>::empty()
        }),
    decreases group_by@.len() - group_by_depth,
{
    let ghost rs = deref_seq(rsrcs@);
    let ghost pv = strs_view(prefix@);
    let ghost dims = group_by@.skip(group_by_depth as int);
    let mut out: Vec<(Vec<String>, Option<QtyByQualifier>)> = Vec::new();
    assert(entries_view(out@) =~= Seq::<EntryView>::empty());
    let n_dims = group_by.len();
    if group_by_depth < n_dims {
        let g = group_by[group_by_depth];
        assert(dims[0] == g);
        assert(dims.drop_first() =~= group_by@.skip(group_by_depth + 1));
        let ks = collect_keys(rsrcs, g);
        let ghost kv = strs_view(ks@);
        let mut i: usize = 0;
        assert(entries_view(out@) + level(rs, pv, dims, kv, 0) =~= level(rs, pv, dims, kv, 0));
        while i < ks.len()
            invariant
                i <= ks@.len(),
                group_by_depth < n_dims,
                n_dims == group_by@.len(),
                rs == deref_seq(rsrcs@),
                pv == strs_view(prefix@),
                dims == group_by@.skip(group_by_depth as int),
                dims.len() > 0,
                dims[0] == g,
                dims.drop_first() == group_by@.skip(group_by_depth + 1),
                kv == strs_view(ks@),
                kv == keys(rs, g),
                total_attos(rs) <= u128::MAX,
                entries_view(out@) + level(rs, pv, dims, kv, i as int) == level(rs, pv, dims, kv, 0),
            decreases ks@.len() - i,
        {
            let grp = select(rsrcs, g, &ks[i]);
            proof {
                lemma_group_total(rs, g, kv[i as int]);
            }
            let key_full = path_push(prefix, &ks[i]);
            let sum = sum_by_qualifier(grp.as_slice());
            let mut children = make_group_x_qualifier(grp.as_slice(), key_full.as_slice(), group_by, group_by_depth + 1);
            let ghost before = out@;
            let ghost kids = children@;
            out.push((key_full, sum));
            out.append(&mut children);
            proof {
                let gs = group(rs, g, kv[i as int]);
                let p = pv.push(kv[i as int]);
                assert(entries_view(out@) =~= entries_view(before) + seq![(p, sum_spec(gs))] + entries_view(kids));
                assert(level(rs, pv, dims, kv, i as int) == seq![(p, sum_spec(gs))] + forest(gs, p, dims.drop_first())
                    + level(rs, pv, dims, kv, i + 1));
                assert(entries_view(out@) + level(rs, pv, dims, kv, i + 1) =~= entries_view(before) + level(rs, pv, dims, kv, i as int));
            }
            i = i + 1;
        }
        assert(level(rs, pv, dims, kv, i as int) =~= Seq::<EntryView>::empty());
        assert(entries_view(out@) =~= level(rs, pv, dims, kv, 0));
    }
    out
}

/// Whether `x` occurs in `s` from position `i`.
fn matches_at(s: &str, n: usize, x: &str, m: usize, i: usize) -> (r: bool)
    requires
        n == s@.len(),
        m == x@.len(),
        i + m <= n,
    ensures
        r == contains_at(s@, x@, i as int),
{
    let mut j: usize = 0;
    while j < m
        invariant
            j <= m,
            n == s@.len(),
            m == x@.len(),
            i + m <= n,
            forall|l: int| 0 <= l < j ==> s@[i + l] == x@[l],
        decreases m - j,
    {
        if s.get_char(i + j) != x.get_char(j) {
            assert(s@.subrange(i as int, i + m)[j as int] != x@[j as int]);
            return false;
        }
        j = j + 1;
    }
    assert(s@.subrange(i as int, i + m) =~= x@);
    true
}

/// Whether `x` occurs in `s` as a run of characters.
fn str_contains(s: &str, x: &str) -> (r: bool)
    ensures
        r == is_substring(x@, s@),
{
    let n = s.unicode_len();
    let m = x.unicode_len();
    if m > n {
        return false;
    }
    if m == 0 {
        assert(s@.subrange(0, 0) =~= x@);
        assert(contains_at(s@, x@, 0));
        return true;
    }
    let mut i: usize = 0;
    while i <= n - m
        invariant
            n == s@.len(),
            m == x@.len(),
            1 <= m <= n,
            i <= n - m + 1,
            forall|l: int| 0 <= l < i ==> !contains_at(s@, x@, l),
        decreases n - m + 1 - i,
    {
        if matches_at(s, n, x, m, i) {
            return true;
        }
        i = i + 1;
    }
    false
}

/// Whether a resource name passes the filter: the filter is empty, or one of
/// its words occurs in the name.
pub fn accept_resource(name: &str, resource_filter: &[String]) -> (r: bool)
    ensures
        r == accepted(name@, strs_view(resource_filter@)),
{
    let ghost f = strs_view(resource_filter@);
    if resource_filter.len() == 0 {
        return true;
    }
    let mut j: usize = 0;
    while j < resource_filter.len()
        invariant
            j <= resource_filter@.len(),
            f == strs_view(resource_filter@),
            forall|l: int| 0 <= l < j ==> !is_substring(#[trigger] f[l], name@),
        decreases resource_filter@.len() - j,
    {
        if str_contains(name, resource_filter[j].as_str()) {
            assert(is_substring(f[j as int], name@));
            return true;
        }
        j = j + 1;
    }
    false
}

proof fn lemma_path_lt_step(a: Seq<Seq<char>>, b: Seq<Seq<char>>, i: int)
    requires
        0 <= i < a.len(),
        i < b.len(),
        a[i] == b[i],
    ensures
        path_lt(a.subrange(i, a.len() as int), b.subrange(i, b.len() as int)) == path_lt(
            a.subrange(i + 1, a.len() as int),
            b.subrange(i + 1, b.len() as int),
        ),
{
    assert(a.subrange(i, a.len() as int).drop_first() =~= a.subrange(i + 1, a.len() as int));
    assert(b.subrange(i, b.len() as int).drop_first() =~= b.subrange(i + 1, b.len() as int));
}

/// Whether path `a` comes before path `b` in lexicographic order.
fn path_less(a: &Vec<String>, b: &Vec<String>) -> (r: bool)
    ensures
        r == path_lt(strs_view(a@), strs_view(b@)),
{
    let ghost va = strs_view(a@);
    let ghost vb = strs_view(b@);
    let n = a.len();
    let m = b.len();
    let mut i: usize = 0;
    assert(va.subrange(0, n as int) =~= va);
    assert(vb.subrange(0, m as int) =~= vb);
    while i < n && i < m
        invariant
            i <= n,
            i <= m,
            n == a@.len(),
            m == b@.len(),
            va == strs_view(a@),
            vb == strs_view(b@),
            path_lt(va, vb) == path_lt(va.subrange(i as int, n as int), vb.subrange(i as int, m as int)),
        decreases n - i,
    {
        if a[i] != b[i] {
            let ghost sa = va.subrange(i as int, n as int);
            let ghost sb = vb.subrange(i as int, m as int);
            assert(sa[0] == va[i as int] && sb[0] == vb[i as int]);
            return str_lt(a[i].as_str(), b[i].as_str());
        }
        proof {
            lemma_path_lt_step(va, vb, i as int);
        }
        i = i + 1;
    }
    i == n && i < m
}

/// Puts `e` into the path-ordered list `acc`, after the entries whose paths do
/// not come after its own.
fn insert_by_path(acc: &mut Vec<(Vec<String>, Option<QtyByQualifier>)>, e: (Vec<String>, Option<QtyByQualifier>))
    ensures
        entries_view(final(acc)@) == insert_entry(entries_view(old(acc)@), entries_view(seq![e])[0]),
{
    let ghost v = entries_view(acc@);
    let ghost ev = entries_view(seq![e])[0];
    let mut j: usize = 0;
    assert(v.skip(0) =~= v);
    assert(v.take(0) + insert_entry(v.skip(0), ev) =~= insert_entry(v, ev));
    while j < acc.len()
        invariant
            j <= acc@.len(),
            acc@ == old(acc)@,
            v == entries_view(acc@),
            ev == entries_view(seq![e])[0],
            ev.0 == strs_view(e.0@),
            insert_entry(v, ev) == v.take(j as int) + insert_entry(v.skip(j as int), ev),
        decreases acc@.len() - j,
    {
        let ghost rest = v.skip(j as int);
        assert(rest[0] == v[j as int]);
        assert(rest.drop_first() =~= v.skip(j + 1));
        if path_less(&e.0, &acc[j].0) {
            acc.insert(j, e);
            assert(entries_view(acc@) =~= v.take(j as int) + (seq![ev] + rest));
            return;
        }
        proof {
            assert(v.take(j as int) + (seq![rest[0]] + insert_entry(v.skip(j + 1), ev)) =~= v.take(j + 1)
                + insert_entry(v.skip(j + 1), ev));
        }
        j = j + 1;
    }
    assert(v.skip(j as int) =~= Seq::<EntryView>::empty());
    assert(v.take(j as int) =~= v);
    acc.push(e);
    assert(entries_view(acc@) =~= v + seq![ev]);
}

/// The entries sorted by path, entries with equal paths kept in their order.
fn sort_entries(es: Vec<(Vec<String>, Option<QtyByQualifier>)>) -> (r: Vec<(Vec<String>, Option<QtyByQualifier>)>)
    ensures
        entries_view(r@) == sort_by_path(entries_view(es@)),
{
    let ghost all = entries_view(es@);
    let mut rest = es;
    let mut acc: Vec<(Vec<String>, Option<QtyByQualifier>)> = Vec::new();
    assert(entries_view(acc@) =~= Seq::<EntryView>::empty());
    while rest.len() > 0
        invariant
            sort_by_path(all) == sort_into(entries_view(acc@), entries_view(rest@)),
        decreases rest@.len(),
    {
        let ghost rv = entries_view(rest@);
        let e = rest.remove(0);
        assert(entries_view(seq![e])[0] == rv[0]);
        assert(entries_view(rest@) =~= rv.drop_first());
        insert_by_path(&mut acc, e);
    }
    assert(entries_view(rest@) =~= Seq::<EntryView>::empty());
    acc
}

/// The forest of the records whose kind passes the filter, grouped by the
/// dimensions of `group_by` in turn, then sorted by path.
pub fn make_qualifiers(
    rsrcs: &[Resource],
    group_by: &[GroupBy],
    resource_names: &[String],
) -> (r: Vec<(Vec<String>, Option<QtyByQualifier>)>)
    requires
        total_attos(rsrcs@) <= u128::MAX,
    ensures
        entries_view(r@) == sort_by_path(
            forest(filter_kinds(rsrcs@, strs_view(resource_names@)), Seq::empty(), group_by@),
        ),
{
    let ghost f = strs_view(resource_names@);
    let mut kept: Vec<&Resource> = Vec::new();
    let mut i: usize = 0;
    assert(deref_seq(kept@) =~= Seq::<Resource>::empty());
    while i < rsrcs.len()
        invariant
            i <= rsrcs@.len(),
            f == strs_view(resource_names@),
            deref_seq(kept@) == filter_kinds(rsrcs@.take(i as int), f),
        decreases rsrcs@.len() - i,
    {
        assert(rsrcs@.take(i + 1).drop_last() =~= rsrcs@.take(i as int));
        if accept_resource(rsrcs[i].kind.as_str(), resource_names) {
            kept.push(&rsrcs[i]);
            assert(deref_seq(kept@) =~= filter_kinds(rsrcs@.take(i as int), f).push(rsrcs@[i as int]));
        }
        i = i + 1;
    }
    assert(rsrcs@.take(rsrcs@.len() as int) =~= rsrcs@);
    proof {
        lemma_filter_total(rsrcs@, f);
    }
    let empty: Vec<String> = Vec::new();
    assert(strs_view(empty@) =~= Seq::<Seq<char>>::empty());
    assert(group_by@.skip(0) =~= group_by@);
    let out = make_group_x_qualifier(kept.as_slice(), empty.as_slice(), group_by, 0);
    sort_entries(out)
}

} // verus!
