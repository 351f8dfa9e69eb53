//! Measurement records and the totals of a group of them.
use vstd::prelude::*;

use crate::qty::{Qty, plus_spec};

verus! {

/// Where a measurement was taken; each part may be unknown.
#[derive(Clone, Debug)]
pub struct Location {
    pub node_name: Option<String>,
    pub namespace: Option<String>,
    pub pod_name: Option<String>,
}

/// The role a measured quantity plays.
#[derive(Clone, Copy, Debug, PartialEq, Eq, Structural)]
pub enum ResourceQualifier {
    Limit,
    Requested,
    Allocatable,
    Utilization,
}

/// One measurement: a quantity of a resource kind, in one role, at one place.
#[derive(Clone, Debug)]
pub struct Resource {
    pub kind: String,
    pub quantity: Qty,
    pub location: Location,
    pub qualifier: ResourceQualifier,
}

/// The totals of a group, one per role; `None` where no record had that role.
#[derive(Clone, Copy, Debug)]
pub struct QtyByQualifier {
    pub limit: Option<Qty>,
    pub requested: Option<Qty>,
    pub allocatable: Option<Qty>,
    pub utilization: Option<Qty>,
}

/// The records behind a sequence of references.
pub open spec fn deref_seq(s: Seq<&Resource>) -> Seq<Resource> {
    s.map_values(|r: &Resource| *r)
}

/// The amount of an optional quantity, in atto-units.
pub open spec fn amount(o: Option<Qty>) -> Option<int> {
    match o {
        Some(q) => Some(q.attos as int),
        None => None,
    }
}

pub open spec fn add_amount(acc: Option<int>, v: int) -> Option<int> {
    match acc {
        Some(a) => Some(a + v),
        None => Some(v),
    }
}

/// The larger of two optional amounts, an absent one counting as the smallest.
pub open spec fn max_amount(a: Option<int>, b: Option<int>) -> Option<int> {
    match (a, b) {
        (Some(x), Some(y)) => Some(if x >= y { x } else { y }),
        (Some(x), None) => Some(x),
        (None, _) => b,
    }
}

/// The sum of the quantities of the records with qualifier `q`, or `None`
/// where there is none.
pub open spec fn bucket_total(rs: Seq<Resource>, q: ResourceQualifier) -> Option<int>
    decreases rs.len(),
{
    if rs.len() == 0 {
        None
    } else if rs.last().qualifier == q {
        add_amount(bucket_total(rs.drop_last(), q), rs.last().quantity.attos as int)
    } else {
        bucket_total(rs.drop_last(), q)
    }
}

/// The sum of all quantities of the records, whatever their role.
pub open spec fn total_attos(rs: Seq<Resource>) -> int
    decreases rs.len(),
{
    if rs.len() == 0 {
        0
    } else {
        total_attos(rs.drop_last()) + rs.last().quantity.attos
    }
}

/// All records are of one kind.
pub open spec fn same_kind(rs: Seq<Resource>) -> bool {
    forall|i: int| 0 <= i < rs.len() ==> (#[trigger] rs[i]).kind@ == rs[0].kind@
}

/// The totals, as amounts: limit, requested, allocatable, utilization.
pub open spec fn totals_view(t: QtyByQualifier) -> (Option<int>, Option<int>, Option<int>, Option<int>) {
    (amount(t.limit), amount(t.requested), amount(t.allocatable), amount(t.utilization))
}

/// What `sum_by_qualifier` gives for the records: nothing for an empty group or
/// one that mixes kinds, else the total of each role.
pub open spec fn sum_spec(rs: Seq<Resource>) -> Option<(Option<int>, Option<int>, Option<int>, Option<int>)> {
    if rs.len() == 0 || !same_kind(rs) {
        None
    } else {
        Some(
            (
                bucket_total(rs, ResourceQualifier::Limit),
                bucket_total(rs, ResourceQualifier::Requested),
                bucket_total(rs, ResourceQualifier::Allocatable),
                bucket_total(rs, ResourceQualifier::Utilization),
            ),
        )
    }
}

pub open spec fn sum_view(o: Option<QtyByQualifier>) -> Option<(Option<int>, Option<int>, Option<int>, Option<int>)> {
    match o {
        Some(t) => Some(totals_view(t)),
        None => None,
    }
}

/// Free capacity: allocatable less the larger of limit and requested, floored
/// at zero; `None` where allocatable, or both limit and requested, are absent.
pub open spec fn free_spec(t: QtyByQualifier) -> Option<int> {
    match (amount(t.allocatable), max_amount(amount(t.limit), amount(t.requested))) {
        (Some(a), Some(u)) => Some(if a > u { a - u } else { 0 }),
        _ => None,
    }
}

proof fn lemma_total_nonneg(rs: Seq<Resource>)
    ensures
        total_attos(rs) >= 0,
    decreases rs.len(),
{
    if rs.len() > 0 {
        lemma_total_nonneg(rs.drop_last());
    }
}

proof fn lemma_total_prefix(rs: Seq<Resource>, i: int)
    requires
        0 <= i <= rs.len(),
    ensures
        total_attos(rs.take(i)) <= total_attos(rs),
    decreases rs.len() - i,
{
    if i < rs.len() {
        lemma_total_prefix(rs, i + 1);
        assert(rs.take(i + 1).drop_last() =~= rs.take(i));
    } else {
        assert(rs.take(i) =~= rs);
    }
}

proof fn lemma_bucket_le_total(rs: Seq<Resource>, q: ResourceQualifier)
    ensures
        bucket_total(rs, q) matches Some(x) ==> 0 <= x <= total_attos(rs),
    decreases rs.len(),
{
    if rs.len() > 0 {
        lemma_bucket_le_total(rs.drop_last(), q);
        lemma_total_nonneg(rs.drop_last());
    }
}

fn add(lhs: Option<Qty>, rhs: &Qty) -> (r: Option<Qty>)
    requires
        lhs matches Some(l) ==> l.attos + rhs.attos <= u128::MAX,
    ensures
        r == match lhs {
            Some(l) => Some(plus_spec(l, *rhs)),
            None => Some(*rhs),
        },
        amount(r) == add_amount(amount(lhs), rhs.attos as int),
{
    match lhs {
        Some(l) => Some(l.plus(rhs)),
        None => Some(*rhs),
    }
}

impl QtyByQualifier {
    /// Free capacity: allocatable less the larger of limit and requested,
    /// zero where that is negative.
    pub fn calc_free(&self) -> (r: Option<Qty>)
        ensures
            amount(r) == free_spec(*self),
    {
        let total_used = match (self.limit, self.requested) {
            (Some(l), Some(q)) => Some(l.max(&q)),
            (Some(l), None) => Some(l),
            (None, q) => q,
        };
        match (self.allocatable, total_used) {
            (Some(a), Some(u)) => Some(a.saturating_sub(&u)),
            _ => None,
        }
    }
}

/// The totals of a group of records of one kind, per role.
pub fn sum_by_qualifier(rsrcs: &[&Resource]) -> (r: Option<QtyByQualifier>)
    requires
        total_attos(deref_seq(rsrcs@)) <= u128::MAX,
    ensures
        sum_view(r) == sum_spec(deref_seq(rsrcs@)),
{
    let ghost rs = deref_seq(rsrcs@);
    if rsrcs.len() == 0 {
        return None;
    }
    let kind = &rsrcs[0].kind;
    assert(rs[0] == *rsrcs@[0]);
    let mut i: usize = 0;
    while i < rsrcs.len()
        invariant
            i <= rs.len(),
            rs == deref_seq(rsrcs@),
            rs.len() > 0,
            kind@ == rs[0].kind@,
            forall|j: int| 0 <= j < i ==> (#[trigger] rs[j]).kind@ == rs[0].kind@,
        decreases rs.len() - i,
    {
        assert(rs[i as int] == *rsrcs@[i as int]);
        if rsrcs[i].kind != *kind {
            assert(!same_kind(rs));
            return None;
        }
        i = i + 1;
    }
    let mut acc = QtyByQualifier { limit: None, requested: None, allocatable: None, utilization: None };
    let mut i: usize = 0;
    while i < rsrcs.len()
        invariant
            i <= rs.len(),
            rs == deref_seq(rsrcs@),
            total_attos(rs) <= u128::MAX,
            amount(acc.limit) == bucket_total(rs.take(i as int), ResourceQualifier::Limit),
            amount(acc.requested) == bucket_total(rs.take(i as int), ResourceQualifier::Requested),
            amount(acc.allocatable) == bucket_total(rs.take(i as int), ResourceQualifier::Allocatable),
            amount(acc.utilization) == bucket_total(rs.take(i as int), ResourceQualifier::Utilization),
        decreases rs.len() - i,
    {
        let v = rsrcs[i];
        proof {
            assert(rs[i as int] == *v);
            let pre = rs.take(i + 1);
            assert(pre.drop_last() =~= rs.take(i as int));
            lemma_total_prefix(rs, i + 1);
            lemma_bucket_le_total(rs.take(i as int), v.qualifier);
            lemma_total_nonneg(rs.take(i as int));
        }
        match v.qualifier {
            ResourceQualifier::Limit => acc.limit = crate::resource::add(acc.limit, &v.quantity),
            ResourceQualifier::Requested => acc.requested = crate::resource::add(acc.requested, &v.quantity),
            ResourceQualifier::Allocatable => acc.allocatable = crate::resource::add(acc.allocatable, &v.quantity),
            ResourceQualifier::Utilization => acc.utilization = crate::resource::add(acc.utilization, &v.quantity),
        }
        i = i + 1;
    }
    assert(rs.take(rs.len() as int) =~= rs);
    Some(acc)
}

/// Whether an optional quantity is absent or zero.
pub fn is_empty(oqty: &Option<Qty>) -> (r: bool)
    ensures
        r == (match *oqty {
            Some(q) => q.attos == 0,
            None => true,
        }),
{
    match oqty {
        Some(qty) => qty.is_zero(),
        None => true,
    }
}

/// Whether a forest entry is shown when rows with nothing in them are hidden:
/// those with totals, no utilization and only absent or zero requested,
/// limit and allocatable amounts are not.
pub fn is_shown(totals: &Option<QtyByQualifier>, filter_full_zero: bool) -> (r: bool)
    ensures
        r == (!filter_full_zero || match *totals {
            None => true,
            Some(t) => !(t.utilization is None && (t.requested matches Some(q) ==> q.attos == 0) && (
            t.limit matches Some(q) ==> q.attos == 0) && (t.allocatable matches Some(q) ==> q.attos
                == 0)),
        }),
{
    if !filter_full_zero {
        return true;
    }
    match totals {
        None => true,
        Some(x) => !(x.utilization.is_none() && is_empty(&x.requested) && is_empty(&x.limit) && is_empty(
            &x.allocatable,
        )),
    }
}

/// Free capacity is never negative: with allocatable amount A and used
/// amount U (the larger of limit and requested), it is A - U where that is
/// positive and zero otherwise.
pub proof fn lemma_free_is_floored_difference(t: QtyByQualifier)
    requires
        t.allocatable is Some,
        t.limit is Some || t.requested is Some,
    ensures
        ({
            let a = t.allocatable->Some_0.attos as int;
            let u = max_amount(amount(t.limit), amount(t.requested))->Some_0;
            &&& free_spec(t) == Some(if a - u > 0 { a - u } else { 0int })
            &&& free_spec(t)->Some_0 >= 0
        }),
{
}

} // verus!
