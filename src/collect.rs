//! Turning what a cluster reports about its nodes, pods and live usage into
//! measurement records. The values come in as plain names and texts; reading
//! them from the cluster is left to the caller.
use vstd::prelude::*;

use crate::group::{lemma_lt_irrefl, lemma_lt_total, lemma_lt_trans, opt_view, pods_kind, seq_lt, str_eq, str_lt};
use crate::qty::{Qty, ParseError, Scale, max_spec, parse_spec, plus_spec};
use crate::resource::{Location, Resource, ResourceQualifier};

verus! {

/// A list of named amounts as a cluster writes them: names and texts, as values.
pub open spec fn texts_view(list: Seq<(String, String)>) -> Seq<(Seq<char>, Seq<char>)> {
    list.map_values(|e: (String, String)| (e.0@, e.1@))
}

pub open spec fn pod_scheduled_lit() -> Seq<char> {
    seq!['P', 'o', 'd', 'S', 'c', 'h', 'e', 'd', 'u', 'l', 'e', 'd']
}

pub open spec fn true_lit() -> Seq<char> {
    seq!['T', 'r', 'u', 'e']
}

pub open spec fn pending_lit() -> Seq<char> {
    seq!['P', 'e', 'n', 'd', 'i', 'n', 'g']
}

pub open spec fn running_lit() -> Seq<char> {
    seq!['R', 'u', 'n', 'n', 'i', 'n', 'g']
}

/// Whether a pod holds its resources: it is running, or pending with a
/// condition of type `PodScheduled` and status `True`. Pods that succeeded,
/// failed, are unknown or report no phase do not.
pub open spec fn is_scheduled_spec(phase: Option<Seq<char>>, conditions: Option<Seq<(Seq<char>, Seq<char>)>>) -> bool {
    match phase {
        None => false,
        Some(p) => if p == running_lit() {
            true
        } else if p == pending_lit() {
            match conditions {
                None => false,
                Some(cs) => exists|i: int|
                    0 <= i < cs.len() && (#[trigger] cs[i]).0 == pod_scheduled_lit() && cs[i].1 == true_lit(),
            }
        } else {
            false
        },
    }
}

pub open spec fn opt_texts_view(o: Option<Vec<(String, String)>>) -> Option<Seq<(Seq<char>, Seq<char>)>> {
    match o {
        Some(v) => Some(texts_view(v@)),
        None => None,
    }
}

/// Whether a pod with this phase and these (type, status) conditions holds
/// its resources on its node.
pub fn is_scheduled(phase: &Option<String>, conditions: &Option<Vec<(String, String)>>) -> (r: bool)
    ensures
        r == is_scheduled_spec(opt_view(*phase), opt_texts_view(*conditions)),
{
    proof {
        reveal_strlit("Running");
        reveal_strlit("Pending");
        reveal_strlit("PodScheduled");
        reveal_strlit("True");
        assert("Running"@ =~= running_lit());
        assert("Pending"@ =~= pending_lit());
        assert("PodScheduled"@ =~= pod_scheduled_lit());
        assert("True"@ =~= true_lit());
    }
    match phase {
        None => false,
        Some(p) => {
            if str_eq(p.as_str(), "Running") {
                true
            } else if str_eq(p.as_str(), "Pending") {
                match conditions {
                    None => false,
                    Some(cs) => {
                        let ghost cv = texts_view(cs@);
                        assert(p@ == pending_lit());
                        let mut i: usize = 0;
                        while i < cs.len()
                            invariant
                                i <= cs@.len(),
                                cv == texts_view(cs@),
                                opt_view(*phase) == Some(pending_lit()),
                                opt_texts_view(*conditions) == Some(cv),
                                "PodScheduled"@ == pod_scheduled_lit(),
                                "True"@ == true_lit(),
                                forall|j: int|
                                    0 <= j < i ==> !((#[trigger] cv[j]).0 == pod_scheduled_lit() && cv[j].1 == true_lit()),
                            decreases cs@.len() - i,
                        {
                            if str_eq(cs[i].0.as_str(), "PodScheduled") && str_eq(cs[i].1.as_str(), "True") {
                                assert(cv[i as int].0 == pod_scheduled_lit() && cv[i as int].1 == true_lit());
                                assert(pending_lit()[0] != running_lit()[0]);
                                let ghost cs2 = opt_texts_view(*conditions)->Some_0;
                                assert(cs2[i as int].0 == pod_scheduled_lit());
                                assert(is_scheduled_spec(opt_view(*phase), opt_texts_view(*conditions)));
                                return true;
                            }
                            i = i + 1;
                        }
                        false
                    },
                }
            } else {
                false
            }
        },
    }
}

/// A copy of a location.
fn copy_location(l: &Location) -> (r: Location)
    ensures
        r == *l,
{
    Location {
        node_name: copy_name(&l.node_name),
        namespace: copy_name(&l.namespace),
        pod_name: copy_name(&l.pod_name),
    }
}

fn copy_name(o: &Option<String>) -> (r: Option<String>)
    ensures
        r == *o,
{
    match o {
        Some(s) => Some(s.clone()),
        None => None,
    }
}

/// The first text of the list that is not a quantity, with its error.
pub open spec fn first_error(list: Seq<(Seq<char>, Seq<char>)>) -> Option<ParseError>
    decreases list.len(),
{
    if list.len() == 0 {
        None
    } else {
        match parse_spec(list[0].1) {
            Err(e) => Some(e),
            Ok(_) => first_error(list.drop_first()),
        }
    }
}

pub open spec fn parsed_qty(t: Seq<char>) -> Qty {
    match parse_spec(t) {
        Ok((v, sc)) => Qty { attos: v as u128, scale: sc },
        Err(_) => Qty { attos: 0, scale: Scale::Unit },
    }
}

/// A record of `kind`, `quantity` and `qualifier` at `location`.
pub open spec fn is_record(r: Resource, kind: Seq<char>, quantity: Qty, qualifier: ResourceQualifier, location: Location) -> bool {
    r.kind@ == kind && r.quantity == quantity && r.qualifier == qualifier && r.location == location
}

/// The allocatable amounts of a node as records: one per named amount, at a
/// location that names the node alone. The first text that is not a quantity
/// fails the whole list.
pub fn node_resources(
    node_name: &Option<String>,
    allocatable: &[(String, String)],
    resources: &mut Vec<Resource>,
) -> (r: Result<(), ParseError>)
    ensures
        match first_error(texts_view(allocatable@)) {
            Some(e) => r == Err::<(), ParseError>(e),
            None => {
                &&& r is Ok
                &&& final(resources)@.len() == old(resources)@.len() + allocatable@.len()
                &&& final(resources)@.take(old(resources)@.len() as int) == old(resources)@
                &&& forall|i: int|
                    0 <= i < allocatable@.len() ==> is_record(
                        #[trigger] final(resources)@[old(resources)@.len() + i],
                        allocatable@[i].0@,
                        parsed_qty(allocatable@[i].1@),
                        ResourceQualifier::Allocatable,
                        Location { node_name: *node_name, namespace: None, pod_name: None },
                    )
            },
        },
{
    let ghost lv = texts_view(allocatable@);
    let ghost n0 = old(resources)@.len();
    let ghost loc = Location { node_name: *node_name, namespace: None, pod_name: None };
    let mut i: usize = 0;
    assert(lv.skip(0) =~= lv);
    assert(resources@.take(n0 as int) =~= old(resources)@);
    while i < allocatable.len()
        invariant
            i <= allocatable@.len(),
            lv == texts_view(allocatable@),
            loc == (Location { node_name: *node_name, namespace: None, pod_name: None }),
            first_error(lv) == first_error(lv.skip(i as int)),
            resources@.len() == n0 + i,
            resources@.take(n0 as int) == old(resources)@,
            forall|j: int|
                0 <= j < i ==> is_record(
                    #[trigger] resources@[n0 + j],
                    allocatable@[j].0@,
                    parsed_qty(allocatable@[j].1@),
                    ResourceQualifier::Allocatable,
                    loc,
                ),
        decreases allocatable@.len() - i,
    {
        assert(lv.skip(i as int)[0] == lv[i as int]);
        assert(lv.skip(i as int).drop_first() =~= lv.skip(i + 1));
        let quantity = match Qty::from_str(allocatable[i].1.as_str()) {
            Err(e) => {
                return Err(e);
            },
            Ok(q) => q,
        };
        let location = Location { node_name: copy_name(node_name), namespace: None, pod_name: None };
        let ghost before = resources@;
        resources.push(Resource {
            kind: allocatable[i].0.clone(),
            quantity,
            location,
            qualifier: ResourceQualifier::Allocatable,
        });
        assert(resources@.take(n0 as int) =~= before.take(n0 as int));
        i = i + 1;
    }
    assert(lv.skip(i as int) =~= Seq::<(Seq<char>, Seq<char>)>::empty());
    Ok(())
}

/// How a named amount is folded into one already there: summed, as for the
/// containers of a pod, or the larger kept, as for its init containers.
#[derive(Clone, Copy, Debug, PartialEq, Eq, Structural)]
pub enum Merge {
    Add,
    Max,
}

/// The resources of one container: requested and limit amounts, as texts.
#[derive(Clone, Debug)]
pub struct ContainerResources {
    pub requests: Option<Vec<(String, String)>>,
    pub limits: Option<Vec<(String, String)>>,
}

/// What the records of a scheduled pod are made from.
#[derive(Clone, Debug)]
pub struct PodResources {
    pub location: Location,
    pub containers: Vec<ContainerResources>,
    pub init_containers: Vec<ContainerResources>,
    pub overhead: Option<Vec<(String, String)>>,
}

/// Named amounts ordered by name, as values.
pub open spec fn amounts_view(v: Seq<(String, Qty)>) -> Seq<(Seq<char>, Qty)> {
    v.map_values(|e: (String, Qty)| (e.0@, e.1))
}

pub open spec fn combine(op: Merge, a: Qty, b: Qty) -> Qty {
    match op {
        Merge::Add => plus_spec(a, b),
        Merge::Max => max_spec(a, b),
    }
}

/// Folds `q` under name `k` into the name-ordered list `m`: combined with the
/// amount of that name, or put in its place by name.
pub open spec fn merge_entry(m: Seq<(Seq<char>, Qty)>, k: Seq<char>, q: Qty, op: Merge) -> Seq<(Seq<char>, Qty)>
    decreases m.len(),
{
    if m.len() == 0 {
        seq![(k, q)]
    } else if m[0].0 == k {
        seq![(k, combine(op, m[0].1, q))] + m.drop_first()
    } else if seq_lt(k, m[0].0) {
        seq![(k, q)] + m
    } else {
        seq![m[0]] + merge_entry(m.drop_first(), k, q, op)
    }
}

/// Whether folding `q` under `k` into `m` keeps every amount within bounds.
pub open spec fn merge_fits(m: Seq<(Seq<char>, Qty)>, k: Seq<char>, q: Qty, op: Merge) -> bool
    decreases m.len(),
{
    if m.len() == 0 {
        true
    } else if m[0].0 == k {
        op == Merge::Max || m[0].1.attos + q.attos <= u128::MAX
    } else if seq_lt(k, m[0].0) {
        true
    } else {
        merge_fits(m.drop_first(), k, q, op)
    }
}

/// Folds each named text of `list`, in order, into `m`; fails on the first
/// text that is not a quantity, or on a sum too large to hold.
pub open spec fn process_spec(m: Seq<(Seq<char>, Qty)>, list: Seq<(Seq<char>, Seq<char>)>, op: Merge) -> Result<Seq<(Seq<char>, Qty)>, ParseError>
    decreases list.len(),
{
    if list.len() == 0 {
        Ok(m)
    } else {
        match parse_spec(list[0].1) {
            Err(e) => Err(e),
            Ok((v, sc)) => {
                let q = Qty { attos: v as u128, scale: sc };
                if !merge_fits(m, list[0].0, q, op) {
                    Err(ParseError::OutOfRange)
                } else {
                    process_spec(merge_entry(m, list[0].0, q, op), list.drop_first(), op)
                }
            },
        }
    }
}

pub open spec fn apply_opt(m: Seq<(Seq<char>, Qty)>, l: Option<Vec<(String, String)>>, op: Merge) -> Result<Seq<(Seq<char>, Qty)>, ParseError> {
    match l {
        None => Ok(m),
        Some(v) => process_spec(m, texts_view(v@), op),
    }
}

/// Folds the requests, then the limits, of one container into the running
/// (requests, limits) pair.
pub open spec fn container_step(
    st: Result<(Seq<(Seq<char>, Qty)>, Seq<(Seq<char>, Qty)>), ParseError>,
    requests: Option<Vec<(String, String)>>,
    limits: Option<Vec<(String, String)>>,
    op: Merge,
) -> Result<(Seq<(Seq<char>, Qty)>, Seq<(Seq<char>, Qty)>), ParseError> {
    match st {
        Err(e) => Err(e),
        Ok((rq, lm)) => match apply_opt(rq, requests, op) {
            Err(e) => Err(e),
            Ok(rq2) => match apply_opt(lm, limits, op) {
                Err(e) => Err(e),
                Ok(lm2) => Ok((rq2, lm2)),
            },
        },
    }
}

pub open spec fn containers_spec(
    st: Result<(Seq<(Seq<char>, Qty)>, Seq<(Seq<char>, Qty)>), ParseError>,
    cs: Seq<ContainerResources>,
    op: Merge,
) -> Result<(Seq<(Seq<char>, Qty)>, Seq<(Seq<char>, Qty)>), ParseError>
    decreases cs.len(),
{
    if cs.len() == 0 {
        st
    } else {
        containers_spec(container_step(st, cs[0].requests, cs[0].limits, op), cs.drop_first(), op)
    }
}

/// The effective (requests, limits) of a pod: the sums over its containers,
/// raised to what any one init container asks where that is more, plus the
/// pod overhead on both.
pub open spec fn effective_spec(p: PodResources) -> Result<(Seq<(Seq<char>, Qty)>, Seq<(Seq<char>, Qty)>), ParseError> {
    let st = containers_spec(Ok((Seq::empty(), Seq::empty())), p.containers@, Merge::Add);
    let st2 = containers_spec(st, p.init_containers@, Merge::Max);
    match p.overhead {
        None => st2,
        Some(o) => container_step(st2, Some(o), Some(o), Merge::Add),
    }
}

/// The count of one pod, as a record quantity.
pub open spec fn one_pod() -> Qty {
    Qty { attos: 1_000_000_000_000_000_000, scale: Scale::Unit }
}

/// From `start` on, `rs` holds a record per named amount of `list`, then a
/// record counting one pod, each with `qualifier` at `loc`.
pub open spec fn records_at(rs: Seq<Resource>, start: int, list: Seq<(Seq<char>, Qty)>, qualifier: ResourceQualifier, loc: Location) -> bool {
    &&& forall|i: int|
        0 <= i < list.len() ==> is_record(#[trigger] rs[start + i], list[i].0, list[i].1, qualifier, loc)
    &&& is_record(rs[start + list.len()], pods_kind(), one_pod(), qualifier, loc)
}

/// The names of the list are in strictly increasing order, so each occurs once.
pub open spec fn names_sorted(m: Seq<(Seq<char>, Qty)>) -> bool {
    forall|i: int, j: int| 0 <= i < j < m.len() ==> seq_lt(#[trigger] m[i].0, #[trigger] m[j].0)
}

pub open spec fn has_name(m: Seq<(Seq<char>, Qty)>, x: Seq<char>) -> bool {
    exists|j: int| 0 <= j < m.len() && #[trigger] m[j].0 == x
}

proof fn lemma_merge_sorted(m: Seq<(Seq<char>, Qty)>, k: Seq<char>, q: Qty, op: Merge)
    requires
        names_sorted(m),
    ensures
        names_sorted(merge_entry(m, k, q, op)),
        forall|i: int|
            0 <= i < merge_entry(m, k, q, op).len() ==> (#[trigger] merge_entry(m, k, q, op)[i]).0 == k
                || has_name(m, merge_entry(m, k, q, op)[i].0),
    decreases m.len(),
{
    let r = merge_entry(m, k, q, op);
    if m.len() == 0 {
    } else if m[0].0 == k {
        assert forall|i: int| 0 <= i < r.len() implies (#[trigger] r[i]).0 == k || has_name(m, r[i].0) by {
            if i > 0 {
                assert(r[i] == m[i]);
            }
        }
        assert forall|i: int, j: int| 0 <= i < j < r.len() implies seq_lt(#[trigger] r[i].0, #[trigger] r[j].0) by {
            assert(r[j] == m[j]);
            if i > 0 {
                assert(r[i] == m[i]);
            }
        }
    } else if seq_lt(k, m[0].0) {
        assert forall|i: int| 0 <= i < r.len() implies (#[trigger] r[i]).0 == k || has_name(m, r[i].0) by {
            if i > 0 {
                assert(r[i] == m[i - 1]);
            }
        }
        assert forall|i: int, j: int| 0 <= i < j < r.len() implies seq_lt(#[trigger] r[i].0, #[trigger] r[j].0) by {
            assert(r[j] == m[j - 1]);
            if i > 0 {
                assert(r[i] == m[i - 1]);
            } else if j > 1 {
                lemma_lt_trans(k, m[0].0, m[j - 1].0);
            }
        }
    } else {
        let rest = m.drop_first();
        assert(names_sorted(rest)) by {
            assert forall|i: int, j: int| 0 <= i < j < rest.len() implies seq_lt(#[trigger] rest[i].0, #[trigger] rest[j].0) by {
                assert(rest[i] == m[i + 1] && rest[j] == m[j + 1]);
            }
        }
        lemma_merge_sorted(rest, k, q, op);
        lemma_lt_total(k, m[0].0);
        let sub = merge_entry(rest, k, q, op);
        assert(r == seq![m[0]] + sub);
        assert forall|i: int| 0 <= i < r.len() implies (#[trigger] r[i]).0 == k || has_name(m, r[i].0) by {
            if i > 0 {
                assert(r[i] == sub[i - 1]);
                if sub[i - 1].0 != k {
                    let l = choose|l: int| 0 <= l < rest.len() && #[trigger] rest[l].0 == sub[i - 1].0;
                    assert(m[l + 1] == rest[l]);
                }
            } else {
                assert(m[0].0 == r[0].0);
            }
        }
        assert forall|i: int, j: int| 0 <= i < j < r.len() implies seq_lt(#[trigger] r[i].0, #[trigger] r[j].0) by {
            assert(r[j] == sub[j - 1]);
            if i > 0 {
                assert(r[i] == sub[i - 1]);
            } else {
                if sub[j - 1].0 != k {
                    let l = choose|l: int| 0 <= l < rest.len() && #[trigger] rest[l].0 == sub[j - 1].0;
                    assert(m[l + 1] == rest[l]);
                }
            }
        }
    }
}

proof fn lemma_process_sorted(m: Seq<(Seq<char>, Qty)>, list: Seq<(Seq<char>, Seq<char>)>, op: Merge)
    requires
        names_sorted(m),
    ensures
        process_spec(m, list, op) matches Ok(x) ==> names_sorted(x),
    decreases list.len(),
{
    if list.len() > 0 {
        if let Ok((v, sc)) = parse_spec(list[0].1) {
            let q = Qty { attos: v as u128, scale: sc };
            lemma_merge_sorted(m, list[0].0, q, op);
            lemma_process_sorted(merge_entry(m, list[0].0, q, op), list.drop_first(), op);
        }
    }
}

/// The amount under name `x` in a list of named amounts, if the name occurs.
pub open spec fn name_amount(m: Seq<(Seq<char>, Qty)>, x: Seq<char>) -> Option<nat>
    decreases m.len(),
{
    if m.len() == 0 {
        None
    } else if m[0].0 == x {
        Some(m[0].1.attos as nat)
    } else {
        name_amount(m.drop_first(), x)
    }
}

/// Two optional amounts combined by `op`, an absent one leaving the other.
pub open spec fn join(op: Merge, a: Option<nat>, b: Option<nat>) -> Option<nat> {
    match (a, b) {
        (Some(x), Some(y)) => Some(
            match op {
                Merge::Add => x + y,
                Merge::Max => if x >= y { x } else { y },
            },
        ),
        (Some(x), None) => Some(x),
        (None, _) => b,
    }
}

/// The list holds name `x` with an amount of at least `v`.
pub open spec fn covers(m: Seq<(Seq<char>, Qty)>, x: Seq<char>, v: nat) -> bool {
    name_amount(m, x) matches Some(b) && b >= v
}

/// The text listed under `e.0` is a quantity, and `m` holds that name with at
/// least its amount.
pub open spec fn covers_text(m: Seq<(Seq<char>, Qty)>, e: (Seq<char>, Seq<char>)) -> bool {
    parse_spec(e.1) is Ok && covers(m, e.0, parse_spec(e.1)->Ok_0.0)
}

proof fn lemma_sorted_rest(m: Seq<(Seq<char>, Qty)>)
    requires
        names_sorted(m),
        m.len() > 0,
    ensures
        names_sorted(m.drop_first()),
{
    let rest = m.drop_first();
    assert forall|i: int, j: int| 0 <= i < j < rest.len() implies seq_lt(#[trigger] rest[i].0, #[trigger] rest[j].0) by {
        assert(rest[i] == m[i + 1] && rest[j] == m[j + 1]);
    }
}

proof fn lemma_absent_below(m: Seq<(Seq<char>, Qty)>, k: Seq<char>)
    requires
        names_sorted(m),
        m.len() > 0,
        seq_lt(k, m[0].0),
    ensures
        name_amount(m, k) is None,
    decreases m.len(),
{
    lemma_lt_irrefl(k);
    assert(m[0].0 != k);
    if m.len() == 1 {
        assert(m.drop_first().len() == 0);
        assert(name_amount(m.drop_first(), k) is None);
    } else {
        lemma_sorted_rest(m);
        assert(m.drop_first()[0] == m[1]);
        assert(seq_lt(m[0].0, m[1].0));
        lemma_lt_trans(k, m[0].0, m[1].0);
        lemma_absent_below(m.drop_first(), k);
    }
    assert(name_amount(m, k) == name_amount(m.drop_first(), k));
}

proof fn lemma_merge_lookup(m: Seq<(Seq<char>, Qty)>, k: Seq<char>, q: Qty, op: Merge, x: Seq<char>)
    requires
        names_sorted(m),
        merge_fits(m, k, q, op),
    ensures
        name_amount(merge_entry(m, k, q, op), x) == if x == k {
            join(op, name_amount(m, k), Some(q.attos as nat))
        } else {
            name_amount(m, x)
        },
    decreases m.len(),
{
    let r = merge_entry(m, k, q, op);
    if m.len() == 0 {
        assert(r.drop_first().len() == 0);
        assert(name_amount(r, x) == if x == k { join(op, name_amount(m, k), Some(q.attos as nat)) } else { name_amount(m, x) });
    } else if m[0].0 == k {
        assert(r.drop_first() =~= m.drop_first());
        assert(r[0] == (k, combine(op, m[0].1, q)));
        assert(name_amount(m, k) == Some(m[0].1.attos as nat));
        if op == Merge::Add {
            assert(m[0].1.attos + q.attos <= u128::MAX);
            assert(combine(op, m[0].1, q).attos == m[0].1.attos + q.attos);
        }
        assert(name_amount(r, x) == if x == k { join(op, name_amount(m, k), Some(q.attos as nat)) } else { name_amount(m, x) });
    } else if seq_lt(k, m[0].0) {
        assert(r.drop_first() =~= m);
        assert(r[0] == (k, q));
        lemma_absent_below(m, k);
        assert(name_amount(r, x) == if x == k { join(op, name_amount(m, k), Some(q.attos as nat)) } else { name_amount(m, x) });
    } else {
        lemma_sorted_rest(m);
        lemma_merge_lookup(m.drop_first(), k, q, op, x);
        assert(r.drop_first() =~= merge_entry(m.drop_first(), k, q, op));
        assert(r[0] == m[0]);
        assert(name_amount(m, k) == name_amount(m.drop_first(), k));
        assert(name_amount(r, x) == if x == k { join(op, name_amount(m, k), Some(q.attos as nat)) } else { name_amount(m, x) });
    }
}

proof fn lemma_merge_max_fits(m: Seq<(Seq<char>, Qty)>, k: Seq<char>, q: Qty)
    ensures
        merge_fits(m, k, q, Merge::Max),
    decreases m.len(),
{
    if m.len() > 0 {
        lemma_merge_max_fits(m.drop_first(), k, q);
    }
}

proof fn lemma_merge_max_covered(m: Seq<(Seq<char>, Qty)>, k: Seq<char>, q: Qty)
    requires
        names_sorted(m),
        covers(m, k, q.attos as nat),
    ensures
        merge_entry(m, k, q, Merge::Max) == m,
    decreases m.len(),
{
    if m[0].0 == k {
        assert(seq![(k, max_spec(m[0].1, q))] + m.drop_first() =~= m);
    } else if seq_lt(k, m[0].0) {
        lemma_absent_below(m, k);
    } else {
        lemma_sorted_rest(m);
        lemma_merge_max_covered(m.drop_first(), k, q);
        assert(seq![m[0]] + m.drop_first() =~= m);
    }
}

/// A pass with the larger-of merge only raises amounts: each name keeps at
/// least the amount it had, and ends with at least every amount listed for it.
pub proof fn lemma_max_pass_bounds(m: Seq<(Seq<char>, Qty)>, list: Seq<(Seq<char>, Seq<char>)>)
    requires
        names_sorted(m),
        process_spec(m, list, Merge::Max) is Ok,
    ensures
        ({
            let m2 = process_spec(m, list, Merge::Max)->Ok_0;
            &&& forall|x: Seq<char>|
                #![trigger name_amount(m2, x)]
                name_amount(m, x) is Some ==> covers(m2, x, name_amount(m, x)->Some_0)
            &&& forall|i: int| 0 <= i < list.len() ==> covers_text(m2, #[trigger] list[i])
        }),
    decreases list.len(),
{
    if list.len() > 0 {
        let (v, sc) = parse_spec(list[0].1)->Ok_0;
        let q = Qty { attos: v as u128, scale: sc };
        let k = list[0].0;
        let m1 = merge_entry(m, k, q, Merge::Max);
        let tail = list.drop_first();
        lemma_merge_max_fits(m, k, q);
        lemma_merge_sorted(m, k, q, Merge::Max);
        lemma_max_pass_bounds(m1, tail);
        let m2 = process_spec(m, list, Merge::Max)->Ok_0;
        assert(m2 == process_spec(m1, tail, Merge::Max)->Ok_0);
        assert forall|x: Seq<char>| #![trigger name_amount(m2, x)]
            name_amount(m, x) is Some implies covers(m2, x, name_amount(m, x)->Some_0) by {
            lemma_merge_lookup(m, k, q, Merge::Max, x);
        }
        assert forall|i: int| 0 <= i < list.len() implies covers_text(m2, #[trigger] list[i]) by {
            if i == 0 {
                lemma_merge_lookup(m, k, q, Merge::Max, k);
            } else {
                assert(tail[i - 1] == list[i]);
            }
        }
    }
}

proof fn lemma_max_pass_covered(m: Seq<(Seq<char>, Qty)>, list: Seq<(Seq<char>, Seq<char>)>)
    requires
        names_sorted(m),
        forall|i: int| 0 <= i < list.len() ==> covers_text(m, #[trigger] list[i]),
    ensures
        process_spec(m, list, Merge::Max) == Ok::<Seq<(Seq<char>, Qty)>, ParseError>(m),
    decreases list.len(),
{
    if list.len() > 0 {
        let (v, sc) = parse_spec(list[0].1)->Ok_0;
        let q = Qty { attos: v as u128, scale: sc };
        assert(list[0] == list[0]);
        lemma_merge_max_fits(m, list[0].0, q);
        lemma_merge_max_covered(m, list[0].0, q);
        let tail = list.drop_first();
        assert forall|i: int| 0 <= i < tail.len() implies covers_text(m, #[trigger] tail[i]) by {
            assert(tail[i] == list[i + 1]);
        }
        lemma_max_pass_covered(m, tail);
    }
}

/// A second pass with the larger-of merge and the same list changes nothing.
pub proof fn lemma_max_pass_idempotent(m: Seq<(Seq<char>, Qty)>, list: Seq<(Seq<char>, Seq<char>)>)
    requires
        names_sorted(m),
        process_spec(m, list, Merge::Max) is Ok,
    ensures
        ({
            let m2 = process_spec(m, list, Merge::Max)->Ok_0;
            process_spec(m2, list, Merge::Max) == Ok::<Seq<(Seq<char>, Qty)>, ParseError>(m2)
        }),
{
    lemma_max_pass_bounds(m, list);
    lemma_process_sorted(m, list, Merge::Max);
    lemma_max_pass_covered(process_spec(m, list, Merge::Max)->Ok_0, list);
}

/// The amounts listed under name `x`, combined by `op`: their sum or their
/// largest; `None` where the name is not listed.
pub open spec fn list_agg(l: Seq<(Seq<char>, Seq<char>)>, x: Seq<char>, op: Merge) -> Option<nat>
    decreases l.len(),
{
    if l.len() == 0 {
        None
    } else {
        join(
            op,
            if l[0].0 == x { Some(parse_spec(l[0].1)->Ok_0.0) } else { None },
            list_agg(l.drop_first(), x, op),
        )
    }
}

pub open spec fn opt_list_agg(l: Option<Vec<(String, String)>>, x: Seq<char>, op: Merge) -> Option<nat> {
    match l {
        None => None,
        Some(v) => list_agg(texts_view(v@), x, op),
    }
}

/// The requests (or, with `limits`, the limits) of the containers under name
/// `x`, combined by `op` over all of them.
pub open spec fn part_agg(cs: Seq<ContainerResources>, x: Seq<char>, op: Merge, limits: bool) -> Option<nat>
    decreases cs.len(),
{
    if cs.len() == 0 {
        None
    } else {
        join(
            op,
            opt_list_agg(if limits { cs[0].limits } else { cs[0].requests }, x, op),
            part_agg(cs.drop_first(), x, op, limits),
        )
    }
}

proof fn lemma_join_assoc(op: Merge, a: Option<nat>, b: Option<nat>, c: Option<nat>)
    ensures
        join(op, join(op, a, b), c) == join(op, a, join(op, b, c)),
{
}

proof fn lemma_process_lookup(m: Seq<(Seq<char>, Qty)>, l: Seq<(Seq<char>, Seq<char>)>, op: Merge, x: Seq<char>)
    requires
        names_sorted(m),
        process_spec(m, l, op) is Ok,
    ensures
        name_amount(process_spec(m, l, op)->Ok_0, x) == join(op, name_amount(m, x), list_agg(l, x, op)),
    decreases l.len(),
{
    if l.len() > 0 {
        let (v, sc) = parse_spec(l[0].1)->Ok_0;
        let q = Qty { attos: v as u128, scale: sc };
        let k = l[0].0;
        lemma_merge_lookup(m, k, q, op, x);
        lemma_merge_sorted(m, k, q, op);
        lemma_process_lookup(merge_entry(m, k, q, op), l.drop_first(), op, x);
        let e = if k == x { Some(v) } else { None::<nat> };
        lemma_join_assoc(op, name_amount(m, x), e, list_agg(l.drop_first(), x, op));
    }
}

proof fn lemma_apply_lookup(m: Seq<(Seq<char>, Qty)>, l: Option<Vec<(String, String)>>, op: Merge, x: Seq<char>)
    requires
        names_sorted(m),
        apply_opt(m, l, op) is Ok,
    ensures
        name_amount(apply_opt(m, l, op)->Ok_0, x) == join(op, name_amount(m, x), opt_list_agg(l, x, op)),
        names_sorted(apply_opt(m, l, op)->Ok_0),
{
    if let Some(v) = l {
        lemma_process_lookup(m, texts_view(v@), op, x);
        lemma_process_sorted(m, texts_view(v@), op);
    }
}

proof fn lemma_containers_lookup(
    st: Result<(Seq<(Seq<char>, Qty)>, Seq<(Seq<char>, Qty)>), ParseError>,
    cs: Seq<ContainerResources>,
    op: Merge,
    x: Seq<char>,
)
    requires
        st is Ok,
        names_sorted(st->Ok_0.0),
        names_sorted(st->Ok_0.1),
        containers_spec(st, cs, op) is Ok,
    ensures
        ({
            let (rq, lm) = containers_spec(st, cs, op)->Ok_0;
            &&& name_amount(rq, x) == join(op, name_amount(st->Ok_0.0, x), part_agg(cs, x, op, false))
            &&& name_amount(lm, x) == join(op, name_amount(st->Ok_0.1, x), part_agg(cs, x, op, true))
            &&& names_sorted(rq)
            &&& names_sorted(lm)
        }),
    decreases cs.len(),
{
    if cs.len() > 0 {
        let (rq0, lm0) = st->Ok_0;
        let st1 = container_step(st, cs[0].requests, cs[0].limits, op);
        if let Err(e) = st1 {
            lemma_containers_err(e, cs.drop_first(), op);
        } else {
            lemma_apply_lookup(rq0, cs[0].requests, op, x);
            lemma_apply_lookup(lm0, cs[0].limits, op, x);
            lemma_containers_lookup(st1, cs.drop_first(), op, x);
            lemma_join_assoc(op, name_amount(rq0, x), opt_list_agg(cs[0].requests, x, op), part_agg(cs.drop_first(), x, op, false));
            lemma_join_assoc(op, name_amount(lm0, x), opt_list_agg(cs[0].limits, x, op), part_agg(cs.drop_first(), x, op, true));
        }
    }
}

/// A pod's effective request under each name is the larger of the sum over
/// its containers and the largest amount any init container asks, plus the
/// overhead; its effective limit likewise.
pub proof fn lemma_effective_direct(p: PodResources, x: Seq<char>)
    requires
        effective_spec(p) is Ok,
    ensures
        ({
            let (rq, lm) = effective_spec(p)->Ok_0;
            let over = opt_list_agg(p.overhead, x, Merge::Add);
            &&& name_amount(rq, x) == join(
                Merge::Add,
                join(Merge::Max, part_agg(p.containers@, x, Merge::Add, false), part_agg(p.init_containers@, x, Merge::Max, false)),
                over,
            )
            &&& name_amount(lm, x) == join(
                Merge::Add,
                join(Merge::Max, part_agg(p.containers@, x, Merge::Add, true), part_agg(p.init_containers@, x, Merge::Max, true)),
                over,
            )
        }),
{
    let e = Seq::<(Seq<char>, Qty)>::empty();
    let st0 = Ok::<(Seq<(Seq<char>, Qty)>, Seq<(Seq<char>, Qty)>), ParseError>((e, e));
    let st = containers_spec(st0, p.containers@, Merge::Add);
    if let Err(er) = st {
        lemma_containers_err(er, p.init_containers@, Merge::Max);
        assert(false);
    }
    assert(name_amount(e, x) is None);
    lemma_containers_lookup(st0, p.containers@, Merge::Add, x);
    let st2 = containers_spec(st, p.init_containers@, Merge::Max);
    lemma_containers_lookup(st, p.init_containers@, Merge::Max, x);
    if let Some(o) = p.overhead {
        let (rq2, lm2) = st2->Ok_0;
        lemma_apply_lookup(rq2, Some(o), Merge::Add, x);
        lemma_apply_lookup(lm2, Some(o), Merge::Add, x);
    }
}

/// Folds `q` under the name `k` into the name-ordered list `effective`.
fn merge_into(effective: &mut Vec<(String, Qty)>, k: &String, q: Qty, op: Merge) -> (r: Result<(), ParseError>)
    ensures
        if merge_fits(amounts_view(old(effective)@), k@, q, op) {
            r is Ok && amounts_view(final(effective)@) == merge_entry(amounts_view(old(effective)@), k@, q, op)
        } else {
            r == Err::<(), ParseError>(ParseError::OutOfRange)
        },
{
    let ghost v = amounts_view(effective@);
    let mut j: usize = 0;
    assert(v.skip(0) =~= v);
    assert(v.take(0) + merge_entry(v.skip(0), k@, q, op) =~= merge_entry(v, k@, q, op));
    while j < effective.len()
        invariant
            j <= effective@.len(),
            effective@ == old(effective)@,
            v == amounts_view(effective@),
            merge_entry(v, k@, q, op) == v.take(j as int) + merge_entry(v.skip(j as int), k@, q, op),
            merge_fits(v, k@, q, op) == merge_fits(v.skip(j as int), k@, q, op),
        decreases effective@.len() - j,
    {
        let ghost rest = v.skip(j as int);
        assert(rest[0] == (effective@[j as int].0@, effective@[j as int].1));
        assert(rest.drop_first() =~= v.skip(j + 1));
        if effective[j].0 == *k {
            let cur = effective[j].1;
            let merged = match op {
                Merge::Add => {
                    if cur.attos > u128::MAX - q.attos {
                        return Err(ParseError::OutOfRange);
                    }
                    cur.plus(&q)
                },
                Merge::Max => cur.max(&q),
            };
            effective.set(j, (k.clone(), merged));
            assert(amounts_view(effective@) =~= v.take(j as int) + (seq![(k@, merged)] + rest.drop_first()));
            return Ok(());
        }
        if str_lt(k.as_str(), effective[j].0.as_str()) {
            effective.insert(j, (k.clone(), q));
            assert(amounts_view(effective@) =~= v.take(j as int) + (seq![(k@, q)] + rest));
            return Ok(());
        }
        proof {
            assert(v.take(j as int) + (seq![rest[0]] + merge_entry(v.skip(j + 1), k@, q, op)) =~= v.take(j + 1)
                + merge_entry(v.skip(j + 1), k@, q, op));
        }
        j = j + 1;
    }
    assert(v.skip(j as int) =~= Seq::<(Seq<char>, Qty)>::empty());
    assert(v.take(j as int) =~= v);
    effective.push((k.clone(), q));
    assert(amounts_view(effective@) =~= v + seq![(k@, q)]);
    Ok(())
}

/// Folds each named text of `resource_list`, in order, into the name-ordered
/// list `effective` with `op`.
pub fn process_resources(effective: &mut Vec<(String, Qty)>, resource_list: &[(String, String)], op: Merge) -> (r: Result<(), ParseError>)
    ensures
        match process_spec(amounts_view(old(effective)@), texts_view(resource_list@), op) {
            Ok(m) => r is Ok && amounts_view(final(effective)@) == m,
            Err(e) => r == Err::<(), ParseError>(e),
        },
        names_sorted(amounts_view(old(effective)@)) && r is Ok ==> names_sorted(amounts_view(final(effective)@)),
{
    proof {
        if names_sorted(amounts_view(old(effective)@)) {
            lemma_process_sorted(amounts_view(old(effective)@), texts_view(resource_list@), op);
        }
    }
    let ghost lv = texts_view(resource_list@);
    let mut i: usize = 0;
    assert(lv.skip(0) =~= lv);
    while i < resource_list.len()
        invariant
            i <= resource_list@.len(),
            lv == texts_view(resource_list@),
            process_spec(amounts_view(old(effective)@), lv, op) == process_spec(amounts_view(effective@), lv.skip(i as int), op),
        decreases resource_list@.len() - i,
    {
        let ghost rest = lv.skip(i as int);
        assert(rest[0] == lv[i as int]);
        assert(rest.drop_first() =~= lv.skip(i + 1));
        let q = match Qty::from_str(resource_list[i].1.as_str()) {
            Err(e) => {
                return Err(e);
            },
            Ok(q) => q,
        };
        match merge_into(effective, &resource_list[i].0, q, op) {
            Err(e) => {
                return Err(e);
            },
            Ok(()) => {},
        }
        i = i + 1;
    }
    assert(lv.skip(i as int) =~= Seq::<(Seq<char>, Seq<char>)>::empty());
    Ok(())
}

/// Adds a record per named amount of `resource_list`, then one counting the
/// pod, each with `qualifier` at `location`.
pub fn push_resources(
    resources: &mut Vec<Resource>,
    location: &Location,
    qualifier: ResourceQualifier,
    resource_list: &[(String, Qty)],
)
    ensures
        final(resources)@.len() == old(resources)@.len() + resource_list@.len() + 1,
        final(resources)@.take(old(resources)@.len() as int) == old(resources)@,
        records_at(final(resources)@, old(resources)@.len() as int, amounts_view(resource_list@), qualifier, *location),
{
    let ghost n0 = old(resources)@.len();
    let ghost lv = amounts_view(resource_list@);
    let mut i: usize = 0;
    assert(resources@.take(n0 as int) =~= old(resources)@);
    while i < resource_list.len()
        invariant
            i <= resource_list@.len(),
            lv == amounts_view(resource_list@),
            resources@.len() == n0 + i,
            resources@.take(n0 as int) == old(resources)@,
            forall|j: int|
                0 <= j < i ==> is_record(#[trigger] resources@[n0 + j], lv[j].0, lv[j].1, qualifier, *location),
        decreases resource_list@.len() - i,
    {
        let ghost before = resources@;
        resources.push(Resource {
            kind: resource_list[i].0.clone(),
            qualifier,
            quantity: resource_list[i].1,
            location: copy_location(location),
        });
        assert(resources@.take(n0 as int) =~= before.take(n0 as int));
        i = i + 1;
    }
    proof {
        reveal_strlit("pods");
        assert("pods"@ =~= pods_kind());
    }
    let ghost before = resources@;
    resources.push(Resource {
        kind: String::from_str("pods"),
        qualifier,
        quantity: Qty { attos: 1_000_000_000_000_000_000, scale: Scale::Unit },
        location: copy_location(location),
    });
    assert(resources@.take(n0 as int) =~= before.take(n0 as int));
}

proof fn lemma_containers_err(e: ParseError, cs: Seq<ContainerResources>, op: Merge)
    ensures
        containers_spec(Err(e), cs, op) == Err::<(Seq<(Seq<char>, Qty)>, Seq<(Seq<char>, Qty)>), ParseError>(e),
    decreases cs.len(),
{
    if cs.len() > 0 {
        lemma_containers_err(e, cs.drop_first(), op);
    }
}

fn apply_list(m: &mut Vec<(String, Qty)>, l: &Option<Vec<(String, String)>>, op: Merge) -> (r: Result<(), ParseError>)
    ensures
        match apply_opt(amounts_view(old(m)@), *l, op) {
            Ok(x) => r is Ok && amounts_view(final(m)@) == x,
            Err(e) => r == Err::<(), ParseError>(e),
        },
        names_sorted(amounts_view(old(m)@)) && r is Ok ==> names_sorted(amounts_view(final(m)@)),
{
    match l {
        None => Ok(()),
        Some(v) => process_resources(m, v.as_slice(), op),
    }
}

/// Folds the requests and limits of each container, in order, into `rq` and `lm`.
fn fold_containers(
    rq: &mut Vec<(String, Qty)>,
    lm: &mut Vec<(String, Qty)>,
    cs: &[ContainerResources],
    op: Merge,
) -> (r: Result<(), ParseError>)
    ensures
        match containers_spec(Ok((amounts_view(old(rq)@), amounts_view(old(lm)@))), cs@, op) {
            Ok((a, b)) => r is Ok && amounts_view(final(rq)@) == a && amounts_view(final(lm)@) == b,
            Err(e) => r == Err::<(), ParseError>(e),
        },
        names_sorted(amounts_view(old(rq)@)) && names_sorted(amounts_view(old(lm)@)) && r is Ok ==> names_sorted(
            amounts_view(final(rq)@),
        ) && names_sorted(amounts_view(final(lm)@)),
{
    let ghost start = Ok::<(Seq<(Seq<char>, Qty)>, Seq<(Seq<char>, Qty)>), ParseError>(
        (amounts_view(rq@), amounts_view(lm@)),
    );
    let mut i: usize = 0;
    assert(cs@.skip(0) =~= cs@);
    while i < cs.len()
        invariant
            i <= cs@.len(),
            start == Ok::<(Seq<(Seq<char>, Qty)>, Seq<(Seq<char>, Qty)>), ParseError>(
                (amounts_view(old(rq)@), amounts_view(old(lm)@)),
            ),
            containers_spec(start, cs@, op) == containers_spec(
                Ok((amounts_view(rq@), amounts_view(lm@))),
                cs@.skip(i as int),
                op,
            ),
            names_sorted(amounts_view(old(rq)@)) && names_sorted(amounts_view(old(lm)@)) ==> names_sorted(
                amounts_view(rq@),
            ) && names_sorted(amounts_view(lm@)),
        decreases cs@.len() - i,
    {
        let ghost rest = cs@.skip(i as int);
        assert(rest[0] == cs@[i as int]);
        assert(rest.drop_first() =~= cs@.skip(i + 1));
        let ghost step = container_step(
            Ok((amounts_view(rq@), amounts_view(lm@))),
            cs@[i as int].requests,
            cs@[i as int].limits,
            op,
        );
        match apply_list(rq, &cs[i].requests, op) {
            Err(e) => {
                proof {
                    lemma_containers_err(e, cs@.skip(i + 1), op);
                }
                return Err(e);
            },
            Ok(()) => {},
        }
        match apply_list(lm, &cs[i].limits, op) {
            Err(e) => {
                proof {
                    lemma_containers_err(e, cs@.skip(i + 1), op);
                }
                return Err(e);
            },
            Ok(()) => {},
        }
        i = i + 1;
    }
    assert(cs@.skip(i as int) =~= Seq::<ContainerResources>::empty());
    Ok(())
}

/// The effective (requests, limits) of a pod, each in strictly increasing
/// order of names.
pub fn effective_resources(p: &PodResources) -> (r: Result<(Vec<(String, Qty)>, Vec<(String, Qty)>), ParseError>)
    ensures
        match effective_spec(*p) {
            Ok((a, b)) => r is Ok && amounts_view(r->Ok_0.0@) == a && amounts_view(r->Ok_0.1@) == b,
            Err(e) => r == Err::<(Vec<(String, Qty)>, Vec<(String, Qty)>), ParseError>(e),
        },
        r is Ok ==> names_sorted(amounts_view(r->Ok_0.0@)) && names_sorted(amounts_view(r->Ok_0.1@)),
{
    let mut rq: Vec<(String, Qty)> = Vec::new();
    let mut lm: Vec<(String, Qty)> = Vec::new();
    assert(amounts_view(rq@) =~= Seq::<(Seq<char>, Qty)>::empty());
    assert(amounts_view(lm@) =~= Seq::<(Seq<char>, Qty)>::empty());
    let ghost st = containers_spec(Ok((Seq::empty(), Seq::empty())), p.containers@, Merge::Add);
    match fold_containers(&mut rq, &mut lm, p.containers.as_slice(), Merge::Add) {
        Err(e) => {
            proof {
                lemma_containers_err(e, p.init_containers@, Merge::Max);
            }
            return Err(e);
        },
        Ok(()) => {},
    }
    match fold_containers(&mut rq, &mut lm, p.init_containers.as_slice(), Merge::Max) {
        Err(e) => {
            return Err(e);
        },
        Ok(()) => {},
    }
    match &p.overhead {
        None => {},
        Some(o) => {
            match process_resources(&mut rq, o.as_slice(), Merge::Add) {
                Err(e) => {
                    return Err(e);
                },
                Ok(()) => {},
            }
            match process_resources(&mut lm, o.as_slice(), Merge::Add) {
                Err(e) => {
                    return Err(e);
                },
                Ok(()) => {},
            }
        },
    }
    Ok((rq, lm))
}

/// The records of a scheduled pod: a record per effective requested amount
/// and a requested pod count, then a record per effective limit and a limit
/// pod count, all at the pod's location. Nothing is added where a text is not
/// a quantity or a sum is too large.
pub fn pod_resources(p: &PodResources, resources: &mut Vec<Resource>) -> (r: Result<(), ParseError>)
    ensures
        match effective_spec(*p) {
            Err(e) => r == Err::<(), ParseError>(e) && final(resources)@ == old(resources)@,
            Ok((rq, lm)) => {
                let n0 = old(resources)@.len() as int;
                &&& r is Ok
                &&& final(resources)@.len() == n0 + rq.len() + 1 + lm.len() + 1
                &&& final(resources)@.take(n0) == old(resources)@
                &&& records_at(final(resources)@, n0, rq, ResourceQualifier::Requested, p.location)
                &&& records_at(final(resources)@, n0 + rq.len() + 1, lm, ResourceQualifier::Limit, p.location)
            },
        },
{
    let ghost n0 = old(resources)@.len() as int;
    let (rq, lm) = match effective_resources(p) {
        Err(e) => {
            return Err(e);
        },
        Ok(x) => x,
    };
    push_resources(resources, &p.location, ResourceQualifier::Requested, rq.as_slice());
    let ghost mid = resources@;
    push_resources(resources, &p.location, ResourceQualifier::Limit, lm.as_slice());
    proof {
        let lv = amounts_view(rq@);
        assert forall|i: int| 0 <= i < lv.len() implies is_record(
            #[trigger] resources@[n0 + i],
            lv[i].0,
            lv[i].1,
            ResourceQualifier::Requested,
            p.location,
        ) by {
            assert(resources@[n0 + i] == mid[n0 + i]);
        }
        assert(resources@[n0 + lv.len()] == mid[n0 + lv.len()]);
        assert(resources@.take(n0) =~= mid.take(n0));
    }
    Ok(())
}

/// The live usage of one container, as texts.
#[derive(Clone, Debug)]
pub struct ContainerUsage {
    pub cpu: String,
    pub memory: String,
}

pub open spec fn cpu_kind() -> Seq<char> {
    seq!['c', 'p', 'u']
}

pub open spec fn memory_kind() -> Seq<char> {
    seq!['m', 'e', 'm', 'o', 'r', 'y']
}

pub open spec fn lowest() -> Qty {
    Qty { attos: 1_000_000_000, scale: Scale::Nano }
}

/// Adds the usage of one container to the running (cpu, memory) sums; a
/// reported zero counts as the lowest positive amount.
pub open spec fn usage_step(st: Result<(Qty, Qty), ParseError>, c: ContainerUsage) -> Result<(Qty, Qty), ParseError> {
    match st {
        Err(e) => Err(e),
        Ok((cpu, mem)) => match parse_spec(c.cpu@) {
            Err(e) => Err(e),
            Ok((v, sc)) => {
                let cq = max_spec(Qty { attos: v as u128, scale: sc }, lowest());
                if cpu.attos + cq.attos > u128::MAX {
                    Err(ParseError::OutOfRange)
                } else {
                    match parse_spec(c.memory@) {
                        Err(e) => Err(e),
                        Ok((w, sm)) => {
                            let mq = max_spec(Qty { attos: w as u128, scale: sm }, lowest());
                            if mem.attos + mq.attos > u128::MAX {
                                Err(ParseError::OutOfRange)
                            } else {
                                Ok((plus_spec(cpu, cq), plus_spec(mem, mq)))
                            }
                        },
                    }
                }
            },
        },
    }
}

pub open spec fn usage_fold(st: Result<(Qty, Qty), ParseError>, cs: Seq<ContainerUsage>) -> Result<(Qty, Qty), ParseError>
    decreases cs.len(),
{
    if cs.len() == 0 {
        st
    } else {
        usage_fold(usage_step(st, cs[0]), cs.drop_first())
    }
}

/// The (cpu, memory) usage of a pod: the sums over its containers, from zero.
pub open spec fn usage_spec(cs: Seq<ContainerUsage>) -> Result<(Qty, Qty), ParseError> {
    usage_fold(Ok((Qty { attos: 0, scale: Scale::Unit }, Qty { attos: 0, scale: Scale::Unit })), cs)
}

proof fn lemma_usage_err(e: ParseError, cs: Seq<ContainerUsage>)
    ensures
        usage_fold(Err(e), cs) == Err::<(Qty, Qty), ParseError>(e),
    decreases cs.len(),
{
    if cs.len() > 0 {
        lemma_usage_err(e, cs.drop_first());
    }
}

/// The usage records of a pod: its cpu usage, then its memory usage, summed
/// over its containers, at `location`. Nothing is added where a text is not a
/// quantity or a sum is too large.
pub fn pod_metric_resources(
    location: &Location,
    containers: &[ContainerUsage],
    resources: &mut Vec<Resource>,
) -> (r: Result<(), ParseError>)
    ensures
        match usage_spec(containers@) {
            Err(e) => r == Err::<(), ParseError>(e) && final(resources)@ == old(resources)@,
            Ok((cpu, mem)) => {
                let n0 = old(resources)@.len() as int;
                &&& r is Ok
                &&& final(resources)@.len() == n0 + 2
                &&& final(resources)@.take(n0) == old(resources)@
                &&& is_record(final(resources)@[n0], cpu_kind(), cpu, ResourceQualifier::Utilization, *location)
                &&& is_record(final(resources)@[n0 + 1], memory_kind(), mem, ResourceQualifier::Utilization, *location)
            },
        },
{
    let mut cpu = Qty::zero();
    let mut mem = Qty::zero();
    let low = Qty::lowest_positive();
    let mut i: usize = 0;
    assert(containers@.skip(0) =~= containers@);
    while i < containers.len()
        invariant
            i <= containers@.len(),
            low == lowest(),
            usage_spec(containers@) == usage_fold(Ok((cpu, mem)), containers@.skip(i as int)),
        decreases containers@.len() - i,
    {
        let ghost rest = containers@.skip(i as int);
        assert(rest[0] == containers@[i as int]);
        assert(rest.drop_first() =~= containers@.skip(i + 1));
        let c = match Qty::from_str(containers[i].cpu.as_str()) {
            Err(e) => {
                proof {
                    lemma_usage_err(e, containers@.skip(i + 1));
                }
                return Err(e);
            },
            Ok(q) => q.max(&low),
        };
        if cpu.attos > u128::MAX - c.attos {
            proof {
                lemma_usage_err(ParseError::OutOfRange, containers@.skip(i + 1));
            }
            return Err(ParseError::OutOfRange);
        }
        let m = match Qty::from_str(containers[i].memory.as_str()) {
            Err(e) => {
                proof {
                    lemma_usage_err(e, containers@.skip(i + 1));
                }
                return Err(e);
            },
            Ok(q) => q.max(&low),
        };
        if mem.attos > u128::MAX - m.attos {
            proof {
                lemma_usage_err(ParseError::OutOfRange, containers@.skip(i + 1));
            }
            return Err(ParseError::OutOfRange);
        }
        cpu = cpu.plus(&c);
        mem = mem.plus(&m);
        i = i + 1;
    }
    assert(containers@.skip(i as int) =~= Seq::<ContainerUsage>::empty());
    proof {
        reveal_strlit("cpu");
        reveal_strlit("memory");
        assert("cpu"@ =~= cpu_kind());
        assert("memory"@ =~= memory_kind());
    }
    let ghost n0 = resources@.len() as int;
    resources.push(Resource {
        kind: String::from_str("cpu"),
        quantity: cpu,
        location: copy_location(location),
        qualifier: ResourceQualifier::Utilization,
    });
    resources.push(Resource {
        kind: String::from_str("memory"),
        quantity: mem,
        location: copy_location(location),
        qualifier: ResourceQualifier::Utilization,
    });
    assert(resources@.take(n0) =~= old(resources)@);
    Ok(())
}

pub open spec fn text_or_empty(o: Option<String>) -> Seq<char> {
    match o {
        Some(s) => s@,
        None => Seq::empty(),
    }
}

/// Whether a record was taken at the pod `name` of namespace `ns`, an absent
/// namespace counting as the empty one.
pub open spec fn at_pod(r: Resource, ns: Seq<char>, name: Seq<char>) -> bool {
    opt_view(r.location.pod_name) == Some(name) && text_or_empty(r.location.namespace) == ns
}

/// The index of the last of the first `n` records taken at the pod, or -1.
pub open spec fn last_at_pod(rs: Seq<Resource>, ns: Seq<char>, name: Seq<char>, n: int) -> int
    decreases n,
{
    if n <= 0 || n > rs.len() {
        -1
    } else if at_pod(rs[n - 1], ns, name) {
        n - 1
    } else {
        last_at_pod(rs, ns, name, n - 1)
    }
}

/// Where a pod that usage is reported for stands: the location of the last
/// record taken at that pod, an absent namespace or name counting as empty;
/// else a location of that namespace and name on no known node.
pub fn find_location(resources: &[Resource], namespace: &Option<String>, name: &Option<String>) -> (r: Location)
    ensures
        ({
            let k = last_at_pod(resources@, text_or_empty(*namespace), text_or_empty(*name), resources@.len() as int);
            if k >= 0 {
                r == resources@[k].location
            } else {
                r == (Location { node_name: None, namespace: *namespace, pod_name: *name })
            }
        }),
{
    let ghost ns = text_or_empty(*namespace);
    let ghost nm = text_or_empty(*name);
    let empty = String::new();
    let key_ns: &String = match namespace {
        Some(s) => s,
        None => &empty,
    };
    let key_name: &String = match name {
        Some(s) => s,
        None => &empty,
    };
    let mut j: usize = resources.len();
    while j > 0
        invariant
            j <= resources@.len(),
            key_ns@ == ns,
            key_name@ == nm,
            ns == text_or_empty(*namespace),
            nm == text_or_empty(*name),
            last_at_pod(resources@, ns, nm, resources@.len() as int) == last_at_pod(resources@, ns, nm, j as int),
        decreases j,
    {
        let loc = &resources[j - 1].location;
        let hit = match (&loc.pod_name, &loc.namespace) {
            (Some(p), Some(n)) => *p == *key_name && *n == *key_ns,
            (Some(p), None) => *p == *key_name && key_ns.unicode_len() == 0,
            (None, _) => false,
        };
        if hit {
            proof {
                if loc.namespace is None {
                    assert(ns =~= Seq::<char>::empty());
                }
                assert(at_pod(resources@[j - 1], ns, nm));
                assert(last_at_pod(resources@, ns, nm, j as int) == j - 1);
            }
            return copy_location(loc);
        }
        proof {
            if loc.pod_name is Some && loc.namespace is None && ns.len() == 0 {
                assert(ns =~= Seq::<char>::empty());
            }
        }
        j = j - 1;
    }
    Location { node_name: None, namespace: copy_name(namespace), pod_name: copy_name(name) }
}

} // verus!
