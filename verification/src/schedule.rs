use vstd::prelude::*;

use crate::error::KernelError;
use crate::datetime::{is_instant_value, opt_instant_ok, parse_datetime, spec_parse_datetime, NANOS_PER_MINUTE};
use crate::network::{is_acyclic, is_topological_order, on_cycle, kahn_order, edges_in_range};
use crate::text::{opt_view, owned, same_text};

verus! {

broadcast use vstd::seq_lib::group_seq_properties;

/// A non-fatal issue detected during scheduling.
#[derive(Debug, Clone)]
pub struct ScheduleWarning {
    /// `CIRCULAR_DEPENDENCY` | `NEGATIVE_FLOAT` | `DEADLINE_MISSED`
    /// | `MISSING_PREDECESSOR` | `MISSING_SUCCESSOR`
    pub code: String,
    pub message: String,
    pub activity_id: Option<String>,
}

/// A logical dependency between two activities, as far as the network needs it.
#[derive(Debug, Clone)]
pub struct DependencyLink {
    pub predecessor_id: String,
    pub successor_id: String,
    /// `FS` | `SS` | `FF` | `SF`
    pub dep_type: String,
}

/// The activity network: one node per distinct activity id and one edge per
/// dependency whose two ends are both known activities.
#[derive(Debug)]
pub struct ActivityNetwork {
    /// Distinct activity ids, in order of first appearance.
    pub nodes: Vec<String>,
    /// `(predecessor, successor)` node indices of each accepted dependency, in request order.
    pub edges: Vec<(usize, usize)>,
    /// For each edge, the index of the dependency it came from.
    pub edge_deps: Vec<usize>,
    /// One warning per dependency that names an unknown activity, in request order.
    pub warnings: Vec<ScheduleWarning>,
}

/// The network together with a processing order of its nodes.
#[derive(Debug)]
pub struct NetworkOrder {
    pub network: ActivityNetwork,
    /// Node indices, each predecessor before its successors.
    pub order: Vec<usize>,
}

pub open spec fn str_views(s: Seq<String>) -> Seq<Seq<char>> {
    s.map_values(|x: String| x@)
}

/// The distinct entries of `s`, each where it first appears.
pub open spec fn unique_ids(s: Seq<Seq<char>>) -> Seq<Seq<char>>
    decreases s.len(),
{
    if s.len() == 0 {
        Seq::empty()
    } else {
        let u = unique_ids(s.drop_last());
        if u.contains(s.last()) {
            u
        } else {
            u.push(s.last())
        }
    }
}

/// Every activity id appears exactly once among the network's nodes, and nothing else does.
pub proof fn lemma_unique_ids(s: Seq<Seq<char>>)
    ensures
        unique_ids(s).no_duplicates(),
        forall|x: Seq<char>| unique_ids(s).contains(x) <==> s.contains(x),
    decreases s.len(),
{
    if s.len() > 0 {
        lemma_unique_ids(s.drop_last());
        let u = unique_ids(s.drop_last());
        assert forall|x: Seq<char>| unique_ids(s).contains(x) <==> s.contains(x) by {
            if s.contains(x) && x != s.last() {
                let i = choose|i: int| 0 <= i < s.len() && s[i] == x;
                assert(s.drop_last()[i] == x);
            }
            if s.drop_last().contains(x) {
                let i = choose|i: int| 0 <= i < s.len() - 1 && s.drop_last()[i] == x;
                assert(s[i] == x);
            }
            if !u.contains(s.last()) {
                assert(u.push(s.last()).last() == s.last());
                if u.push(s.last()).contains(x) && x != s.last() {
                    let i = choose|i: int| 0 <= i < u.len() + 1 && u.push(s.last())[i] == x;
                    assert(u[i] == x);
                }
                if u.contains(x) {
                    let i = choose|i: int| 0 <= i < u.len() && u[i] == x;
                    assert(u.push(s.last())[i] == x);
                }
            }
        }
    }
}

/// Both ends of the dependency are known activities.
pub open spec fn is_accepted(nodes: Seq<Seq<char>>, d: DependencyLink) -> bool {
    nodes.contains(d.predecessor_id@) && nodes.contains(d.successor_id@)
}

/// Indices of the first `k` dependencies that become edges.
pub open spec fn accepted_deps(nodes: Seq<Seq<char>>, deps: Seq<DependencyLink>, k: int) -> Seq<int>
    decreases k,
{
    if k <= 0 {
        Seq::empty()
    } else if is_accepted(nodes, deps[k - 1]) {
        accepted_deps(nodes, deps, k - 1).push(k - 1)
    } else {
        accepted_deps(nodes, deps, k - 1)
    }
}

/// Indices of the first `k` dependencies that name an unknown activity.
pub open spec fn rejected_deps(nodes: Seq<Seq<char>>, deps: Seq<DependencyLink>, k: int) -> Seq<int>
    decreases k,
{
    if k <= 0 {
        Seq::empty()
    } else if is_accepted(nodes, deps[k - 1]) {
        rejected_deps(nodes, deps, k - 1)
    } else {
        rejected_deps(nodes, deps, k - 1).push(k - 1)
    }
}

/// The warning raised for a dependency that names an unknown activity: an unknown
/// predecessor is reported against the successor, otherwise an unknown successor
/// against the predecessor.
pub open spec fn is_dependency_warning(w: ScheduleWarning, nodes: Seq<Seq<char>>, d: DependencyLink) -> bool {
    if !nodes.contains(d.predecessor_id@) {
        &&& w.code@ == "MISSING_PREDECESSOR"@
        &&& w.message@ == "predecessor '"@ + d.predecessor_id@ + "' not found"@
        &&& w.activity_id matches Some(a) && a@ == d.successor_id@
    } else {
        &&& w.code@ == "MISSING_SUCCESSOR"@
        &&& w.message@ == "successor '"@ + d.successor_id@ + "' not found"@
        &&& w.activity_id matches Some(a) && a@ == d.predecessor_id@
    }
}

/// `net` is the network of these activities and dependencies.
pub open spec fn is_network_of(net: ActivityNetwork, ids: Seq<String>, deps: Seq<DependencyLink>) -> bool {
    let nodes = str_views(net.nodes@);
    let acc = accepted_deps(nodes, deps, deps.len() as int);
    let rej = rejected_deps(nodes, deps, deps.len() as int);
    &&& nodes == unique_ids(str_views(ids))
    &&& net.edges.len() == acc.len()
    &&& net.edge_deps.len() == acc.len()
    &&& forall|t: int| 0 <= t < acc.len() ==> #[trigger] net.edge_deps[t] == acc[t]
    &&& forall|t: int|
        0 <= t < acc.len() ==> {
            let d = deps[acc[t]];
            let e = #[trigger] net.edges[t];
            &&& e.0 < nodes.len()
            &&& e.1 < nodes.len()
            &&& nodes[e.0 as int] == d.predecessor_id@
            &&& nodes[e.1 as int] == d.successor_id@
        }
    &&& net.warnings.len() == rej.len()
    &&& forall|t: int|
        0 <= t < rej.len() ==> is_dependency_warning(#[trigger] net.warnings[t], nodes, deps[rej[t]])
}

/// Index of the node named `id`, if any.
fn find_node(nodes: &Vec<String>, id: &String) -> (res: Option<usize>)
    ensures
        match res {
            Some(i) => i < nodes.len() && nodes[i as int]@ == id@,
            None => !str_views(nodes@).contains(id@),
        },
{
    let mut i: usize = 0;
    while i < nodes.len()
        invariant
            i <= nodes.len(),
            forall|j: int| 0 <= j < i ==> nodes[j]@ != id@,
        decreases nodes.len() - i,
    {
        if nodes[i] == *id {
            return Some(i);
        }
        i = i + 1;
    }
    proof {
        if str_views(nodes@).contains(id@) {
            let j = choose|j: int| 0 <= j < nodes.len() && str_views(nodes@)[j] == id@;
            assert(nodes[j]@ == id@);
        }
    }
    None
}

fn dependency_warning(nodes: &Vec<String>, d: &DependencyLink) -> (w: ScheduleWarning)
    requires
        !is_accepted(str_views(nodes@), *d),
    ensures
        is_dependency_warning(w, str_views(nodes@), *d),
{
    let found = find_node(nodes, &d.predecessor_id);
    if let Some(j) = found {
        assert(str_views(nodes@)[j as int] == d.predecessor_id@);
    }
    if found.is_none() {
        let mut message = owned("predecessor '");
        message.append(d.predecessor_id.as_str());
        message.append("' not found");
        ScheduleWarning {
            code: owned("MISSING_PREDECESSOR"),
            message,
            activity_id: Some(d.successor_id.clone()),
        }
    } else {
        let mut message = owned("successor '");
        message.append(d.successor_id.as_str());
        message.append("' not found");
        ScheduleWarning {
            code: owned("MISSING_SUCCESSOR"),
            message,
            activity_id: Some(d.predecessor_id.clone()),
        }
    }
}

/// Builds the activity network: distinct activity ids become nodes, dependencies
/// between known activities become edges, and every other dependency becomes a
/// `MISSING_PREDECESSOR` or `MISSING_SUCCESSOR` warning.
pub fn build_network(activity_ids: &Vec<String>, deps: &Vec<DependencyLink>) -> (net: ActivityNetwork)
    ensures
        is_network_of(net, activity_ids@, deps@),
{
    let mut nodes: Vec<String> = Vec::new();
    let mut i: usize = 0;
    while i < activity_ids.len()
        invariant
            i <= activity_ids.len(),
            str_views(nodes@) == unique_ids(str_views(activity_ids@.take(i as int))),
        decreases activity_ids.len() - i,
    {
        let ghost prefix = str_views(activity_ids@.take(i as int));
        let ghost next = str_views(activity_ids@.take(i + 1));
        assert(next.drop_last() =~= prefix);
        assert(next.last() == activity_ids[i as int]@);
        let found = find_node(&nodes, &activity_ids[i]);
        match found {
            Some(j) => {
                assert(str_views(nodes@)[j as int] == activity_ids[i as int]@);
                assert(unique_ids(prefix).contains(next.last()));
                assert(str_views(nodes@) == unique_ids(next));
            },
            None => {
                nodes.push(activity_ids[i].clone());
                assert(str_views(nodes@) =~= unique_ids(prefix).push(activity_ids[i as int]@));
            },
        }
        i = i + 1;
    }
    assert(activity_ids@.take(activity_ids.len() as int) =~= activity_ids@);
    let ghost nv = str_views(nodes@);

    let mut edges: Vec<(usize, usize)> = Vec::new();
    let mut edge_deps: Vec<usize> = Vec::new();
    let mut warnings: Vec<ScheduleWarning> = Vec::new();
    let mut k: usize = 0;
    while k < deps.len()
        invariant
            k <= deps.len(),
            nv == str_views(nodes@),
            edges.len() == accepted_deps(nv, deps@, k as int).len(),
            edge_deps.len() == accepted_deps(nv, deps@, k as int).len(),
            forall|t: int|
                0 <= t < edge_deps.len() ==> #[trigger] edge_deps[t] == accepted_deps(
                    nv,
                    deps@,
                    k as int,
                )[t],
            forall|t: int|
                0 <= t < edges.len() ==> {
                    let d = deps@[accepted_deps(nv, deps@, k as int)[t]];
                    let e = #[trigger] edges[t];
                    &&& e.0 < nv.len()
                    &&& e.1 < nv.len()
                    &&& nv[e.0 as int] == d.predecessor_id@
                    &&& nv[e.1 as int] == d.successor_id@
                },
            warnings.len() == rejected_deps(nv, deps@, k as int).len(),
            forall|t: int|
                0 <= t < warnings.len() ==> is_dependency_warning(
                    #[trigger] warnings[t],
                    nv,
                    deps@[rejected_deps(nv, deps@, k as int)[t]],
                ),
        decreases deps.len() - k,
    {
        let d = &deps[k];
        let p = find_node(&nodes, &d.predecessor_id);
        let s = find_node(&nodes, &d.successor_id);
        match (p, s) {
            (Some(pi), Some(si)) => {
                assert(nv.contains(d.predecessor_id@)) by {
                    assert(nv[pi as int] == d.predecessor_id@);
                }
                assert(nv.contains(d.successor_id@)) by {
                    assert(nv[si as int] == d.successor_id@);
                }
                edges.push((pi, si));
                edge_deps.push(k);
            },
            _ => {
                assert(!is_accepted(nv, deps@[k as int]));
                warnings.push(dependency_warning(&nodes, d));
            },
        }
        k = k + 1;
    }
    ActivityNetwork { nodes, edges, edge_deps, warnings }
}

/// Builds the activity network and orders it so that every predecessor comes
/// before its successors.
///
/// Fails with `CircularDependency` exactly when no such order exists; the id
/// named is that of an activity lying on a cycle of dependencies.
pub fn order_activities(activity_ids: &Vec<String>, deps: &Vec<DependencyLink>) -> (res: Result<
    NetworkOrder,
    KernelError,
>)
    ensures
        match res {
            Ok(o) => {
                &&& is_network_of(o.network, activity_ids@, deps@)
                &&& is_topological_order(o.order@, o.network.nodes.len() as nat, o.network.edges@)
            },
            Err(e) => exists|net: ActivityNetwork, v: usize|
                {
                    &&& is_network_of(net, activity_ids@, deps@)
                    &&& !is_acyclic(net.nodes.len() as nat, net.edges@)
                    &&& v < net.nodes.len()
                    &&& on_cycle(net.edges@, v)
                    &&& e matches KernelError::CircularDependency(id) && id@ == net.nodes@[v as int]@
                },
        },
{
    let network = build_network(activity_ids, deps);
    assert(edges_in_range(network.nodes.len() as nat, network.edges@)) by {
        assert forall|k: int| 0 <= k < network.edges.len() implies (
        #[trigger] network.edges@[k]).0 < network.nodes.len() && network.edges@[k].1
            < network.nodes.len() by {
            assert(network.edges[k] == network.edges@[k]);
        }
    }
    match kahn_order(network.nodes.len(), &network.edges) {
        Ok(order) => Ok(NetworkOrder { network, order }),
        Err(v) => {
            let id = network.nodes[v].clone();
            assert(str_views(network.nodes@)[v as int] == id@);
            Err(KernelError::CircularDependency(id))
        },
    }
}

// ── Defaults of the request fields ────────────────────────────────────────────

/// Status of an activity that names none.
pub fn default_status() -> (r: String)
    ensures
        r@ == "not_started"@,
{
    owned("not_started")
}

/// Constraint of an activity that names none.
pub fn default_constraint() -> (r: String)
    ensures
        r@ == "ASAP"@,
{
    owned("ASAP")
}

/// Type of a dependency that names none.
pub fn default_dep_type() -> (r: String)
    ensures
        r@ == "FS"@,
{
    owned("FS")
}

// ── Dependency types ─────────────────────────────────────────────────────────

/// How a dependency links its two activities.
#[derive(Debug, Clone, Copy, PartialEq, Eq)]
pub enum DependencyKind {
    FinishToStart,
    StartToStart,
    FinishToFinish,
    StartToFinish,
}

/// `SS`, `FF` and `SF` name their kinds; anything else is finish-to-start.
pub open spec fn spec_dependency_kind(dep_type: Seq<char>) -> DependencyKind {
    if dep_type == "SS"@ {
        DependencyKind::StartToStart
    } else if dep_type == "FF"@ {
        DependencyKind::FinishToFinish
    } else if dep_type == "SF"@ {
        DependencyKind::StartToFinish
    } else {
        DependencyKind::FinishToStart
    }
}

/// Reads a dependency type (see `spec_dependency_kind`).
pub fn dependency_kind(dep_type: &str) -> (r: DependencyKind)
    ensures
        r == spec_dependency_kind(dep_type@),
{
    if same_text(dep_type, "SS") {
        DependencyKind::StartToStart
    } else if same_text(dep_type, "FF") {
        DependencyKind::FinishToFinish
    } else if same_text(dep_type, "SF") {
        DependencyKind::StartToFinish
    } else {
        DependencyKind::FinishToStart
    }
}

// ── Forward and backward pass decisions ──────────────────────────────────────

/// Largest of `base` and the entries of `s`.
pub open spec fn max_from(base: int, s: Seq<i128>) -> int
    decreases s.len(),
{
    if s.len() == 0 {
        base
    } else {
        let m = max_from(base, s.drop_last());
        if s.last() > m {
            s.last() as int
        } else {
            m
        }
    }
}

/// Smallest of `base` and the entries of `s`.
pub open spec fn min_from(base: int, s: Seq<i128>) -> int
    decreases s.len(),
{
    if s.len() == 0 {
        base
    } else {
        let m = min_from(base, s.drop_last());
        if s.last() < m {
            s.last() as int
        } else {
            m
        }
    }
}

/// The latest of a base date and driven dates is no earlier than any of them,
/// and is one of them.
pub proof fn lemma_max_from_bounds(base: int, s: Seq<i128>)
    ensures
        max_from(base, s) >= base,
        forall|i: int| 0 <= i < s.len() ==> max_from(base, s) >= s[i],
        max_from(base, s) == base || exists|i: int| 0 <= i < s.len() && max_from(base, s) == s[i],
    decreases s.len(),
{
    if s.len() > 0 {
        lemma_max_from_bounds(base, s.drop_last());
        if max_from(base, s.drop_last()) != base && max_from(base, s) == max_from(base, s.drop_last()) {
            let i = choose|i: int| 0 <= i < s.len() - 1 && max_from(base, s.drop_last()) == s.drop_last()[i];
            assert(s[i] == s.drop_last()[i]);
        }
        assert forall|i: int| 0 <= i < s.len() implies max_from(base, s) >= s[i] by {
            if i < s.len() - 1 {
                assert(s[i] == s.drop_last()[i]);
            }
        }
    }
}

/// The earliest of a base date and driven dates is no later than any of them,
/// and is one of them.
pub proof fn lemma_min_from_bounds(base: int, s: Seq<i128>)
    ensures
        min_from(base, s) <= base,
        forall|i: int| 0 <= i < s.len() ==> min_from(base, s) <= s[i],
        min_from(base, s) == base || exists|i: int| 0 <= i < s.len() && min_from(base, s) == s[i],
    decreases s.len(),
{
    if s.len() > 0 {
        lemma_min_from_bounds(base, s.drop_last());
        if min_from(base, s.drop_last()) != base && min_from(base, s) == min_from(base, s.drop_last()) {
            let i = choose|i: int| 0 <= i < s.len() - 1 && min_from(base, s.drop_last()) == s.drop_last()[i];
            assert(s[i] == s.drop_last()[i]);
        }
        assert forall|i: int| 0 <= i < s.len() implies min_from(base, s) <= s[i] by {
            if i < s.len() - 1 {
                assert(s[i] == s.drop_last()[i]);
            }
        }
    }
}

fn max_of(base: i128, s: &Vec<i128>) -> (r: i128)
    ensures
        r == max_from(base as int, s@),
{
    let mut m = base;
    let mut i: usize = 0;
    while i < s.len()
        invariant
            i <= s.len(),
            m == max_from(base as int, s@.take(i as int)),
        decreases s.len() - i,
    {
        assert(s@.take(i + 1).drop_last() =~= s@.take(i as int));
        if s[i] > m {
            m = s[i];
        }
        i = i + 1;
    }
    assert(s@.take(s.len() as int) =~= s@);
    m
}

fn min_of(base: i128, s: &Vec<i128>) -> (r: i128)
    ensures
        r == min_from(base as int, s@),
{
    let mut m = base;
    let mut i: usize = 0;
    while i < s.len()
        invariant
            i <= s.len(),
            m == min_from(base as int, s@.take(i as int)),
        decreases s.len() - i,
    {
        assert(s@.take(i + 1).drop_last() =~= s@.take(i as int));
        if s[i] < m {
            m = s[i];
        }
        i = i + 1;
    }
    assert(s@.take(s.len() as int) =~= s@);
    m
}

/// Early start before predecessors are considered: the constraint date of a
/// `MSO` or `SNET` activity that has one, else the project start.
pub open spec fn spec_constraint_early_start(
    constraint_type: Seq<char>,
    constraint_date: Option<Seq<char>>,
    project_start: int,
) -> Result<int, Seq<char>> {
    if (constraint_type == "MSO"@ || constraint_type == "SNET"@) && constraint_date is Some {
        match spec_parse_datetime(constraint_date->0) {
            Some(t) => Ok(t),
            None => Err(constraint_date->0),
        }
    } else {
        Ok(project_start)
    }
}

/// Early start from the activity's own constraint (see `spec_constraint_early_start`);
/// an unreadable constraint date is a `DateParse` error.
pub fn constraint_early_start(
    constraint_type: &str,
    constraint_date: &Option<String>,
    project_start: i128,
) -> (r: Result<i128, KernelError>)
    ensures
        match spec_constraint_early_start(constraint_type@, opt_view(*constraint_date), project_start as int) {
            Ok(t) => r == Ok::<i128, KernelError>(t as i128),
            Err(text) => r matches Err(KernelError::DateParse(x)) && x@ == text,
        },
{
    if same_text(constraint_type, "MSO") || same_text(constraint_type, "SNET") {
        if let Some(cd) = constraint_date {
            return parse_datetime(cd.as_str());
        }
    }
    Ok(project_start)
}

/// Only `MSO` and `SNET` constraints set the early start: with a readable date
/// they start the activity on that date; every other constraint type, and one
/// without a date, leaves the project start, whatever the date says.
pub proof fn lemma_early_start_constraint_kinds(
    constraint_type: Seq<char>,
    constraint_date: Option<Seq<char>>,
    project_start: int,
)
    ensures
        constraint_type != "MSO"@ && constraint_type != "SNET"@ ==> spec_constraint_early_start(
            constraint_type,
            constraint_date,
            project_start,
        ) == Ok::<int, Seq<char>>(project_start),
        constraint_date is None ==> spec_constraint_early_start(constraint_type, constraint_date, project_start)
            == Ok::<int, Seq<char>>(project_start),
        (constraint_type == "MSO"@ || constraint_type == "SNET"@) && constraint_date is Some
            && spec_parse_datetime(constraint_date->0) is Some ==> spec_constraint_early_start(
            constraint_type,
            constraint_date,
            project_start,
        ) == Ok::<int, Seq<char>>(spec_parse_datetime(constraint_date->0)->0),
{
}

/// `status` marks an activity that has started.
pub open spec fn has_started(status: Seq<char>) -> bool {
    status == "in_progress"@ || status == "completed"@
}

/// Early start: the latest of `base` and the dates the predecessors drive; an
/// activity that has started and records a readable actual start begins then instead.
pub open spec fn spec_early_start(base: int, driven: Seq<i128>, status: Seq<char>, actual_start: Option<Seq<char>>) -> int {
    if has_started(status) && actual_start is Some && spec_parse_datetime(actual_start->0) is Some {
        spec_parse_datetime(actual_start->0)->0
    } else {
        max_from(base, driven)
    }
}

/// An activity that has started (`in_progress` or `completed`) with a readable
/// actual start begins then; any other begins at the latest of `base` and the
/// dates its predecessors drive: no earlier than any of them, and equal to one.
pub proof fn lemma_early_start_kinds(base: int, driven: Seq<i128>, status: Seq<char>, actual_start: Option<Seq<char>>)
    ensures
        (status == "in_progress"@ || status == "completed"@) && actual_start is Some && spec_parse_datetime(
            actual_start->0,
        ) is Some ==> spec_early_start(base, driven, status, actual_start) == spec_parse_datetime(actual_start->0)->0,
        !((status == "in_progress"@ || status == "completed"@) && actual_start is Some && spec_parse_datetime(
            actual_start->0,
        ) is Some) ==> {
            let es = spec_early_start(base, driven, status, actual_start);
            &&& es >= base
            &&& forall|i: int| 0 <= i < driven.len() ==> es >= driven[i]
            &&& (es == base || exists|i: int| 0 <= i < driven.len() && es == driven[i])
        },
{
    lemma_max_from_bounds(base, driven);
}

/// Early start (see `spec_early_start`).
pub fn early_start(base: i128, driven: &Vec<i128>, status: &str, actual_start: &Option<String>) -> (r: i128)
    ensures
        r == spec_early_start(base as int, driven@, status@, opt_view(*actual_start)),
{
    let es = max_of(base, driven);
    if same_text(status, "in_progress") || same_text(status, "completed") {
        if let Some(a) = actual_start {
            if let Ok(t) = parse_datetime(a.as_str()) {
                return t;
            }
        }
    }
    es
}

/// Late finish before successors are considered: a readable constraint date of a
/// `MFO` or `FNLT` activity replaces the project finish; that of a `FNET`
/// activity replaces it only when later.
pub open spec fn spec_constraint_late_finish(
    constraint_type: Seq<char>,
    constraint_date: Option<Seq<char>>,
    project_finish: int,
) -> int {
    if constraint_date is Some && spec_parse_datetime(constraint_date->0) is Some {
        let t = spec_parse_datetime(constraint_date->0)->0;
        if constraint_type == "MFO"@ || constraint_type == "FNLT"@ {
            t
        } else if constraint_type == "FNET"@ {
            if t > project_finish {
                t
            } else {
                project_finish
            }
        } else {
            project_finish
        }
    } else {
        project_finish
    }
}

/// Only `MFO`, `FNLT` and `FNET` constraints bound the late finish: with a
/// readable date, `MFO` and `FNLT` finish the activity on that date and `FNET`
/// no earlier than it; every other constraint type, and an unreadable or
/// missing date, leaves the project finish, whatever the date says.
pub proof fn lemma_late_finish_constraint_kinds(
    constraint_type: Seq<char>,
    constraint_date: Option<Seq<char>>,
    project_finish: int,
)
    ensures
        constraint_type != "MFO"@ && constraint_type != "FNLT"@ && constraint_type != "FNET"@
            ==> spec_constraint_late_finish(constraint_type, constraint_date, project_finish) == project_finish,
        !(constraint_date is Some && spec_parse_datetime(constraint_date->0) is Some)
            ==> spec_constraint_late_finish(constraint_type, constraint_date, project_finish) == project_finish,
        constraint_date is Some && spec_parse_datetime(constraint_date->0) is Some && (constraint_type == "MFO"@
            || constraint_type == "FNLT"@) ==> spec_constraint_late_finish(constraint_type, constraint_date, project_finish)
            == spec_parse_datetime(constraint_date->0)->0,
        constraint_date is Some && spec_parse_datetime(constraint_date->0) is Some && constraint_type == "FNET"@
            ==> spec_constraint_late_finish(constraint_type, constraint_date, project_finish) >= spec_parse_datetime(
            constraint_date->0,
        )->0,
        constraint_date is Some && spec_parse_datetime(constraint_date->0) is Some && constraint_type == "FNET"@
            ==> spec_constraint_late_finish(constraint_type, constraint_date, project_finish) >= project_finish,
        constraint_date is Some && spec_parse_datetime(constraint_date->0) is Some && constraint_type == "FNET"@ ==> (
        spec_constraint_late_finish(constraint_type, constraint_date, project_finish) == spec_parse_datetime(
            constraint_date->0,
        )->0 || spec_constraint_late_finish(constraint_type, constraint_date, project_finish) == project_finish),
{
    reveal_strlit("MFO");
    reveal_strlit("FNLT");
    reveal_strlit("FNET");
    assert("FNET"@[2] != "FNLT"@[2]);
    assert("FNET"@ != "MFO"@);
}

/// Late finish from the activity's own constraint (see `spec_constraint_late_finish`).
pub fn constraint_late_finish(
    constraint_type: &str,
    constraint_date: &Option<String>,
    project_finish: i128,
) -> (r: i128)
    ensures
        r == spec_constraint_late_finish(constraint_type@, opt_view(*constraint_date), project_finish as int),
{
    if let Some(cd) = constraint_date {
        if let Ok(t) = parse_datetime(cd.as_str()) {
            if same_text(constraint_type, "MFO") || same_text(constraint_type, "FNLT") {
                return t;
            } else if same_text(constraint_type, "FNET") {
                return if t > project_finish {
                    t
                } else {
                    project_finish
                };
            }
        }
    }
    project_finish
}

/// Late finish: the earliest of `base` and the dates the successors drive.
pub fn late_finish(base: i128, driven: &Vec<i128>) -> (r: i128)
    ensures
        r == min_from(base as int, driven@),
{
    min_of(base, driven)
}

/// Project finish: the finish constraint when one is given (the hard deadline
/// of the backward pass), else the latest early finish (never before the
/// project start); an unreadable finish constraint is a `DateParse` error.
pub fn project_finish(
    project_start: i128,
    early_finishes: &Vec<i128>,
    finish_constraint: &Option<String>,
) -> (r: Result<i128, KernelError>)
    ensures
        match finish_constraint {
            None => r == Ok::<i128, KernelError>(max_from(project_start as int, early_finishes@) as i128),
            Some(c) => match spec_parse_datetime(c@) {
                Some(t) => r == Ok::<i128, KernelError>(t as i128),
                None => r matches Err(KernelError::DateParse(x)) && x@ == c@,
            },
        },
{
    match finish_constraint {
        None => Ok(max_of(project_start, early_finishes)),
        Some(c) => parse_datetime(c.as_str()),
    }
}

// ── Float and critical path ──────────────────────────────────────────────────

/// The CPM dates of one activity, as the float analysis reads them.
#[derive(Debug, Clone)]
pub struct ActivityTiming {
    pub id: String,
    pub early_start: Option<i128>,
    pub early_finish: Option<i128>,
    pub late_finish: Option<i128>,
    /// Raw deadline text, if the activity has one.
    pub deadline: Option<String>,
    /// The early finish as the schedule reports it (`YYYY-MM-DDTHH:MM:SS`).
    pub early_finish_text: Option<String>,
}

/// What the float analysis found for one activity.
#[derive(Debug, Clone)]
pub struct FloatOutcome {
    /// Whole minutes from early finish to late finish (towards zero).
    pub total_float_minutes: Option<i64>,
    pub is_critical: bool,
    /// The `DEADLINE_MISSED` warning, when the early finish is after a readable deadline.
    pub deadline_warning: Option<ScheduleWarning>,
}

/// Float analysis of a whole schedule.
#[derive(Debug)]
pub struct FloatAnalysis {
    /// One outcome per activity, in request order.
    pub outcomes: Vec<FloatOutcome>,
    /// Indices of the critical activities, by early start and then request order.
    pub critical_order: Vec<usize>,
    /// Ids of the critical activities in that order.
    pub critical_path: Vec<String>,
    /// Number of activities whose total float is negative.
    pub negative_float_count: usize,
}


/// `a / b` rounded towards zero.
pub open spec fn div_toward_zero(a: int, b: int) -> int {
    if a >= 0 {
        a / b
    } else {
        -((-a) / b)
    }
}

/// Total float in whole minutes: late finish minus early finish (the early start
/// when there is no early finish); none without an early start and a late finish.
pub open spec fn float_minutes(a: ActivityTiming) -> Option<int> {
    match (a.early_start, a.late_finish) {
        (Some(es), Some(lf)) => {
            let ef = match a.early_finish {
                Some(v) => v,
                None => es,
            };
            Some(div_toward_zero(lf - ef, NANOS_PER_MINUTE as int))
        },
        _ => None,
    }
}

/// The activity has a total float of zero or less.
pub open spec fn is_critical_timing(a: ActivityTiming) -> bool {
    float_minutes(a) matches Some(f) && f <= 0
}

/// The activity has a negative total float.
pub open spec fn has_negative_float(a: ActivityTiming) -> bool {
    float_minutes(a) matches Some(f) && f < 0
}

/// The early finish falls after a readable deadline.
pub open spec fn misses_deadline(a: ActivityTiming) -> bool {
    &&& a.deadline is Some
    &&& spec_parse_datetime(a.deadline->0@) is Some
    &&& a.early_finish is Some
    &&& a.early_finish->0 > spec_parse_datetime(a.deadline->0@)->0
}

pub open spec fn is_deadline_warning(w: ScheduleWarning, a: ActivityTiming) -> bool {
    &&& w.code@ == "DEADLINE_MISSED"@
    &&& w.message@ == "activity '"@ + a.id@ + "' early finish "@ + a.early_finish_text->0@
        + " exceeds deadline "@ + a.deadline->0@
    &&& w.activity_id matches Some(x) && x@ == a.id@
}

pub open spec fn is_float_outcome(o: FloatOutcome, a: ActivityTiming) -> bool {
    &&& match float_minutes(a) {
        Some(f) => o.total_float_minutes == Some(f as i64),
        None => o.total_float_minutes is None,
    }
    &&& o.is_critical == is_critical_timing(a)
    &&& if misses_deadline(a) {
        o.deadline_warning matches Some(w) && is_deadline_warning(w, a)
    } else {
        o.deadline_warning is None
    }
}

/// Total float and criticality: an activity with an early start and a late
/// finish has a total float, positive exactly when its late finish lies a whole
/// minute or more after its early finish (its early start when it has no early
/// finish) and negative exactly when a whole minute or more before; it is
/// critical exactly when its late finish is less than a minute after that.
pub proof fn lemma_float_outcome_meaning(o: FloatOutcome, a: ActivityTiming)
    requires
        is_float_outcome(o, a),
        opt_instant_ok(a.early_start),
        opt_instant_ok(a.early_finish),
        opt_instant_ok(a.late_finish),
    ensures
        (o.total_float_minutes is Some) == (a.early_start is Some && a.late_finish is Some),
        o.total_float_minutes matches Some(f) ==> {
            let ef = if a.early_finish is Some { a.early_finish->0 } else { a.early_start->0 };
            let slack = a.late_finish->0 - ef;
            &&& (f > 0) == (slack >= NANOS_PER_MINUTE)
            &&& (f < 0) == (slack <= -NANOS_PER_MINUTE)
        },
        o.is_critical == (a.early_start is Some && a.late_finish is Some && a.late_finish->0 - (if a.early_finish is Some {
            a.early_finish->0
        } else {
            a.early_start->0
        }) < NANOS_PER_MINUTE),
{
    if a.early_start is Some && a.late_finish is Some {
        let ef = if a.early_finish is Some { a.early_finish->0 } else { a.early_start->0 };
        let d: int = a.late_finish->0 - ef;
        let m: int = NANOS_PER_MINUTE as int;
        assert(float_minutes(a) == Some(div_toward_zero(d, m)));
        assert(-0x1000_0000_0000_0000 <= div_toward_zero(d, m) <= 0x1000_0000_0000_0000) by (nonlinear_arith)
            requires
                -0x4000_0000_0000_0000_0000_0000 <= d <= 0x4000_0000_0000_0000_0000_0000,
                m == 60_000_000_000,
                div_toward_zero(d, m) == if d >= 0 { d / m } else { -((-d) / m) },
        ;
        if d >= 0 {
            assert((d / m > 0) == (d >= m)) by (nonlinear_arith)
                requires
                    d >= 0,
                    m == 60_000_000_000,
            ;
            assert(d / m >= 0) by (nonlinear_arith)
                requires
                    d >= 0,
                    m == 60_000_000_000,
            ;
        } else {
            let nd: int = -d;
            assert((nd / m > 0) == (nd >= m)) by (nonlinear_arith)
                requires
                    nd > 0,
                    m == 60_000_000_000,
            ;
            assert(nd / m >= 0) by (nonlinear_arith)
                requires
                    nd > 0,
                    m == 60_000_000_000,
            ;
        }
    }
}

/// A `DEADLINE_MISSED` warning is raised exactly when the activity has an early
/// finish later than its readable deadline; the late finish plays no part.
pub proof fn lemma_deadline_warning_exactly_when_late(o: FloatOutcome, a: ActivityTiming)
    requires
        is_float_outcome(o, a),
    ensures
        (o.deadline_warning is Some) == (a.deadline is Some && spec_parse_datetime(a.deadline->0@) is Some
            && a.early_finish is Some && a.early_finish->0 > spec_parse_datetime(a.deadline->0@)->0),
{
}

/// Two activities that differ only in their late finish get the same deadline
/// warning.
pub proof fn lemma_deadline_warning_ignores_late_finish(
    o1: FloatOutcome,
    a1: ActivityTiming,
    o2: FloatOutcome,
    a2: ActivityTiming,
)
    requires
        is_float_outcome(o1, a1),
        is_float_outcome(o2, a2),
        a1.id == a2.id,
        a1.early_start == a2.early_start,
        a1.early_finish == a2.early_finish,
        a1.deadline == a2.deadline,
        a1.early_finish_text == a2.early_finish_text,
    ensures
        (o1.deadline_warning is Some) == (o2.deadline_warning is Some),
        o1.deadline_warning matches Some(w1) ==> o2.deadline_warning matches Some(w2) && w1.code@ == w2.code@
            && w1.message@ == w2.message@ && opt_view(w1.activity_id) == opt_view(w2.activity_id),
{
}

/// Number of the first `k` activities with negative float.
pub open spec fn negative_count(acts: Seq<ActivityTiming>, k: int) -> nat
    decreases k,
{
    if k <= 0 {
        0
    } else {
        negative_count(acts, k - 1) + if has_negative_float(acts[k - 1]) {
            1nat
        } else {
            0nat
        }
    }
}

/// Activity `a` comes before activity `b` on the critical path: earlier early
/// start, or the same early start and earlier in the request.
pub open spec fn critical_before(acts: Seq<ActivityTiming>, a: usize, b: usize) -> bool {
    let ea = acts[a as int].early_start->0;
    let eb = acts[b as int].early_start->0;
    ea < eb || (ea == eb && a < b)
}

/// `order` lists the critical activities among the first `k`, each once, by early start and then request order.
pub open spec fn is_critical_order(order: Seq<usize>, acts: Seq<ActivityTiming>, k: int) -> bool {
    &&& forall|t: int| 0 <= t < order.len() ==> #[trigger] order[t] < k && is_critical_timing(acts[order[t] as int])
    &&& forall|i: int| 0 <= i < k && is_critical_timing(#[trigger] acts[i]) ==> order.contains(i as usize)
    &&& forall|s: int, t: int| 0 <= s < t < order.len() ==> critical_before(acts, #[trigger] order[s], #[trigger] order[t])
}

pub open spec fn timings_ok(acts: Seq<ActivityTiming>) -> bool {
    forall|i: int|
        0 <= i < acts.len() ==> {
            let a = #[trigger] acts[i];
            &&& opt_instant_ok(a.early_start)
            &&& opt_instant_ok(a.early_finish)
            &&& opt_instant_ok(a.late_finish)
            &&& (a.early_finish is Some <==> a.early_finish_text is Some)
        }
}

fn float_of(a: &ActivityTiming) -> (r: Option<i64>)
    requires
        opt_instant_ok(a.early_start),
        opt_instant_ok(a.early_finish),
        opt_instant_ok(a.late_finish),
    ensures
        match float_minutes(*a) {
            Some(f) => r == Some(f as i64) && i64::MIN <= f <= i64::MAX,
            None => r is None,
        },
{
    match (a.early_start, a.late_finish) {
        (Some(es), Some(lf)) => {
            let ef = match a.early_finish {
                Some(v) => v,
                None => es,
            };
            let diff: i128 = lf - ef;
            let q: i128 = if diff >= 0 {
                diff / NANOS_PER_MINUTE
            } else {
                -((-diff) / NANOS_PER_MINUTE)
            };
            assert(-0x4000_0000_0000_0000 <= q <= 0x4000_0000_0000_0000) by (nonlinear_arith)
                requires
                    -0x4000_0000_0000_0000_0000_0000 <= diff <= 0x4000_0000_0000_0000_0000_0000,
                    diff >= 0 ==> q == (diff as int) / (NANOS_PER_MINUTE as int),
                    diff < 0 ==> q == -((-diff) / (NANOS_PER_MINUTE as int)),
                    NANOS_PER_MINUTE == 60_000_000_000,
            ;
            Some(q as i64)
        },
        _ => None,
    }
}

fn deadline_warning(a: &ActivityTiming) -> (r: Option<ScheduleWarning>)
    requires
        a.early_finish is Some <==> a.early_finish_text is Some,
    ensures
        if misses_deadline(*a) {
            r matches Some(w) && is_deadline_warning(w, *a)
        } else {
            r is None
        },
{
    if let Some(dl) = &a.deadline {
        if let Ok(t) = parse_datetime(dl.as_str()) {
            if let Some(ef) = a.early_finish {
                if ef > t {
                    let ef_text = match &a.early_finish_text {
                        Some(x) => x,
                        None => {
                            assert(false);
                            dl
                        },
                    };
                    let mut message = owned("activity '");
                    message.append(a.id.as_str());
                    message.append("' early finish ");
                    message.append(ef_text.as_str());
                    message.append(" exceeds deadline ");
                    message.append(dl.as_str());
                    return Some(
                        ScheduleWarning {
                            code: owned("DEADLINE_MISSED"),
                            message,
                            activity_id: Some(a.id.clone()),
                        },
                    );
                }
            }
        }
    }
    None
}

fn starts_no_later(a: &ActivityTiming, es: i128) -> (r: bool)
    ensures
        a.early_start is Some ==> r == (a.early_start->0 <= es),
{
    match a.early_start {
        Some(v) => v <= es,
        None => true,
    }
}

/// Total float, criticality and deadline checks for every activity, and the
/// critical path: the critical activities (total float of zero or less) by
/// early start, ties kept in request order.
pub fn analyse_float(acts: &Vec<ActivityTiming>) -> (r: FloatAnalysis)
    requires
        timings_ok(acts@),
    ensures
        r.outcomes.len() == acts.len(),
        forall|i: int| 0 <= i < acts.len() ==> is_float_outcome(#[trigger] r.outcomes[i], acts[i]),
        is_critical_order(r.critical_order@, acts@, acts.len() as int),
        r.critical_path.len() == r.critical_order.len(),
        forall|t: int|
            0 <= t < r.critical_path.len() ==> #[trigger] r.critical_path[t]@ == acts[r.critical_order[t] as int].id@,
        r.negative_float_count == negative_count(acts@, acts.len() as int),
{
    let n = acts.len();
    let mut outcomes: Vec<FloatOutcome> = Vec::new();
    let mut order: Vec<usize> = Vec::new();
    let mut negative: usize = 0;
    let mut k: usize = 0;
    while k < n
        invariant
            k <= n,
            n == acts.len(),
            timings_ok(acts@),
            outcomes.len() == k,
            forall|i: int| 0 <= i < k ==> is_float_outcome(#[trigger] outcomes[i], acts[i]),
            is_critical_order(order@, acts@, k as int),
            negative == negative_count(acts@, k as int),
            negative <= k,
        decreases n - k,
    {
        let a = &acts[k];
        assert(timings_ok(acts@) ==> opt_instant_ok(acts@[k as int].early_start));
        let tf = float_of(a);
        let critical = match tf {
            Some(f) => f <= 0,
            None => false,
        };
        if let Some(f) = tf {
            if f < 0 {
                negative = negative + 1;
            }
        }
        outcomes.push(FloatOutcome { total_float_minutes: tf, is_critical: critical, deadline_warning: deadline_warning(a) });
        if critical {
            let es = match a.early_start {
                Some(v) => v,
                None => 0,
            };
            let mut pos: usize = 0;
            while pos < order.len() && starts_no_later(&acts[order[pos]], es)
                invariant
                    pos <= order.len(),
                    is_critical_order(order@, acts@, k as int),
                    n == acts.len(),
                    k < n,
                    is_critical_timing(acts[k as int]),
                    es == acts[k as int].early_start->0,
                    forall|t: int| 0 <= t < pos ==> acts[order[t] as int].early_start->0 <= es,
                decreases order.len() - pos,
            {
                pos = pos + 1;
            }
            let ghost before = order@;
            order.insert(pos, k);
            proof {
                assert forall|s: int, t: int| 0 <= s < t < order.len() implies critical_before(
                    acts@,
                    #[trigger] order@[s],
                    #[trigger] order@[t],
                ) by {
                    if s < pos && t == pos {
                    } else if s == pos && t > pos {
                        assert(order@[t] == before[t - 1]);
                        if pos < before.len() {
                            assert(critical_before(acts@, before[pos as int], before[t - 1]) || t - 1 == pos);
                        }
                    } else if s < pos && t > pos {
                        assert(order@[t] == before[t - 1]);
                    } else if s > pos {
                        assert(order@[s] == before[s - 1]);
                        assert(order@[t] == before[t - 1]);
                    }
                }
                assert forall|i: int| 0 <= i < k + 1 && is_critical_timing(#[trigger] acts@[i]) implies order@.contains(
                    i as usize,
                ) by {
                    if i == k {
                        assert(order@[pos as int] == k);
                    } else {
                        assert(before.contains(i as usize));
                        let t = choose|t: int| 0 <= t < before.len() && before[t] == i as usize;
                        if t < pos {
                            assert(order@[t] == i as usize);
                        } else {
                            assert(order@[t + 1] == i as usize);
                        }
                    }
                }
            }
        }
        proof {
            assert(acts@.take(k + 1).len() == k + 1);
        }
        k = k + 1;
    }
    let mut path: Vec<String> = Vec::new();
    let mut t: usize = 0;
    while t < order.len()
        invariant
            t <= order.len(),
            n == acts.len(),
            is_critical_order(order@, acts@, n as int),
            path.len() == t,
            forall|u: int| 0 <= u < t ==> #[trigger] path[u]@ == acts[order[u] as int].id@,
        decreases order.len() - t,
    {
        path.push(acts[order[t]].id.clone());
        t = t + 1;
    }
    FloatAnalysis { outcomes, critical_order: order, critical_path: path, negative_float_count: negative }
}

} // verus!
