//! The build order of a workspace: its members arranged so that each
//! deployable unit comes after the units that it depends on.

use crate::deps::{outcome_view, Resolution, ResolutionView};
use crate::error::{Error, ErrorView};
use crate::filter::{contract_deps_of, get_contract_deps};
use crate::graph::{
    add_dependency, insert, is_empty, new_sorter, pop, ready, waiting, with_dependency,
    with_element, Waiting,
};
use crate::package::{package_views, Package, PackageView};
use topological_sort::TopologicalSort;
use vstd::prelude::*;
use vstd::seq_lib::lemma_seq_contains_after_push;

verus! {

/// A package that takes part in a build, with the package manager's answers
/// for its manifest.
#[derive(Debug, PartialEq, Eq)]
pub struct Member {
    pub package: Package,
    pub resolution: Resolution,
}

/// The mathematical value of a [`Member`].
pub struct MemberView {
    pub package: PackageView,
    pub resolution: ResolutionView,
}

impl View for Member {
    type V = MemberView;

    open spec fn view(&self) -> MemberView {
        MemberView { package: self.package@, resolution: self.resolution@ }
    }
}

/// The views of a sequence of members, in the same order.
pub open spec fn member_views(members: Seq<Member>) -> Seq<MemberView> {
    members.map_values(|member: Member| member@)
}

/// The views of a sequence of identifiers, in the same order.
pub open spec fn id_views(ids: Seq<String>) -> Seq<Seq<char>> {
    ids.map_values(|id: String| id@)
}

/// Whether `at` is the index of the first of `members` whose package has the
/// identifier `id`.
pub open spec fn first_with_id(members: Seq<MemberView>, id: Seq<char>, at: int) -> bool {
    &&& 0 <= at < members.len()
    &&& members[at].package.id == id
    &&& forall|i: int| 0 <= i < at ==> (#[trigger] members[i]).package.id != id
}

/// Whether one of `members` has a package with the identifier `id`.
pub open spec fn is_member(members: Seq<MemberView>, id: Seq<char>) -> bool {
    exists|at: int| first_with_id(members, id, at)
}

/// The package of the first of `members` that has the identifier `id`.
pub open spec fn member_package(members: Seq<MemberView>, id: Seq<char>) -> PackageView {
    members[choose|at: int| first_with_id(members, id, at)].package
}

/// The packages that the identifiers `order` stand for among `members`, in
/// the order of the identifiers. An identifier that no member has stands for
/// nothing.
pub open spec fn arranged(members: Seq<MemberView>, order: Seq<Seq<char>>) -> Seq<PackageView>
    decreases order.len(),
{
    if order.len() == 0 {
        Seq::empty()
    } else {
        let before = arranged(members, order.drop_last());
        if is_member(members, order.last()) {
            before.push(member_package(members, order.last()))
        } else {
            before
        }
    }
}

/// Finds the first of `members` whose package has the identifier `id`.
fn find_member(members: &Vec<Member>, id: &String) -> (found: Option<usize>)
    ensures
        match found {
            Some(at) => first_with_id(member_views(members@), id@, at as int),
            None => !is_member(member_views(members@), id@),
        },
{
    let mut i: usize = 0;
    while i < members.len()
        invariant
            i <= members@.len(),
            forall|j: int| 0 <= j < i ==> (#[trigger] member_views(members@)[j]).package.id != id@,
        decreases members@.len() - i,
    {
        if members[i].package.id == *id {
            return Some(i);
        }
        i += 1;
    }
    None
}

/// Arranges the members' packages in the order of the identifiers `order`:
/// for each identifier in turn, the package of the first member that has it.
/// An identifier that no member has is passed over.
pub fn arrange(members: &Vec<Member>, order: &Vec<String>) -> (packages: Vec<Package>)
    ensures
        package_views(packages@) == arranged(member_views(members@), id_views(order@)),
{
    let ghost views = member_views(members@);
    let ghost ids = id_views(order@);
    let mut packages: Vec<Package> = Vec::new();
    let mut i: usize = 0;
    while i < order.len()
        invariant
            i <= order@.len(),
            views == member_views(members@),
            ids == id_views(order@),
            package_views(packages@) == arranged(views, ids.take(i as int)),
        decreases order@.len() - i,
    {
        proof {
            assert(ids.take(i + 1).drop_last() =~= ids.take(i as int));
        }
        match find_member(members, &order[i]) {
            Some(at) => {
                packages.push(members[at].package.clone());
            },
            None => {},
        }
        i += 1;
    }
    proof {
        assert(ids.take(i as int) =~= ids);
    }
    packages
}

/// Whether each element of `order` that is in `held` waits there only for
/// elements that stand before it in `order`.
spec fn respects(order: Seq<Seq<char>>, held: Waiting) -> bool {
    forall|k: int, other: Seq<char>|
        0 <= k < order.len() && held.dom().contains(order[k]) && #[trigger] held[order[k]].contains(
            other,
        ) ==> exists|j: int| 0 <= j < k && order[j] == other
}

/// Whether `order` and `left` are what popping from a sorter that held
/// `start` gives: each element of `start` is either in `order`, once, or still
/// in `left`; an element in `order` stands after all that it waited for; an
/// element in `left` waits for what it waited for in `start` and is not in
/// `order`.
spec fn popped(start: Waiting, left: Waiting, order: Seq<Seq<char>>) -> bool {
    &&& order.no_duplicates()
    &&& forall|e: Seq<char>| #[trigger]
        start.dom().contains(e) ==> left.dom().contains(e) || order.contains(e)
    &&& forall|e: Seq<char>| #[trigger]
        left.dom().contains(e) ==> start.dom().contains(e) && !order.contains(e)
    &&& forall|e: Seq<char>| #[trigger] order.contains(e) ==> start.dom().contains(e)
    &&& forall|e: Seq<char>, other: Seq<char>|
        left.dom().contains(e) ==> (#[trigger] left[e].contains(other) <==> start[e].contains(other)
            && !order.contains(other))
    &&& respects(order, start)
}

/// Pops from `sorter` until nothing in it is ready, and returns the elements
/// in the order in which they came out.
fn drain(sorter: &mut TopologicalSort<String>) -> (order: Vec<String>)
    requires
        waiting(*old(sorter)).dom().finite(),
    ensures
        popped(waiting(*old(sorter)), waiting(*final(sorter)), id_views(order@)),
        forall|e: Seq<char>| !ready(waiting(*final(sorter)), e),
{
    let ghost start = waiting(*sorter);
    let mut order: Vec<String> = Vec::new();
    loop
        invariant
            waiting(*sorter).dom().finite(),
            popped(start, waiting(*sorter), id_views(order@)),
        ensures
            popped(start, waiting(*sorter), id_views(order@)),
            forall|e: Seq<char>| !ready(waiting(*sorter), e),
        decreases waiting(*sorter).dom().len(),
    {
        let ghost held = waiting(*sorter);
        let ghost before = id_views(order@);
        match pop(sorter) {
            Some(element) => {
                let ghost e = element@;
                order.push(element);
                proof {
                    let left = waiting(*sorter);
                    let after = id_views(order@);
                    assert(after =~= before.push(e));
                    assert(left.dom() =~= held.dom().remove(e));
                    assert forall|x: Seq<char>| after.contains(x) <==> (x == e || before.contains(
                        x,
                    )) by {
                        lemma_seq_contains_after_push(before, e, x);
                    }
                    assert forall|k: int, other: Seq<char>|
                        0 <= k < after.len() && start.dom().contains(after[k])
                            && #[trigger] start[after[k]].contains(other) implies exists|j: int|
                        0 <= j < k && after[j] == other by {
                        if k < before.len() {
                            let j = choose|j: int| 0 <= j < k && before[j] == other;
                            assert(after[j] == other);
                        } else {
                            assert(!held[e].contains(other));
                        }
                    }
                }
            },
            None => {
                break ;
            },
        }
    }
    order
}

/// The deployable units that a member depends on, or the failure of asking
/// for them.
pub open spec fn unit_deps(member: MemberView) -> Result<Seq<PackageView>, ErrorView> {
    contract_deps_of(member.package.manifest_path, member.resolution)
}

/// Whether the member at `i` has a dependency at the place `k` of its
/// deployable units.
pub open spec fn dep_at(members: Seq<MemberView>, i: int, k: int) -> bool {
    &&& 0 <= i < members.len()
    &&& unit_deps(members[i]) is Ok
    &&& 0 <= k < unit_deps(members[i])->Ok_0.len()
}

/// The identifier of the dependency at the place `k` of the member at `i`.
pub open spec fn dep_id(members: Seq<MemberView>, i: int, k: int) -> Seq<char> {
    unit_deps(members[i])->Ok_0[k].id
}

/// Whether the package `succ` depends on the package `prec`: a member with
/// the identifier `succ` has a deployable unit with the identifier `prec`
/// among its dependencies.
pub open spec fn depends_on(members: Seq<MemberView>, succ: Seq<char>, prec: Seq<char>) -> bool {
    exists|i: int, k: int|
        #[trigger] dep_at(members, i, k) && members[i].package.id == succ && dep_id(members, i, k)
            == prec
}

/// Whether `at` is the index of the first of `members` for which asking for
/// its deployable units fails.
pub open spec fn first_failure(members: Seq<MemberView>, at: int) -> bool {
    &&& 0 <= at < members.len()
    &&& unit_deps(members[at]) is Err
    &&& forall|i: int| 0 <= i < at ==> unit_deps(#[trigger] members[i]) is Ok
}

/// The place after `i` in a cycle of `len` packages.
pub open spec fn next_in_cycle(i: int, len: int) -> int {
    if i + 1 < len {
        i + 1
    } else {
        0
    }
}

/// Whether `cycle` is a cycle of dependencies: it is not empty, each of its
/// packages depends on the next, and the last depends on the first.
pub open spec fn is_cycle(members: Seq<MemberView>, cycle: Seq<Seq<char>>) -> bool {
    &&& cycle.len() > 0
    &&& forall|i: int|
        0 <= i < cycle.len() ==> depends_on(
            members,
            #[trigger] cycle[i],
            cycle[next_in_cycle(i, cycle.len() as int)],
        )
}

/// Whether `order` holds the packages of `members` in an order in which they
/// can be built: each package of `order` is the package of the first member
/// with its identifier, no identifier comes twice, every member's identifier
/// comes, and a package that another depends on comes before it.
pub open spec fn in_build_order(members: Seq<MemberView>, order: Seq<PackageView>) -> bool {
    &&& forall|k: int|
        0 <= k < order.len() ==> is_member(members, (#[trigger] order[k]).id) && order[k]
            == member_package(members, order[k].id)
    &&& forall|a: int, b: int|
        0 <= a < b < order.len() ==> (#[trigger] order[a]).id != (#[trigger] order[b]).id
    &&& forall|i: int|
        0 <= i < members.len() ==> exists|k: int|
            0 <= k < order.len() && (#[trigger] order[k]).id == (#[trigger] members[i]).package.id
    &&& forall|a: int, b: int|
        0 <= a < order.len() && 0 <= b < order.len() && depends_on(
            members,
            (#[trigger] order[b]).id,
            (#[trigger] order[a]).id,
        ) ==> a < b
}

/// Whether `outcome` is what ordering `members` may give. Where asking for a
/// member's deployable units fails, it is the failure of the first such
/// member. Else, where there is a cycle of dependencies, it is
/// `CycleDetected`. Else it is the members' packages in a build order.
pub open spec fn workspace_outcome(
    members: Seq<MemberView>,
    outcome: Result<Seq<PackageView>, ErrorView>,
) -> bool {
    if exists|at: int| first_failure(members, at) {
        let at = choose|at: int| first_failure(members, at);
        outcome == Err::<Seq<PackageView>, ErrorView>(unit_deps(members[at])->Err_0)
    } else if exists|cycle: Seq<Seq<char>>| is_cycle(members, cycle) {
        outcome == Err::<Seq<PackageView>, ErrorView>(ErrorView::CycleDetected)
    } else {
        outcome matches Ok(order) && in_build_order(members, order)
    }
}

/// Whether the package `succ` depends on a package of `knot`.
spec fn held_back(members: Seq<MemberView>, knot: Set<Seq<char>>, succ: Seq<char>) -> bool {
    exists|prec: Seq<char>| knot.contains(prec) && depends_on(members, succ, prec)
}

/// Whether `knot` is a set of packages that can never be built: it is not
/// empty, and each package in it depends on a package in it.
spec fn stuck(members: Seq<MemberView>, knot: Set<Seq<char>>) -> bool {
    &&& exists|id: Seq<char>| knot.contains(id)
    &&& forall|succ: Seq<char>|
        knot.contains(succ) ==> #[trigger] held_back(members, knot, succ)
}

/// Whether the place `k` of the member at `i` comes before the place
/// `stop_k` of the member at `stop_i`.
spec fn earlier(i: int, k: int, stop_i: int, stop_k: int) -> bool {
    i < stop_i || (i == stop_i && k < stop_k)
}

/// `depends_on`, of the dependencies before the place `stop_k` of the member
/// at `stop_i` only.
spec fn depends_upto(
    members: Seq<MemberView>,
    stop_i: int,
    stop_k: int,
    succ: Seq<char>,
    prec: Seq<char>,
) -> bool {
    exists|i: int, k: int|
        #[trigger] dep_at(members, i, k) && earlier(i, k, stop_i, stop_k) && members[i].package.id
            == succ && dep_id(members, i, k) == prec
}

/// Whether `id` is in the sorter once the dependencies before the place
/// `stop_k` of the member at `stop_i` are registered, and the members before
/// `stop_i` inserted.
spec fn node_upto(members: Seq<MemberView>, stop_i: int, stop_k: int, id: Seq<char>) -> bool {
    ||| exists|i: int|
        0 <= i < stop_i && i < members.len() && (#[trigger] members[i]).package.id == id
    ||| exists|i: int, k: int|
        #[trigger] dep_at(members, i, k) && earlier(i, k, stop_i, stop_k) && (members[i].package.id
            == id || dep_id(members, i, k) == id)
}

/// What the sorter holds once the dependencies before the place `stop_k` of
/// the member at `stop_i` are registered, and the members before `stop_i`
/// inserted.
#[verifier::opaque]
spec fn graph_upto(members: Seq<MemberView>, stop_i: int, stop_k: int) -> Waiting {
    Map::new(
        |id: Seq<char>| node_upto(members, stop_i, stop_k, id),
        |id: Seq<char>| Set::new(|prec: Seq<char>| depends_upto(members, stop_i, stop_k, id, prec)),
    )
}

/// Before anything is registered, the sorter holds nothing.
proof fn lemma_graph_start(members: Seq<MemberView>)
    ensures
        graph_upto(members, 0, 0) == Waiting::empty(),
{
    reveal(graph_upto);
}

/// Registering the dependency at the place `k` of the member at `i` takes the
/// sorter from what it holds before that place to what it holds before the
/// next.
proof fn lemma_graph_dependency(members: Seq<MemberView>, i: int, k: int)
    requires
        dep_at(members, i, k),
    ensures
        with_dependency(graph_upto(members, i, k), dep_id(members, i, k), members[i].package.id)
            == graph_upto(members, i, k + 1),
{
    reveal(graph_upto);
    let held = graph_upto(members, i, k);
    let prec = dep_id(members, i, k);
    let succ = members[i].package.id;
    let next = with_dependency(held, prec, succ);
    let goal = graph_upto(members, i, k + 1);
    assert forall|id: Seq<char>| next.dom().contains(id) <==> goal.dom().contains(id) by {}
    assert(next =~~= goal);
}

/// Inserting the member at `i`, once its dependencies are registered, takes
/// the sorter to what it holds before the first place of the next member.
proof fn lemma_graph_member(members: Seq<MemberView>, i: int)
    requires
        0 <= i < members.len(),
        unit_deps(members[i]) is Ok,
    ensures
        with_element(
            graph_upto(members, i, unit_deps(members[i])->Ok_0.len() as int),
            members[i].package.id,
        ) == graph_upto(members, i + 1, 0),
{
    reveal(graph_upto);
    let stop = unit_deps(members[i])->Ok_0.len() as int;
    let held = graph_upto(members, i, stop);
    let id0 = members[i].package.id;
    let next = with_element(held, id0);
    let goal = graph_upto(members, i + 1, 0);
    assert forall|id: Seq<char>| next.dom().contains(id) <==> goal.dom().contains(id) by {}
    assert(next =~~= goal);
}

/// Once every member is inserted, the sorter holds the members and what they
/// depend on, and an element waits there for what it depends on.
proof fn lemma_graph_whole(members: Seq<MemberView>)
    ensures
        forall|i: int|
            0 <= i < members.len() ==> graph_upto(members, members.len() as int, 0).dom().contains(
                (#[trigger] members[i]).package.id,
            ),
        forall|succ: Seq<char>, prec: Seq<char>|
            depends_on(members, succ, prec) <==> graph_upto(
                members,
                members.len() as int,
                0,
            ).dom().contains(succ) && #[trigger] graph_upto(
                members,
                members.len() as int,
                0,
            )[succ].contains(prec),
        forall|succ: Seq<char>, prec: Seq<char>|
            depends_on(members, succ, prec) ==> graph_upto(
                members,
                members.len() as int,
                0,
            ).dom().contains(prec),
{
    reveal(graph_upto);
}

/// Packages arranged by an order in which each element stands once, and after
/// all that it waits for in `held`, stand in the same way: each is the
/// package of a member, no identifier comes twice, every member whose
/// identifier is in the order comes, and a package comes after those that it
/// waits for.
proof fn lemma_arranged(members: Seq<MemberView>, order: Seq<Seq<char>>, held: Waiting)
    requires
        order.no_duplicates(),
        respects(order, held),
    ensures
        forall|k: int|
            0 <= k < arranged(members, order).len() ==> {
                let package = #[trigger] arranged(members, order)[k];
                &&& is_member(members, package.id)
                &&& package == member_package(members, package.id)
                &&& order.contains(package.id)
            },
        forall|a: int, b: int|
            0 <= a < b < arranged(members, order).len() ==> (#[trigger] arranged(
                members,
                order,
            )[a]).id != (#[trigger] arranged(members, order)[b]).id,
        forall|id: Seq<char>|
            order.contains(id) && is_member(members, id) ==> exists|k: int|
                0 <= k < arranged(members, order).len() && (#[trigger] arranged(
                    members,
                    order,
                )[k]).id == id,
        forall|a: int, b: int|
            0 <= a < arranged(members, order).len() && 0 <= b < arranged(members, order).len()
                && held.dom().contains((#[trigger] arranged(members, order)[b]).id)
                && held[arranged(members, order)[b].id].contains(
                (#[trigger] arranged(members, order)[a]).id,
            ) ==> a < b,
    decreases order.len(),
{
    if order.len() > 0 {
        let front = order.drop_last();
        let last = order.last();
        let at = order.len() - 1;
        let before = arranged(members, front);
        let all = arranged(members, order);
        assert(respects(front, held)) by {
            assert forall|k: int, other: Seq<char>|
                0 <= k < front.len() && held.dom().contains(front[k])
                    && #[trigger] held[front[k]].contains(other) implies exists|j: int|
                0 <= j < k && front[j] == other by {
                let j = choose|j: int| 0 <= j < k && order[j] == other;
                assert(front[j] == other);
            }
        }
        lemma_arranged(members, front, held);
        assert forall|id: Seq<char>| order.contains(id) implies front.contains(id) || id
            == last by {
            let j = choose|j: int| 0 <= j < order.len() && order[j] == id;
            if j < at {
                assert(front[j] == id);
            }
        }
        assert(order.contains(last));
        if is_member(members, last) {
            assert forall|k: int| 0 <= k < all.len() implies {
                let package = #[trigger] all[k];
                &&& is_member(members, package.id)
                &&& package == member_package(members, package.id)
                &&& order.contains(package.id)
            } by {}
            assert forall|id: Seq<char>|
                order.contains(id) && is_member(members, id) implies exists|k: int|
                0 <= k < all.len() && (#[trigger] all[k]).id == id by {
                if id == last {
                    assert(all[before.len() as int].id == id);
                } else {
                    let k = choose|k: int| 0 <= k < before.len() && (#[trigger] before[k]).id == id;
                    assert(all[k].id == id);
                }
            }
        }
    }
}

/// Where each element of `order` stands after all that it depends on, no
/// element of `order` belongs to a stuck set.
proof fn lemma_no_knot(
    members: Seq<MemberView>,
    order: Seq<Seq<char>>,
    knot: Set<Seq<char>>,
    k: int,
)
    requires
        forall|k: int, prec: Seq<char>|
            0 <= k < order.len() && #[trigger] depends_on(members, order[k], prec) ==> exists|
                j: int,
            | 0 <= j < k && order[j] == prec,
        0 <= k < order.len(),
        stuck(members, knot),
    ensures
        !knot.contains(order[k]),
    decreases k,
{
    let succ = order[k];
    if knot.contains(succ) {
        assert(held_back(members, knot, succ));
        let prec = choose|prec: Seq<char>| knot.contains(prec) && depends_on(members, succ, prec);
        let j = choose|j: int| 0 <= j < k && order[j] == prec;
        lemma_no_knot(members, order, knot, j);
    }
}

/// What is left in a sorter that held the whole graph of `members`, once
/// nothing in it is ready, is stuck.
proof fn lemma_left_is_stuck(
    members: Seq<MemberView>,
    left: Waiting,
    order: Seq<Seq<char>>,
    id: Seq<char>,
)
    requires
        popped(graph_upto(members, members.len() as int, 0), left, order),
        forall|e: Seq<char>| !ready(left, e),
        left.dom().contains(id),
    ensures
        stuck(members, left.dom()),
{
    let knot = left.dom();
    lemma_graph_whole(members);
    assert forall|succ: Seq<char>| knot.contains(succ) implies #[trigger] held_back(
        members,
        knot,
        succ,
    ) by {
        assert(!ready(left, succ));
    }
}

/// Where everything came out of a sorter that held the whole graph of
/// `members`, nothing is stuck.
proof fn lemma_all_popped_none_stuck(
    members: Seq<MemberView>,
    left: Waiting,
    order: Seq<Seq<char>>,
    knot: Set<Seq<char>>,
)
    requires
        popped(graph_upto(members, members.len() as int, 0), left, order),
        forall|e: Seq<char>| !left.dom().contains(e),
    ensures
        !stuck(members, knot),
{
    let start = graph_upto(members, members.len() as int, 0);
    lemma_graph_whole(members);
    if stuck(members, knot) {
        let id = choose|id: Seq<char>| knot.contains(id);
        assert(held_back(members, knot, id));
        let k = choose|k: int| 0 <= k < order.len() && order[k] == id;
        assert forall|k: int, prec: Seq<char>|
            0 <= k < order.len() && #[trigger] depends_on(
                members,
                order[k],
                prec,
            ) implies exists|j: int| 0 <= j < k && order[j] == prec by {
            assert(start[order[k]].contains(prec));
        }
        lemma_no_knot(members, order, knot, k);
    }
}

/// Where everything came out of a sorter that held the whole graph of
/// `members`, the members' packages arranged by the order in which their
/// identifiers came out are in a build order.
proof fn lemma_all_popped_in_order(members: Seq<MemberView>, left: Waiting, order: Seq<Seq<char>>)
    requires
        popped(graph_upto(members, members.len() as int, 0), left, order),
        forall|e: Seq<char>| !left.dom().contains(e),
    ensures
        in_build_order(members, arranged(members, order)),
{
    let start = graph_upto(members, members.len() as int, 0);
    let packages = arranged(members, order);
    lemma_graph_whole(members);
    lemma_arranged(members, order, start);
    assert forall|i: int| 0 <= i < members.len() implies exists|k: int|
        0 <= k < packages.len() && (#[trigger] packages[k]).id == (
        #[trigger] members[i]).package.id by {
        lemma_is_member(members, i);
    }
}

/// Registers the members and their dependencies in a new sorter. Fails where
/// asking for a member's deployable units fails, with the failure of the
/// first such member.
fn register(members: &Vec<Member>) -> (outcome: Result<TopologicalSort<String>, Error>)
    ensures
        match outcome {
            Ok(sorter) => {
                &&& forall|at: int| !first_failure(member_views(members@), at)
                &&& waiting(sorter) == graph_upto(
                    member_views(members@),
                    members@.len() as int,
                    0,
                )
                &&& waiting(sorter).dom().finite()
            },
            Err(error) => exists|at: int|
                first_failure(member_views(members@), at) && unit_deps(
                    member_views(members@)[at],
                ) == Err::<Seq<PackageView>, ErrorView>(error@),
        },
{
    let ghost views = member_views(members@);
    let mut sorter = new_sorter();
    proof {
        lemma_graph_start(views);
    }
    let mut i: usize = 0;
    while i < members.len()
        invariant
            i <= members@.len(),
            views == member_views(members@),
            forall|j: int| 0 <= j < i ==> unit_deps(#[trigger] views[j]) is Ok,
            waiting(sorter) == graph_upto(views, i as int, 0),
            waiting(sorter).dom().finite(),
        decreases members@.len() - i,
    {
        let member = &members[i];
        let deps = match get_contract_deps(
            member.package.manifest_path.as_str(),
            &member.resolution,
        ) {
            Ok(deps) => deps,
            Err(error) => {
                assert(first_failure(views, i as int));
                return Err(error);
            },
        };
        let mut k: usize = 0;
        while k < deps.len()
            invariant
                i < members@.len(),
                k <= deps@.len(),
                views == member_views(members@),
                *member == members@[i as int],
                unit_deps(views[i as int]) == Ok::<Seq<PackageView>, ErrorView>(
                    package_views(deps@),
                ),
                waiting(sorter) == graph_upto(views, i as int, k as int),
                waiting(sorter).dom().finite(),
            decreases deps@.len() - k,
        {
            add_dependency(&mut sorter, deps[k].id.as_str(), member.package.id.as_str());
            proof {
                lemma_graph_dependency(views, i as int, k as int);
            }
            k += 1;
        }
        insert(&mut sorter, member.package.id.as_str());
        proof {
            lemma_graph_member(views, i as int);
        }
        i += 1;
    }
    Ok(sorter)
}

/// Orders the members of a workspace for building: each member's package
/// once, and each after the deployable units that it depends on.
///
/// The deployable units of a member are those that [`get_contract_deps`]
/// gives for its manifest. Where that fails for a member, the failure of the
/// first such member is returned. Where members depend on each other in a
/// cycle, `CycleDetected` is returned. The order among packages that do not
/// depend on each other is not fixed.
pub fn get_workspace(members: &Vec<Member>) -> (outcome: Result<Vec<Package>, Error>)
    ensures
        workspace_outcome(member_views(members@), outcome_view(outcome)),
{
    let ghost views = member_views(members@);
    let mut sorter = match register(members) {
        Ok(sorter) => sorter,
        Err(error) => {
            return Err(error);
        },
    };
    let order = drain(&mut sorter);
    if !is_empty(&sorter) {
        proof {
            let left = waiting(sorter);
            let id = choose|id: Seq<char>| left.dom().contains(id);
            lemma_left_is_stuck(views, left, id_views(order@), id);
            lemma_stuck_holds_cycle(views, left.dom());
        }
        return Err(Error::CycleDetected);
    }
    let packages = arrange(members, &order);
    proof {
        let left = waiting(sorter);
        assert forall|cycle: Seq<Seq<char>>| !is_cycle(views, cycle) by {
            if is_cycle(views, cycle) {
                lemma_cycle_is_stuck(views, cycle);
                lemma_all_popped_none_stuck(views, left, id_views(order@), cycle.to_set());
            }
        }
        lemma_all_popped_in_order(views, left, id_views(order@));
    }
    Ok(packages)
}

/// The identifier of each member is that of a member.
proof fn lemma_is_member(members: Seq<MemberView>, i: int)
    requires
        0 <= i < members.len(),
    ensures
        is_member(members, members[i].package.id),
    decreases i,
{
    let id = members[i].package.id;
    if exists|j: int| 0 <= j < i && (#[trigger] members[j]).package.id == id {
        let j = choose|j: int| 0 <= j < i && (#[trigger] members[j]).package.id == id;
        lemma_is_member(members, j);
    } else {
        assert(first_with_id(members, id, i));
    }
}

/// The packages of a cycle of dependencies are stuck.
proof fn lemma_cycle_is_stuck(members: Seq<MemberView>, cycle: Seq<Seq<char>>)
    requires
        is_cycle(members, cycle),
    ensures
        stuck(members, cycle.to_set()),
{
    let knot = cycle.to_set();
    assert(knot.contains(cycle[0]));
    assert forall|succ: Seq<char>| knot.contains(succ) implies #[trigger] held_back(
        members,
        knot,
        succ,
    ) by {
        let i = choose|i: int| 0 <= i < cycle.len() && cycle[i] == succ;
        let prec = cycle[next_in_cycle(i, cycle.len() as int)];
        assert(knot.contains(prec));
    }
}

/// The package that stands `steps` steps from `from` on a walk through
/// `knot` that goes from each package to one that it depends on.
spec fn walk(members: Seq<MemberView>, knot: Set<Seq<char>>, from: Seq<char>, steps: nat) -> Seq<
    char,
>
    decreases steps,
{
    if steps == 0 {
        from
    } else {
        let at = walk(members, knot, from, (steps - 1) as nat);
        choose|prec: Seq<char>| knot.contains(prec) && depends_on(members, at, prec)
    }
}

/// A walk through a stuck set stays in it, and each of its packages depends
/// on the next.
proof fn lemma_walk(members: Seq<MemberView>, knot: Set<Seq<char>>, from: Seq<char>, steps: nat)
    requires
        stuck(members, knot),
        knot.contains(from),
    ensures
        knot.contains(walk(members, knot, from, steps)),
        knot.contains(walk(members, knot, from, steps + 1)),
        depends_on(
            members,
            walk(members, knot, from, steps),
            walk(members, knot, from, steps + 1),
        ),
    decreases steps,
{
    if steps > 0 {
        lemma_walk(members, knot, from, (steps - 1) as nat);
    }
    let at = walk(members, knot, from, steps);
    assert(held_back(members, knot, at));
}

/// The index of a member with the identifier `id`.
spec fn index_of_member(members: Seq<MemberView>, id: Seq<char>) -> int {
    choose|i: int| 0 <= i < members.len() && (#[trigger] members[i]).package.id == id
}

/// Among more indices than there are members, two are the same.
proof fn lemma_two_alike(indices: Seq<int>, bound: int)
    requires
        0 <= bound < indices.len(),
        forall|t: int| 0 <= t < indices.len() ==> 0 <= #[trigger] indices[t] < bound,
    ensures
        exists|a: int, b: int|
            0 <= a < b < indices.len() && #[trigger] indices[a] == #[trigger] indices[b],
{
    if indices.no_duplicates() {
        indices.unique_seq_to_set();
        vstd::set_lib::lemma_int_range(0, bound);
        vstd::set_lib::lemma_len_subset(indices.to_set(), vstd::set_lib::set_int_range(0, bound));
    }
}

/// Stuck packages hold a cycle of dependencies.
proof fn lemma_stuck_holds_cycle(members: Seq<MemberView>, knot: Set<Seq<char>>)
    requires
        stuck(members, knot),
    ensures
        exists|cycle: Seq<Seq<char>>|
            is_cycle(members, cycle) && forall|i: int|
                0 <= i < cycle.len() ==> knot.contains(#[trigger] cycle[i]),
{
    let from = choose|id: Seq<char>| knot.contains(id);
    let bound = members.len() as int;
    let indices = Seq::new(
        (bound + 1) as nat,
        |t: int| index_of_member(members, walk(members, knot, from, t as nat)),
    );
    assert forall|t: int| 0 <= t < indices.len() implies 0 <= #[trigger] indices[t] < bound
        && members[indices[t]].package.id == walk(members, knot, from, t as nat) by {
        lemma_walk(members, knot, from, t as nat);
    }
    lemma_two_alike(indices, bound);
    let (a, b) = choose|a: int, b: int|
        0 <= a < b < indices.len() && #[trigger] indices[a] == #[trigger] indices[b];
    let cycle = Seq::new((b - a) as nat, |i: int| walk(members, knot, from, (a + i) as nat));
    assert forall|i: int| 0 <= i < cycle.len() implies depends_on(
        members,
        #[trigger] cycle[i],
        cycle[next_in_cycle(i, cycle.len() as int)],
    ) && knot.contains(cycle[i]) by {
        lemma_walk(members, knot, from, (a + i) as nat);
    }
    assert(is_cycle(members, cycle));
}

/// A cycle among the dependencies of the members is reported: ordering them
/// fails, and where asking for the deployable units of every member
/// succeeds, it fails with `CycleDetected`.
pub proof fn lemma_cycle_is_reported(
    members: Seq<MemberView>,
    cycle: Seq<Seq<char>>,
    outcome: Result<Seq<PackageView>, ErrorView>,
)
    requires
        is_cycle(members, cycle),
        workspace_outcome(members, outcome),
    ensures
        outcome is Err,
        (forall|at: int| !first_failure(members, at)) ==> outcome == Err::<
            Seq<PackageView>,
            ErrorView,
        >(ErrorView::CycleDetected),
{
}

/// In what ordering the members gives, a package that another depends on
/// comes before it.
pub proof fn lemma_dependency_comes_first(
    members: Seq<MemberView>,
    order: Seq<PackageView>,
    a: int,
    b: int,
)
    requires
        workspace_outcome(members, Ok::<Seq<PackageView>, ErrorView>(order)),
        0 <= a < order.len(),
        0 <= b < order.len(),
        depends_on(members, order[b].id, order[a].id),
    ensures
        a < b,
{
}

} // verus!
