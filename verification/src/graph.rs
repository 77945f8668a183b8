//! Graphs of nodes `0..count`: connected components, dependency depths and
//! the rows they make.

use vstd::prelude::*;

verus! {

/// Whether an edge joins `a` and `b`, whichever way it points.
pub open spec fn adjacent(count: int, edges: Seq<(usize, usize)>, a: int, b: int) -> bool {
    &&& 0 <= a < count
    &&& 0 <= b < count
    &&& exists|i: int|
        0 <= i < edges.len() && ((#[trigger] edges[i]).0 == a && edges[i].1 == b || edges[i].0 == b
            && edges[i].1 == a)
}

/// Whether at most `steps` edges lead from `a` to `b`.
pub open spec fn reaches(
    count: int,
    edges: Seq<(usize, usize)>,
    a: int,
    b: int,
    steps: nat,
) -> bool
    decreases steps,
{
    a == b || (steps > 0 && exists|c: int|
        #![trigger adjacent(count, edges, c, b)]
        reaches(count, edges, a, c, (steps - 1) as nat) && adjacent(count, edges, c, b))
}

/// Whether edges lead from `a` to `b`, whichever way they point.
pub open spec fn connected(count: int, edges: Seq<(usize, usize)>, a: int, b: int) -> bool {
    exists|steps: nat| #[trigger] reaches(count, edges, a, b, steps)
}

/// Whether the members of a group ascend.
pub open spec fn ascending(group: Seq<usize>) -> bool {
    forall|i: int, j: int| 0 <= i < j < group.len() ==> group[i] < group[j]
}

pub open spec fn group_views(v: Seq<Vec<usize>>) -> Seq<Seq<usize>> {
    v.map_values(|g: Vec<usize>| g@)
}

/// Whether some group has the node.
pub open spec fn grouped(groups: Seq<Seq<usize>>, node: int) -> bool {
    exists|g: int| 0 <= g < groups.len() && (#[trigger] groups[g]).contains(node as usize)
}

/// Whether `groups` are the connected components of a graph: each lists its
/// members in order and starts with its smallest, the groups are in order of
/// their smallest members, and two nodes share a group exactly when edges
/// lead from one to the other.
pub open spec fn are_components(
    groups: Seq<Seq<usize>>,
    count: int,
    edges: Seq<(usize, usize)>,
) -> bool {
    &&& forall|g: int|
        0 <= g < groups.len() ==> (#[trigger] groups[g]).len() > 0 && ascending(groups[g])
    &&& forall|g: int, h: int|
        0 <= g < h < groups.len() ==> (#[trigger] groups[g])[0] < (#[trigger] groups[h])[0]
    &&& forall|g: int, i: int|
        0 <= g < groups.len() && 0 <= i < groups[g].len() ==> (#[trigger] groups[g][i]) < count
    &&& forall|n: int| 0 <= n < count ==> #[trigger] grouped(groups, n)
    &&& forall|g: int, a: usize, b: int|
        #![trigger groups[g].contains(a), connected(count, edges, a as int, b)]
        0 <= g < groups.len() && groups[g].contains(a) && 0 <= b < count ==> (groups[g].contains(
            b as usize,
        ) == connected(count, edges, a as int, b))
}

proof fn lemma_adjacent_symmetric(count: int, edges: Seq<(usize, usize)>, a: int, b: int)
    requires
        adjacent(count, edges, a, b),
    ensures
        adjacent(count, edges, b, a),
{
    let i = choose|i: int|
        0 <= i < edges.len() && ((#[trigger] edges[i]).0 == a && edges[i].1 == b || edges[i].0 == b
            && edges[i].1 == a);
    assert(edges[i].0 == b && edges[i].1 == a || edges[i].0 == a && edges[i].1 == b);
}

proof fn lemma_reaches_longer(
    count: int,
    edges: Seq<(usize, usize)>,
    a: int,
    b: int,
    steps: nat,
    more: nat,
)
    requires
        reaches(count, edges, a, b, steps),
        steps <= more,
    ensures
        reaches(count, edges, a, b, more),
    decreases steps,
{
    if a != b {
        let c = choose|c: int|
            #![trigger adjacent(count, edges, c, b)]
            reaches(count, edges, a, c, (steps - 1) as nat) && adjacent(count, edges, c, b);
        lemma_reaches_longer(count, edges, a, c, (steps - 1) as nat, (more - 1) as nat);
        assert(adjacent(count, edges, c, b));
    }
}

proof fn lemma_connected_step(count: int, edges: Seq<(usize, usize)>, a: int, b: int, c: int)
    requires
        connected(count, edges, a, b),
        adjacent(count, edges, b, c),
    ensures
        connected(count, edges, a, c),
{
    let steps = choose|steps: nat| #[trigger] reaches(count, edges, a, b, steps);
    assert(reaches(count, edges, a, c, steps + 1));
}

proof fn lemma_connected_self(count: int, edges: Seq<(usize, usize)>, a: int)
    ensures
        connected(count, edges, a, a),
{
    assert(reaches(count, edges, a, a, 0));
}

proof fn lemma_reaches_transitive(
    count: int,
    edges: Seq<(usize, usize)>,
    a: int,
    b: int,
    c: int,
    steps: nat,
)
    requires
        connected(count, edges, a, b),
        reaches(count, edges, b, c, steps),
    ensures
        connected(count, edges, a, c),
    decreases steps,
{
    if b != c {
        let d = choose|d: int|
            #![trigger adjacent(count, edges, d, c)]
            reaches(count, edges, b, d, (steps - 1) as nat) && adjacent(count, edges, d, c);
        lemma_reaches_transitive(count, edges, a, b, d, (steps - 1) as nat);
        lemma_connected_step(count, edges, a, d, c);
    }
}

/// Connection is transitive.
pub proof fn lemma_connected_transitive(
    count: int,
    edges: Seq<(usize, usize)>,
    a: int,
    b: int,
    c: int,
)
    requires
        connected(count, edges, a, b),
        connected(count, edges, b, c),
    ensures
        connected(count, edges, a, c),
{
    let steps = choose|steps: nat| #[trigger] reaches(count, edges, b, c, steps);
    lemma_reaches_transitive(count, edges, a, b, c, steps);
}

proof fn lemma_reaches_back(
    count: int,
    edges: Seq<(usize, usize)>,
    a: int,
    b: int,
    steps: nat,
)
    requires
        reaches(count, edges, a, b, steps),
    ensures
        connected(count, edges, b, a),
    decreases steps,
{
    lemma_connected_self(count, edges, b);
    if a != b {
        let c = choose|c: int|
            #![trigger adjacent(count, edges, c, b)]
            reaches(count, edges, a, c, (steps - 1) as nat) && adjacent(count, edges, c, b);
        lemma_adjacent_symmetric(count, edges, c, b);
        lemma_connected_step(count, edges, b, b, c);
        lemma_reaches_back(count, edges, a, c, (steps - 1) as nat);
        lemma_connected_transitive(count, edges, b, c, a);
    }
}

/// Connection goes both ways.
pub proof fn lemma_connected_symmetric(count: int, edges: Seq<(usize, usize)>, a: int, b: int)
    requires
        connected(count, edges, a, b),
    ensures
        connected(count, edges, b, a),
{
    let steps = choose|steps: nat| #[trigger] reaches(count, edges, a, b, steps);
    lemma_reaches_back(count, edges, a, b, steps);
}

/// A set that adjacency does not leave holds whatever its members reach.
proof fn lemma_closed_holds_reach(
    count: int,
    edges: Seq<(usize, usize)>,
    members: Set<int>,
    a: int,
    b: int,
    steps: nat,
)
    requires
        members.contains(a),
        forall|c: int, d: int|
            members.contains(c) && #[trigger] adjacent(count, edges, c, d) ==> members.contains(d),
        reaches(count, edges, a, b, steps),
    ensures
        members.contains(b),
    decreases steps,
{
    if a != b {
        let c = choose|c: int|
            #![trigger adjacent(count, edges, c, b)]
            reaches(count, edges, a, c, (steps - 1) as nat) && adjacent(count, edges, c, b);
        lemma_closed_holds_reach(count, edges, members, a, c, (steps - 1) as nat);
    }
}

/// The neighbors of a node, in the order of the edges; a node that two edges
/// lead to counts twice.
pub open spec fn neighbor_list(count: int, edges: Seq<(usize, usize)>, node: int) -> Seq<usize>
    decreases edges.len(),
{
    if edges.len() == 0 {
        Seq::empty()
    } else {
        let before = neighbor_list(count, edges.drop_last(), node);
        let (x, y) = edges.last();
        if x >= count || y >= count {
            before
        } else {
            let once = if x == node {
                before.push(y)
            } else {
                before
            };
            if y == node {
                once.push(x)
            } else {
                once
            }
        }
    }
}

/// The dependencies of a node, in the order of the edges.
pub open spec fn dependency_list(count: int, edges: Seq<(usize, usize)>, node: int) -> Seq<usize>
    decreases edges.len(),
{
    if edges.len() == 0 {
        Seq::empty()
    } else {
        let before = dependency_list(count, edges.drop_last(), node);
        let (x, y) = edges.last();
        if x < count && y < count && x == node {
            before.push(y)
        } else {
            before
        }
    }
}

fn empty_lists(count: usize) -> (r: Vec<Vec<usize>>)
    ensures
        r@.len() == count,
        forall|a: int| 0 <= a < count ==> (#[trigger] r@[a])@ == Seq::<usize>::empty(),
{
    let mut out: Vec<Vec<usize>> = Vec::new();
    let mut n: usize = 0;
    while n < count
        invariant
            n <= count,
            out@.len() == n,
            forall|a: int| 0 <= a < n ==> (#[trigger] out@[a])@ == Seq::<usize>::empty(),
        decreases count - n,
    {
        out.push(Vec::new());
        assert(out@[n as int]@ =~= Seq::<usize>::empty());
        n += 1;
    }
    out
}

/// The neighbors of each node, in the order of the edges.
pub fn neighbors(count: usize, edges: &[(usize, usize)]) -> (r: Vec<Vec<usize>>)
    ensures
        r@.len() == count,
        forall|a: int|
            0 <= a < count ==> (#[trigger] r@[a])@ == neighbor_list(count as int, edges@, a),
{
    let mut out = empty_lists(count);
    let mut k: usize = 0;
    while k < edges.len()
        invariant
            k <= edges@.len(),
            out@.len() == count,
            forall|a: int|
                0 <= a < count ==> (#[trigger] out@[a])@ == neighbor_list(
                    count as int,
                    edges@.take(k as int),
                    a,
                ),
        decreases edges@.len() - k,
    {
        let (x, y) = edges[k];
        let ghost now = edges@.take(k + 1);
        assert(now.last() == (x, y));
        assert(now.drop_last() == edges@.take(k as int));
        if x < count && y < count {
            out[x].push(y);
            out[y].push(x);
        }
        k += 1;
    }
    assert(edges@.take(edges@.len() as int) == edges@);
    out
}

/// The dependencies of each node, in the order of the edges.
pub fn dependencies(count: usize, edges: &[(usize, usize)]) -> (r: Vec<Vec<usize>>)
    ensures
        r@.len() == count,
        forall|a: int|
            0 <= a < count ==> (#[trigger] r@[a])@ == dependency_list(count as int, edges@, a),
{
    let mut out = empty_lists(count);
    let mut k: usize = 0;
    while k < edges.len()
        invariant
            k <= edges@.len(),
            out@.len() == count,
            forall|a: int|
                0 <= a < count ==> (#[trigger] out@[a])@ == dependency_list(
                    count as int,
                    edges@.take(k as int),
                    a,
                ),
        decreases edges@.len() - k,
    {
        let (x, y) = edges[k];
        let ghost now = edges@.take(k + 1);
        assert(now.last() == (x, y));
        assert(now.drop_last() == edges@.take(k as int));
        if x < count && y < count {
            out[x].push(y);
        }
        k += 1;
    }
    assert(edges@.take(edges@.len() as int) == edges@);
    out
}

/// The neighbors of a node are the nodes that edges join it with.
pub proof fn lemma_neighbors_adjacent(
    count: int,
    edges: Seq<(usize, usize)>,
    node: int,
    other: usize,
)
    requires
        0 <= node < count,
    ensures
        neighbor_list(count, edges, node).contains(other) == adjacent(
            count,
            edges,
            node,
            other as int,
        ),
    decreases edges.len(),
{
    if edges.len() > 0 {
        let prior = edges.drop_last();
        let (x, y) = edges.last();
        let before = neighbor_list(count, prior, node);
        lemma_neighbors_adjacent(count, prior, node, other);
        let once = if x == node {
            before.push(y)
        } else {
            before
        };
        lemma_push_contains(before, y, other);
        lemma_push_contains(once, x, other);
        if adjacent(count, prior, node, other as int) {
            let i = choose|i: int|
                0 <= i < prior.len() && ((#[trigger] prior[i]).0 == node && prior[i].1 == other
                    || prior[i].0 == other && prior[i].1 == node);
            assert(edges[i] == prior[i]);
        }
        if adjacent(count, edges, node, other as int) {
            let i = choose|i: int|
                0 <= i < edges.len() && ((#[trigger] edges[i]).0 == node && edges[i].1 == other
                    || edges[i].0 == other && edges[i].1 == node);
            if i < prior.len() {
                assert(prior[i] == edges[i]);
            }
        }
        assert(edges[edges.len() - 1] == (x, y));
    }
}

/// The dependencies of a node are nodes of the graph.
pub proof fn lemma_dependencies_in_range(
    count: int,
    edges: Seq<(usize, usize)>,
    node: int,
    i: int,
)
    requires
        0 <= i < dependency_list(count, edges, node).len(),
    ensures
        dependency_list(count, edges, node)[i] < count,
    decreases edges.len(),
{
    let before = dependency_list(count, edges.drop_last(), node);
    if i < before.len() {
        lemma_dependencies_in_range(count, edges.drop_last(), node, i);
    }
}

proof fn lemma_push_contains(s: Seq<usize>, last: usize, x: usize)
    ensures
        s.push(last).contains(x) == (s.contains(x) || x == last),
{
    let t = s.push(last);
    if s.contains(x) {
        let i = choose|i: int| 0 <= i < s.len() && s[i] == x;
        assert(t[i] == x);
    }
    assert(t[s.len() as int] == last);
    if t.contains(x) {
        let i = choose|i: int| 0 <= i < t.len() && t[i] == x;
        if i < s.len() {
            assert(s[i] == x);
        }
    }
}

/// How many marks are not set.
pub open spec fn open_count(marks: Seq<bool>) -> nat
    decreases marks.len(),
{
    if marks.len() == 0 {
        0
    } else {
        open_count(marks.drop_last()) + if marks.last() {
            0nat
        } else {
            1nat
        }
    }
}

/// Setting a mark leaves one fewer open.
pub proof fn lemma_mark(marks: Seq<bool>, i: int)
    requires
        0 <= i < marks.len(),
        !marks[i],
    ensures
        open_count(marks) == open_count(marks.update(i, true)) + 1,
    decreases marks.len(),
{
    let after = marks.update(i, true);
    if i == marks.len() - 1 {
        assert(after.drop_last() =~= marks.drop_last());
    } else {
        assert(after.drop_last() =~= marks.drop_last().update(i, true));
        lemma_mark(marks.drop_last(), i);
    }
}

proof fn lemma_open_count_bound(marks: Seq<bool>)
    ensures
        open_count(marks) <= marks.len(),
    decreases marks.len(),
{
    if marks.len() > 0 {
        lemma_open_count_bound(marks.drop_last());
    }
}

fn marks(count: usize) -> (r: Vec<bool>)
    ensures
        r@.len() == count,
        forall|i: int| 0 <= i < count ==> !(#[trigger] r@[i]),
{
    let mut out: Vec<bool> = Vec::new();
    let mut n: usize = 0;
    while n < count
        invariant
            n <= count,
            out@.len() == n,
            forall|i: int| 0 <= i < n ==> !(#[trigger] out@[i]),
        decreases count - n,
    {
        out.push(false);
        n += 1;
    }
    out
}

/// The members in ascending order.
fn sorted(members: &Vec<usize>) -> (r: Vec<usize>)
    requires
        members@.no_duplicates(),
    ensures
        ascending(r@),
        r@.len() == members@.len(),
        forall|x: usize| #[trigger] r@.contains(x) == members@.contains(x),
{
    let mut out: Vec<usize> = Vec::new();
    let mut i: usize = 0;
    while i < members.len()
        invariant
            i <= members@.len(),
            members@.no_duplicates(),
            ascending(out@),
            out@.len() == i,
            forall|x: usize| #[trigger] out@.contains(x) == members@.take(i as int).contains(x),
        decreases members@.len() - i,
    {
        let x = members[i];
        let mut p: usize = out.len();
        proof {
            if out@.contains(x) {
                assert(members@.take(i as int).contains(x));
                let k = choose|k: int| 0 <= k < i && members@.take(i as int)[k] == x;
                assert(members@[k] == members@[i as int]);
            }
        }
        while p > 0 && x < out[p - 1]
            invariant
                p <= out@.len(),
                ascending(out@),
                forall|k: int| p <= k < out@.len() ==> x < out@[k],
            decreases p,
        {
            p -= 1;
        }
        let ghost before = out@;
        out.insert(p, x);
        proof {
            if p > 0 {
                assert(before.contains(before[p - 1]));
            }
            assert forall|a: int, b: int| 0 <= a < b < out@.len() implies out@[a] < out@[b] by {
                let oa = if a < p {
                    a
                } else {
                    a - 1
                };
                let ob = if b < p {
                    b
                } else {
                    b - 1
                };
                if a != p && b != p {
                    assert(out@[a] == before[oa] && out@[b] == before[ob]);
                } else if a == p {
                    assert(out@[b] == before[ob]);
                } else {
                    assert(out@[a] == before[oa]);
                    assert(before[oa] <= before[p - 1]);
                }
            }
            assert(members@.take(i + 1) =~= members@.take(i as int).push(x));
            assert forall|y: usize| #[trigger] out@.contains(y) == members@.take(i + 1).contains(
                y,
            ) by {
                lemma_push_contains(members@.take(i as int), x, y);
                if before.contains(y) {
                    let k = choose|k: int| 0 <= k < before.len() && before[k] == y;
                    assert(out@[if k < p {
                        k
                    } else {
                        k + 1
                    }] == y);
                }
                assert(out@[p as int] == x);
                if out@.contains(y) {
                    let k = choose|k: int| 0 <= k < out@.len() && out@[k] == y;
                    if k < p {
                        assert(before[k] == y);
                    } else if k > p {
                        assert(before[k - 1] == y);
                    }
                }
            }
        }
        i += 1;
    }
    assert(members@.take(members@.len() as int) =~= members@);
    out
}

/// What holds of the groups found so far: they are complete components.
spec fn complete_groups(groups: Seq<Seq<usize>>, count: int, edges: Seq<(usize, usize)>) -> bool {
    &&& forall|g: int|
        0 <= g < groups.len() ==> (#[trigger] groups[g]).len() > 0 && ascending(groups[g])
    &&& forall|g: int, h: int|
        0 <= g < h < groups.len() ==> (#[trigger] groups[g])[0] < (#[trigger] groups[h])[0]
    &&& forall|g: int, i: int|
        0 <= g < groups.len() && 0 <= i < groups[g].len() ==> (#[trigger] groups[g][i]) < count
    &&& forall|g: int, a: usize, b: int|
        #![trigger groups[g].contains(a), connected(count, edges, a as int, b)]
        0 <= g < groups.len() && groups[g].contains(a) && 0 <= b < count ==> (groups[g].contains(
            b as usize,
        ) == connected(count, edges, a as int, b))
}

proof fn lemma_ungrouped_neighbor(
    groups: Seq<Seq<usize>>,
    count: int,
    edges: Seq<(usize, usize)>,
    a: int,
    b: int,
)
    requires
        complete_groups(groups, count, edges),
        adjacent(count, edges, a, b),
        !grouped(groups, a),
        count <= usize::MAX,
    ensures
        !grouped(groups, b),
{
    if grouped(groups, b) {
        let g = choose|g: int|
            0 <= g < groups.len() && (#[trigger] groups[g]).contains(b as usize);
        lemma_adjacent_symmetric(count, edges, a, b);
        lemma_connected_self(count, edges, b);
        lemma_connected_step(count, edges, b, b, a);
        assert(connected(count, edges, (b as usize) as int, a));
        assert(groups[g].contains(a as usize));
    }
}

/// What holds while a component is gathered from `start`: `found` and `queue`
/// are the nodes seen from it, and the neighbors of `found` are among them.
spec fn gathering(
    groups: Seq<Seq<usize>>,
    count: int,
    edges: Seq<(usize, usize)>,
    start: int,
    found: Seq<usize>,
    queue: Seq<usize>,
    seen: Seq<bool>,
) -> bool {
    &&& seen.len() == count
    &&& found.no_duplicates()
    &&& queue.no_duplicates()
    &&& forall|x: usize| #[trigger]
        found.contains(x) ==> x < count && !queue.contains(x) && !grouped(groups, x as int)
            && connected(count, edges, start, x as int)
    &&& forall|x: usize| #[trigger]
        queue.contains(x) ==> x < count && !grouped(groups, x as int) && connected(
            count,
            edges,
            start,
            x as int,
        )
    &&& forall|x: int|
        0 <= x < count ==> (#[trigger] seen[x] == (grouped(groups, x) || found.contains(x as usize)
            || queue.contains(x as usize)))
}

/// Nodes connected to `start`, in ascending order; marks them as seen.
fn gather(
    start: usize,
    count: usize,
    edges: &[(usize, usize)],
    lists: &Vec<Vec<usize>>,
    seen: &mut Vec<bool>,
    groups: Ghost<Seq<Seq<usize>>>,
) -> (r: Vec<usize>)
    requires
        start < count,
        complete_groups(groups@, count as int, edges@),
        !grouped(groups@, start as int),
        old(seen)@.len() == count,
        forall|x: int| 0 <= x < count ==> (#[trigger] old(seen)@[x] == grouped(groups@, x)),
        lists@.len() == count,
        forall|a: int|
            0 <= a < count ==> (#[trigger] lists@[a])@ == neighbor_list(count as int, edges@, a),
    ensures
        ascending(r@),
        r@.contains(start),
        forall|x: usize| #[trigger]
            r@.contains(x) == (x < count && connected(
                count as int,
                edges@,
                start as int,
                x as int,
            )),
        final(seen)@.len() == count,
        forall|x: int|
            0 <= x < count ==> (#[trigger] final(seen)@[x] == (grouped(groups@, x) || r@.contains(
                x as usize,
            ))),
{
    let ghost n = count as int;
    let mut found: Vec<usize> = Vec::new();
    let mut queue: Vec<usize> = vec![start];
    let ghost before_seen = seen@;
    seen.set(start, true);
    proof {
        lemma_mark(before_seen, start as int);
        lemma_connected_self(n, edges@, start as int);
        assert(queue@[0] == start);
    }
    while queue.len() > 0
        invariant
            n == count,
            start < count,
            complete_groups(groups@, n, edges@),
            gathering(groups@, n, edges@, start as int, found@, queue@, seen@),
            found@.contains(start) || queue@.contains(start),
            lists@.len() == count,
            forall|a: int|
                0 <= a < count ==> (#[trigger] lists@[a])@ == neighbor_list(n, edges@, a),
            forall|a: usize, b: int|
                #![trigger found@.contains(a), adjacent(n, edges@, a as int, b)]
                found@.contains(a) && adjacent(n, edges@, a as int, b) ==> found@.contains(
                    b as usize,
                ) || queue@.contains(b as usize),
        decreases open_count(seen@) + queue@.len(),
    {
        let ghost found0 = found@;
        let ghost queue0 = queue@;
        let ghost open0 = open_count(seen@);
        let node = queue.pop().unwrap();
        found.push(node);
        let ghost queue1 = queue@;
        proof {
            assert(queue0 =~= queue1.push(node));
            assert(queue0[queue0.len() - 1] == node);
            assert(queue0.contains(node));
            assert forall|x: usize| queue1.contains(x) implies x != node && queue0.contains(x) by {
                let k = choose|k: int| 0 <= k < queue1.len() && queue1[k] == x;
                assert(queue0[k] == x);
                assert(queue0[k] != queue0[queue0.len() - 1]);
            }
            assert forall|x: usize| queue0.contains(x) implies x == node || queue1.contains(x) by {
                lemma_push_contains(queue1, node, x);
            }
            assert forall|x: usize| #[trigger] found@.contains(x) == (found0.contains(x) || x
                == node) by {
                lemma_push_contains(found0, node, x);
            }
            lemma_push_distinct(found0, node);
            assert(queue1.no_duplicates()) by {
                assert forall|i: int, j: int|
                    0 <= i < queue1.len() && 0 <= j < queue1.len() && i != j implies queue1[i]
                    != queue1[j] by {
                    assert(queue0[i] != queue0[j]);
                }
            }
            assert(gathering(groups@, n, edges@, start as int, found@, queue1, seen@));
        }
        let mut i: usize = 0;
        let list = &lists[node];
        while i < list.len()
            invariant
                i <= list@.len(),
                n == count,
                node < count,
                list@ == neighbor_list(n, edges@, node as int),
                complete_groups(groups@, n, edges@),
                gathering(groups@, n, edges@, start as int, found@, queue@, seen@),
                found@.contains(node),
                open_count(seen@) + queue@.len() == open0 + queue1.len(),
                queue1.len() == queue0.len() - 1,
                forall|x: usize| #[trigger] queue1.contains(x) ==> queue@.contains(x),
                forall|k: int|
                    0 <= k < i ==> found@.contains(#[trigger] list@[k]) || queue@.contains(list@[k]),
            decreases list@.len() - i,
        {
            let next = list[i];
            proof {
                assert(list@.contains(list@[i as int]));
                lemma_neighbors_adjacent(n, edges@, node as int, next);
                lemma_ungrouped_neighbor(groups@, n, edges@, node as int, next as int);
                lemma_connected_step(n, edges@, start as int, node as int, next as int);
            }
            if !seen[next] {
                let ghost seen0 = seen@;
                let ghost queue2 = queue@;
                seen.set(next, true);
                queue.push(next);
                proof {
                    lemma_mark(seen0, next as int);
                    lemma_push_distinct(queue2, next);
                    assert forall|x: usize| #[trigger] queue@.contains(x) == (queue2.contains(x)
                        || x == next) by {
                        lemma_push_contains(queue2, next, x);
                    }
                }
            }
            i += 1;
        }
        proof {
            assert forall|a: usize, b: int|
                #![trigger found@.contains(a), adjacent(n, edges@, a as int, b)]
                found@.contains(a) && adjacent(n, edges@, a as int, b) implies found@.contains(
                b as usize,
            ) || queue@.contains(b as usize) by {
                if found0.contains(a) {
                    assert(found0.contains(b as usize) || queue0.contains(b as usize));
                    assert(found@.contains(b as usize) || queue1.contains(b as usize));
                } else {
                    assert(a == node);
                    lemma_neighbors_adjacent(n, edges@, node as int, b as usize);
                    let k = choose|k: int| 0 <= k < list@.len() && list@[k] == b as usize;
                    assert(found@.contains(list@[k]) || queue@.contains(list@[k]));
                }
            }
            assert(found@.contains(start) || queue@.contains(start)) by {
                if !found0.contains(start) {
                    assert(queue0.contains(start));
                    assert(start == node || queue1.contains(start));
                }
            }
        }
    }
    let r = sorted(&found);
    proof {
        let members = Set::new(|x: int| 0 <= x < count && found@.contains(x as usize));
        assert forall|c: int, d: int|
            members.contains(c) && #[trigger] adjacent(n, edges@, c, d) implies members.contains(
            d,
        ) by {
            assert(found@.contains(c as usize) && adjacent(n, edges@, (c as usize) as int, d));
            assert(found@.contains(d as usize) || queue@.contains(d as usize));
        }
        assert forall|x: usize| #[trigger] r@.contains(x) == (x < count && connected(
            n,
            edges@,
            start as int,
            x as int,
        )) by {
            if x < count && connected(n, edges@, start as int, x as int) {
                let steps = choose|steps: nat| #[trigger]
                    reaches(n, edges@, start as int, x as int, steps);
                assert(members.contains(start as int));
                lemma_closed_holds_reach(n, edges@, members, start as int, x as int, steps);
            }
            assert(found@.contains(x) ==> x < count);
        }
    }
    r
}

proof fn lemma_push_distinct(s: Seq<usize>, x: usize)
    requires
        s.no_duplicates(),
        !s.contains(x),
    ensures
        s.push(x).no_duplicates(),
{
    let t = s.push(x);
    assert forall|i: int, j: int|
        0 <= i < t.len() && 0 <= j < t.len() && i != j implies t[i] != t[j] by {
        if i < s.len() && j < s.len() {
            assert(s[i] != s[j]);
        } else if i < s.len() {
            assert(s.contains(s[i]));
        } else {
            assert(s.contains(s[j]));
        }
    }
}

/// Group node indices into connected components over undirected
/// edges. Edges that name no node are ignored.
pub fn connected_components(node_count: usize, edges: &[(usize, usize)]) -> (r: Vec<Vec<usize>>)
    ensures
        are_components(group_views(r@), node_count as int, edges@),
        group_views(r@) == components_of(node_count as int, edges@),
{
    let ghost n = node_count as int;
    let lists = neighbors(node_count, edges);
    let mut seen = marks(node_count);
    let mut out: Vec<Vec<usize>> = Vec::new();
    let mut start: usize = 0;
    while start < node_count
        invariant
            start <= node_count,
            n == node_count,
            lists@.len() == node_count,
            forall|a: int| 0 <= a < n ==> (#[trigger] lists@[a])@ == neighbor_list(n, edges@, a),
            seen@.len() == node_count,
            forall|x: int| 0 <= x < n ==> (#[trigger] seen@[x] == grouped(group_views(out@), x)),
            forall|x: int| 0 <= x < start ==> #[trigger] seen@[x],
            complete_groups(group_views(out@), n, edges@),
            forall|g: int|
                0 <= g < out@.len() ==> (#[trigger] group_views(out@)[g])[0] < start,
        decreases node_count - start,
    {
        if !seen[start] {
            let ghost before = group_views(out@);
            let ghost seen0 = seen@;
            let group = gather(start, node_count, edges, &lists, &mut seen, Ghost(before));
            proof {
                // Nodes before `start` stand in other groups.
                let k = choose|k: int| 0 <= k < group@.len() && group@[k] == start;
                let first = group@[0] as int;
                assert(group@.contains(group@[0]));
                if first < start {
                    assert(seen0[first]);
                    assert(grouped(before, first));
                    lemma_grouped_closed(before, n, edges@, first, start as int);
                }
                assert(group@[0] <= group@[k]);
                assert forall|x: int| 0 <= x <= start implies #[trigger] seen@[x] by {
                    if x < start {
                        assert(seen0[x]);
                    } else {
                        assert(group@.contains(x as usize));
                    }
                }
            }
            let ghost members = group@;
            out.push(group);
            let ghost after = group_views(out@);
            proof {
                assert(after =~= before.push(members));
                assert forall|x: int| 0 <= x < n implies grouped(after, x) == (grouped(before, x)
                    || members.contains(x as usize)) by {
                    if grouped(before, x) {
                        let g = choose|g: int|
                            0 <= g < before.len() && (#[trigger] before[g]).contains(x as usize);
                        assert(after[g].contains(x as usize));
                    }
                    assert(after[before.len() as int] == members);
                    if grouped(after, x) {
                        let g = choose|g: int|
                            0 <= g < after.len() && (#[trigger] after[g]).contains(x as usize);
                        if g < before.len() {
                            assert(before[g].contains(x as usize));
                        }
                    }
                }
                assert forall|g: int, a: usize, b: int|
                    #![trigger after[g].contains(a), connected(n, edges@, a as int, b)]
                    0 <= g < after.len() && after[g].contains(a) && 0 <= b < n implies (
                after[g].contains(b as usize) == connected(n, edges@, a as int, b)) by {
                    if g < before.len() {
                        assert(before[g].contains(a));
                    } else {
                        assert(members.contains(a));
                        if members.contains(b as usize) {
                            lemma_connected_symmetric(n, edges@, start as int, a as int);
                            lemma_connected_transitive(n, edges@, a as int, start as int, b);
                        }
                        if connected(n, edges@, a as int, b) {
                            lemma_connected_transitive(n, edges@, start as int, a as int, b);
                        }
                    }
                }
                assert forall|g: int, i: int|
                    0 <= g < after.len() && 0 <= i < after[g].len() implies (
                #[trigger] after[g][i]) < n by {
                    if g < before.len() {
                        assert(before[g][i] < n);
                    } else {
                        assert(members.contains(members[i]));
                    }
                }
                assert forall|g: int, h: int| 0 <= g < h < after.len() implies (
                #[trigger] after[g])[0] < (#[trigger] after[h])[0] by {
                    assert(after[g] == before[g]);
                    if h < before.len() {
                        assert(after[h] == before[h]);
                    }
                }
                assert forall|g: int| 0 <= g < after.len() implies (#[trigger] after[g]).len() > 0
                    && ascending(after[g]) by {
                    if g < before.len() {
                        assert(after[g] == before[g]);
                    }
                }
            }
        }
        start += 1;
    }
    proof {
        assert forall|x: int| 0 <= x < n implies #[trigger] grouped(group_views(out@), x) by {
            assert(seen@[x]);
        }
        law_components_are_unique(group_views(out@), n, edges@);
    }
    out
}

proof fn lemma_grouped_closed(
    groups: Seq<Seq<usize>>,
    count: int,
    edges: Seq<(usize, usize)>,
    a: int,
    b: int,
)
    requires
        complete_groups(groups, count, edges),
        0 <= a < count <= usize::MAX,
        0 <= b < count,
        grouped(groups, a),
        connected(count, edges, b, a),
    ensures
        grouped(groups, b),
{
    let g = choose|g: int| 0 <= g < groups.len() && (#[trigger] groups[g]).contains(a as usize);
    lemma_connected_symmetric(count, edges, b, a);
    assert(connected(count, edges, (a as usize) as int, b));
    assert(groups[g].contains(b as usize));
}

// ---------------------------------------------------------------------
// Uniqueness
// ---------------------------------------------------------------------

proof fn lemma_ascending_unique(s: Seq<usize>, t: Seq<usize>)
    requires
        ascending(s),
        ascending(t),
        forall|x: usize| #[trigger] s.contains(x) == t.contains(x),
    ensures
        s == t,
    decreases s.len(),
{
    if s.len() == 0 {
        if t.len() > 0 {
            assert(t.contains(t[0]));
            assert(s.contains(t[0]));
        }
        assert(s =~= t);
    } else {
        let x = s[s.len() - 1];
        assert(s.contains(x));
        assert(t.contains(x));
        let y = t[t.len() - 1];
        assert(t.contains(y));
        assert(s.contains(y));
        let i = choose|i: int| 0 <= i < t.len() && t[i] == x;
        let j = choose|j: int| 0 <= j < s.len() && s[j] == y;
        assert(x == y) by {
            if i < t.len() - 1 {
                assert(t[i] < t[t.len() - 1]);
            }
            if j < s.len() - 1 {
                assert(s[j] < s[s.len() - 1]);
            }
        }
        let s1 = s.drop_last();
        let t1 = t.drop_last();
        assert forall|z: usize| #[trigger] s1.contains(z) == t1.contains(z) by {
            assert(s1.push(x) =~= s);
            assert(t1.push(x) =~= t);
            lemma_push_contains(s1, x, z);
            lemma_push_contains(t1, x, z);
            assert(s.contains(z) == t.contains(z));
            if s1.contains(x) {
                let k = choose|k: int| 0 <= k < s1.len() && s1[k] == x;
                assert(s[k] < s[s.len() - 1]);
            }
            if t1.contains(x) {
                let k = choose|k: int| 0 <= k < t1.len() && t1[k] == x;
                assert(t[k] < t[t.len() - 1]);
            }
        }
        lemma_ascending_unique(s1, t1);
        assert(s1.push(x) =~= s);
        assert(t1.push(x) =~= t);
    }
}

/// Of two lists of the components, where the first `k` agree, the next
/// component of the first list starts no earlier than that of the second.
proof fn lemma_next_component(
    a: Seq<Seq<usize>>,
    b: Seq<Seq<usize>>,
    count: int,
    edges: Seq<(usize, usize)>,
    k: int,
)
    requires
        are_components(a, count, edges),
        are_components(b, count, edges),
        0 <= k < a.len(),
        k <= b.len(),
        count <= usize::MAX,
        forall|g: int| 0 <= g < k ==> a[g] == b[g],
    ensures
        k < b.len(),
        b[k][0] <= a[k][0],
{
    let x = a[k][0];
    assert(a[k].contains(x));
    assert(a[k][0] < count);
    assert(grouped(b, x as int));
    let h = choose|h: int| 0 <= h < b.len() && (#[trigger] b[h]).contains(x as int as usize);
    if h < k {
        let y = a[h][0];
        assert(a[h].contains(y));
        assert(a[h][0] < count);
        assert(a[h].contains(x));
        assert(a[h].contains(y as int as usize) == connected(count, edges, x as int, y as int));
        assert(a[k].contains(y as int as usize) == connected(count, edges, x as int, y as int));
        let i = choose|i: int| 0 <= i < a[k].len() && a[k][i] == y;
        if i > 0 {
            assert(a[k][0] < a[k][i]);
        }
        assert(false);
    }
    let i = choose|i: int| 0 <= i < b[h].len() && b[h][i] == x;
    if i > 0 {
        assert(b[h][0] < b[h][i]);
    }
}

proof fn lemma_components_agree(
    a: Seq<Seq<usize>>,
    b: Seq<Seq<usize>>,
    count: int,
    edges: Seq<(usize, usize)>,
    k: nat,
)
    requires
        are_components(a, count, edges),
        are_components(b, count, edges),
        k <= a.len(),
        count <= usize::MAX,
    ensures
        k <= b.len(),
        forall|g: int| 0 <= g < k ==> a[g] == b[g],
    decreases k,
{
    if k > 0 {
        let m = k - 1;
        lemma_components_agree(a, b, count, edges, m as nat);
        lemma_next_component(a, b, count, edges, m);
        lemma_next_component(b, a, count, edges, m);
        let x = a[m][0];
        assert(a[m].contains(x));
        assert(b[m].contains(x));
        assert forall|z: usize| #[trigger] a[m].contains(z) == b[m].contains(z) by {
            if a[m].contains(z) {
                let i = choose|i: int| 0 <= i < a[m].len() && a[m][i] == z;
                assert(a[m][i] < count);
            }
            if b[m].contains(z) {
                let i = choose|i: int| 0 <= i < b[m].len() && b[m][i] == z;
                assert(b[m][i] < count);
            }
            if z < count {
                assert(a[m].contains(z as int as usize) == connected(
                    count,
                    edges,
                    x as int,
                    z as int,
                ));
                assert(b[m].contains(z as int as usize) == connected(
                    count,
                    edges,
                    x as int,
                    z as int,
                ));
            }
        }
        lemma_ascending_unique(a[m], b[m]);
    }
}

/// The connected components of a graph.
pub open spec fn components_of(count: int, edges: Seq<(usize, usize)>) -> Seq<Seq<usize>> {
    choose|groups: Seq<Seq<usize>>| are_components(groups, count, edges)
}

/// There is only one list of the connected components.
pub proof fn law_components_are_unique(
    groups: Seq<Seq<usize>>,
    count: int,
    edges: Seq<(usize, usize)>,
)
    requires
        are_components(groups, count, edges),
        count <= usize::MAX,
    ensures
        groups == components_of(count, edges),
{
    let other = components_of(count, edges);
    lemma_components_agree(groups, other, count, edges, groups.len());
    lemma_components_agree(other, groups, count, edges, other.len());
    assert(groups =~= other);
}

} // verus!
