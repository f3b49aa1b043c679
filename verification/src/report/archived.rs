//! Archived crates in a dependency tree.
use vstd::prelude::*;
use vstd::string::*;
use crate::chars;
use crate::report::links::{normalize_repo_url, web_address};
use crate::text;

verus! {

/// A package of a dependency tree.
#[derive(Debug)]
pub struct Package {
    pub id: String,
    pub name: String,
    pub version: String,
    pub repository: Option<String>,
}

/// What a `Package` says.
pub struct Pkg {
    pub id: Seq<char>,
    pub name: Seq<char>,
    pub version: Seq<char>,
    pub repository: Option<Seq<char>>,
}

impl View for Package {
    type V = Pkg;

    open spec fn view(&self) -> Pkg {
        Pkg {
            id: self.id@,
            name: self.name@,
            version: self.version@,
            repository: chars::opt(self.repository),
        }
    }
}

pub open spec fn packages(items: Seq<Package>) -> Seq<Pkg> {
    items.map_values(|p: Package| p@)
}

/// The packages that a package depends on.
#[derive(Debug)]
pub struct TreeNode {
    pub id: String,
    pub deps: Vec<String>,
}

/// What tree nodes say.
pub open spec fn edges(items: Seq<TreeNode>) -> Seq<(Seq<char>, Seq<Seq<char>>)> {
    items.map_values(|n: TreeNode| (n.id@, chars::views(n.deps@)))
}

/// A dependency tree.
#[derive(Debug)]
pub struct Metadata {
    pub packages: Vec<Package>,
    pub workspace_members: Vec<String>,
    pub nodes: Vec<TreeNode>,
}

/// The packages that a package depends on; where it is listed more than once, the
/// last counts.
pub open spec fn children(nodes: Seq<(Seq<char>, Seq<Seq<char>>)>, id: Seq<char>) -> Seq<Seq<char>>
    decreases nodes.len(),
{
    if nodes.len() == 0 {
        seq![]
    } else if nodes.last().0 == id {
        nodes.last().1
    } else {
        children(nodes.drop_last(), id)
    }
}

/// A way from a root along dependencies.
pub open spec fn is_path(
    roots: Seq<Seq<char>>,
    nodes: Seq<(Seq<char>, Seq<Seq<char>>)>,
    path: Seq<Seq<char>>,
) -> bool {
    &&& path.len() > 0
    &&& roots.contains(path[0])
    &&& forall|i: int|
        0 <= i < path.len() - 1 ==> #[trigger] children(nodes, path[i]).contains(path[i + 1])
}

/// A way from a root to the target, and none is shorter.
pub open spec fn is_shortest(
    roots: Seq<Seq<char>>,
    nodes: Seq<(Seq<char>, Seq<Seq<char>>)>,
    target: Seq<char>,
    path: Seq<Seq<char>>,
) -> bool {
    &&& is_path(roots, nodes, path)
    &&& path.last() == target
    &&& forall|q: Seq<Seq<char>>| #[trigger]
        is_path(roots, nodes, q) && q.last() == target ==> path.len() <= q.len()
}

/// The answer to the question for a shortest way: one, where there is a way.
pub open spec fn is_answer(
    roots: Seq<Seq<char>>,
    nodes: Seq<(Seq<char>, Seq<Seq<char>>)>,
    target: Seq<char>,
    answer: Option<Seq<Seq<char>>>,
) -> bool {
    match answer {
        Some(path) => is_shortest(roots, nodes, target, path),
        None => forall|q: Seq<Seq<char>>| #[trigger]
            is_path(roots, nodes, q) ==> q.last() != target,
    }
}

/// All names that occur in a tree.
pub open spec fn names(roots: Seq<Seq<char>>, nodes: Seq<(Seq<char>, Seq<Seq<char>>)>) -> Seq<
    Seq<char>,
>
    decreases nodes.len(),
{
    if nodes.len() == 0 {
        roots
    } else {
        names(roots, nodes.drop_last()) + nodes.last().1
    }
}

/// The packages that are known, in the order in which they become so, when first
/// the roots are and then what the first `n` known packages depend on.
pub open spec fn known(
    roots: Seq<Seq<char>>,
    nodes: Seq<(Seq<char>, Seq<Seq<char>>)>,
    n: nat,
) -> Seq<Seq<char>>
    decreases n,
{
    if n == 0 {
        chars::distinct(roots)
    } else {
        let before = known(roots, nodes, (n - 1) as nat);
        if n - 1 < before.len() {
            chars::distinct(before + children(nodes, before[n - 1]))
        } else {
            before
        }
    }
}

/// All packages that can be reached, in the order in which they become known.
pub open spec fn reached(roots: Seq<Seq<char>>, nodes: Seq<(Seq<char>, Seq<Seq<char>>)>) -> Seq<
    Seq<char>,
> {
    known(roots, nodes, names(roots, nodes).len())
}

/// The position of the first package of the list that depends on `id`, or the
/// length of the list.
pub open spec fn dependent(
    nodes: Seq<(Seq<char>, Seq<Seq<char>>)>,
    list: Seq<Seq<char>>,
    id: Seq<char>,
) -> nat
    decreases list.len(),
{
    if list.len() == 0 {
        0
    } else {
        let before = dependent(nodes, list.drop_last(), id);
        if before < list.len() - 1 || children(nodes, list.last()).contains(id) {
            before
        } else {
            list.len()
        }
    }
}

/// The way to the package at `i` of the list: from a root, over the first package
/// of the list that depends on it.
pub open spec fn trail(
    roots: Seq<Seq<char>>,
    nodes: Seq<(Seq<char>, Seq<Seq<char>>)>,
    list: Seq<Seq<char>>,
    i: int,
) -> Seq<Seq<char>>
    decreases i,
{
    let p = dependent(nodes, list.take(i), list[i]);
    if i <= 0 || roots.contains(list[i]) || p >= i {
        seq![list[i]]
    } else {
        trail(roots, nodes, list, p as int).push(list[i])
    }
}

/// The way over which a package is reached first.
pub open spec fn way(
    roots: Seq<Seq<char>>,
    nodes: Seq<(Seq<char>, Seq<Seq<char>>)>,
    target: Seq<char>,
) -> Option<Seq<Seq<char>>> {
    let all = reached(roots, nodes);
    if all.contains(target) {
        Some(trail(roots, nodes, all, all.index_of(target)))
    } else {
        None
    }
}

/// Where the node of a package stands.
fn find_node(nodes: &Vec<TreeNode>, id: &str) -> (r: Option<usize>)
    ensures
        match r {
            Some(k) => k < nodes.len() && children(edges(nodes@), id@) == chars::views(
                nodes@[k as int].deps@,
            ),
            None => children(edges(nodes@), id@).len() == 0,
        },
{
    let ghost all = edges(nodes@);
    let mut n: usize = nodes.len();
    assert(all.take(n as int) =~= all);
    while n > 0
        invariant
            n <= nodes.len(),
            all == edges(nodes@),
            children(all, id@) == children(all.take(n as int), id@),
        decreases n,
    {
        assert(all.take(n as int).last() == (nodes@[n - 1].id@, chars::views(nodes@[n - 1].deps@)));
        if text::eq(nodes[n - 1].id.as_str(), id) {
            return Some(n - 1);
        }
        assert(all.take(n as int).drop_last() =~= all.take(n - 1));
        n = n - 1;
    }
    None
}

/// What is known of the packages that a search has reached, in the order in which
/// it reached them: how far each is from a root, and over which package it was
/// reached.
spec fn is_traced(
    roots: Seq<Seq<char>>,
    nodes: Seq<(Seq<char>, Seq<Seq<char>>)>,
    queue: Seq<Seq<char>>,
    parents: Seq<Option<usize>>,
    far: Seq<int>,
) -> bool {
    &&& parents.len() == queue.len()
    &&& far.len() == queue.len()
    &&& forall|i: int| #![trigger parents[i]]
        0 <= i < queue.len() ==> match parents[i] {
            None => far[i] == 0 && roots.contains(queue[i]),
            Some(p) => {
                &&& !roots.contains(queue[i])
                &&& p < i
                &&& p == dependent(nodes, queue.take(i), queue[i])
                &&& far[i] == far[p as int] + 1
                &&& children(nodes, queue[p as int]).contains(queue[i])
            },
        }
}

/// The search goes outwards: what it reached later is no nearer, and what is still
/// to be visited is at most one step farther than the first of it.
spec fn is_outward(far: Seq<int>, head: int) -> bool {
    &&& forall|i: int, j: int| 0 <= i <= j < far.len() ==> #[trigger] far[i] <= #[trigger] far[j]
    &&& head < far.len() ==> forall|j: int| 0 <= j < far.len() ==> #[trigger] far[j] <= far[head]
        + 1
}

/// The package stands in the queue no farther than `d` from a root.
spec fn is_within(queue: Seq<Seq<char>>, far: Seq<int>, id: Seq<char>, d: int) -> bool {
    exists|k: int| 0 <= k < queue.len() && #[trigger] queue[k] == id && far[k] <= d
}

/// All that the first `head` packages depend on has been reached over them.
spec fn is_expanded(
    nodes: Seq<(Seq<char>, Seq<Seq<char>>)>,
    queue: Seq<Seq<char>>,
    far: Seq<int>,
    head: int,
) -> bool {
    forall|i: int, c: int|
        0 <= i < head && 0 <= c < children(nodes, queue[i]).len() ==> is_within(
            queue,
            far,
            #[trigger] children(nodes, queue[i])[c],
            far[i] + 1,
        )
}

/// All roots have been reached.
spec fn has_roots(roots: Seq<Seq<char>>, queue: Seq<Seq<char>>, far: Seq<int>) -> bool {
    forall|i: int| 0 <= i < roots.len() ==> is_within(queue, far, #[trigger] roots[i], 0)
}

fn trace(
    queue: &Vec<String>,
    parents: &Vec<Option<usize>>,
    i: usize,
    Ghost(roots): Ghost<Seq<Seq<char>>>,
    Ghost(nodes): Ghost<Seq<(Seq<char>, Seq<Seq<char>>)>>,
    Ghost(far): Ghost<Seq<int>>,
) -> (r: Vec<String>)
    requires
        is_traced(roots, nodes, chars::views(queue@), parents@, far),
        i < queue.len(),
    ensures
        is_path(roots, nodes, chars::views(r@)),
        chars::views(r@) == trail(roots, nodes, chars::views(queue@), i as int),
        chars::views(r@).last() == queue@[i as int]@,
        r@.len() == far[i as int] + 1,
    decreases i,
{
    let ghost all = chars::views(queue@);
    match parents[i] {
        Some(p) => {
            assert(parents@[i as int] == Some(p));
            let mut path: Vec<String> = trace(
                queue,
                parents,
                p,
                Ghost(roots),
                Ghost(nodes),
                Ghost(far),
            );
            let ghost before = chars::views(path@);
            path.push(queue[i].clone());
            proof {
                let now = chars::views(path@);
                assert(now =~= before.push(all[i as int]));
                assert forall|k: int| 0 <= k < now.len() - 1 implies #[trigger] children(
                    nodes,
                    now[k],
                ).contains(now[k + 1]) by {
                    if k < before.len() - 1 {
                        assert(children(nodes, before[k]).contains(before[k + 1]));
                    } else {
                        assert(before.last() == all[p as int]);
                    }
                }
            }
            path
        },
        None => {
            assert(parents@[i as int] is None);
            let mut path: Vec<String> = Vec::new();
            path.push(queue[i].clone());
            assert(chars::views(path@) =~= seq![all[i as int]]);
            path
        },
    }
}

/// A way that leads to a package nearer than the one at the head of the queue
/// leads only over packages that the search has reached.
proof fn lemma_reached(
    roots: Seq<Seq<char>>,
    nodes: Seq<(Seq<char>, Seq<Seq<char>>)>,
    queue: Seq<Seq<char>>,
    far: Seq<int>,
    head: int,
    q: Seq<Seq<char>>,
    j: int,
)
    requires
        far.len() == queue.len(),
        0 <= head <= queue.len(),
        is_outward(far, head),
        is_expanded(nodes, queue, far, head),
        has_roots(roots, queue, far),
        is_path(roots, nodes, q),
        0 <= j < q.len(),
        head < queue.len() ==> j <= far[head],
    ensures
        is_within(queue, far, q[j], j),
    decreases j,
{
    if j == 0 {
        let i = roots.index_of(q[0]);
        assert(is_within(queue, far, roots[i], 0));
    } else {
        lemma_reached(roots, nodes, queue, far, head, q, j - 1);
        let k = choose|k: int|
            0 <= k < queue.len() && #[trigger] queue[k] == q[j - 1] && far[k] <= j - 1;
        assert(k < head) by {
            if k >= head {
                assert(far[head] <= far[k]);
            }
        }
        assert(children(nodes, q[j - 1]).contains(q[j - 1 + 1]));
        let c = children(nodes, queue[k]).index_of(q[j]);
        assert(is_within(queue, far, children(nodes, queue[k])[c], far[k] + 1));
        let m = choose|m: int|
            0 <= m < queue.len() && #[trigger] queue[m] == q[j] && far[m] <= far[k] + 1;
        assert(queue[m] == q[j] && far[m] <= j);
    }
}

/// One package more at the end of the queue keeps what is known of the others.
proof fn lemma_within_push(
    queue: Seq<Seq<char>>,
    far: Seq<int>,
    id: Seq<char>,
    d: int,
    new: Seq<char>,
    e: int,
)
    requires
        far.len() == queue.len(),
        is_within(queue, far, id, d),
    ensures
        is_within(queue.push(new), far.push(e), id, d),
{
    let k = choose|k: int| 0 <= k < queue.len() && #[trigger] queue[k] == id && far[k] <= d;
    assert(queue.push(new)[k] == id);
    assert(far.push(e)[k] == far[k]);
}

proof fn lemma_names(
    roots: Seq<Seq<char>>,
    nodes: Seq<(Seq<char>, Seq<Seq<char>>)>,
    id: Seq<char>,
    x: Seq<char>,
)
    ensures
        roots.contains(x) ==> names(roots, nodes).contains(x),
        children(nodes, id).contains(x) ==> names(roots, nodes).contains(x),
    decreases nodes.len(),
{
    if nodes.len() > 0 {
        let before = names(roots, nodes.drop_last());
        lemma_names(roots, nodes.drop_last(), id, x);
        if before.contains(x) {
            let i = before.index_of(x);
            assert(names(roots, nodes)[i] == x);
        }
        if nodes.last().0 == id && nodes.last().1.contains(x) {
            let i = nodes.last().1.index_of(x);
            assert(names(roots, nodes)[before.len() + i] == x);
        }
    }
}

/// A list without repetitions of names of a tree is no longer than all of them.
proof fn lemma_bounded(queue: Seq<Seq<char>>, all: Seq<Seq<char>>)
    requires
        queue.no_duplicates(),
        forall|i: int| 0 <= i < queue.len() ==> all.contains(#[trigger] queue[i]),
    ensures
        queue.len() <= all.len(),
{
    queue.unique_seq_to_set();
    vstd::seq_lib::seq_to_set_is_finite(all);
    all.lemma_cardinality_of_set();
    assert(queue.to_set().subset_of(all.to_set()));
    vstd::set_lib::lemma_len_subset(queue.to_set(), all.to_set());
}

/// `dependent` is the first position with a package that depends on `id`.
proof fn lemma_dependent(
    nodes: Seq<(Seq<char>, Seq<Seq<char>>)>,
    list: Seq<Seq<char>>,
    id: Seq<char>,
    p: int,
)
    requires
        0 <= p <= list.len(),
        p < list.len() ==> children(nodes, list[p]).contains(id),
        forall|j: int| 0 <= j < p ==> !(#[trigger] children(nodes, list[j])).contains(id),
    ensures
        dependent(nodes, list, id) == p,
    decreases list.len(),
{
    if list.len() > 0 {
        let init = list.drop_last();
        assert forall|j: int| 0 <= j < p && j < init.len() implies !(#[trigger] children(
            nodes,
            init[j],
        )).contains(id) by {
            assert(init[j] == list[j]);
        }
        if p < list.len() {
            if p < init.len() {
                assert(init[p] == list[p]);
            }
            lemma_dependent(nodes, init, id, p);
        } else {
            assert(!children(nodes, list[list.len() - 1]).contains(id));
            lemma_dependent(nodes, init, id, p - 1);
        }
    }
}

/// A way depends only on what is known before its end.
proof fn lemma_trail(
    roots: Seq<Seq<char>>,
    nodes: Seq<(Seq<char>, Seq<Seq<char>>)>,
    list: Seq<Seq<char>>,
    longer: Seq<Seq<char>>,
    i: int,
)
    requires
        0 <= i < list.len() <= longer.len(),
        longer.take(list.len() as int) == list,
    ensures
        trail(roots, nodes, list, i) == trail(roots, nodes, longer, i),
    decreases i,
{
    assert(list[i] == longer[i]);
    assert(list.take(i) =~= longer.take(i));
    let p = dependent(nodes, list.take(i), list[i]);
    if i > 0 && !roots.contains(list[i]) && p < i {
        lemma_trail(roots, nodes, list, longer, p as int);
    }
}

/// A list without repetitions stays as it is, also in front of others.
proof fn lemma_distinct_front(front: Seq<Seq<char>>, more: Seq<Seq<char>>)
    requires
        front.no_duplicates(),
    ensures
        chars::distinct(front + more).len() >= front.len(),
        chars::distinct(front + more).take(front.len() as int) == front,
    decreases front.len() + more.len(),
{
    let both = front + more;
    if more.len() > 0 {
        assert(both.drop_last() =~= front + more.drop_last());
        lemma_distinct_front(front, more.drop_last());
        let before = chars::distinct(both.drop_last());
        assert(before.push(both.last()).take(front.len() as int) =~= before.take(
            front.len() as int,
        ));
    } else if front.len() > 0 {
        let init = front.drop_last();
        assert(both =~= front);
        assert(init + Seq::<Seq<char>>::empty() =~= init);
        lemma_distinct_front(init, seq![]);
        chars::lemma_distinct(init);
        let before = chars::distinct(init);
        assert(before =~= init) by {
            assert forall|i: int| 0 <= i < before.len() implies init.contains(
                #[trigger] before[i],
            ) by {
                assert(before.contains(before[i]));
            }
            lemma_bounded(before, init);
            assert(before.take(init.len() as int) =~= before);
        }
        assert(!before.contains(front.last()));
        assert(before.push(front.last()) =~= front);
    } else {
        assert(chars::distinct(both).take(0) =~= front);
    }
}

/// Nothing is known twice, and what is known stays known.
proof fn lemma_known(
    roots: Seq<Seq<char>>,
    nodes: Seq<(Seq<char>, Seq<Seq<char>>)>,
    n: nat,
    m: nat,
)
    requires
        n <= m,
    ensures
        known(roots, nodes, n).no_duplicates(),
        known(roots, nodes, m).no_duplicates(),
        known(roots, nodes, n).len() <= known(roots, nodes, m).len(),
        known(roots, nodes, m).take(known(roots, nodes, n).len() as int) == known(roots, nodes, n),
        known(roots, nodes, n).len() <= n ==> known(roots, nodes, m) == known(roots, nodes, n),
    decreases m,
{
    let small = known(roots, nodes, n);
    let large = known(roots, nodes, m);
    if m == 0 {
        chars::lemma_distinct(roots);
        assert(large.take(small.len() as int) =~= small);
    } else {
        let before = known(roots, nodes, (m - 1) as nat);
        if n < m {
            lemma_known(roots, nodes, n, (m - 1) as nat);
        } else {
            lemma_known(roots, nodes, (m - 1) as nat, (m - 1) as nat);
        }
        if m - 1 < before.len() {
            chars::lemma_distinct(before + children(nodes, before[m - 1]));
            lemma_distinct_front(before, children(nodes, before[m - 1]));
        }
        if n < m {
            assert(large.take(before.len() as int) =~= before);
            assert(large.take(small.len() as int) =~= before.take(small.len() as int));
        } else {
            assert(large.take(small.len() as int) =~= small);
        }
    }
}

/// What a way says.
pub open spec fn way_of(r: Option<Vec<String>>) -> Option<Seq<Seq<char>>> {
    match r {
        Some(path) => Some(chars::views(path@)),
        None => None,
    }
}

/// A shortest way from a root to the target along dependencies, where there is
/// one: that over which the target is reached first.
pub fn shortest_dependency_path(roots: &Vec<String>, nodes: &Vec<TreeNode>, target: &str) -> (r:
    Option<Vec<String>>)
    ensures
        way_of(r) == way(chars::views(roots@), edges(nodes@), target@),
        is_answer(chars::views(roots@), edges(nodes@), target@, way_of(r)),
{
    let ghost rs = chars::views(roots@);
    let ghost es = edges(nodes@);
    let ghost all_names = names(rs, es);
    let mut queue: Vec<String> = Vec::new();
    let mut parents: Vec<Option<usize>> = Vec::new();
    let ghost mut far: Seq<int> = seq![];
    for i in 0..roots.len()
        invariant
            rs == chars::views(roots@),
            all_names == names(rs, es),
            is_traced(rs, es, chars::views(queue@), parents@, far),
            chars::views(queue@).no_duplicates(),
            forall|k: int| 0 <= k < far.len() ==> #[trigger] far[k] == 0,
            chars::views(queue@) == chars::distinct(rs.take(i as int)),
            forall|k: int| 0 <= k < i ==> is_within(chars::views(queue@), far, #[trigger] rs[k], 0),
            forall|k: int|
                0 <= k < queue@.len() ==> all_names.contains(#[trigger] chars::views(queue@)[k]),
    {
        let ghost before = chars::views(queue@);
        let ghost far0 = far;
        assert(rs.take(i + 1).drop_last() =~= rs.take(i as int));
        if !text::contains(&queue, roots[i].as_str()) {
            queue.push(roots[i].clone());
            parents.push(None);
            proof {
                far = far.push(0);
                let now = chars::views(queue@);
                assert(now =~= before.push(rs[i as int]));
                assert(rs.contains(rs[i as int]));
                lemma_names(rs, es, rs[i as int], rs[i as int]);
                assert(now[before.len() as int] == rs[i as int]);
                assert forall|k: int| 0 <= k < i + 1 implies is_within(now, far, #[trigger] rs[k], 0) by {
                    if k < i {
                        lemma_within_push(before, far0, rs[k], 0, rs[i as int], 0);
                    }
                }
                assert forall|k: int| 0 <= k < now.len() implies all_names.contains(#[trigger] now[k]) by {
                    if k < before.len() {
                        assert(now[k] == before[k]);
                    }
                }
            }
        } else {
            proof {
                let k = before.index_of(rs[i as int]);
                assert(before[k] == rs[i as int] && far[k] <= 0);
            }
        }
    }
    assert(rs.take(rs.len() as int) =~= rs);
    let mut head: usize = 0;
    while head < queue.len()
        invariant
            head <= queue.len(),
            rs == chars::views(roots@),
            es == edges(nodes@),
            all_names == names(rs, es),
            is_traced(rs, es, chars::views(queue@), parents@, far),
            chars::views(queue@).no_duplicates(),
            chars::views(queue@) == known(rs, es, head as nat),
            is_outward(far, head as int),
            is_expanded(es, chars::views(queue@), far, head as int),
            has_roots(rs, chars::views(queue@), far),
            forall|k: int|
                0 <= k < queue@.len() ==> all_names.contains(#[trigger] chars::views(queue@)[k]),
            forall|k: int| 0 <= k < head ==> #[trigger] chars::views(queue@)[k] != target@,
        decreases all_names.len() - head,
    {
        let ghost start = chars::views(queue@);
        proof {
            lemma_bounded(start, all_names);
        }
        if text::eq(queue[head].as_str(), target) {
            let path: Vec<String> = trace(
                &queue,
                &parents,
                head,
                Ghost(rs),
                Ghost(es),
                Ghost(far),
            );
            proof {
                let p = chars::views(path@);
                assert forall|q: Seq<Seq<char>>| #[trigger]
                    is_path(rs, es, q) && q.last() == target@ implies p.len() <= q.len() by {
                    if q.len() <= far[head as int] {
                        lemma_reached(rs, es, start, far, head as int, q, q.len() - 1);
                        let k = choose|k: int|
                            0 <= k < start.len() && #[trigger] start[k] == q[q.len() - 1] && far[k]
                                <= q.len() - 1;
                        assert(start[head as int] == target@);
                        assert(k == head);
                    }
                }
                lemma_known(rs, es, head as nat, all_names.len());
                let all = reached(rs, es);
                assert(all.take(start.len() as int)[head as int] == all[head as int]);
                assert(all.index_of(target@) == head);
                lemma_trail(rs, es, start, all, head as int);
            }
            return Some(path);
        }
        match find_node(nodes, queue[head].as_str()) {
            Some(n) => {
                let ghost mine = children(es, start[head as int]);
                let deps: &Vec<String> = &nodes[n].deps;
                proof {
                    assert(start + mine.take(0) =~= start);
                    lemma_distinct_same(start);
                }
                for c in 0..deps.len()
                    invariant
                        head < start.len(),
                        start.len() <= queue@.len(),
                        rs == chars::views(roots@),
                        es == edges(nodes@),
                        all_names == names(rs, es),
                        mine == chars::views(deps@),
                        mine == children(es, start[head as int]),
                        forall|k: int|
                            0 <= k < start.len() ==> #[trigger] chars::views(queue@)[k] == start[k],
                        is_traced(rs, es, chars::views(queue@), parents@, far),
                        chars::views(queue@).no_duplicates(),
                        start.no_duplicates(),
                        chars::views(queue@) == chars::distinct(start + mine.take(c as int)),
                        is_outward(far, head as int),
                        is_expanded(es, chars::views(queue@), far, head as int),
                        has_roots(rs, chars::views(queue@), far),
                        forall|k: int|
                            0 <= k < queue@.len() ==> all_names.contains(
                                #[trigger] chars::views(queue@)[k],
                            ),
                        forall|k: int|
                            0 <= k < c ==> is_within(
                                chars::views(queue@),
                                far,
                                #[trigger] mine[k],
                                far[head as int] + 1,
                            ),
                {
                    let ghost before = chars::views(queue@);
                    let ghost far0 = far;
                    let ghost parents_before = parents@;
                    let ghost id = mine[c as int];
                    assert((start + mine.take(c + 1)).drop_last() =~= start + mine.take(c as int));
                    assert((start + mine.take(c + 1)).last() == id);
                    if !text::contains(&queue, deps[c].as_str()) {
                        queue.push(deps[c].clone());
                        parents.push(Some(head));
                        proof {
                            far = far.push(far[head as int] + 1);
                            assert(chars::views(queue@) =~= before.push(id));
                            assert(mine.contains(id));
                            lemma_names(rs, es, start[head as int], id);
                            lemma_new(rs, es, before, far0, head as int, id);
                            lemma_traced(rs, es, before, parents_before, far0, head, id);
                            lemma_step(rs, es, before, far0, head as int, id, mine, c as int);
                        }
                    } else {
                        proof {
                            let k = before.index_of(id);
                            assert(before[k] == id && far[k] <= far[head as int] + 1);
                            assert(is_within(before, far, id, far[head as int] + 1));
                        }
                    }
                }
                assert(mine.take(mine.len() as int) =~= mine);
                assert(is_expanded(es, chars::views(queue@), far, head + 1)) by {
                    let now = chars::views(queue@);
                    assert forall|i: int, c: int|
                        0 <= i < head + 1 && 0 <= c < children(es, now[i]).len() implies is_within(
                        now,
                        far,
                        #[trigger] children(es, now[i])[c],
                        far[i] + 1,
                    ) by {
                        if i == head {
                            assert(now[i] == start[i]);
                            assert(is_within(now, far, mine[c], far[head as int] + 1));
                        }
                    }
                }
            },
            None => {
                proof {
                    assert(start + children(es, start[head as int]) =~= start);
                    lemma_distinct_same(start);
                }
                assert(is_expanded(es, chars::views(queue@), far, head + 1)) by {
                    let now = chars::views(queue@);
                    assert forall|i: int, c: int|
                        0 <= i < head + 1 && 0 <= c < children(es, now[i]).len() implies is_within(
                        now,
                        far,
                        #[trigger] children(es, now[i])[c],
                        far[i] + 1,
                    ) by {
                        if i == head {
                            assert(children(es, now[i]).len() == 0);
                        }
                    }
                }
            },
        }
        assert(is_outward(far, head + 1)) by {
            if head + 1 < far.len() {
                assert(far[head as int] <= far[head + 1]);
                assert forall|j: int| 0 <= j < far.len() implies #[trigger] far[j] <= far[head + 1]
                    + 1 by {
                    assert(far[j] <= far[head as int] + 1);
                }
            }
        }
        proof {
            lemma_bounded(chars::views(queue@), all_names);
        }
        head = head + 1;
    }
    proof {
        let all = chars::views(queue@);
        lemma_bounded(all, all_names);
        lemma_known(rs, es, head as nat, all_names.len());
        assert forall|q: Seq<Seq<char>>| #[trigger] is_path(rs, es, q) implies q.last()
            != target@ by {
            lemma_reached(rs, es, all, far, head as int, q, q.len() - 1);
            let k = choose|k: int|
                0 <= k < all.len() && #[trigger] all[k] == q[q.len() - 1] && far[k] <= q.len() - 1;
            assert(all[k] != target@);
        }
    }
    None
}

/// A list without repetitions stays as it is.
proof fn lemma_distinct_same(s: Seq<Seq<char>>)
    requires
        s.no_duplicates(),
    ensures
        chars::distinct(s) == s,
{
    assert(s + Seq::<Seq<char>>::empty() =~= s);
    lemma_distinct_front(s, seq![]);
    chars::lemma_distinct(s);
    let all = chars::distinct(s);
    assert forall|i: int| 0 <= i < all.len() implies s.contains(#[trigger] all[i]) by {
        assert(all.contains(all[i]));
    }
    lemma_bounded(all, s);
    assert(chars::distinct(s).take(s.len() as int) =~= chars::distinct(s));
}

/// A package that was not known before is no root, and the head of the queue is
/// the first that depends on it.
proof fn lemma_new(
    roots: Seq<Seq<char>>,
    nodes: Seq<(Seq<char>, Seq<Seq<char>>)>,
    queue: Seq<Seq<char>>,
    far: Seq<int>,
    head: int,
    id: Seq<char>,
)
    requires
        0 <= head < queue.len(),
        is_expanded(nodes, queue, far, head),
        has_roots(roots, queue, far),
        children(nodes, queue[head]).contains(id),
        !queue.contains(id),
    ensures
        !roots.contains(id),
        dependent(nodes, queue, id) == head,
{
    if roots.contains(id) {
        let i = roots.index_of(id);
        assert(is_within(queue, far, roots[i], 0));
    }
    assert forall|j: int| 0 <= j < head implies !(#[trigger] children(nodes, queue[j])).contains(
        id,
    ) by {
        if children(nodes, queue[j]).contains(id) {
            let c = children(nodes, queue[j]).index_of(id);
            assert(is_within(queue, far, children(nodes, queue[j])[c], far[j] + 1));
        }
    }
    lemma_dependent(nodes, queue, id, head);
}

/// A package that is reached over `p` is traced back to it.
proof fn lemma_traced(
    roots: Seq<Seq<char>>,
    nodes: Seq<(Seq<char>, Seq<Seq<char>>)>,
    queue: Seq<Seq<char>>,
    parents: Seq<Option<usize>>,
    far: Seq<int>,
    p: usize,
    id: Seq<char>,
)
    requires
        is_traced(roots, nodes, queue, parents, far),
        p < queue.len(),
        !roots.contains(id),
        dependent(nodes, queue, id) == p,
        children(nodes, queue[p as int]).contains(id),
    ensures
        is_traced(
            roots,
            nodes,
            queue.push(id),
            parents.push(Some(p)),
            far.push(far[p as int] + 1),
        ),
{
    let now = queue.push(id);
    let now_parents = parents.push(Some(p));
    assert(now.take(queue.len() as int) =~= queue);
    assert forall|i: int| #![trigger now_parents[i]] 0 <= i < queue.len() implies now_parents[i]
        == parents[i] && now.take(i) == queue.take(i) by {
        assert(now.take(i) =~= queue.take(i));
    }
}

/// A package that is reached over the head of the queue goes to its end.
proof fn lemma_step(
    roots: Seq<Seq<char>>,
    nodes: Seq<(Seq<char>, Seq<Seq<char>>)>,
    queue: Seq<Seq<char>>,
    far: Seq<int>,
    head: int,
    id: Seq<char>,
    mine: Seq<Seq<char>>,
    c: int,
)
    requires
        far.len() == queue.len(),
        0 <= head < queue.len(),
        is_outward(far, head),
        is_expanded(nodes, queue, far, head),
        has_roots(roots, queue, far),
        0 <= c < mine.len(),
        id == mine[c],
        forall|k: int| 0 <= k < c ==> is_within(queue, far, #[trigger] mine[k], far[head] + 1),
    ensures
        is_outward(far.push(far[head] + 1), head),
        is_expanded(nodes, queue.push(id), far.push(far[head] + 1), head),
        has_roots(roots, queue.push(id), far.push(far[head] + 1)),
        forall|k: int|
            0 <= k < c + 1 ==> is_within(
                queue.push(id),
                far.push(far[head] + 1),
                #[trigger] mine[k],
                far[head] + 1,
            ),
{
    let e = far[head] + 1;
    let queue2 = queue.push(id);
    let far2 = far.push(e);
    assert(queue2[queue.len() as int] == id && far2[queue.len() as int] <= e);
    assert(is_within(queue2, far2, id, e));
    assert forall|i: int, j: int| 0 <= i <= j < far2.len() implies #[trigger] far2[i]
        <= #[trigger] far2[j] by {
        if j < far.len() {
            assert(far[i] <= far[j]);
        } else if i < far.len() {
            assert(far[i] <= far[head] + 1);
        }
    }
    assert forall|j: int| 0 <= j < far2.len() implies #[trigger] far2[j] <= far2[head] + 1 by {
        if j < far.len() {
            assert(far[j] <= far[head] + 1);
        }
    }
    assert forall|i: int, k: int| 0 <= i < head && 0 <= k < children(nodes, queue2[i]).len() implies
        is_within(queue2, far2, #[trigger] children(nodes, queue2[i])[k], far2[i] + 1) by {
        assert(queue2[i] == queue[i]);
        assert(is_within(queue, far, children(nodes, queue[i])[k], far[i] + 1));
        lemma_within_push(queue, far, children(nodes, queue[i])[k], far[i] + 1, id, e);
    }
    assert forall|i: int| 0 <= i < roots.len() implies is_within(
        queue2,
        far2,
        #[trigger] roots[i],
        0,
    ) by {
        lemma_within_push(queue, far, roots[i], 0, id, e);
    }
    assert forall|k: int| 0 <= k < c + 1 implies is_within(
        queue2,
        far2,
        #[trigger] mine[k],
        e,
    ) by {
        if k < c {
            lemma_within_push(queue, far, mine[k], e, id, e);
        }
    }
}

/// What a dependency tree says.
#[verifier::ext_equal]
pub struct Tree {
    pub packages: Seq<Pkg>,
    pub workspace_members: Seq<Seq<char>>,
    pub nodes: Seq<(Seq<char>, Seq<Seq<char>>)>,
}

impl View for Metadata {
    type V = Tree;

    open spec fn view(&self) -> Tree {
        Tree {
            packages: packages(self.packages@),
            workspace_members: chars::views(self.workspace_members@),
            nodes: edges(self.nodes@),
        }
    }
}

/// The package of an id; where there is more than one, the last.
pub open spec fn package(items: Seq<Pkg>, id: Seq<char>) -> Option<Pkg>
    decreases items.len(),
{
    if items.len() == 0 {
        None
    } else if items.last().id == id {
        Some(items.last())
    } else {
        package(items.drop_last(), id)
    }
}

fn find_package(items: &Vec<Package>, id: &str) -> (r: Option<usize>)
    ensures
        match r {
            Some(k) => k < items.len() && package(packages(items@), id@) == Some(
                items@[k as int]@,
            ),
            None => package(packages(items@), id@) is None,
        },
{
    let ghost all = packages(items@);
    let mut n: usize = items.len();
    assert(all.take(n as int) =~= all);
    while n > 0
        invariant
            n <= items.len(),
            all == packages(items@),
            package(all, id@) == package(all.take(n as int), id@),
        decreases n,
    {
        assert(all.take(n as int).last() == items@[n - 1]@);
        if text::eq(items[n - 1].id.as_str(), id) {
            return Some(n - 1);
        }
        assert(all.take(n as int).drop_last() =~= all.take(n - 1));
        n = n - 1;
    }
    None
}

/// The ids of the packages, each once.
pub open spec fn ids(items: Seq<Pkg>) -> Seq<Seq<char>> {
    chars::distinct(items.map_values(|p: Pkg| p.id))
}

fn package_ids(items: &Vec<Package>) -> (r: Vec<String>)
    ensures
        chars::views(r@) == ids(packages(items@)),
{
    let ghost all = packages(items@).map_values(|p: Pkg| p.id);
    let mut out: Vec<String> = Vec::new();
    assert(chars::views(out@) =~= all.take(0));
    for i in 0..items.len()
        invariant
            all == packages(items@).map_values(|p: Pkg| p.id),
            chars::views(out@) == all.take(i as int),
    {
        let ghost sofar = chars::views(out@);
        out.push(items[i].id.clone());
        assert(chars::views(out@) =~= sofar.push(all[i as int]));
        assert(all.take(i + 1) =~= all.take(i as int).push(all[i as int]));
    }
    assert(all.take(all.len() as int) =~= all);
    text::distinct(&out)
}

/// The address of a package's repository on GitHub.
pub open spec fn github_address(p: Pkg) -> Option<Seq<char>> {
    match p.repository {
        Some(raw) => match web_address(raw) {
            Some(url) => if chars::starts_with(url, "https://github.com/"@) {
                Some(url)
            } else {
                None
            },
            None => None,
        },
        None => None,
    }
}

fn github_address_of(p: &Package) -> (r: Option<String>)
    ensures
        chars::opt(r) == github_address(p@),
{
    match &p.repository {
        Some(raw) => match normalize_repo_url(raw.as_str()) {
            Some(url) => {
                if text::starts_with(url.as_str(), "https://github.com/") {
                    Some(url)
                } else {
                    None
                }
            },
            None => None,
        },
        None => None,
    }
}

/// The address of the repository of the package with an id.
pub open spec fn address(items: Seq<Pkg>, id: Seq<char>) -> Option<Seq<char>> {
    match package(items, id) {
        Some(p) => github_address(p),
        None => None,
    }
}

/// The addresses of the repositories of the packages with these ids.
pub open spec fn addresses(items: Seq<Pkg>, list: Seq<Seq<char>>) -> Seq<Seq<char>>
    decreases list.len(),
{
    if list.len() == 0 {
        seq![]
    } else {
        let before = addresses(items, list.drop_last());
        match address(items, list.last()) {
            Some(url) => before.push(url),
            None => before,
        }
    }
}

/// The repositories whose state has to be asked for, each once.
pub fn repositories(tree: &Metadata) -> (r: Vec<String>)
    ensures
        chars::views(r@) == chars::distinct(addresses(tree@.packages, ids(tree@.packages))),
{
    let list: Vec<String> = package_ids(&tree.packages);
    let ghost all = chars::views(list@);
    let mut out: Vec<String> = Vec::new();
    assert(chars::views(out@) =~= seq![]);
    for i in 0..list.len()
        invariant
            all == chars::views(list@),
            chars::views(out@) == addresses(packages(tree.packages@), all.take(i as int)),
    {
        assert(all.take(i + 1).drop_last() =~= all.take(i as int));
        assert(all.take(i + 1).last() == list@[i as int]@);
        let ghost sofar = chars::views(out@);
        if let Some(k) = find_package(&tree.packages, list[i].as_str()) {
            if let Some(url) = github_address_of(&tree.packages[k]) {
                out.push(url);
                assert(chars::views(out@) =~= sofar.push(url@));
            }
        }
    }
    assert(all.take(all.len() as int) =~= all);
    text::distinct(&out)
}

/// The packages that a way starts from: the members of the workspace, or all.
pub open spec fn starts(tree: Tree) -> Seq<Seq<char>> {
    if tree.workspace_members.len() == 0 {
        ids(tree.packages)
    } else {
        tree.workspace_members
    }
}

/// The name of the package with an id.
pub open spec fn name_of(items: Seq<Pkg>, id: Seq<char>) -> Seq<char> {
    match package(items, id) {
        Some(p) => p.name,
        None => "unknown"@,
    }
}

/// What is found of an archived package that is reached on this way.
pub open spec fn finding(items: Seq<Pkg>, p: Pkg, path: Option<Seq<Seq<char>>>) -> Seq<char> {
    let subject = "Archived crate detected: "@ + p.name + " "@ + p.version;
    match path {
        Some(list) => subject + " via "@ + chars::join(
            list.map_values(|id: Seq<char>| name_of(items, id)),
            " -> "@,
        ),
        None => subject + " (path unavailable)"@,
    }
}

fn write_finding(items: &Vec<Package>, p: &Package, path: &Option<Vec<String>>) -> (r: String)
    ensures
        r@ == finding(packages(items@), p@, way_of(*path)),
{
    let mut out: String = "Archived crate detected: ".to_owned();
    out.append(p.name.as_str());
    out.append(" ");
    out.append(p.version.as_str());
    match path {
        Some(list) => {
            let ghost all = chars::views(list@).map_values(
                |id: Seq<char>| name_of(packages(items@), id),
            );
            let mut names: Vec<String> = Vec::new();
            assert(chars::views(names@) =~= all.take(0));
            for i in 0..list.len()
                invariant
                    all == chars::views(list@).map_values(
                        |id: Seq<char>| name_of(packages(items@), id),
                    ),
                    chars::views(names@) == all.take(i as int),
            {
                let ghost sofar = chars::views(names@);
                match find_package(items, list[i].as_str()) {
                    Some(k) => {
                        names.push(items[k].name.clone());
                    },
                    None => {
                        names.push("unknown".to_owned());
                    },
                }
                assert(chars::views(names@) =~= sofar.push(all[i as int]));
                assert(all.take(i + 1) =~= all.take(i as int).push(all[i as int]));
            }
            assert(all.take(all.len() as int) =~= all);
            let joined: String = text::join(&names, " -> ");
            out.append(" via ");
            out.append(joined.as_str());
        },
        None => {
            out.append(" (path unavailable)");
        },
    }
    out
}

/// What is found of the packages with these ids, when `archived` are the
/// repositories that are archived.
pub open spec fn found(tree: Tree, archived: Seq<Seq<char>>, list: Seq<Seq<char>>) -> Seq<
    Seq<char>,
>
    decreases list.len(),
{
    if list.len() == 0 {
        seq![]
    } else {
        let id = list.last();
        let before = found(tree, archived, list.drop_last());
        match package(tree.packages, id) {
            Some(p) => match github_address(p) {
                Some(url) => if archived.contains(url) {
                    before.push(finding(tree.packages, p, way(starts(tree), tree.nodes, id)))
                } else {
                    before
                },
                None => before,
            },
            None => before,
        }
    }
}

/// What is found of a dependency tree when `archived` are the repositories that
/// are archived: a sorted list without repetitions.
pub fn archived_findings(tree: &Metadata, archived: &Vec<String>) -> (r: Vec<String>)
    ensures
        chars::views(r@) == chars::sort(
            chars::distinct(found(tree@, chars::views(archived@), ids(tree@.packages))),
        ),
{
    let list: Vec<String> = package_ids(&tree.packages);
    let ghost all = chars::views(list@);
    let ghost items = packages(tree.packages@);
    let ghost asked = chars::views(archived@);
    let mut out: Vec<String> = Vec::new();
    assert(chars::views(out@) =~= seq![]);
    for i in 0..list.len()
        invariant
            all == chars::views(list@),
            all == ids(items),
            items == packages(tree.packages@),
            asked == chars::views(archived@),
            chars::views(out@) == found(tree@, asked, all.take(i as int)),
    {
        assert(all.take(i + 1).drop_last() =~= all.take(i as int));
        assert(all.take(i + 1).last() == list@[i as int]@);
        let ghost sofar = chars::views(out@);
        if let Some(k) = find_package(&tree.packages, list[i].as_str()) {
            if let Some(url) = github_address_of(&tree.packages[k]) {
                if text::contains(archived, url.as_str()) {
                    let roots: &Vec<String> = if tree.workspace_members.len() == 0 {
                        &list
                    } else {
                        &tree.workspace_members
                    };
                    let path: Option<Vec<String>> = shortest_dependency_path(
                        roots,
                        &tree.nodes,
                        list[i].as_str(),
                    );
                    let line: String = write_finding(&tree.packages, &tree.packages[k], &path);
                    out.push(line);
                    assert(chars::views(out@) =~= sofar.push(line@));
                }
            }
        }
    }
    assert(all.take(all.len() as int) =~= all);
    text::sort(text::distinct(&out))
}

/// What is reported where the tree could not be read.
pub fn unreadable_tree() -> (r: String)
    ensures
        r@ == "Could not evaluate full Cargo dependency tree maintenance status."@,
{
    "Could not evaluate full Cargo dependency tree maintenance status.".to_owned()
}

/// What is reported where the tree could not be understood.
pub fn unparsed_tree() -> (r: String)
    ensures
        r@ == "Could not parse Cargo metadata for full dependency tree analysis."@,
{
    "Could not parse Cargo metadata for full dependency tree analysis.".to_owned()
}

/// The findings are in order, and none is reported twice.
pub proof fn law_findings_are_sorted_and_distinct(tree: Tree, archived: Seq<Seq<char>>)
    ensures
        ({
            let all = chars::sort(chars::distinct(found(tree, archived, ids(tree.packages))));
            chars::sorted(all) && all.no_duplicates()
        }),
{
    let s = chars::distinct(found(tree, archived, ids(tree.packages)));
    chars::lemma_distinct(found(tree, archived, ids(tree.packages)));
    chars::lemma_sort(s);
    let r = chars::sort(s);
    vstd::seq_lib::to_multiset_len(s);
    s.lemma_multiset_has_no_duplicates();
    r.lemma_multiset_has_no_duplicates_conv();
}

/// What is known of an id is what the last package with it says.
pub proof fn law_last_package_counts(items: Seq<Pkg>, id: Seq<char>)
    ensures
        match package(items, id) {
            Some(p) => exists|k: int|
                0 <= k < items.len() && #[trigger] items[k] == p && p.id == id && forall|j: int|
                    k < j < items.len() ==> (#[trigger] items[j]).id != id,
            None => forall|j: int| 0 <= j < items.len() ==> (#[trigger] items[j]).id != id,
        },
    decreases items.len(),
{
    if items.len() > 0 {
        let n = items.len() - 1;
        if items.last().id == id {
            assert(items[n] == items.last());
        } else {
            let front = items.drop_last();
            law_last_package_counts(front, id);
            match package(front, id) {
                Some(p) => {
                    let k = choose|k: int|
                        0 <= k < front.len() && #[trigger] front[k] == p && p.id == id && forall|
                            j: int,
                        | k < j < front.len() ==> (#[trigger] front[j]).id != id;
                    assert forall|j: int| k < j < items.len() implies (#[trigger] items[j]).id
                        != id by {
                        if j < n {
                            assert(items[j] == front[j]);
                        }
                    }
                    assert(items[k] == p);
                },
                None => {
                    assert forall|j: int| 0 <= j < items.len() implies (#[trigger] items[j]).id
                        != id by {
                        if j < n {
                            assert(items[j] == front[j]);
                        }
                    }
                },
            }
        }
    }
}

/// What an id depends on is what the last node with it says.
pub proof fn law_last_node_counts(nodes: Seq<(Seq<char>, Seq<Seq<char>>)>, id: Seq<char>, k: int)
    requires
        0 <= k < nodes.len(),
        nodes[k].0 == id,
        forall|j: int| k < j < nodes.len() ==> (#[trigger] nodes[j]).0 != id,
    ensures
        children(nodes, id) == nodes[k].1,
    decreases nodes.len(),
{
    let front = nodes.drop_last();
    if k < front.len() {
        assert(nodes[nodes.len() - 1].0 != id);
        assert forall|j: int| k < j < front.len() implies (#[trigger] front[j]).0 != id by {
            assert(front[j] == nodes[j]);
        }
        law_last_node_counts(front, id, k);
    }
}

/// The package with the id is archived: its repository is on GitHub and among those
/// that are.
pub open spec fn is_archived(tree: Tree, archived: Seq<Seq<char>>, id: Seq<char>) -> bool {
    match package(tree.packages, id) {
        Some(p) => match p.repository {
            Some(raw) => match web_address(raw) {
                Some(url) => chars::starts_with(url, "https://github.com/"@) && archived.contains(
                    url,
                ),
                None => false,
            },
            None => false,
        },
        None => false,
    }
}

proof fn lemma_found(tree: Tree, archived: Seq<Seq<char>>, list: Seq<Seq<char>>, text: Seq<char>)
    ensures
        found(tree, archived, list).contains(text) <==> exists|i: int|
            0 <= i < list.len() && #[trigger] is_archived(tree, archived, list[i]) && text
                == finding(
                tree.packages,
                package(tree.packages, list[i])->0,
                way(starts(tree), tree.nodes, list[i]),
            ),
    decreases list.len(),
{
    if list.len() > 0 {
        let front = list.drop_last();
        let n = list.len() - 1;
        let id = list.last();
        let before = found(tree, archived, front);
        let all = found(tree, archived, list);
        lemma_found(tree, archived, front, text);
        if before.contains(text) {
            let i = choose|i: int|
                0 <= i < front.len() && #[trigger] is_archived(tree, archived, front[i]) && text
                    == finding(
                    tree.packages,
                    package(tree.packages, front[i])->0,
                    way(starts(tree), tree.nodes, front[i]),
                );
            assert(is_archived(tree, archived, list[i]));
            let k = choose|k: int| 0 <= k < before.len() && before[k] == text;
            assert(all[k] == text);
        }
        if is_archived(tree, archived, list[n]) {
            assert(all[all.len() - 1] == finding(
                tree.packages,
                package(tree.packages, id)->0,
                way(starts(tree), tree.nodes, id),
            ));
            if all.contains(text) && !before.contains(text) {
                let k = choose|k: int| 0 <= k < all.len() && all[k] == text;
                if k < before.len() {
                    assert(before[k] == text);
                }
            }
        } else {
            assert(all == before);
        }
        if exists|i: int|
            0 <= i < list.len() && #[trigger] is_archived(tree, archived, list[i]) && text
                == finding(
                tree.packages,
                package(tree.packages, list[i])->0,
                way(starts(tree), tree.nodes, list[i]),
            ) {
            let i = choose|i: int|
                0 <= i < list.len() && #[trigger] is_archived(tree, archived, list[i]) && text
                    == finding(
                    tree.packages,
                    package(tree.packages, list[i])->0,
                    way(starts(tree), tree.nodes, list[i]),
                );
            if i < n {
                assert(is_archived(tree, archived, front[i]));
            }
        }
    }
}

/// Every archived package is reported, with the way that leads to it from the members
/// of the workspace, or from all packages where there are none. Nothing else is.
pub proof fn law_archived_packages_are_reported(
    tree: Tree,
    archived: Seq<Seq<char>>,
    text: Seq<char>,
)
    ensures
        chars::sort(chars::distinct(found(tree, archived, ids(tree.packages)))).contains(text)
            <==> exists|i: int|
            #![trigger tree.packages[i]]
            0 <= i < tree.packages.len() && is_archived(tree, archived, tree.packages[i].id)
                && text == finding(
                tree.packages,
                package(tree.packages, tree.packages[i].id)->0,
                way(
                    if tree.workspace_members.len() == 0 {
                        ids(tree.packages)
                    } else {
                        tree.workspace_members
                    },
                    tree.nodes,
                    tree.packages[i].id,
                ),
            ),
{
    let list = ids(tree.packages);
    let names = tree.packages.map_values(|p: Pkg| p.id);
    let all = found(tree, archived, list);
    let once = chars::distinct(all);
    let r = chars::sort(once);
    lemma_found(tree, archived, list, text);
    chars::lemma_distinct(names);
    chars::lemma_distinct(all);
    chars::lemma_sort(once);
    once.to_multiset_ensures();
    r.to_multiset_ensures();
    assert(once.contains(text) <==> once.to_multiset().count(text) > 0);
    assert(r.contains(text) <==> r.to_multiset().count(text) > 0);
    if all.contains(text) {
        let k = choose|k: int|
            0 <= k < list.len() && #[trigger] is_archived(tree, archived, list[k]) && text
                == finding(
                tree.packages,
                package(tree.packages, list[k])->0,
                way(starts(tree), tree.nodes, list[k]),
            );
        assert(list.contains(list[k]));
        assert(names.contains(list[k]));
        let i = choose|i: int| 0 <= i < names.len() && names[i] == list[k];
        assert(tree.packages[i].id == list[k]);
    }
    if exists|i: int|
        #![trigger tree.packages[i]]
        0 <= i < tree.packages.len() && is_archived(tree, archived, tree.packages[i].id) && text
            == finding(
            tree.packages,
            package(tree.packages, tree.packages[i].id)->0,
            way(starts(tree), tree.nodes, tree.packages[i].id),
        ) {
        let i = choose|i: int|
            #![trigger tree.packages[i]]
            0 <= i < tree.packages.len() && is_archived(tree, archived, tree.packages[i].id)
                && text == finding(
                tree.packages,
                package(tree.packages, tree.packages[i].id)->0,
                way(starts(tree), tree.nodes, tree.packages[i].id),
            );
        let id = tree.packages[i].id;
        assert(names[i] == id);
        assert(names.contains(id));
        assert(list.contains(id));
        let k = choose|k: int| 0 <= k < list.len() && list[k] == id;
        assert(is_archived(tree, archived, list[k]));
    }
}

/// What a finding says: the package and its version, and the names of the packages on
/// the way to it.
pub proof fn law_finding(items: Seq<Pkg>, p: Pkg, list: Seq<Seq<char>>)
    ensures
        finding(items, p, None) == "Archived crate detected: "@ + p.name + " "@ + p.version
            + " (path unavailable)"@,
        finding(items, p, Some(list)) == "Archived crate detected: "@ + p.name + " "@ + p.version
            + " via "@ + chars::join(
            Seq::new(
                list.len(),
                |i: int|
                    if package(items, list[i]) is Some {
                        package(items, list[i])->0.name
                    } else {
                        "unknown"@
                    },
            ),
            " -> "@,
        ),
{
    let a = list.map_values(|id: Seq<char>| name_of(items, id));
    let b = Seq::new(
        list.len(),
        |i: int|
            if package(items, list[i]) is Some {
                package(items, list[i])->0.name
            } else {
                "unknown"@
            },
    );
    assert(a =~= b);
}

/// The repositories that are asked about are those of the packages that are on GitHub,
/// each once.
pub proof fn law_repositories(items: Seq<Pkg>, url: Seq<char>)
    ensures
        chars::distinct(addresses(items, ids(items))).no_duplicates(),
        chars::distinct(addresses(items, ids(items))).contains(url) <==> exists|i: int|
            #![trigger items[i]]
            0 <= i < items.len() && {
                let p = package(items, items[i].id)->0;
                &&& p.repository is Some
                &&& web_address(p.repository->0) == Some(url)
                &&& chars::starts_with(url, "https://github.com/"@)
            },
{
    let list = ids(items);
    let names = items.map_values(|p: Pkg| p.id);
    chars::lemma_distinct(names);
    chars::lemma_distinct(addresses(items, list));
    lemma_addresses(items, list, url);
    assert forall|i: int| 0 <= i < items.len() implies package(
        items,
        (#[trigger] items[i]).id,
    ) is Some by {
        law_last_package_counts(items, items[i].id);
    }
    if addresses(items, list).contains(url) {
        let k = choose|k: int| 0 <= k < list.len() && #[trigger] address(items, list[k]) == Some(url);
        assert(list.contains(list[k]));
        let i = choose|i: int| 0 <= i < names.len() && names[i] == list[k];
        assert(items[i].id == list[k]);
    }
    if exists|i: int|
        #![trigger items[i]]
        0 <= i < items.len() && {
            let p = package(items, items[i].id)->0;
            &&& p.repository is Some
            &&& web_address(p.repository->0) == Some(url)
            &&& chars::starts_with(url, "https://github.com/"@)
        } {
        let i = choose|i: int|
            #![trigger items[i]]
            0 <= i < items.len() && {
                let p = package(items, items[i].id)->0;
                &&& p.repository is Some
                &&& web_address(p.repository->0) == Some(url)
                &&& chars::starts_with(url, "https://github.com/"@)
            };
        assert(names[i] == items[i].id);
        assert(names.contains(items[i].id));
        assert(list.contains(items[i].id));
        let k = choose|k: int| 0 <= k < list.len() && list[k] == items[i].id;
        assert(address(items, list[k]) == Some(url));
    }
}

proof fn lemma_addresses(items: Seq<Pkg>, list: Seq<Seq<char>>, url: Seq<char>)
    ensures
        addresses(items, list).contains(url) <==> exists|k: int|
            0 <= k < list.len() && #[trigger] address(items, list[k]) == Some(url),
    decreases list.len(),
{
    if list.len() > 0 {
        let front = list.drop_last();
        let before = addresses(items, front);
        let all = addresses(items, list);
        let n = list.len() - 1;
        lemma_addresses(items, front, url);
        if before.contains(url) {
            let k = choose|k: int|
                0 <= k < front.len() && #[trigger] address(items, front[k]) == Some(url);
            assert(address(items, list[k]) == Some(url));
            let x = choose|x: int| 0 <= x < before.len() && before[x] == url;
            assert(all[x] == url);
        }
        if let Some(last) = address(items, list.last()) {
            assert(all[all.len() - 1] == last);
            if all.contains(url) && !before.contains(url) {
                let x = choose|x: int| 0 <= x < all.len() && all[x] == url;
                if x < before.len() {
                    assert(before[x] == url);
                }
                assert(address(items, list[n]) == Some(url));
            }
        }
        if exists|k: int| 0 <= k < list.len() && #[trigger] address(items, list[k]) == Some(url) {
            let k = choose|k: int|
                0 <= k < list.len() && #[trigger] address(items, list[k]) == Some(url);
            if k < n {
                assert(address(items, front[k]) == Some(url));
            }
        }
    }
}

} // verus!
