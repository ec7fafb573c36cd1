//! Rebuilding the node forest from the flat rows of the store.
//!
//! Every row names its own id and, unless it is a root, the id of its
//! parent. The forest is built without recursion and in one pass for each
//! step: the rows are grouped by their parent; a walk down from the roots
//! with an explicit stack notes the order in which the rows are met; and
//! that order is gone through backwards, so that a row's children are
//! complete before the row itself is put together.

use vstd::prelude::*;
use std::collections::HashMap;
use crate::error::Error;

verus! {

/// The structural part of a stored row: its id and its parent's id.
#[derive(Clone, Copy, Debug, PartialEq, Eq, Structural)]
pub struct NodeLink {
    pub id: u128,
    pub parent_id: Option<u128>,
}

/// A pad as a vertex of the forest.
#[derive(Debug)]
pub struct Node {
    pub id: u128,
    pub children: Vec<Node>,
}

/// The forest of all pads: the nodes without a parent, each with its subtree.
#[derive(Debug)]
pub struct NodeTree {
    pub nodes: Vec<Node>,
}

impl Node {
    /// A node without children.
    pub fn new(id: u128) -> (r: Self)
        ensures
            r.id == id,
            r.children@ == Seq::<Node>::empty(),
    {
        Node { id, children: Vec::new() }
    }
}

impl NodeTree {
    /// The empty forest.
    pub fn new() -> (r: Self)
        ensures
            r.nodes@ == Seq::<Node>::empty(),
    {
        NodeTree { nodes: Vec::new() }
    }
}

/// No id occurs in two rows.
pub open spec fn ids_distinct(links: Seq<NodeLink>) -> bool {
    forall|i: int, j: int|
        0 <= i < links.len() && 0 <= j < links.len() && i != j ==> (#[trigger] links[i]).id != (
        #[trigger] links[j]).id
}

/// The rows among the first `upto` whose parent is `parent`, in row order.
/// With `None` for `parent` these are the roots.
pub open spec fn rows_under(links: Seq<NodeLink>, parent: Option<u128>, upto: int) -> Seq<usize>
    decreases upto,
{
    if upto <= 0 {
        Seq::empty()
    } else if links[upto - 1].parent_id == parent {
        rows_under(links, parent, upto - 1).push((upto - 1) as usize)
    } else {
        rows_under(links, parent, upto - 1)
    }
}

/// `node` is the subtree of its id: its children are the rows whose parent
/// it is, in row order, and each child is the subtree of its own id.
pub open spec fn is_subtree(links: Seq<NodeLink>, node: Node) -> bool
    decreases node,
{
    let rows = rows_under(links, Some(node.id), links.len() as int);
    &&& node.children@.len() == rows.len()
    &&& forall|i: int|
        0 <= i < node.children@.len() ==> {
            &&& (#[trigger] node.children@[i]).id == links[rows[i] as int].id
            &&& is_subtree(links, node.children@[i])
        }
}

/// `forest` is the forest of `links`: its trees are the subtrees of the
/// roots, in row order.
pub open spec fn is_forest(links: Seq<NodeLink>, forest: Seq<Node>) -> bool {
    let rows = rows_under(links, None, links.len() as int);
    &&& forest.len() == rows.len()
    &&& forall|i: int|
        0 <= i < forest.len() ==> {
            &&& (#[trigger] forest[i]).id == links[rows[i] as int].id
            &&& is_subtree(links, forest[i])
        }
}

/// `rows_under` lists exactly the rows with the given parent.
pub proof fn lemma_rows_under(links: Seq<NodeLink>, parent: Option<u128>, upto: int)
    requires
        0 <= upto <= links.len() <= usize::MAX,
    ensures
        forall|i: int|
            0 <= i < rows_under(links, parent, upto).len() ==> {
                &&& (#[trigger] rows_under(links, parent, upto)[i]) < upto
                &&& links[rows_under(links, parent, upto)[i] as int].parent_id == parent
            },
        forall|r: int|
            0 <= r < upto && (#[trigger] links[r]).parent_id == parent ==> exists|i: int|
                0 <= i < rows_under(links, parent, upto).len() && #[trigger] rows_under(
                    links,
                    parent,
                    upto,
                )[i] == r,
    decreases upto,
{
    if upto > 0 {
        lemma_rows_under(links, parent, upto - 1);
        let before = rows_under(links, parent, upto - 1);
        let rows = rows_under(links, parent, upto);
        assert forall|r: int| 0 <= r < upto && (#[trigger] links[r]).parent_id == parent implies exists|
            i: int,
        | 0 <= i < rows.len() && #[trigger] rows[i] == r by {
            if r < upto - 1 {
                let i = choose|i: int| 0 <= i < before.len() && #[trigger] before[i] == r;
                assert(rows[i] == r);
            } else {
                assert(rows[rows.len() - 1] == r);
            }
        }
    }
}

/// `rows_under` lists its rows in rising order.
pub proof fn lemma_rows_under_rise(links: Seq<NodeLink>, parent: Option<u128>, upto: int)
    requires
        0 <= upto <= links.len() <= usize::MAX,
    ensures
        forall|i: int, j: int|
            0 <= i < j < rows_under(links, parent, upto).len() ==> (#[trigger] rows_under(
                links,
                parent,
                upto,
            )[i]) < (#[trigger] rows_under(links, parent, upto)[j]),
    decreases upto,
{
    if upto > 0 {
        lemma_rows_under_rise(links, parent, upto - 1);
        lemma_rows_under(links, parent, upto - 1);
    }
}

/// Row `x` is a root, or its parent is one of the first `m` rows of `order`.
spec fn parent_before(links: Seq<NodeLink>, order: Seq<usize>, x: usize, m: int) -> bool {
    links[x as int].parent_id is None || exists|k: int|
        0 <= k < m && links[(#[trigger] order[k]) as int].id == links[x as int].parent_id->0
}

/// `order` lists rows of `links`, none twice, each after its parent; it
/// holds every root and, with a row, every row whose parent that row is.
spec fn is_visit_order(links: Seq<NodeLink>, order: Seq<usize>) -> bool {
    &&& forall|k: int| 0 <= k < order.len() ==> (#[trigger] order[k]) < links.len()
    &&& order.no_duplicates()
    &&& forall|m: int| 0 <= m < order.len() ==> parent_before(links, order, #[trigger] order[m], m)
    &&& forall|r: usize|
        r < links.len() && (#[trigger] links[r as int]).parent_id is None ==> order.contains(r)
    &&& forall|k: int, c: usize|
        0 <= k < order.len() && c < links.len() && (#[trigger] links[c as int]).parent_id == Some(
            links[(#[trigger] order[k]) as int].id,
        ) ==> order.contains(c)
}

/// A list of numbers below `n`, none twice, has at most `n` entries.
proof fn lemma_distinct_bounded(s: Seq<usize>, n: nat)
    requires
        s.no_duplicates(),
        forall|k: int| 0 <= k < s.len() ==> (#[trigger] s[k]) < n,
    ensures
        s.len() <= n,
    decreases n,
{
    if n == 0 {
        if s.len() > 0 {
            assert(s[0] < n);
        }
    } else if exists|p: int| 0 <= p < s.len() && s[p] == n - 1 {
        let p = choose|p: int| 0 <= p < s.len() && s[p] == n - 1;
        let rest = s.remove(p);
        assert forall|k: int| 0 <= k < rest.len() implies (#[trigger] rest[k]) < n - 1 by {
            let from = if k < p {
                k
            } else {
                k + 1
            };
            assert(rest[k] == s[from]);
            assert(s[from] < n);
        }
        assert forall|a: int, b: int| 0 <= a < rest.len() && 0 <= b < rest.len() && a != b implies rest[a]
            != rest[b] by {
            let fa = if a < p {
                a
            } else {
                a + 1
            };
            let fb = if b < p {
                b
            } else {
                b + 1
            };
            assert(rest[a] == s[fa] && rest[b] == s[fb]);
        }
        lemma_distinct_bounded(rest, (n - 1) as nat);
    } else {
        assert forall|k: int| 0 <= k < s.len() implies (#[trigger] s[k]) < n - 1 by {
            assert(s[k] < n);
        }
        lemma_distinct_bounded(s, (n - 1) as nat);
    }
}

/// What holds while the rows are walked: `order` are the rows met and done
/// with, `stack` those met and waiting. The first `closed` rows of `order`
/// have all their children among the rows met.
spec fn walking(links: Seq<NodeLink>, order: Seq<usize>, stack: Seq<usize>, closed: int) -> bool {
    &&& forall|k: int| 0 <= k < order.len() ==> (#[trigger] order[k]) < links.len()
    &&& forall|s: int| 0 <= s < stack.len() ==> (#[trigger] stack[s]) < links.len()
    &&& order.no_duplicates()
    &&& stack.no_duplicates()
    &&& forall|k: int, s: int|
        0 <= k < order.len() && 0 <= s < stack.len() ==> (#[trigger] order[k]) != (
        #[trigger] stack[s])
    &&& forall|m: int| 0 <= m < order.len() ==> parent_before(links, order, #[trigger] order[m], m)
    &&& forall|s: int|
        0 <= s < stack.len() ==> parent_before(
            links,
            order,
            #[trigger] stack[s],
            order.len() as int,
        )
    &&& forall|r: usize|
        r < links.len() && (#[trigger] links[r as int]).parent_id is None ==> order.contains(r)
            || stack.contains(r)
    &&& forall|k: int, c: usize|
        0 <= k < closed && c < links.len() && (#[trigger] links[c as int]).parent_id == Some(
            links[(#[trigger] order[k]) as int].id,
        ) ==> order.contains(c) || stack.contains(c)
}

/// What was met stays met when a row is added to the waiting ones.
proof fn lemma_push_keeps(stack: Seq<usize>, x: usize)
    ensures
        stack.push(x).contains(x),
        forall|c: usize| stack.contains(c) ==> #[trigger] stack.push(x).contains(c),
{
    assert(stack.push(x)[stack.len() as int] == x);
    assert forall|c: usize| stack.contains(c) implies #[trigger] stack.push(x).contains(c) by {
        let i = choose|i: int| 0 <= i < stack.len() && stack[i] == c;
        assert(stack.push(x)[i] == c);
    }
}

/// What was met stays met when the last waiting row moves to the rows done.
proof fn lemma_move_keeps(order: Seq<usize>, stack: Seq<usize>)
    requires
        stack.len() > 0,
    ensures
        forall|c: usize|
            order.contains(c) || stack.contains(c) ==> #[trigger] order.push(stack.last()).contains(
                c,
            ) || stack.drop_last().contains(c),
{
    let cur = stack.last();
    lemma_push_keeps(order, cur);
    assert forall|c: usize| order.contains(c) || stack.contains(c) implies #[trigger] order.push(
        cur,
    ).contains(c) || stack.drop_last().contains(c) by {
        if !order.contains(c) && c != cur {
            let i = choose|i: int| 0 <= i < stack.len() && stack[i] == c;
            assert(stack.drop_last()[i] == c);
        }
    }
}

/// Walks down from the roots and lists the rows in the order in which they
/// are met.
fn visit_order(links: &[NodeLink], kinship: &Kinship) -> (order: Vec<usize>)
    requires
        ids_distinct(links@),
        groups(links@, *kinship, links@.len() as int),
    ensures
        is_visit_order(links@, order@),
{
    let n = links.len();
    let mut stack: Vec<usize> = kinship.roots.clone();
    proof {
        lemma_rows_under(links@, None, n as int);
        lemma_rows_under_rise(links@, None, n as int);
        assert forall|r: usize|
            r < links@.len() && (#[trigger] links@[r as int]).parent_id is None implies stack@.contains(
            r,
        ) by {
            let i = choose|i: int|
                0 <= i < stack@.len() && #[trigger] rows_under(links@, None, n as int)[i] == r as int;
            assert(stack@[i] == r);
        }
        assert forall|a: int, b: int|
            0 <= a < stack@.len() && 0 <= b < stack@.len() && a != b implies stack@[a]
            != stack@[b] by {
            if a < b {
                assert(stack@[a] < stack@[b]);
            } else {
                assert(stack@[b] < stack@[a]);
            }
        }
    }
    let mut order: Vec<usize> = Vec::new();
    while stack.len() > 0
        invariant
            n == links@.len(),
            ids_distinct(links@),
            groups(links@, *kinship, n as int),
            walking(links@, order@, stack@, order@.len() as int),
        decreases n - order@.len(),
    {
        proof {
            let seen = order@ + stack@;
            assert forall|a: int, b: int| 0 <= a < seen.len() && 0 <= b < seen.len() && a
                != b implies seen[a] != seen[b] by {
                if a < order@.len() && b < order@.len() {
                    assert(order@[a] != order@[b]);
                } else if a >= order@.len() && b >= order@.len() {
                    assert(stack@[a - order@.len()] != stack@[b - order@.len()]);
                } else if a < order@.len() {
                    assert(order@[a] != stack@[b - order@.len()]);
                } else {
                    assert(order@[b] != stack@[a - order@.len()]);
                }
            }
            assert forall|k: int| 0 <= k < seen.len() implies (#[trigger] seen[k]) < n by {
                if k < order@.len() {
                    assert(order@[k] < n);
                } else {
                    assert(stack@[k - order@.len()] < n);
                }
            }
            lemma_distinct_bounded(seen, n as nat);
        }
        let ghost order_before = order@;
        let ghost stack_before = stack@;
        let cur = stack.pop().unwrap();
        order.push(cur);
        let id = links[cur].id;
        proof {
            let last = stack_before.len() - 1;
            assert(stack_before[last] == cur);
            assert(stack@ =~= stack_before.drop_last());
            assert(order@ =~= order_before.push(stack_before.last()));
            lemma_move_keeps(order_before, stack_before);
            assert forall|c: usize|
                order_before.contains(c) || stack_before.contains(c) implies order@.contains(c)
                || stack@.contains(c) by {
                assert(order_before.push(stack_before.last()).contains(c)
                    || stack_before.drop_last().contains(c));
            }
            assert(parent_before(links@, order_before, cur, order_before.len() as int));
            assert forall|m: int| 0 <= m < order@.len() implies parent_before(
                links@,
                order@,
                #[trigger] order@[m],
                m,
            ) by {
                if m < order_before.len() {
                    assert(parent_before(links@, order_before, order_before[m], m));
                }
                if links@[order@[m] as int].parent_id is Some {
                    let k = choose|k: int|
                        0 <= k < m && links@[(#[trigger] order_before[k]) as int].id
                            == links@[order@[m] as int].parent_id->0;
                    assert(order@[k] == order_before[k]);
                }
            }
            assert forall|s: int| 0 <= s < stack@.len() implies parent_before(
                links@,
                order@,
                #[trigger] stack@[s],
                order@.len() as int,
            ) by {
                assert(stack@[s] == stack_before[s]);
                assert(parent_before(links@, order_before, stack_before[s], order_before.len() as int));
                if links@[stack@[s] as int].parent_id is Some {
                    let k = choose|k: int|
                        0 <= k < order_before.len() && links@[(#[trigger] order_before[k]) as int].id
                            == links@[stack@[s] as int].parent_id->0;
                    assert(order@[k] == order_before[k]);
                }
            }
            assert forall|k: int, s: int| 0 <= k < order@.len() && 0 <= s < stack@.len() implies (
            #[trigger] order@[k]) != (#[trigger] stack@[s]) by {
                assert(stack@[s] == stack_before[s]);
                if k < order_before.len() {
                    assert(order_before[k] != stack_before[s]);
                } else {
                    assert(stack_before[last] != stack_before[s]);
                }
            }
            assert forall|k: int, c: usize|
                0 <= k < order@.len() - 1 && c < links@.len() && (#[trigger] links@[c as int]).parent_id
                    == Some(links@[(#[trigger] order@[k]) as int].id) implies order@.contains(c)
                || stack@.contains(c) by {
                assert(order@[k] == order_before[k]);
                assert(order_before.contains(c) || stack_before.contains(c));
            }
            assert(walking(links@, order@, stack@, order@.len() - 1));
            // Nothing met so far has `cur` as its parent.
            assert forall|k: int| 0 <= k < order@.len() implies links@[(#[trigger] order@[k]) as int].parent_id
                != Some(id) by {
                if links@[order@[k] as int].parent_id == Some(id) {
                    let w = choose|w: int|
                        0 <= w < k && links@[(#[trigger] order@[w]) as int].id == id;
                    assert(links@[order@[w] as int].id == links@[cur as int].id);
                    assert(order@[w] == cur);
                    assert(order@[order@.len() - 1] == cur);
                }
            }
            assert forall|s: int| 0 <= s < stack@.len() implies links@[(#[trigger] stack@[s]) as int].parent_id
                != Some(id) by {
                if links@[stack@[s] as int].parent_id == Some(id) {
                    let w = choose|w: int|
                        0 <= w < order@.len() && links@[(#[trigger] order@[w]) as int].id == id;
                    assert(links@[order@[w] as int].id == links@[cur as int].id);
                    assert(order@[w] == cur);
                    assert(order@[order@.len() - 1] == cur);
                }
            }
        }
        let kids = &kinship.children[cur];
        let ghost rows = rows_under(links@, Some(id), n as int);
        let ghost mut bound: int = 0;
        proof {
            lemma_rows_under(links@, Some(id), n as int);
            lemma_rows_under_rise(links@, Some(id), n as int);
        }
        let mut k: usize = 0;
        while k < kids.len()
            invariant
                n == links@.len(),
                ids_distinct(links@),
                cur < n,
                id == links@[cur as int].id,
                kids@ == rows,
                rows == rows_under(links@, Some(id), n as int),
                k <= rows.len(),
                0 <= bound <= n,
                k == 0 ==> bound == 0,
                k > 0 ==> bound == rows[k - 1] + 1,
                forall|i: int|
                    0 <= i < rows.len() ==> (#[trigger] rows[i]) < n && links@[rows[i] as int].parent_id
                        == Some(id),
                forall|c: int|
                    0 <= c < n && (#[trigger] links@[c]).parent_id == Some(id) ==> exists|i: int|
                        0 <= i < rows.len() && #[trigger] rows[i] == c,
                forall|i: int, j: int|
                    0 <= i < j < rows.len() ==> (#[trigger] rows[i]) < (#[trigger] rows[j]),
                order@.len() >= 1,
                order@[order@.len() - 1] == cur,
                order@.len() == order_before.len() + 1,
                walking(links@, order@, stack@, order@.len() - 1),
                forall|k: int|
                    0 <= k < order@.len() ==> links@[(#[trigger] order@[k]) as int].parent_id != Some(
                        id,
                    ),
                forall|s: int|
                    0 <= s < stack@.len() && links@[(#[trigger] stack@[s]) as int].parent_id == Some(
                        id,
                    ) ==> stack@[s] < bound,
                forall|c: usize|
                    c < bound && (#[trigger] links@[c as int]).parent_id == Some(id) ==> stack@.contains(
                        c,
                    ),
            decreases rows.len() - k,
        {
            let j = kids[k];
            let ghost stack_old = stack@;
            proof {
                assert(j == rows[k as int]);
                if k > 0 {
                    assert(rows[k - 1] < rows[k as int]);
                }
                lemma_push_keeps(stack@, j);
            }
            stack.push(j);
            proof {
                assert forall|s: int| 0 <= s < stack@.len() implies parent_before(
                    links@,
                    order@,
                    #[trigger] stack@[s],
                    order@.len() as int,
                ) by {
                    if s < stack_old.len() {
                        assert(stack@[s] == stack_old[s]);
                        assert(parent_before(links@, order@, stack_old[s], order@.len() as int));
                    } else {
                        assert(links@[order@[order@.len() - 1] as int].id == id);
                    }
                }
                assert forall|a: int, b: int|
                    0 <= a < stack@.len() && 0 <= b < stack@.len() && a != b implies stack@[a]
                    != stack@[b] by {
                    if a < stack_old.len() {
                        assert(stack@[a] == stack_old[a]);
                    }
                    if b < stack_old.len() {
                        assert(stack@[b] == stack_old[b]);
                    }
                }
                assert forall|k: int, s: int|
                    0 <= k < order@.len() && 0 <= s < stack@.len() implies (#[trigger] order@[k])
                    != (#[trigger] stack@[s]) by {
                    if s < stack_old.len() {
                        assert(stack@[s] == stack_old[s]);
                    }
                }
                assert forall|s: int| 0 <= s < stack@.len() implies (#[trigger] stack@[s])
                    < links@.len() by {
                    if s < stack_old.len() {
                        assert(stack@[s] == stack_old[s]);
                    }
                }
                assert forall|s: int|
                    0 <= s < stack@.len() && links@[(#[trigger] stack@[s]) as int].parent_id == Some(
                        id,
                    ) implies stack@[s] < j + 1 by {
                    if s < stack_old.len() {
                        assert(stack@[s] == stack_old[s]);
                    }
                }
                assert forall|c: usize|
                    c < j + 1 && (#[trigger] links@[c as int]).parent_id == Some(
                        id,
                    ) implies stack@.contains(c) by {
                    if c < bound {
                        assert(stack_old.contains(c));
                    } else if c < j {
                        let i = choose|i: int| 0 <= i < rows.len() && #[trigger] rows[i] == c as int;
                        if i < k {
                            if i < k - 1 {
                                assert(rows[i] < rows[k - 1]);
                            }
                        } else if i > k {
                            assert(rows[k as int] < rows[i]);
                        }
                    }
                }
                assert(walking(links@, order@, stack@, order@.len() - 1));
                bound = j + 1;
            }
            k += 1;
        }
        proof {
            assert forall|c: usize|
                c < n && (#[trigger] links@[c as int]).parent_id == Some(id) implies stack@.contains(
                c,
            ) by {
                let i = choose|i: int| 0 <= i < rows.len() && #[trigger] rows[i] == c as int;
                if i < rows.len() - 1 {
                    assert(rows[i] < rows[rows.len() - 1]);
                }
            }
        }
        proof {
            assert forall|k: int, c: usize|
                0 <= k < order@.len() && c < links@.len() && (#[trigger] links@[c as int]).parent_id
                    == Some(links@[(#[trigger] order@[k]) as int].id) implies order@.contains(c)
                || stack@.contains(c) by {
                if k == order@.len() - 1 {
                    assert(stack@.contains(c));
                }
            }
        }
    }
    proof {
        assert forall|c: usize| !stack@.contains(c) by {
            if stack@.contains(c) {
                let i = choose|i: int| 0 <= i < stack@.len() && stack@[i] == c;
            }
        }
    }
    order
}

/// Row `c` is among the rows of `order` from position `m` on.
spec fn placed(order: Seq<usize>, m: int, c: usize) -> bool {
    exists|q: int| m <= q < order.len() && #[trigger] order[q] == c
}

/// The parent of row `c` is among the rows of `order` from position `m` on.
spec fn parent_placed(links: Seq<NodeLink>, order: Seq<usize>, m: int, c: usize) -> bool {
    links[c as int].parent_id is Some && exists|q: int|
        m <= q < order.len() && links[(#[trigger] order[q]) as int].id
            == links[c as int].parent_id->0
}

/// What holds while the forest grows from the end of `order`: a row's tree
/// lies ready exactly if the row has been put together and its parent has
/// not, and a tree that lies ready is the subtree of its row.
spec fn growing(links: Seq<NodeLink>, order: Seq<usize>, built: Seq<Option<Node>>, m: int) -> bool {
    &&& built.len() == links.len()
    &&& forall|c: usize|
        c < links.len() ==> {
            &&& (#[trigger] built[c as int]) is Some <==> placed(order, m, c) && !parent_placed(
                links,
                order,
                m,
                c,
            )
            &&& built[c as int] matches Some(node) ==> node.id == links[c as int].id && is_subtree(
                links,
                node,
            )
        }
}

/// In a visit order, the children of the row at position `at` stand behind it.
proof fn lemma_child_is_ready(links: Seq<NodeLink>, order: Seq<usize>, at: int, c: usize)
    requires
        ids_distinct(links),
        is_visit_order(links, order),
        0 <= at < order.len(),
        c < links.len(),
        links[c as int].parent_id == Some(links[order[at] as int].id),
    ensures
        placed(order, at + 1, c),
        !parent_placed(links, order, at + 1, c),
        c != order[at],
{
    let x = order[at];
    assert(order.contains(c));
    let q = choose|q: int| 0 <= q < order.len() && order[q] == c;
    assert(parent_before(links, order, order[q], q));
    let k = choose|k: int|
        0 <= k < q && links[(#[trigger] order[k]) as int].id == links[c as int].parent_id->0;
    assert(links[order[k] as int].id == links[x as int].id);
    assert(order[k] == x);
    assert(k == at);
    if parent_placed(links, order, at + 1, c) {
        let w = choose|w: int|
            at + 1 <= w < order.len() && links[(#[trigger] order[w]) as int].id
                == links[c as int].parent_id->0;
        assert(links[order[w] as int].id == links[x as int].id);
        assert(order[w] == x);
    }
}

/// In a visit order, the parent of the row at position `at` stands before it.
proof fn lemma_parent_is_earlier(links: Seq<NodeLink>, order: Seq<usize>, at: int)
    requires
        ids_distinct(links),
        is_visit_order(links, order),
        0 <= at < order.len(),
    ensures
        !parent_placed(links, order, at, order[at]),
        links[order[at] as int].parent_id != Some(links[order[at] as int].id),
{
    let x = order[at];
    assert(parent_before(links, order, order[at], at));
    if links[x as int].parent_id is Some {
        let k = choose|k: int|
            0 <= k < at && links[(#[trigger] order[k]) as int].id == links[x as int].parent_id->0;
        if parent_placed(links, order, at, x) {
            let w = choose|w: int|
                at <= w < order.len() && links[(#[trigger] order[w]) as int].id
                    == links[x as int].parent_id->0;
            assert(links[order[w] as int].id == links[order[k] as int].id);
            assert(order[w] == order[k]);
        }
        if links[x as int].parent_id == Some(links[x as int].id) {
            assert(links[order[k] as int].id == links[x as int].id);
            assert(order[k] == x);
        }
    }
}

/// Takes the trees of the rows `rows`, which are all the rows whose parent
/// is `parent`, out of `built`, in row order.
fn gather(
    links: &[NodeLink],
    built: &mut Vec<Option<Node>>,
    rows: &Vec<usize>,
    parent: Option<u128>,
) -> (kids: Vec<Node>)
    requires
        old(built)@.len() == links@.len(),
        rows@ == rows_under(links@, parent, links@.len() as int),
        forall|c: usize|
            c < links@.len() && links@[c as int].parent_id == parent ==> {
                &&& (#[trigger] old(built)@[c as int]) is Some
                &&& old(built)@[c as int]->0.id == links@[c as int].id
                &&& is_subtree(links@, old(built)@[c as int]->0)
            },
    ensures
        final(built)@.len() == links@.len(),
        forall|c: usize|
            c < links@.len() ==> #[trigger] final(built)@[c as int] == if links@[c as int].parent_id
                == parent {
                None
            } else {
                old(built)@[c as int]
            },
        kids@.len() == rows@.len(),
        forall|i: int|
            0 <= i < kids@.len() ==> {
                &&& (#[trigger] kids@[i]).id == links@[rows@[i] as int].id
                &&& is_subtree(links@, kids@[i])
            },
{
    let n = links.len();
    let mut kids: Vec<Node> = Vec::new();
    let ghost mut bound: int = 0;
    proof {
        lemma_rows_under(links@, parent, n as int);
        lemma_rows_under_rise(links@, parent, n as int);
    }
    let mut k: usize = 0;
    while k < rows.len()
        invariant
            n == links@.len(),
            k <= rows@.len(),
            built@.len() == n,
            0 <= bound <= n,
            k == 0 ==> bound == 0,
            k > 0 ==> bound == rows@[k - 1] + 1,
            old(built)@.len() == n,
            forall|i: int|
                0 <= i < rows@.len() ==> (#[trigger] rows@[i]) < n && links@[rows@[i] as int].parent_id
                    == parent,
            forall|c: int|
                0 <= c < n && (#[trigger] links@[c]).parent_id == parent ==> exists|i: int|
                    0 <= i < rows@.len() && #[trigger] rows@[i] == c,
            forall|i: int, j: int|
                0 <= i < j < rows@.len() ==> (#[trigger] rows@[i]) < (#[trigger] rows@[j]),
            forall|c: usize|
                c < n ==> #[trigger] built@[c as int] == if c < bound && links@[c as int].parent_id
                    == parent {
                    None
                } else {
                    old(built)@[c as int]
                },
            forall|c: usize|
                c < n && links@[c as int].parent_id == parent ==> {
                    &&& (#[trigger] old(built)@[c as int]) is Some
                    &&& old(built)@[c as int]->0.id == links@[c as int].id
                    &&& is_subtree(links@, old(built)@[c as int]->0)
                },
            kids@.len() == k,
            forall|i: int|
                0 <= i < kids@.len() ==> {
                    &&& (#[trigger] kids@[i]).id == links@[rows@[i] as int].id
                    &&& is_subtree(links@, kids@[i])
                },
        decreases rows@.len() - k,
    {
        let j = rows[k];
        let ghost kids_before = kids@;
        let ghost built_before = built@;
        proof {
            if k > 0 {
                assert(rows@[k - 1] < rows@[k as int]);
            }
            assert(built@[j as int] == old(built)@[j as int]);
        }
        let node = built[j].take().unwrap();
        kids.push(node);
        proof {
            assert forall|i: int| 0 <= i < kids@.len() implies {
                &&& (#[trigger] kids@[i]).id == links@[rows@[i] as int].id
                &&& is_subtree(links@, kids@[i])
            } by {
                if i < kids_before.len() {
                    assert(kids@[i] == kids_before[i]);
                }
            }
            assert forall|c: usize| c < n implies #[trigger] built@[c as int] == if c < j + 1
                && links@[c as int].parent_id == parent {
                None
            } else {
                old(built)@[c as int]
            } by {
                assert(built_before[c as int] == if c < bound && links@[c as int].parent_id
                    == parent {
                    None
                } else {
                    old(built)@[c as int]
                });
                if bound <= c < j && links@[c as int].parent_id == parent {
                    let i = choose|i: int| 0 <= i < rows@.len() && #[trigger] rows@[i] == c as int;
                    if i < k {
                        if i < k - 1 {
                            assert(rows@[i] < rows@[k - 1]);
                        }
                    } else if i > k {
                        assert(rows@[k as int] < rows@[i]);
                    }
                }
            }
            bound = j + 1;
        }
        k += 1;
    }
    proof {
        assert forall|c: usize| c < links@.len() implies #[trigger] built@[c as int]
            == if links@[c as int].parent_id == parent {
            None
        } else {
            old(built)@[c as int]
        } by {
            if links@[c as int].parent_id == parent {
                let i = choose|i: int| 0 <= i < rows@.len() && #[trigger] rows@[i] == c as int;
                if i < rows@.len() - 1 {
                    assert(rows@[i] < rows@[rows@.len() - 1]);
                }
            }
        }
    }
    kids
}

/// Puts the forest together from a visit order, going through it backwards.
fn grow_forest(links: &[NodeLink], kinship: &Kinship, order: &Vec<usize>) -> (forest: Vec<Node>)
    requires
        ids_distinct(links@),
        groups(links@, *kinship, links@.len() as int),
        is_visit_order(links@, order@),
    ensures
        is_forest(links@, forest@),
{
    let n = links.len();
    let mut built: Vec<Option<Node>> = Vec::new();
    let mut j: usize = 0;
    while j < n
        invariant
            j <= n,
            built@.len() == j,
            forall|c: int| 0 <= c < j ==> (#[trigger] built@[c]) is None,
        decreases n - j,
    {
        built.push(None);
        j += 1;
    }
    let mut m: usize = order.len();
    while m > 0
        invariant
            n == links@.len(),
            m <= order@.len(),
            ids_distinct(links@),
            groups(links@, *kinship, n as int),
            is_visit_order(links@, order@),
            growing(links@, order@, built@, m as int),
        decreases m,
    {
        m -= 1;
        let x = order[m];
        let id = links[x].id;
        let ghost before = built@;
        proof {
            lemma_parent_is_earlier(links@, order@, m as int);
            assert forall|c: usize|
                c < links@.len() && links@[c as int].parent_id == Some(id) implies {
                &&& (#[trigger] built@[c as int]) is Some
                &&& built@[c as int]->0.id == links@[c as int].id
                &&& is_subtree(links@, built@[c as int]->0)
            } by {
                lemma_child_is_ready(links@, order@, m as int, c);
            }
        }
        let children = gather(links, &mut built, &kinship.children[x], Some(id));
        let node = Node { id, children };
        assert(is_subtree(links@, node));
        let ghost gathered = built@;
        built[x] = Some(node);
        proof {
            assert forall|c: usize| c < links@.len() implies {
                &&& (#[trigger] built@[c as int]) is Some <==> placed(order@, m as int, c)
                    && !parent_placed(links@, order@, m as int, c)
                &&& built@[c as int] matches Some(node) ==> node.id == links@[c as int].id
                    && is_subtree(links@, node)
            } by {
                assert(gathered[c as int] == if links@[c as int].parent_id == Some(id) {
                    None
                } else {
                    before[c as int]
                });
                if c == x {
                    assert(order@[m as int] == c);
                } else if links@[c as int].parent_id == Some(id) {
                    assert(links@[order@[m as int] as int].id == links@[c as int].parent_id->0);
                } else {
                    assert(built@[c as int] == before[c as int]);
                    if placed(order@, m as int, c) {
                        let q = choose|q: int| m <= q < order@.len() && #[trigger] order@[q] == c;
                        assert(m + 1 <= q);
                    }
                    if placed(order@, m + 1, c) {
                        let q = choose|q: int|
                            m + 1 <= q < order@.len() && #[trigger] order@[q] == c;
                        assert(m <= q);
                    }
                    if parent_placed(links@, order@, m as int, c) {
                        let q = choose|q: int|
                            m <= q < order@.len() && links@[(#[trigger] order@[q]) as int].id
                                == links@[c as int].parent_id->0;
                        assert(m + 1 <= q);
                    }
                    if parent_placed(links@, order@, m + 1, c) {
                        let q = choose|q: int|
                            m + 1 <= q < order@.len() && links@[(#[trigger] order@[q]) as int].id
                                == links@[c as int].parent_id->0;
                        assert(m <= q);
                    }
                }
            }
        }
    }
    proof {
        assert forall|c: usize| c < links@.len() && links@[c as int].parent_id == None::<
            u128,
        > implies {
            &&& (#[trigger] built@[c as int]) is Some
            &&& built@[c as int]->0.id == links@[c as int].id
            &&& is_subtree(links@, built@[c as int]->0)
        } by {
            assert(order@.contains(c));
            let q = choose|q: int| 0 <= q < order@.len() && order@[q] == c;
            assert(placed(order@, 0, c));
        }
    }
    gather(links, &mut built, &kinship.roots, None)
}

/// `index` maps every id to its row.
spec fn is_index(links: Seq<NodeLink>, index: Map<u128, usize>) -> bool {
    &&& forall|r: int|
        0 <= r < links.len() ==> index.dom().contains((#[trigger] links[r]).id)
            && index[links[r].id] == r
    &&& forall|id: u128|
        index.dom().contains(id) ==> (#[trigger] index[id]) < links.len()
            && links[index[id] as int].id == id
}

/// Maps every id to its row, or finds an id in two rows.
fn index_rows(links: &[NodeLink]) -> (r: Option<HashMap<u128, usize>>)
    ensures
        match r {
            Some(index) => ids_distinct(links@) && is_index(links@, index@),
            None => !ids_distinct(links@),
        },
{
    let mut index: HashMap<u128, usize> = HashMap::new();
    let mut j: usize = 0;
    while j < links.len()
        invariant
            j <= links@.len(),
            ids_distinct(links@.take(j as int)),
            is_index(links@.take(j as int), index@),
        decreases links@.len() - j,
    {
        let ghost done = links@.take(j as int);
        let ghost next = links@.take(j + 1);
        let ghost before = index@;
        let id = links[j].id;
        if index.contains_key(&id) {
            proof {
                let a = before[id] as int;
                assert(done[a].id == id);
                assert(links@[a].id == links@[j as int].id);
            }
            return None;
        }
        index.insert(id, j);
        proof {
            assert forall|a: int, b: int|
                0 <= a < next.len() && 0 <= b < next.len() && a != b implies (#[trigger] next[a]).id
                != (#[trigger] next[b]).id by {
                if a < j && b < j {
                    assert(done[a].id != done[b].id);
                } else if a < j {
                    assert(before.dom().contains(done[a].id));
                } else if b < j {
                    assert(before.dom().contains(done[b].id));
                }
            }
            assert forall|r: int| 0 <= r < next.len() implies index@.dom().contains(
                (#[trigger] next[r]).id,
            ) && index@[next[r].id] == r by {
                if r < j {
                    assert(next[r] == done[r]);
                    assert(before.dom().contains(done[r].id));
                }
            }
            assert forall|other: u128| index@.dom().contains(other) implies (#[trigger] index@[other])
                < next.len() && next[index@[other] as int].id == other by {
                if other != id {
                    assert(before.dom().contains(other));
                    assert(done[before[other] as int] == next[before[other] as int]);
                }
            }
        }
        j += 1;
    }
    assert(links@.take(j as int) =~= links@);
    Some(index)
}

/// Whether no id occurs in two rows.
pub fn has_distinct_ids(links: &[NodeLink]) -> (r: bool)
    ensures
        r == ids_distinct(links@),
{
    index_rows(links).is_some()
}

/// The roots, and for every row the rows whose parent it is, each in row
/// order.
struct Kinship {
    roots: Vec<usize>,
    children: Vec<Vec<usize>>,
}

/// `kinship` groups the first `upto` rows by their parent.
spec fn groups(links: Seq<NodeLink>, kinship: Kinship, upto: int) -> bool {
    &&& kinship.roots@ == rows_under(links, None, upto)
    &&& kinship.children@.len() == links.len()
    &&& forall|r: int|
        0 <= r < links.len() ==> (#[trigger] kinship.children@[r])@ == rows_under(
            links,
            Some(links[r].id),
            upto,
        )
}

/// Groups the rows by their parent in one pass.
fn group_rows(links: &[NodeLink], index: &HashMap<u128, usize>) -> (kinship: Kinship)
    requires
        ids_distinct(links@),
        is_index(links@, index@),
    ensures
        groups(links@, kinship, links@.len() as int),
{
    let n = links.len();
    let mut roots: Vec<usize> = Vec::new();
    let mut children: Vec<Vec<usize>> = Vec::new();
    let mut r: usize = 0;
    while r < n
        invariant
            r <= n,
            n == links@.len(),
            children@.len() == r,
            forall|k: int| 0 <= k < r ==> (#[trigger] children@[k])@ == Seq::<usize>::empty(),
        decreases n - r,
    {
        children.push(Vec::new());
        r += 1;
    }
    let mut kinship = Kinship { roots, children };
    let mut j: usize = 0;
    while j < n
        invariant
            j <= n,
            n == links@.len(),
            ids_distinct(links@),
            is_index(links@, index@),
            groups(links@, kinship, j as int),
        decreases n - j,
    {
        let ghost before = kinship;
        match links[j].parent_id {
            None => {
                kinship.roots.push(j);
            },
            Some(parent) => {
                match index.get(&parent) {
                    Some(at) => {
                        let at = *at;
                        kinship.children[at].push(j);
                        proof {
                            assert forall|r: int| 0 <= r < links@.len() implies (
                            #[trigger] kinship.children@[r])@ == rows_under(
                                links@,
                                Some(links@[r].id),
                                j + 1,
                            ) by {
                                assert(before.children@[r]@ == rows_under(
                                    links@,
                                    Some(links@[r].id),
                                    j as int,
                                ));
                                if r != at {
                                    assert(links@[r].id != links@[at as int].id);
                                }
                            }
                        }
                    },
                    None => {
                        proof {
                            assert forall|r: int| 0 <= r < links@.len() implies links@[r].id
                                != parent by {
                                assert(index@.dom().contains(links@[r].id));
                            }
                        }
                    },
                }
            },
        }
        j += 1;
    }
    kinship
}

/// Rebuilds the forest from the rows of the store.
///
/// The ids must be distinct, as the store's primary key makes them; rows
/// that repeat an id are refused as a `StoreError`. A row whose chain of
/// parents does not end at a root is left out of the forest.
pub fn build_forest(links: &[NodeLink]) -> (r: Result<NodeTree, Error>)
    ensures
        match r {
            Ok(tree) => ids_distinct(links@) && is_forest(links@, tree.nodes@),
            Err(e) => e == Error::StoreError && !ids_distinct(links@),
        },
{
    let index = match index_rows(links) {
        Some(index) => index,
        None => {
            return Err(Error::StoreError);
        },
    };
    let kinship = group_rows(links, &index);
    let order = visit_order(links, &kinship);
    let nodes = grow_forest(links, &kinship, &order);
    Ok(NodeTree { nodes })
}

} // verus!
