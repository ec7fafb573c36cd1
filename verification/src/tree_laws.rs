//! What holds of the forest that `build_forest` hands back: it holds
//! exactly the rows that hang on a root, each once, and depends on the rows
//! alone.

use vstd::prelude::*;
use crate::tree::{
    ids_distinct, is_forest, is_subtree, lemma_rows_under, lemma_rows_under_rise, rows_under, Node,
    NodeLink,
};

verus! {

/// The node of `forest` at `path`: the first entry of the path picks a
/// tree of the forest, each further entry a child of the node before.
pub open spec fn node_at(forest: Seq<Node>, path: Seq<int>) -> Option<Node>
    decreases path.len(),
{
    if path.len() == 0 {
        None
    } else if path.len() == 1 {
        if 0 <= path[0] < forest.len() {
            Some(forest[path[0]])
        } else {
            None
        }
    } else {
        match node_at(forest, path.drop_last()) {
            Some(above) => if 0 <= path.last() < above.children@.len() {
                Some(above.children@[path.last()])
            } else {
                None
            },
            None => None,
        }
    }
}

/// The id under which the node at `path` hangs: that of the node one step
/// up the path, or `None` for a tree of the forest.
pub open spec fn parent_at(forest: Seq<Node>, path: Seq<int>) -> Option<u128> {
    if path.len() <= 1 {
        None
    } else {
        match node_at(forest, path.drop_last()) {
            Some(above) => Some(above.id),
            None => None,
        }
    }
}

/// The node at `path` has the id and the parent of `link`.
pub open spec fn holds_link_at(forest: Seq<Node>, path: Seq<int>, link: NodeLink) -> bool {
    &&& node_at(forest, path) is Some
    &&& node_at(forest, path)->0.id == link.id
    &&& parent_at(forest, path) == link.parent_id
}

/// The forest holds a node with the id and the parent of `link`.
pub open spec fn forest_has_link(forest: Seq<Node>, link: NodeLink) -> bool {
    exists|path: Seq<int>| holds_link_at(forest, path, link)
}

/// The chain of parents from row `r` ends at a root after at most `steps`
/// steps.
pub open spec fn reaches_root(links: Seq<NodeLink>, r: int, steps: nat) -> bool
    decreases steps,
{
    0 <= r < links.len() && (links[r].parent_id is None || (steps > 0 && exists|p: int|
        0 <= p < links.len() && (#[trigger] links[p]).id == links[r].parent_id->0 && reaches_root(
            links,
            p,
            (steps - 1) as nat,
        )))
}

/// Row `r` hangs on a root: its chain of parents ends at one.
pub open spec fn rooted(links: Seq<NodeLink>, r: int) -> bool {
    exists|steps: nat| reaches_root(links, r, steps)
}

/// What the forest holds was stored: the node at a path is the subtree of a
/// row that hangs on a root. The row has the node's id, its parent is the
/// id one step up the path, and the path's last entry is the row's place
/// among the rows with that parent.
pub proof fn lemma_node_is_a_rooted_row(
    links: Seq<NodeLink>,
    forest: Seq<Node>,
    path: Seq<int>,
) -> (row: int)
    requires
        links.len() <= usize::MAX,
        is_forest(links, forest),
        node_at(forest, path) is Some,
    ensures
        0 <= row < links.len(),
        holds_link_at(forest, path, links[row]),
        is_subtree(links, node_at(forest, path)->0),
        reaches_root(links, row, (path.len() - 1) as nat),
        rooted(links, row),
        0 <= path.last() < rows_under(links, parent_at(forest, path), links.len() as int).len(),
        rows_under(links, parent_at(forest, path), links.len() as int)[path.last()] == row,
    decreases path.len(),
{
    let row = if path.len() == 1 {
        lemma_rows_under(links, None, links.len() as int);
        rows_under(links, None, links.len() as int)[path[0]] as int
    } else {
        let above_row = lemma_node_is_a_rooted_row(links, forest, path.drop_last());
        let above = node_at(forest, path.drop_last())->0;
        lemma_rows_under(links, Some(above.id), links.len() as int);
        assert(is_subtree(links, above.children@[path.last()]));
        let row = rows_under(links, Some(above.id), links.len() as int)[path.last()] as int;
        assert(links[above_row].id == links[row].parent_id->0);
        row
    };
    assert(reaches_root(links, row, (path.len() - 1) as nat));
    row
}

/// What was stored on a root is in the forest: for a row whose chain of
/// parents ends at a root after `steps` steps, there is a path to a node
/// with the row's id under the row's parent.
pub proof fn lemma_rooted_row_is_held(
    links: Seq<NodeLink>,
    forest: Seq<Node>,
    r: int,
    steps: nat,
) -> (path: Seq<int>)
    requires
        links.len() <= usize::MAX,
        is_forest(links, forest),
        reaches_root(links, r, steps),
    ensures
        holds_link_at(forest, path, links[r]),
    decreases steps,
{
    if links[r].parent_id is None {
        let rows = rows_under(links, None, links.len() as int);
        lemma_rows_under(links, None, links.len() as int);
        let t = choose|t: int| 0 <= t < rows.len() && #[trigger] rows[t] == r;
        seq![t]
    } else {
        let p = choose|p: int|
            0 <= p < links.len() && (#[trigger] links[p]).id == links[r].parent_id->0
                && reaches_root(links, p, (steps - 1) as nat);
        let above_path = lemma_rooted_row_is_held(links, forest, p, (steps - 1) as nat);
        let above = node_at(forest, above_path)->0;
        lemma_node_is_a_rooted_row(links, forest, above_path);
        let rows = rows_under(links, Some(above.id), links.len() as int);
        lemma_rows_under(links, Some(above.id), links.len() as int);
        let i = choose|i: int| 0 <= i < rows.len() && #[trigger] rows[i] == r;
        let path = above_path.push(i);
        assert(path.drop_last() =~= above_path);
        assert(above.children@[i].id == links[rows[i] as int].id);
        path
    }
}

/// Tree reconstruction: where every row's chain of parents ends at a root,
/// the forest holds exactly what was stored. A pair of id and parent is in
/// the forest if and only if it is a row.
pub proof fn lemma_forest_is_the_rows(links: Seq<NodeLink>, forest: Seq<Node>, link: NodeLink)
    requires
        links.len() <= usize::MAX,
        is_forest(links, forest),
        forall|r: int| 0 <= r < links.len() ==> rooted(links, r),
    ensures
        forest_has_link(forest, link) <==> links.contains(link),
{
    if forest_has_link(forest, link) {
        let path = choose|path: Seq<int>| holds_link_at(forest, path, link);
        let row = lemma_node_is_a_rooted_row(links, forest, path);
        assert(links[row] == link);
    }
    if links.contains(link) {
        let r = choose|r: int| 0 <= r < links.len() && links[r] == link;
        assert(rooted(links, r));
        let steps = choose|steps: nat| reaches_root(links, r, steps);
        let path = lemma_rooted_row_is_held(links, forest, r, steps);
    }
}

/// An id that no row has leaves no trace in the forest: no node of the
/// forest has it, and none hangs under it. So when a row is gone from the
/// store, the rows that hung on it are gone from the forest with it.
pub proof fn lemma_absent_id_leaves_no_trace(
    links: Seq<NodeLink>,
    forest: Seq<Node>,
    gone: u128,
    path: Seq<int>,
)
    requires
        links.len() <= usize::MAX,
        is_forest(links, forest),
        forall|r: int| 0 <= r < links.len() ==> (#[trigger] links[r]).id != gone,
        node_at(forest, path) is Some,
    ensures
        node_at(forest, path)->0.id != gone,
        parent_at(forest, path) != Some(gone),
{
    let row = lemma_node_is_a_rooted_row(links, forest, path);
    if path.len() > 1 {
        let above_row = lemma_node_is_a_rooted_row(links, forest, path.drop_last());
    }
}

/// No pad occurs twice in the forest: two paths that lead to nodes with the
/// same id are the same path.
pub proof fn lemma_forest_has_no_id_twice(
    links: Seq<NodeLink>,
    forest: Seq<Node>,
    first: Seq<int>,
    second: Seq<int>,
)
    requires
        links.len() <= usize::MAX,
        ids_distinct(links),
        is_forest(links, forest),
        node_at(forest, first) is Some,
        node_at(forest, second) is Some,
        node_at(forest, first)->0.id == node_at(forest, second)->0.id,
    ensures
        first == second,
    decreases first.len(),
{
    let first_row = lemma_node_is_a_rooted_row(links, forest, first);
    let second_row = lemma_node_is_a_rooted_row(links, forest, second);
    assert(links[first_row].id == links[second_row].id);
    assert(first_row == second_row);
    let parent = parent_at(forest, first);
    assert(parent == parent_at(forest, second));
    lemma_rows_under_rise(links, parent, links.len() as int);
    assert(first.last() == second.last()) by {
        let rows = rows_under(links, parent, links.len() as int);
        if first.last() < second.last() {
            assert(rows[first.last()] < rows[second.last()]);
        }
        if second.last() < first.last() {
            assert(rows[second.last()] < rows[first.last()]);
        }
    }
    if first.len() == 1 {
        assert(second.len() == 1);
        assert(first =~= second);
    } else {
        assert(second.len() > 1);
        lemma_forest_has_no_id_twice(links, forest, first.drop_last(), second.drop_last());
        assert(first =~= first.drop_last().push(first.last()));
        assert(second =~= second.drop_last().push(second.last()));
    }
}

/// Two trees have the same ids in the same places.
pub open spec fn same_tree(a: Node, b: Node) -> bool
    decreases a,
{
    &&& a.id == b.id
    &&& a.children@.len() == b.children@.len()
    &&& forall|i: int|
        0 <= i < a.children@.len() ==> same_tree(#[trigger] a.children@[i], b.children@[i])
}

/// Two forests have the same trees in the same order.
pub open spec fn same_forest(a: Seq<Node>, b: Seq<Node>) -> bool {
    &&& a.len() == b.len()
    &&& forall|i: int| 0 <= i < a.len() ==> same_tree(#[trigger] a[i], b[i])
}

/// Two subtrees of one id over the same rows are the same tree.
proof fn lemma_subtree_is_unique(links: Seq<NodeLink>, a: Node, b: Node)
    requires
        is_subtree(links, a),
        is_subtree(links, b),
        a.id == b.id,
    ensures
        same_tree(a, b),
    decreases a,
{
    assert forall|i: int| 0 <= i < a.children@.len() implies same_tree(
        #[trigger] a.children@[i],
        b.children@[i],
    ) by {
        assert(is_subtree(links, a.children@[i]));
        assert(is_subtree(links, b.children@[i]));
        lemma_subtree_is_unique(links, a.children@[i], b.children@[i]);
    }
}

/// The forest depends on the rows alone: rebuilt from the same rows it is
/// the same forest again.
pub proof fn lemma_forest_is_unique(links: Seq<NodeLink>, first: Seq<Node>, second: Seq<Node>)
    requires
        is_forest(links, first),
        is_forest(links, second),
    ensures
        same_forest(first, second),
{
    assert forall|i: int| 0 <= i < first.len() implies same_tree(#[trigger] first[i], second[i]) by {
        assert(is_subtree(links, first[i]));
        assert(is_subtree(links, second[i]));
        lemma_subtree_is_unique(links, first[i], second[i]);
    }
}

} // verus!
