use vstd::prelude::*;

verus! {

/// One node of the search tree. All nodes of a tree live in one arena
/// (a single vector), and the child and parent links are positions in it:
/// the children are owned exclusively in the sense that no other node links
/// to them, while the parent link is a plain back-reference that creates no
/// ownership cycle. A node is created only by insertion and its children are
/// always created after it, so every child position lies strictly above its
/// parent's.
#[derive(Debug, Clone, Copy)]
pub struct Node {
    pub data: u32,
    pub left: Option<usize>,
    pub right: Option<usize>,
    pub parent: Option<usize>,
}

/// A binary search tree over its elements' own values: the arena of nodes and
/// the position of the root, absent only when the tree is empty.
#[derive(Debug)]
pub struct BinarySearchTree {
    nodes: Vec<Node>,
    root: Option<usize>,
}

/// The link discipline of one arena position: children lie strictly above it
/// and carry a back-reference to it, the two children are distinct, and a
/// parent lies strictly below.
pub open spec fn node_links_ok(nodes: Seq<Node>, i: int) -> bool {
    &&& (nodes[i].left matches Some(l) ==> i < l < nodes.len() && nodes[l as int].parent == Some(
        i as usize,
    ))
    &&& (nodes[i].right matches Some(r) ==> i < r < nodes.len() && nodes[r as int].parent == Some(
        i as usize,
    ))
    &&& (nodes[i].left is Some ==> nodes[i].left != nodes[i].right)
    &&& (nodes[i].parent matches Some(p) ==> 0 <= p < i)
}

/// The link discipline over the whole arena.
pub open spec fn links_ok(nodes: Seq<Node>) -> bool {
    forall|i: int| #![trigger nodes[i]] 0 <= i < nodes.len() ==> node_links_ok(nodes, i)
}

/// The set of arena positions of the subtree rooted at position `i`.
pub open spec fn subtree_indices(nodes: Seq<Node>, i: int) -> Set<int>
    decreases nodes.len() - i,
{
    if 0 <= i < nodes.len() {
        let left_part = match nodes[i].left {
            Some(l) => if i < l < nodes.len() {
                subtree_indices(nodes, l as int)
            } else {
                Set::<int>::empty()
            },
            None => Set::<int>::empty(),
        };
        let right_part = match nodes[i].right {
            Some(r) => if i < r < nodes.len() {
                subtree_indices(nodes, r as int)
            } else {
                Set::<int>::empty()
            },
            None => Set::<int>::empty(),
        };
        left_part.union(right_part).insert(i)
    } else {
        Set::<int>::empty()
    }
}

/// The set of values held by the subtree rooted at position `i`.
pub open spec fn subtree_values(nodes: Seq<Node>, i: int) -> Set<u32>
    decreases nodes.len() - i,
{
    if 0 <= i < nodes.len() {
        let left_part = match nodes[i].left {
            Some(l) => if i < l < nodes.len() {
                subtree_values(nodes, l as int)
            } else {
                Set::<u32>::empty()
            },
            None => Set::<u32>::empty(),
        };
        let right_part = match nodes[i].right {
            Some(r) => if i < r < nodes.len() {
                subtree_values(nodes, r as int)
            } else {
                Set::<u32>::empty()
            },
            None => Set::<u32>::empty(),
        };
        left_part.union(right_part).insert(nodes[i].data)
    } else {
        Set::<u32>::empty()
    }
}

/// The search-tree order on the subtree rooted at `i`, with every value held
/// strictly between `lo` and `hi`: the left subtree lies below the node's
/// value and the right subtree above it, recursively.
pub open spec fn ordered_between(nodes: Seq<Node>, i: int, lo: int, hi: int) -> bool
    decreases nodes.len() - i,
{
    if 0 <= i < nodes.len() {
        &&& lo < nodes[i].data < hi
        &&& match nodes[i].left {
            Some(l) => i < l < nodes.len() && ordered_between(
                nodes,
                l as int,
                lo,
                nodes[i].data as int,
            ),
            None => true,
        }
        &&& match nodes[i].right {
            Some(r) => i < r < nodes.len() && ordered_between(
                nodes,
                r as int,
                nodes[i].data as int,
                hi,
            ),
            None => true,
        }
    } else {
        false
    }
}

/// Subtree positions lie between the subtree's root and the arena's end.
proof fn lemma_subtree_index_bounds(nodes: Seq<Node>, i: int)
    requires
        0 <= i < nodes.len(),
    ensures
        forall|j: int| #[trigger] subtree_indices(nodes, i).contains(j) ==> i <= j < nodes.len(),
    decreases nodes.len() - i,
{
    match nodes[i].left {
        Some(l) => {
            if i < l && (l as int) < nodes.len() {
                lemma_subtree_index_bounds(nodes, l as int);
            }
        },
        None => {},
    }
    match nodes[i].right {
        Some(r) => {
            if i < r && (r as int) < nodes.len() {
                lemma_subtree_index_bounds(nodes, r as int);
            }
        },
        None => {},
    }
    assert forall|j: int| #[trigger]
        subtree_indices(nodes, i).contains(j) implies i <= j < nodes.len() by {
        if j != i {
            let left_part = match nodes[i].left {
                Some(l) => if i < l < nodes.len() {
                    subtree_indices(nodes, l as int)
                } else {
                    Set::<int>::empty()
                },
                None => Set::<int>::empty(),
            };
            let right_part = match nodes[i].right {
                Some(r) => if i < r < nodes.len() {
                    subtree_indices(nodes, r as int)
                } else {
                    Set::<int>::empty()
                },
                None => Set::<int>::empty(),
            };
            assert(left_part.contains(j) || right_part.contains(j));
        }
    }
}

/// Two arenas that agree on the positions of a subtree give that subtree the
/// same positions, the same values and the same order.
proof fn lemma_subtree_frame(n1: Seq<Node>, n2: Seq<Node>, i: int)
    requires
        0 <= i < n1.len(),
        links_ok(n1),
        forall|j: int| #[trigger] subtree_indices(n1, i).contains(j) ==> 0 <= j < n2.len() && n2[j]
            == n1[j],
    ensures
        subtree_indices(n2, i) == subtree_indices(n1, i),
        subtree_values(n2, i) == subtree_values(n1, i),
        forall|lo: int, hi: int| #[trigger] ordered_between(n2, i, lo, hi) == ordered_between(
            n1,
            i,
            lo,
            hi,
        ),
    decreases n1.len() - i,
{
    assert(subtree_indices(n1, i).contains(i));
    let d = n1[i].data as int;
    match n1[i].left {
        Some(l) => {
            assert(node_links_ok(n1, i));
            assert(subtree_indices(n1, l as int).contains(l as int));
            assert forall|j: int| #[trigger]
                subtree_indices(n1, l as int).contains(j) implies subtree_indices(
                n1,
                i,
            ).contains(j) by {}
            lemma_subtree_frame(n1, n2, l as int);
        },
        None => {},
    }
    match n1[i].right {
        Some(r) => {
            assert(node_links_ok(n1, i));
            assert(subtree_indices(n1, r as int).contains(r as int));
            assert forall|j: int| #[trigger]
                subtree_indices(n1, r as int).contains(j) implies subtree_indices(
                n1,
                i,
            ).contains(j) by {}
            lemma_subtree_frame(n1, n2, r as int);
        },
        None => {},
    }
    assert(subtree_indices(n2, i) =~= subtree_indices(n1, i));
    assert(subtree_values(n2, i) =~= subtree_values(n1, i));
    assert forall|lo: int, hi: int| #[trigger]
        ordered_between(n2, i, lo, hi) == ordered_between(n1, i, lo, hi) by {
        match n1[i].left {
            Some(l) => {
                assert(ordered_between(n2, l as int, lo, d) == ordered_between(n1, l as int, lo, d));
            },
            None => {},
        }
        match n1[i].right {
            Some(r) => {
                assert(ordered_between(n2, r as int, d, hi) == ordered_between(n1, r as int, d, hi));
            },
            None => {},
        }
    }
}

/// Every subtree position other than the root is linked to by a position of
/// the same subtree.
proof fn lemma_subtree_member_has_parent(nodes: Seq<Node>, i: int, j: int)
    requires
        0 <= i < nodes.len(),
        subtree_indices(nodes, i).contains(j),
        j != i,
    ensures
        exists|p: int|
            #![trigger subtree_indices(nodes, i).contains(p)]
            subtree_indices(nodes, i).contains(p) && 0 <= p < nodes.len() && ((nodes[p].left
                matches Some(l) && l == j) || (nodes[p].right matches Some(r) && r == j)),
    decreases nodes.len() - i,
{
    lemma_subtree_index_bounds(nodes, i);
    match nodes[i].left {
        Some(l) => {
            if i < l && (l as int) < nodes.len() && subtree_indices(nodes, l as int).contains(j) {
                if j == l as int {
                    assert(subtree_indices(nodes, i).contains(i));
                } else {
                    lemma_subtree_member_has_parent(nodes, l as int, j);
                    let p = choose|p: int|
                        #![trigger subtree_indices(nodes, l as int).contains(p)]
                        subtree_indices(nodes, l as int).contains(p) && 0 <= p < nodes.len() && ((
                        nodes[p].left matches Some(pl) && pl == j) || (nodes[p].right matches Some(
                            pr,
                        ) && pr == j));
                    assert(subtree_indices(nodes, i).contains(p));
                }
            }
        },
        None => {},
    }
    match nodes[i].right {
        Some(r) => {
            if i < r && (r as int) < nodes.len() && subtree_indices(nodes, r as int).contains(j) {
                if j == r as int {
                    assert(subtree_indices(nodes, i).contains(i));
                } else {
                    lemma_subtree_member_has_parent(nodes, r as int, j);
                    let p = choose|p: int|
                        #![trigger subtree_indices(nodes, r as int).contains(p)]
                        subtree_indices(nodes, r as int).contains(p) && 0 <= p < nodes.len() && ((
                        nodes[p].left matches Some(pl) && pl == j) || (nodes[p].right matches Some(
                            pr,
                        ) && pr == j));
                    assert(subtree_indices(nodes, i).contains(p));
                }
            }
        },
        None => {},
    }
}

/// Two subtrees neither of whose roots lies in the other share no position:
/// a shared one would give some position two distinct parents, which the
/// back-references rule out.
proof fn lemma_subtrees_disjoint(nodes: Seq<Node>, a: int, b: int, k: int)
    requires
        links_ok(nodes),
        nodes.len() <= usize::MAX,
        0 <= a < nodes.len(),
        0 <= b < nodes.len(),
        !subtree_indices(nodes, a).contains(b),
        !subtree_indices(nodes, b).contains(a),
        subtree_indices(nodes, a).contains(k),
    ensures
        !subtree_indices(nodes, b).contains(k),
    decreases k,
{
    if subtree_indices(nodes, b).contains(k) {
        lemma_subtree_index_bounds(nodes, a);
        assert(0 <= a <= k < nodes.len());
        lemma_subtree_member_has_parent(nodes, a, k);
        lemma_subtree_member_has_parent(nodes, b, k);
        let p1 = choose|p: int|
            #![trigger subtree_indices(nodes, a).contains(p)]
            subtree_indices(nodes, a).contains(p) && 0 <= p < nodes.len() && ((nodes[p].left
                matches Some(pl) && pl == k) || (nodes[p].right matches Some(pr) && pr == k));
        let p2 = choose|p: int|
            #![trigger subtree_indices(nodes, b).contains(p)]
            subtree_indices(nodes, b).contains(p) && 0 <= p < nodes.len() && ((nodes[p].left
                matches Some(pl) && pl == k) || (nodes[p].right matches Some(pr) && pr == k));
        assert(node_links_ok(nodes, p1));
        assert(node_links_ok(nodes, p2));
        assert(nodes[k].parent == Some(p1 as usize));
        assert(nodes[k].parent == Some(p2 as usize));
        assert(p1 == p2);
        assert(p1 < k);
        lemma_subtrees_disjoint(nodes, a, b, p1);
    }
}

/// Neither child subtree of a node contains the other child: each node has
/// one parent, recorded in its back-reference.
proof fn lemma_children_not_nested(nodes: Seq<Node>, i: int, l: int, r: int)
    requires
        links_ok(nodes),
        nodes.len() <= usize::MAX,
        0 <= i < nodes.len(),
        nodes[i].left matches Some(cl) && cl == l,
        nodes[i].right matches Some(cr) && cr == r,
    ensures
        !subtree_indices(nodes, l).contains(r),
        !subtree_indices(nodes, r).contains(l),
{
    assert(node_links_ok(nodes, i));
    if subtree_indices(nodes, l).contains(r) {
        lemma_subtree_index_bounds(nodes, l);
        lemma_subtree_member_has_parent(nodes, l, r);
        let p = choose|p: int|
            #![trigger subtree_indices(nodes, l).contains(p)]
            subtree_indices(nodes, l).contains(p) && 0 <= p < nodes.len() && ((nodes[p].left
                matches Some(pl) && pl == r) || (nodes[p].right matches Some(pr) && pr == r));
        assert(node_links_ok(nodes, p));
        assert(nodes[r].parent == Some(p as usize));
        assert(nodes[r].parent == Some(i as usize));
        assert(p == i);
        assert(false);
    }
    if subtree_indices(nodes, r).contains(l) {
        lemma_subtree_index_bounds(nodes, r);
        lemma_subtree_member_has_parent(nodes, r, l);
        let p = choose|p: int|
            #![trigger subtree_indices(nodes, r).contains(p)]
            subtree_indices(nodes, r).contains(p) && 0 <= p < nodes.len() && ((nodes[p].left
                matches Some(pl) && pl == l) || (nodes[p].right matches Some(pr) && pr == l));
        assert(node_links_ok(nodes, p));
        assert(nodes[l].parent == Some(p as usize));
        assert(nodes[l].parent == Some(i as usize));
        assert(p == i);
        assert(false);
    }
}

/// In an ordered subtree every value lies strictly between the bounds.
pub proof fn lemma_ordered_values_in_bounds(nodes: Seq<Node>, i: int, lo: int, hi: int)
    requires
        0 <= i < nodes.len(),
        ordered_between(nodes, i, lo, hi),
    ensures
        forall|v: u32| #[trigger] subtree_values(nodes, i).contains(v) ==> lo < v < hi,
    decreases nodes.len() - i,
{
    match nodes[i].left {
        Some(l) => {
            lemma_ordered_values_in_bounds(nodes, l as int, lo, nodes[i].data as int);
        },
        None => {},
    }
    match nodes[i].right {
        Some(r) => {
            lemma_ordered_values_in_bounds(nodes, r as int, nodes[i].data as int, hi);
        },
        None => {},
    }
    assert forall|v: u32| #[trigger]
        subtree_values(nodes, i).contains(v) implies lo < v < hi by {
        if v != nodes[i].data {
            let left_part = match nodes[i].left {
                Some(l) => if i < l < nodes.len() {
                    subtree_values(nodes, l as int)
                } else {
                    Set::<u32>::empty()
                },
                None => Set::<u32>::empty(),
            };
            let right_part = match nodes[i].right {
                Some(r) => if i < r < nodes.len() {
                    subtree_values(nodes, r as int)
                } else {
                    Set::<u32>::empty()
                },
                None => Set::<u32>::empty(),
            };
            assert(left_part.contains(v) || right_part.contains(v));
        }
    }
}

/// The search-tree ordering at one node: every value of its left subtree lies
/// strictly below the node's value, and every value of its right subtree
/// strictly above it.
pub proof fn lemma_ordered_node_separates(nodes: Seq<Node>, i: int, lo: int, hi: int)
    requires
        0 <= i < nodes.len(),
        ordered_between(nodes, i, lo, hi),
    ensures
        nodes[i].left matches Some(l) ==> forall|v: u32| #[trigger]
            subtree_values(nodes, l as int).contains(v) ==> v < nodes[i].data,
        nodes[i].right matches Some(r) ==> forall|v: u32| #[trigger]
            subtree_values(nodes, r as int).contains(v) ==> v > nodes[i].data,
{
    match nodes[i].left {
        Some(l) => {
            lemma_ordered_values_in_bounds(nodes, l as int, lo, nodes[i].data as int);
        },
        None => {},
    }
    match nodes[i].right {
        Some(r) => {
            lemma_ordered_values_in_bounds(nodes, r as int, nodes[i].data as int, hi);
        },
        None => {},
    }
}


/// After an insertion into one child subtree of `cur` (arena `s_old` becoming
/// `s_new`), the subtree of `cur` holds exactly the old values and the
/// inserted one, keeps the search-tree order, and nothing outside it moved.
proof fn lemma_descend_step(
    s_old: Seq<Node>,
    s_new: Seq<Node>,
    cur: int,
    child: int,
    data: u32,
    added: bool,
    lo: int,
    hi: int,
    left_side: bool,
)
    requires
        links_ok(s_old),
        s_old.len() <= usize::MAX,
        0 <= cur < s_old.len(),
        ordered_between(s_old, cur, lo, hi),
        lo < data < hi,
        left_side ==> (s_old[cur].left matches Some(l) && l == child) && data < s_old[cur].data,
        !left_side ==> (s_old[cur].right matches Some(r) && r == child) && data > s_old[cur].data,
        s_old.len() <= s_new.len(),
        added == !subtree_values(s_old, child).contains(data),
        subtree_values(s_new, child) == subtree_values(s_old, child).insert(data),
        ordered_between(
            s_new,
            child,
            if left_side {
                lo
            } else {
                s_old[cur].data as int
            },
            if left_side {
                s_old[cur].data as int
            } else {
                hi
            },
        ),
        forall|j: int|
            0 <= j < s_old.len() && !subtree_indices(s_old, child).contains(j) ==> s_new[j]
                == s_old[j],
    ensures
        subtree_values(s_new, cur) == subtree_values(s_old, cur).insert(data),
        ordered_between(s_new, cur, lo, hi),
        added == !subtree_values(s_old, cur).contains(data),
        forall|j: int|
            0 <= j < s_old.len() && !subtree_indices(s_old, cur).contains(j) ==> s_new[j] == s_old[j],
{
    let dv = s_old[cur].data;
    let d = dv as int;
    assert(node_links_ok(s_old, cur));
    lemma_subtree_index_bounds(s_old, child);
    assert(!subtree_indices(s_old, child).contains(cur));
    assert(s_new[cur] == s_old[cur]);
    let sib_opt = if left_side {
        s_old[cur].right
    } else {
        s_old[cur].left
    };
    match sib_opt {
        Some(sn) => {
            let sb = sn as int;
            if left_side {
                lemma_children_not_nested(s_old, cur, child, sb);
            } else {
                lemma_children_not_nested(s_old, cur, sb, child);
            }
            lemma_subtree_index_bounds(s_old, sb);
            assert forall|j: int| #[trigger]
                subtree_indices(s_old, sb).contains(j) implies 0 <= j < s_new.len() && s_new[j]
                == s_old[j] by {
                lemma_subtrees_disjoint(s_old, sb, child, j);
            }
            lemma_subtree_frame(s_old, s_new, sb);
            if left_side {
                assert(ordered_between(s_new, sb, d, hi) == ordered_between(s_old, sb, d, hi));
                lemma_ordered_values_in_bounds(s_old, sb, d, hi);
            } else {
                assert(ordered_between(s_new, sb, lo, d) == ordered_between(s_old, sb, lo, d));
                lemma_ordered_values_in_bounds(s_old, sb, lo, d);
            }
            assert(!subtree_values(s_old, sb).contains(data));
        },
        None => {},
    }
    let old_left_part = match s_old[cur].left {
        Some(l) => if cur < l < s_old.len() {
            subtree_values(s_old, l as int)
        } else {
            Set::<u32>::empty()
        },
        None => Set::<u32>::empty(),
    };
    let old_right_part = match s_old[cur].right {
        Some(r) => if cur < r < s_old.len() {
            subtree_values(s_old, r as int)
        } else {
            Set::<u32>::empty()
        },
        None => Set::<u32>::empty(),
    };
    assert(subtree_values(s_old, cur) == old_left_part.union(old_right_part).insert(dv));
    let new_left_part = match s_new[cur].left {
        Some(l) => if cur < l < s_new.len() {
            subtree_values(s_new, l as int)
        } else {
            Set::<u32>::empty()
        },
        None => Set::<u32>::empty(),
    };
    let new_right_part = match s_new[cur].right {
        Some(r) => if cur < r < s_new.len() {
            subtree_values(s_new, r as int)
        } else {
            Set::<u32>::empty()
        },
        None => Set::<u32>::empty(),
    };
    assert(subtree_values(s_new, cur) == new_left_part.union(new_right_part).insert(dv));
    if left_side {
        assert(new_left_part == subtree_values(s_old, child).insert(data));
        assert(new_right_part == old_right_part);
    } else {
        assert(new_right_part == subtree_values(s_old, child).insert(data));
        assert(new_left_part == old_left_part);
    }
    assert(subtree_values(s_new, cur) =~= subtree_values(s_old, cur).insert(data));
    assert(added == !subtree_values(s_old, cur).contains(data));
    assert(ordered_between(s_new, cur, lo, hi));
    let old_left_idx = match s_old[cur].left {
        Some(l) => if cur < l < s_old.len() {
            subtree_indices(s_old, l as int)
        } else {
            Set::<int>::empty()
        },
        None => Set::<int>::empty(),
    };
    let old_right_idx = match s_old[cur].right {
        Some(r) => if cur < r < s_old.len() {
            subtree_indices(s_old, r as int)
        } else {
            Set::<int>::empty()
        },
        None => Set::<int>::empty(),
    };
    assert(subtree_indices(s_old, cur) == old_left_idx.union(old_right_idx).insert(cur));
    assert forall|j: int|
        0 <= j < s_old.len() && !subtree_indices(s_old, cur).contains(j) implies s_new[j] == s_old[
        j] by {
        assert(!subtree_indices(s_old, child).contains(j));
    }
}

/// After attaching a fresh leaf holding `data` at the absent child slot of
/// `cur` (arena `s_old` becoming `s_new`, the leaf standing at the old end),
/// the arena keeps the link discipline, the subtree of `cur` holds exactly
/// the old values and `data`, keeps the search-tree order, and nothing
/// outside it moved.
proof fn lemma_attach_leaf(
    s_old: Seq<Node>,
    s_new: Seq<Node>,
    cur: int,
    data: u32,
    lo: int,
    hi: int,
    left_side: bool,
)
    requires
        links_ok(s_old),
        0 <= cur < s_old.len(),
        s_new.len() == s_old.len() + 1,
        s_new.len() <= usize::MAX,
        ordered_between(s_old, cur, lo, hi),
        lo < data < hi,
        left_side ==> s_old[cur].left is None && data < s_old[cur].data,
        !left_side ==> s_old[cur].right is None && data > s_old[cur].data,
        forall|j: int| 0 <= j < s_old.len() && j != cur ==> s_new[j] == s_old[j],
        s_new[s_old.len() as int].data == data,
        s_new[s_old.len() as int].left is None,
        s_new[s_old.len() as int].right is None,
        s_new[s_old.len() as int].parent == Some(cur as usize),
        s_new[cur].data == s_old[cur].data,
        s_new[cur].parent == s_old[cur].parent,
        left_side ==> s_new[cur].left == Some(s_old.len() as usize) && s_new[cur].right == s_old[cur].right,
        !left_side ==> s_new[cur].right == Some(s_old.len() as usize) && s_new[cur].left == s_old[cur].left,
    ensures
        links_ok(s_new),
        subtree_values(s_new, cur) == subtree_values(s_old, cur).insert(data),
        ordered_between(s_new, cur, lo, hi),
        !subtree_values(s_old, cur).contains(data),
        forall|j: int|
            0 <= j < s_old.len() && !subtree_indices(s_old, cur).contains(j) ==> s_new[j] == s_old[j],
        forall|j: int|
            0 <= j < s_old.len() ==> s_new[j].parent == s_old[j].parent && s_new[j].data == s_old[j].data,
{
    let dv = s_old[cur].data;
    let d = dv as int;
    let ni = s_old.len() as int;
    assert(node_links_ok(s_old, cur));
    assert forall|i: int| 0 <= i < s_new.len() implies node_links_ok(s_new, i) by {
        if i == ni {
        } else if i == cur {
            let sib_opt = if left_side {
                s_old[cur].right
            } else {
                s_old[cur].left
            };
            match sib_opt {
                Some(sn) => {
                    assert(s_new[sn as int] == s_old[sn as int]);
                },
                None => {},
            }
        } else {
            assert(node_links_ok(s_old, i));
            match s_old[i].left {
                Some(li) => {
                    assert(s_new[li as int].parent == s_old[li as int].parent);
                },
                None => {},
            }
            match s_old[i].right {
                Some(ri) => {
                    assert(s_new[ri as int].parent == s_old[ri as int].parent);
                },
                None => {},
            }
        }
    }
    let sib_opt = if left_side {
        s_old[cur].right
    } else {
        s_old[cur].left
    };
    match sib_opt {
        Some(sn) => {
            let sb = sn as int;
            lemma_subtree_index_bounds(s_old, sb);
            assert forall|j: int| #[trigger]
                subtree_indices(s_old, sb).contains(j) implies 0 <= j < s_new.len() && s_new[j]
                == s_old[j] by {}
            lemma_subtree_frame(s_old, s_new, sb);
            if left_side {
                assert(ordered_between(s_new, sb, d, hi) == ordered_between(s_old, sb, d, hi));
                lemma_ordered_values_in_bounds(s_old, sb, d, hi);
            } else {
                assert(ordered_between(s_new, sb, lo, d) == ordered_between(s_old, sb, lo, d));
                lemma_ordered_values_in_bounds(s_old, sb, lo, d);
            }
            assert(!subtree_values(s_old, sb).contains(data));
        },
        None => {},
    }
    assert(subtree_values(s_new, ni) =~= Set::<u32>::empty().insert(data));
    assert(ordered_between(
        s_new,
        ni,
        if left_side {
            lo
        } else {
            d
        },
        if left_side {
            d
        } else {
            hi
        },
    ));
    let old_left_part = match s_old[cur].left {
        Some(l) => if cur < l < s_old.len() {
            subtree_values(s_old, l as int)
        } else {
            Set::<u32>::empty()
        },
        None => Set::<u32>::empty(),
    };
    let old_right_part = match s_old[cur].right {
        Some(r) => if cur < r < s_old.len() {
            subtree_values(s_old, r as int)
        } else {
            Set::<u32>::empty()
        },
        None => Set::<u32>::empty(),
    };
    assert(subtree_values(s_old, cur) == old_left_part.union(old_right_part).insert(dv));
    let new_left_part = match s_new[cur].left {
        Some(l) => if cur < l < s_new.len() {
            subtree_values(s_new, l as int)
        } else {
            Set::<u32>::empty()
        },
        None => Set::<u32>::empty(),
    };
    let new_right_part = match s_new[cur].right {
        Some(r) => if cur < r < s_new.len() {
            subtree_values(s_new, r as int)
        } else {
            Set::<u32>::empty()
        },
        None => Set::<u32>::empty(),
    };
    assert(subtree_values(s_new, cur) == new_left_part.union(new_right_part).insert(dv));
    if left_side {
        assert(old_left_part == Set::<u32>::empty());
        assert(new_left_part == subtree_values(s_new, ni));
        assert(new_right_part == old_right_part);
    } else {
        assert(old_right_part == Set::<u32>::empty());
        assert(new_right_part == subtree_values(s_new, ni));
        assert(new_left_part == old_left_part);
    }
    assert(subtree_values(s_new, cur) =~= subtree_values(s_old, cur).insert(data));
    assert(!subtree_values(s_old, cur).contains(data));
    assert(ordered_between(s_new, cur, lo, hi));
    assert(subtree_indices(s_old, cur).contains(cur));
}

impl Node {
    /// A detached node holding `data`, with no children and no parent: the
    /// shape of a root.
    pub fn new(data: u32) -> (node: Node)
        ensures
            node.data == data,
            node.left is None,
            node.right is None,
            node.parent is None,
    {
        Node { data, left: None, right: None, parent: None }
    }

    /// A detached node holding `data` with a back-reference to the arena
    /// position of its parent: the shape of a freshly inserted leaf.
    pub fn new_with_parent(data: u32, parent: usize) -> (node: Node)
        ensures
            node.data == data,
            node.left is None,
            node.right is None,
            node.parent == Some(parent),
    {
        Node { data, left: None, right: None, parent: Some(parent) }
    }
}

impl View for BinarySearchTree {
    type V = Set<u32>;

    /// The set of values the tree holds.
    open spec fn view(&self) -> Set<u32> {
        match self.root_index() {
            Some(r) => subtree_values(self.arena(), r as int),
            None => Set::<u32>::empty(),
        }
    }
}

impl BinarySearchTree {
    /// The arena of nodes, for specification.
    pub closed spec fn arena(&self) -> Seq<Node> {
        self.nodes@
    }

    /// The arena position of the root, for specification.
    pub closed spec fn root_index(&self) -> Option<usize> {
        self.root
    }

    /// The number of nodes the tree holds.
    pub open spec fn size(&self) -> nat {
        self.arena().len()
    }

    /// The tree's invariant: the arena keeps the link discipline, an empty
    /// tree has an empty arena, and the subtree under the root — which has no
    /// parent — keeps the search-tree order.
    pub open spec fn well_formed(&self) -> bool {
        &&& links_ok(self.arena())
        &&& match self.root_index() {
            Some(r) => (r as int) < self.arena().len() && self.arena()[r as int].parent is None
                && ordered_between(self.arena(), r as int, -1, 0x1_0000_0000),
            None => self.arena().len() == 0,
        }
    }

    pub fn new() -> (tree: BinarySearchTree)
        ensures
            tree.well_formed(),
            tree@ == Set::<u32>::empty(),
            tree.size() == 0,
    {
        BinarySearchTree { root: None, nodes: Vec::new() }
    }

    /// A tree of one node, the given root.
    pub fn with_root(root: Node) -> (tree: BinarySearchTree)
        requires
            root.left is None,
            root.right is None,
            root.parent is None,
        ensures
            tree.well_formed(),
            tree@ == Set::<u32>::empty().insert(root.data),
            tree.size() == 1,
    {
        let mut nodes = Vec::new();
        nodes.push(root);
        let tree = BinarySearchTree { root: Some(0), nodes };
        proof {
            assert forall|i: int| 0 <= i < tree.nodes@.len() implies node_links_ok(
                tree.nodes@,
                i,
            ) by {
                assert(tree.nodes@[0] == root);
            }
            assert(tree@ =~= Set::<u32>::empty().insert(root.data));
        }
        tree
    }

    /// Insert `value`: a value already held is rejected, reported with
    /// `false` and the tree left as it was; otherwise the comparison walk
    /// from the root reaches an absent child slot, a new leaf holding
    /// `value` is created there with a back-reference to its parent, and the
    /// insertion is reported with `true`.
    pub fn insert(&mut self, value: u32) -> (added: bool)
        requires
            old(self).well_formed(),
        ensures
            final(self).well_formed(),
            added == !old(self)@.contains(value),
            final(self)@ == old(self)@.insert(value),
            final(self).size() == old(self).size() + (if added {
                1int
            } else {
                0int
            }),
    {
        match self.root {
            Some(root) => self.insert_impl(root, value, Ghost(-1), Ghost(0x1_0000_0000)),
            None => {
                let new_node = Node::new(value);
                self.nodes.push(new_node);
                self.root = Some(0);
                proof {
                    assert forall|i: int| 0 <= i < self.nodes@.len() implies node_links_ok(
                        self.nodes@,
                        i,
                    ) by {}
                    assert(self@ =~= old(self)@.insert(value));
                }
                true
            },
        }
    }

    /// The walk of one insertion step at `current_node`: stop on equality,
    /// descend into the child on the compared side, or attach a new leaf
    /// where that child is absent. The ghost bounds carry the interval the
    /// subtree's values are known to lie in, and the inserted value lies in
    /// it too.
    fn insert_impl(&mut self, current_node: usize, data: u32, lo: Ghost<int>, hi: Ghost<int>) -> (added:
        bool)
        requires
            links_ok(old(self).nodes@),
            (current_node as int) < old(self).nodes@.len(),
            ordered_between(old(self).nodes@, current_node as int, lo@, hi@),
            lo@ < data < hi@,
        ensures
            links_ok(final(self).nodes@),
            final(self).root == old(self).root,
            final(self).nodes@.len() == old(self).nodes@.len() + (if added {
                1int
            } else {
                0int
            }),
            added == !subtree_values(old(self).nodes@, current_node as int).contains(data),
            subtree_values(final(self).nodes@, current_node as int) == subtree_values(
                old(self).nodes@,
                current_node as int,
            ).insert(data),
            ordered_between(final(self).nodes@, current_node as int, lo@, hi@),
            forall|j: int|
                0 <= j < old(self).nodes@.len() && !subtree_indices(
                    old(self).nodes@,
                    current_node as int,
                ).contains(j) ==> final(self).nodes@[j] == old(self).nodes@[j],
            forall|j: int|
                0 <= j < old(self).nodes@.len() ==> final(self).nodes@[j].parent == old(
                    self,
                ).nodes@[j].parent && final(self).nodes@[j].data == old(self).nodes@[j].data,
        decreases old(self).nodes@.len() - current_node,
    {
        let ghost s_old = self.nodes@;
        let ghost cur = current_node as int;
        let node = self.nodes[current_node];
        let ghost d = node.data as int;
        if node.data == data {
            proof {
                assert(subtree_values(s_old, cur).contains(data));
                assert(subtree_values(s_old, cur).insert(data) =~= subtree_values(s_old, cur));
            }
            false
        } else if data < node.data {
            match node.left {
                Some(lnode) => {
                    proof {
                        assert(node_links_ok(s_old, cur));
                    }
                    let added = self.insert_impl(lnode, data, lo, Ghost(d));
                    proof {
                        // the arena is a vector, so its length fits in usize
                        assert(old(self).nodes.len() == s_old.len());
                        lemma_descend_step(
                            s_old,
                            self.nodes@,
                            cur,
                            lnode as int,
                            data,
                            added,
                            lo@,
                            hi@,
                            true,
                        );
                    }
                    added
                },
                None => {
                    let new_index = self.nodes.len();
                    let new_node = Node::new_with_parent(data, current_node);
                    self.nodes.push(new_node);
                    let mut updated = self.nodes[current_node];
                    updated.left = Some(new_index);
                    self.nodes.set(current_node, updated);
                    proof {
                        assert(self.nodes.len() == s_old.len() + 1);
                        lemma_attach_leaf(s_old, self.nodes@, cur, data, lo@, hi@, true);
                    }
                    true
                },
            }
        } else {
            match node.right {
                Some(rnode) => {
                    proof {
                        assert(node_links_ok(s_old, cur));
                    }
                    let added = self.insert_impl(rnode, data, Ghost(d), hi);
                    proof {
                        // the arena is a vector, so its length fits in usize
                        assert(old(self).nodes.len() == s_old.len());
                        lemma_descend_step(
                            s_old,
                            self.nodes@,
                            cur,
                            rnode as int,
                            data,
                            added,
                            lo@,
                            hi@,
                            false,
                        );
                    }
                    added
                },
                None => {
                    let new_index = self.nodes.len();
                    let new_node = Node::new_with_parent(data, current_node);
                    self.nodes.push(new_node);
                    let mut updated = self.nodes[current_node];
                    updated.right = Some(new_index);
                    self.nodes.set(current_node, updated);
                    proof {
                        assert(self.nodes.len() == s_old.len() + 1);
                        lemma_attach_leaf(s_old, self.nodes@, cur, data, lo@, hi@, false);
                    }
                    true
                },
            }
        }
    }

    /// Whether `data` is held by the tree: it is iff it was inserted before.
    pub fn find(&self, data: u32) -> (found: bool)
        requires
            self.well_formed(),
        ensures
            found == self@.contains(data),
    {
        match self.root {
            Some(root) => self.find_node(root, data, Ghost(-1), Ghost(0x1_0000_0000)).is_some(),
            None => false,
        }
    }

    /// Walk from `start_node` by comparing `data` with each visited node,
    /// to the node holding `data`, or to `None` where the walk falls off the
    /// tree. The ghost bounds carry the interval that the subtree's values
    /// are known to lie in.
    fn find_node(&self, start_node: usize, data: u32, lo: Ghost<int>, hi: Ghost<int>) -> (r: Option<
        usize,
    >)
        requires
            links_ok(self.nodes@),
            (start_node as int) < self.nodes@.len(),
            ordered_between(self.nodes@, start_node as int, lo@, hi@),
            lo@ < data < hi@,
        ensures
            r matches Some(ix) ==> (ix as int) < self.nodes@.len() && self.nodes@[ix as int].data
                == data,
            r is Some <==> subtree_values(self.nodes@, start_node as int).contains(data),
        decreases self.nodes@.len() - start_node,
    {
        let current_node = self.nodes[start_node];
        let ghost nodes = self.nodes@;
        let ghost i = start_node as int;
        let ghost d = current_node.data as int;
        if current_node.data == data {
            proof {
                assert(subtree_values(nodes, i).contains(data));
            }
            Some(start_node)
        } else if data < current_node.data {
            proof {
                match nodes[i].right {
                    Some(rn) => {
                        lemma_ordered_values_in_bounds(nodes, rn as int, d, hi@);
                        assert(!subtree_values(nodes, rn as int).contains(data));
                    },
                    None => {},
                }
            }
            match current_node.left {
                Some(lnode) => self.find_node(lnode, data, lo, Ghost(d)),
                None => None,
            }
        } else {
            proof {
                match nodes[i].left {
                    Some(ln) => {
                        lemma_ordered_values_in_bounds(nodes, ln as int, lo@, d);
                        assert(!subtree_values(nodes, ln as int).contains(data));
                    },
                    None => {},
                }
            }
            match current_node.right {
                Some(rnode) => self.find_node(rnode, data, Ghost(d), hi),
                None => None,
            }
        }
    }
}

impl Default for BinarySearchTree {
    /// An empty tree.
    fn default() -> (tree: Self)
        ensures
            tree.well_formed(),
            tree@ == Set::<u32>::empty(),
            tree.size() == 0,
    {
        Self::new()
    }
}

} // verus!
