//! What the tree searches of routing mean, stated over positions in the
//! tree: a position is a path of steps, each into a tiling child or into a
//! floating child.

use crate::routing::{
    any_focus_within, any_tab_child, any_tab_focus, first_focused, focus_within, focused_node,
    is_tablike, tab_focus, tab_order_command, NodeLayout, TreeNode,
};
use vstd::prelude::*;

verus! {

/// The child that one step leads to: the `i`-th floating child when
/// `floating`, else the `i`-th tiling child.
pub open spec fn child(n: TreeNode, floating: bool, i: int) -> Option<TreeNode> {
    if floating {
        if 0 <= i < n.floating_nodes@.len() {
            Some(n.floating_nodes@[i])
        } else {
            None
        }
    } else {
        if 0 <= i < n.nodes@.len() {
            Some(n.nodes@[i])
        } else {
            None
        }
    }
}

/// The node that a path leads to from `n`, if the path exists.
pub open spec fn node_at(n: TreeNode, path: Seq<(bool, int)>) -> Option<TreeNode>
    decreases path.len(),
{
    if path.len() == 0 {
        Some(n)
    } else {
        match child(n, path[0].0, path[0].1) {
            Some(c) => node_at(c, path.drop_first()),
            None => None,
        }
    }
}

/// The path from `n` leads to a focused node.
pub open spec fn focused_at(n: TreeNode, path: Seq<(bool, int)>) -> bool {
    node_at(n, path) matches Some(m) && m.focused
}

/// Some node at or below `n` has the focus.
pub open spec fn has_focused_descendant(n: TreeNode) -> bool {
    exists|path: Seq<(bool, int)>| #[trigger] focused_at(n, path)
}

/// A container is tabbed or stacked.
pub open spec fn shows_one_child(c: TreeNode) -> bool {
    c.layout == NodeLayout::Tabbed || c.layout == NodeLayout::Stacked
}

/// The path from `n` leads to a tabbed or stacked container whose `i`-th
/// tiling child leads by `below` to a focused node.
pub open spec fn tab_witness(n: TreeNode, path: Seq<(bool, int)>, i: int, below: Seq<(bool, int)>) -> bool {
    &&& node_at(n, path) is Some
    &&& shows_one_child(node_at(n, path).unwrap())
    &&& 0 <= i < node_at(n, path).unwrap().nodes@.len()
    &&& focused_at(node_at(n, path).unwrap().nodes@[i], below)
}

/// At or below `n` stands a tabbed or stacked container with a tiling
/// child at or below which a node has the focus.
pub open spec fn has_focused_tab(n: TreeNode) -> bool {
    exists|path: Seq<(bool, int)>, i: int, below: Seq<(bool, int)>| #[trigger]
        tab_witness(n, path, i, below)
}

/// Some node at or below `n` is tabbed or stacked.
pub open spec fn has_tab_container(n: TreeNode) -> bool {
    exists|path: Seq<(bool, int)>| #[trigger] node_at(n, path) is Some && shows_one_child(
        node_at(n, path).unwrap(),
    )
}

proof fn lemma_step(n: TreeNode, floating: bool, i: int, rest: Seq<(bool, int)>)
    requires
        child(n, floating, i) is Some,
    ensures
        node_at(n, seq![(floating, i)] + rest) == node_at(child(n, floating, i).unwrap(), rest),
{
    let p = seq![(floating, i)] + rest;
    assert(p.drop_first() =~= rest);
    assert(p[0] == (floating, i));
}

proof fn lemma_any_focus_index(s: Seq<TreeNode>)
    ensures
        any_focus_within(s) <==> exists|j: int| 0 <= j < s.len() && focus_within(#[trigger] s[j]),
    decreases s.len(),
{
    if s.len() > 0 {
        lemma_any_focus_index(s.drop_first());
        if any_focus_within(s.drop_first()) {
            let j = choose|j: int| 0 <= j < s.len() - 1 && focus_within(#[trigger] s.drop_first()[j]);
            assert(s[j + 1] == s.drop_first()[j]);
        }
        if exists|j: int| 0 <= j < s.len() && focus_within(#[trigger] s[j]) {
            let j = choose|j: int| 0 <= j < s.len() && focus_within(#[trigger] s[j]);
            if j > 0 {
                assert(s.drop_first()[j - 1] == s[j]);
            }
        }
    }
}

proof fn lemma_focus_within_witness(n: TreeNode)
    requires
        focus_within(n),
    ensures
        has_focused_descendant(n),
    decreases n,
{
    if n.focused {
        assert(focused_at(n, Seq::<(bool, int)>::empty()));
    } else if any_focus_within(n.nodes@) {
        lemma_any_focus_index(n.nodes@);
        let j = choose|j: int| 0 <= j < n.nodes@.len() && focus_within(#[trigger] n.nodes@[j]);
        lemma_focus_within_witness(n.nodes@[j]);
        let p = choose|p: Seq<(bool, int)>| #[trigger] focused_at(n.nodes@[j], p);
        lemma_step(n, false, j, p);
        assert(focused_at(n, seq![(false, j)] + p));
    } else {
        lemma_any_focus_index(n.floating_nodes@);
        let j = choose|j: int|
            0 <= j < n.floating_nodes@.len() && focus_within(#[trigger] n.floating_nodes@[j]);
        lemma_focus_within_witness(n.floating_nodes@[j]);
        let p = choose|p: Seq<(bool, int)>| #[trigger] focused_at(n.floating_nodes@[j], p);
        lemma_step(n, true, j, p);
        assert(focused_at(n, seq![(true, j)] + p));
    }
}

proof fn lemma_focus_from_path(n: TreeNode, path: Seq<(bool, int)>)
    requires
        focused_at(n, path),
    ensures
        focus_within(n),
    decreases path.len(),
{
    if path.len() > 0 {
        let (floating, i) = path[0];
        let c = child(n, floating, i).unwrap();
        lemma_focus_from_path(c, path.drop_first());
        if floating {
            lemma_any_focus_index(n.floating_nodes@);
        } else {
            lemma_any_focus_index(n.nodes@);
        }
    }
}

/// A node has the focus within it exactly when some node at any depth
/// below it, through tiling or floating children, or the node itself, is
/// focused.
pub proof fn lemma_focus_within_means_focused_descendant(n: TreeNode)
    ensures
        focus_within(n) <==> has_focused_descendant(n),
{
    if focus_within(n) {
        lemma_focus_within_witness(n);
    }
    if has_focused_descendant(n) {
        let p = choose|p: Seq<(bool, int)>| #[trigger] focused_at(n, p);
        lemma_focus_from_path(n, p);
    }
}

proof fn lemma_first_focused_index(s: Seq<TreeNode>)
    ensures
        first_focused(s) is Some <==> exists|j: int|
            0 <= j < s.len() && (#[trigger] focused_node(s[j])) is Some,
        first_focused(s) matches Some(f) ==> exists|j: int|
            0 <= j < s.len() && #[trigger] focused_node(s[j]) == Some(f),
    decreases s.len(),
{
    if s.len() > 0 {
        lemma_first_focused_index(s.drop_first());
        if focused_node(s[0]) is None {
            if let Some(f) = first_focused(s.drop_first()) {
                let j = choose|j: int|
                    0 <= j < s.len() - 1 && #[trigger] focused_node(s.drop_first()[j]) == Some(f);
                assert(s[j + 1] == s.drop_first()[j]);
            }
            if exists|j: int| 0 <= j < s.len() && (#[trigger] focused_node(s[j])) is Some {
                let j = choose|j: int| 0 <= j < s.len() && (#[trigger] focused_node(s[j])) is Some;
                assert(s.drop_first()[j - 1] == s[j]);
            }
        }
    }
}

proof fn lemma_focused_node_found(n: TreeNode)
    ensures
        focused_node(n) is Some <==> focus_within(n),
        focused_node(n) matches Some(f) ==> f.focused && exists|path: Seq<(bool, int)>|
            #[trigger] node_at(n, path) == Some(f),
    decreases n,
{
    lemma_first_focused_index(n.nodes@);
    lemma_first_focused_index(n.floating_nodes@);
    lemma_any_focus_index(n.nodes@);
    lemma_any_focus_index(n.floating_nodes@);
    if n.focused {
        assert(node_at(n, Seq::<(bool, int)>::empty()) == Some(n));
    } else {
        assert forall|j: int| 0 <= j < n.nodes@.len() implies (#[trigger] focused_node(
            n.nodes@[j],
        ) is Some <==> focus_within(n.nodes@[j])) by {
            lemma_focused_node_found(n.nodes@[j]);
        }
        assert forall|j: int| 0 <= j < n.floating_nodes@.len() implies (#[trigger] focused_node(
            n.floating_nodes@[j],
        ) is Some <==> focus_within(n.floating_nodes@[j])) by {
            lemma_focused_node_found(n.floating_nodes@[j]);
        }
        if any_focus_within(n.nodes@) {
            let j = choose|j: int| 0 <= j < n.nodes@.len() && focus_within(#[trigger] n.nodes@[j]);
            assert(focused_node(n.nodes@[j]) is Some);
        }
        if any_focus_within(n.floating_nodes@) {
            let j = choose|j: int|
                0 <= j < n.floating_nodes@.len() && focus_within(#[trigger] n.floating_nodes@[j]);
            assert(focused_node(n.floating_nodes@[j]) is Some);
        }
        if first_focused(n.nodes@) is Some {
            let j = choose|j: int|
                0 <= j < n.nodes@.len() && (#[trigger] focused_node(n.nodes@[j])) is Some;
            assert(focus_within(n.nodes@[j]));
        }
        if first_focused(n.floating_nodes@) is Some {
            let j = choose|j: int|
                0 <= j < n.floating_nodes@.len() && (#[trigger] focused_node(
                    n.floating_nodes@[j],
                )) is Some;
            assert(focus_within(n.floating_nodes@[j]));
        }
        if let Some(f) = first_focused(n.nodes@) {
            let j = choose|j: int|
                0 <= j < n.nodes@.len() && #[trigger] focused_node(n.nodes@[j]) == Some(f);
            lemma_focused_node_found(n.nodes@[j]);
            let p = choose|p: Seq<(bool, int)>| #[trigger] node_at(n.nodes@[j], p) == Some(f);
            lemma_step(n, false, j, p);
            assert(node_at(n, seq![(false, j)] + p) == Some(f));
        } else if let Some(f) = first_focused(n.floating_nodes@) {
            let j = choose|j: int|
                0 <= j < n.floating_nodes@.len() && #[trigger] focused_node(n.floating_nodes@[j])
                    == Some(f);
            lemma_focused_node_found(n.floating_nodes@[j]);
            let p = choose|p: Seq<(bool, int)>| #[trigger] node_at(n.floating_nodes@[j], p) == Some(
                f,
            );
            lemma_step(n, true, j, p);
            assert(node_at(n, seq![(true, j)] + p) == Some(f));
        }
    }
}

/// The focused-node search finds a node exactly when some node at any depth
/// at or below the root, through tiling or floating children, is focused;
/// and the node it finds is focused and lies in that tree.
pub proof fn lemma_focused_node_is_a_focused_descendant(n: TreeNode)
    ensures
        focused_node(n) is Some <==> has_focused_descendant(n),
        focused_node(n) matches Some(f) ==> f.focused && exists|path: Seq<(bool, int)>|
            #[trigger] node_at(n, path) == Some(f),
{
    lemma_focused_node_found(n);
    lemma_focus_within_means_focused_descendant(n);
}

proof fn lemma_any_tab_child_index(layout: NodeLayout, s: Seq<TreeNode>)
    ensures
        any_tab_child(layout, s) <==> exists|j: int|
            0 <= j < s.len() && ((is_tablike(layout) && focus_within(#[trigger] s[j])) || tab_focus(
                s[j],
            )),
    decreases s.len(),
{
    if s.len() > 0 {
        lemma_any_tab_child_index(layout, s.drop_first());
        if any_tab_child(layout, s.drop_first()) {
            let j = choose|j: int|
                0 <= j < s.len() - 1 && ((is_tablike(layout) && focus_within(
                    #[trigger] s.drop_first()[j],
                )) || tab_focus(s.drop_first()[j]));
            assert(s[j + 1] == s.drop_first()[j]);
        }
        if exists|j: int|
            0 <= j < s.len() && ((is_tablike(layout) && focus_within(#[trigger] s[j])) || tab_focus(
                s[j],
            )) {
            let j = choose|j: int|
                0 <= j < s.len() && ((is_tablike(layout) && focus_within(#[trigger] s[j]))
                    || tab_focus(s[j]));
            if j > 0 {
                assert(s.drop_first()[j - 1] == s[j]);
            }
        }
    }
}

proof fn lemma_any_tab_focus_index(s: Seq<TreeNode>)
    ensures
        any_tab_focus(s) <==> exists|j: int| 0 <= j < s.len() && tab_focus(#[trigger] s[j]),
    decreases s.len(),
{
    if s.len() > 0 {
        lemma_any_tab_focus_index(s.drop_first());
        if any_tab_focus(s.drop_first()) {
            let j = choose|j: int| 0 <= j < s.len() - 1 && tab_focus(#[trigger] s.drop_first()[j]);
            assert(s[j + 1] == s.drop_first()[j]);
        }
        if exists|j: int| 0 <= j < s.len() && tab_focus(#[trigger] s[j]) {
            let j = choose|j: int| 0 <= j < s.len() && tab_focus(#[trigger] s[j]);
            if j > 0 {
                assert(s.drop_first()[j - 1] == s[j]);
            }
        }
    }
}

proof fn lemma_tab_focus_witness(n: TreeNode)
    requires
        tab_focus(n),
    ensures
        has_focused_tab(n),
    decreases n,
{
    lemma_any_tab_child_index(n.layout, n.nodes@);
    lemma_any_tab_focus_index(n.floating_nodes@);
    if any_tab_child(n.layout, n.nodes@) {
        let j = choose|j: int|
            0 <= j < n.nodes@.len() && ((is_tablike(n.layout) && focus_within(
                #[trigger] n.nodes@[j],
            )) || tab_focus(n.nodes@[j]));
        if is_tablike(n.layout) && focus_within(n.nodes@[j]) {
            lemma_focus_within_means_focused_descendant(n.nodes@[j]);
            let below = choose|p: Seq<(bool, int)>| #[trigger] focused_at(n.nodes@[j], p);
            let here = Seq::<(bool, int)>::empty();
            assert(node_at(n, here) == Some(n));
            assert(tab_witness(n, here, j, below));
        } else {
            lemma_tab_focus_witness(n.nodes@[j]);
            let (p, i, below) = choose|p: Seq<(bool, int)>, i: int, below: Seq<(bool, int)>|
                #[trigger] tab_witness(n.nodes@[j], p, i, below);
            lemma_step(n, false, j, p);
            assert(tab_witness(n, seq![(false, j)] + p, i, below));
        }
    } else {
        let j = choose|j: int|
            0 <= j < n.floating_nodes@.len() && tab_focus(#[trigger] n.floating_nodes@[j]);
        lemma_tab_focus_witness(n.floating_nodes@[j]);
        let (p, i, below) = choose|p: Seq<(bool, int)>, i: int, below: Seq<(bool, int)>|
            #[trigger] tab_witness(n.floating_nodes@[j], p, i, below);
        lemma_step(n, true, j, p);
        assert(tab_witness(n, seq![(true, j)] + p, i, below));
    }
}

proof fn lemma_tab_from_path(n: TreeNode, path: Seq<(bool, int)>, i: int, below: Seq<(bool, int)>)
    requires
        tab_witness(n, path, i, below),
    ensures
        tab_focus(n),
    decreases path.len(),
{
    lemma_any_tab_child_index(n.layout, n.nodes@);
    lemma_any_tab_focus_index(n.floating_nodes@);
    if path.len() == 0 {
        lemma_focus_from_path(n.nodes@[i], below);
    } else {
        let (floating, k) = path[0];
        let c = child(n, floating, k).unwrap();
        lemma_tab_from_path(c, path.drop_first(), i, below);
    }
}

/// The tab test holds exactly when, at any depth at or below the root, a
/// tabbed or stacked container has a tiling child at or below which a node
/// is focused.
pub proof fn lemma_tab_focus_means_focused_tab(n: TreeNode)
    ensures
        tab_focus(n) <==> has_focused_tab(n),
{
    if tab_focus(n) {
        lemma_tab_focus_witness(n);
    }
    if has_focused_tab(n) {
        let (p, i, below) = choose|p: Seq<(bool, int)>, i: int, below: Seq<(bool, int)>|
            #[trigger] tab_witness(n, p, i, below);
        lemma_tab_from_path(n, p, i, below);
    }
}

/// In a tree without any tabbed or stacked container, the command that i3
/// runs is the command as given.
pub proof fn lemma_no_tab_container_keeps_command(n: TreeNode, command: Seq<char>)
    requires
        !has_tab_container(n),
    ensures
        tab_order_command(command, tab_focus(n)) == command,
{
    lemma_tab_focus_means_focused_tab(n);
    if tab_focus(n) {
        let (p, i, below) = choose|p: Seq<(bool, int)>, i: int, below: Seq<(bool, int)>|
            #[trigger] tab_witness(n, p, i, below);
        assert(node_at(n, p) is Some && shows_one_child(node_at(n, p).unwrap()));
    }
}

} // verus!
