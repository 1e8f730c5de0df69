//! The open nodes of a forest: the chain from the last root through last
//! children, along which new nodes are placed.

use vstd::prelude::*;
use crate::element::{
    forest_well_formed, lemma_nodes_index, nodes, well_formed, Element, Node,
};

verus! {

/// How many levels are open in the forest: the length of the chain that
/// starts at the last root and goes on through each node's last child.
pub open spec fn open_depth(forest: Seq<Node>) -> nat
    decreases forest,
{
    if forest.len() == 0 {
        0
    } else {
        1 + open_depth(forest.last().children)
    }
}

/// The open node at `level`: the last root for level 0, else the last child
/// of the open node one level up.
pub open spec fn open_node(forest: Seq<Node>, level: nat) -> Node
    recommends
        level < open_depth(forest),
    decreases level,
{
    if level == 0 {
        forest.last()
    } else {
        open_node(forest.last().children, (level - 1) as nat)
    }
}

/// The forest with the open node at `level` replaced by `n`.
pub open spec fn with_open_node(forest: Seq<Node>, level: nat, n: Node) -> Seq<Node>
    recommends
        level < open_depth(forest),
    decreases level,
{
    if level == 0 {
        forest.drop_last().push(n)
    } else {
        forest.drop_last().push(
            Node {
                children: with_open_node(forest.last().children, (level - 1) as nat, n),
                ..forest.last()
            },
        )
    }
}

/// The node `parent` with `child` as its new last child. A node with
/// children is not void.
pub open spec fn adopting(parent: Node, child: Node) -> Node {
    Node { children: parent.children.push(child), void: false, ..parent }
}

/// The forest with `n` placed at `depth`: a new root for depth 0, else a new
/// last child of the open node at `depth - 1`.
pub open spec fn placed(forest: Seq<Node>, depth: nat, n: Node) -> Seq<Node>
    recommends
        depth <= open_depth(forest),
{
    if depth == 0 {
        forest.push(n)
    } else {
        with_open_node(
            forest,
            (depth - 1) as nat,
            adopting(open_node(forest, (depth - 1) as nat), n),
        )
    }
}

/// Replacing the last element replaces the last value.
pub proof fn lemma_nodes_update_last(es: Seq<Element>, e: Element)
    requires
        es.len() > 0,
    ensures
        nodes(es.update(es.len() - 1, e)) == nodes(es).drop_last().push(e@),
{
    let updated = es.update(es.len() - 1, e);
    lemma_nodes_index(es);
    lemma_nodes_index(updated);
    assert(nodes(updated) =~= nodes(es).drop_last().push(e@));
}

/// The node under which a node of depth `lr` belongs: the open node one
/// level up, found from the last root by going down through last children.
///
/// What the caller does to the node through the reference is done to the
/// forest at that place, and nowhere else.
pub fn get_element_in_level(er: &mut Vec<Element>, lr: usize) -> (r: &mut Element)
    requires
        1 <= lr <= open_depth(nodes(old(er)@)),
    ensures
        r@ == open_node(nodes(old(er)@), (lr - 1) as nat),
        nodes(final(er)@) == with_open_node(nodes(old(er)@), (lr - 1) as nat, final(r)@),
    decreases lr,
{
    let n = er.len();
    let ghost before = er@;
    proof {
        lemma_nodes_index(before);
    }
    let last = &mut er[n - 1];
    let ghost start = *last;
    let ghost end = *final(last);
    proof {
        lemma_nodes_update_last(before, end);
    }
    if lr == 1 {
        last
    } else {
        let r = get_element_in_level(&mut last.children, lr - 1);
        proof {
            assert(end@ == (Node {
                children: with_open_node(nodes(start.children@), (lr - 2) as nat, final(r)@),
                ..start@
            }));
        }
        r
    }
}


/// Whether the forest has an open node at every level below `lr`.
pub fn has_open_level(forest: &Vec<Element>, lr: usize) -> (r: bool)
    ensures
        r == (lr <= open_depth(nodes(forest@))),
{
    let mut cur: &Vec<Element> = forest;
    let mut left: usize = lr;
    while left > 0
        invariant
            (lr <= open_depth(nodes(forest@))) == (left <= open_depth(nodes(cur@))),
        decreases left,
    {
        proof {
            lemma_nodes_index(cur@);
        }
        if cur.len() == 0 {
            return false;
        }
        cur = &cur[cur.len() - 1].children;
        left -= 1;
    }
    true
}

/// The node under which a node of depth `lr` belongs, if there is one:
/// `None` for depth 0, which has no level above it, and where the chain of
/// open nodes ends before it reaches the level above `lr`. The forest is
/// then left as it is.
pub fn find_element_in_level(er: &mut Vec<Element>, lr: usize) -> (r: Option<&mut Element>)
    ensures
        r is Some <==> 1 <= lr <= open_depth(nodes(old(er)@)),
        r is Some ==> r->0@ == open_node(nodes(old(er)@), (lr - 1) as nat),
        r is Some ==> nodes(final(er)@) == with_open_node(
            nodes(old(er)@),
            (lr - 1) as nat,
            final(r->0)@,
        ),
        r is None ==> nodes(final(er)@) == nodes(old(er)@),
{
    if lr == 0 || !has_open_level(er, lr) {
        None
    } else {
        Some(get_element_in_level(er, lr))
    }
}

/// Replacing the open node at `level` by a well-formed node keeps the
/// forest well formed; the new node is then the open node at `level`, and
/// the levels below it are those of its own children.
pub proof fn lemma_with_open_node(forest: Seq<Node>, level: nat, n: Node)
    requires
        level < open_depth(forest),
        forest_well_formed(forest),
        well_formed(n),
    ensures
        forest_well_formed(with_open_node(forest, level, n)),
        open_depth(with_open_node(forest, level, n)) == level + 1 + open_depth(n.children),
        open_node(with_open_node(forest, level, n), level) == n,
        with_open_node(forest, level, n).len() == forest.len(),
    decreases level,
{
    let out = with_open_node(forest, level, n);
    if level == 0 {
        assert(out.last() == n);
        assert forall|i: int| 0 <= i < out.len() implies well_formed(#[trigger] out[i]) by {
            if i < out.len() - 1 {
                assert(out[i] == forest[i]);
            }
        }
    } else {
        let last = forest.last();
        let kids = with_open_node(last.children, (level - 1) as nat, n);
        assert(well_formed(last));
        assert(forest_well_formed(last.children)) by {
            assert forall|i: int| 0 <= i < last.children.len() implies well_formed(
                #[trigger] last.children[i],
            ) by {}
        }
        lemma_with_open_node(last.children, (level - 1) as nat, n);
        let grown = Node { children: kids, ..last };
        assert(out.last() == grown);
        assert(well_formed(grown));
        assert forall|i: int| 0 <= i < out.len() implies well_formed(#[trigger] out[i]) by {
            if i < out.len() - 1 {
                assert(out[i] == forest[i]);
            }
        }
    }
}

/// The open node at a level that the forest has is well formed, if the
/// forest is.
pub proof fn lemma_open_node_well_formed(forest: Seq<Node>, level: nat)
    requires
        level < open_depth(forest),
        forest_well_formed(forest),
    ensures
        well_formed(open_node(forest, level)),
    decreases level,
{
    assert(well_formed(forest.last()));
    if level > 0 {
        let last = forest.last();
        assert forall|i: int| 0 <= i < last.children.len() implies well_formed(
            #[trigger] last.children[i],
        ) by {}
        lemma_open_node_well_formed(last.children, (level - 1) as nat);
    }
}

/// Placing a well-formed node without children keeps the forest well
/// formed and leaves exactly the levels up to the node's own open.
pub proof fn lemma_placed(forest: Seq<Node>, depth: nat, n: Node)
    requires
        depth <= open_depth(forest),
        forest_well_formed(forest),
        well_formed(n),
        n.children.len() == 0,
    ensures
        forest_well_formed(placed(forest, depth, n)),
        open_depth(placed(forest, depth, n)) == depth + 1,
{
    let out = placed(forest, depth, n);
    if depth == 0 {
        assert(out.last() == n);
        assert(out.drop_last() =~= forest);
        assert forall|i: int| 0 <= i < out.len() implies well_formed(#[trigger] out[i]) by {
            if i < out.len() - 1 {
                assert(out[i] == forest[i]);
            }
        }
        assert(open_depth(n.children) == 0);
    } else {
        let level = (depth - 1) as nat;
        let parent = open_node(forest, level);
        lemma_open_node_well_formed(forest, level);
        let grown = adopting(parent, n);
        assert(well_formed(grown)) by {
            assert forall|i: int| 0 <= i < grown.children.len() implies well_formed(
                #[trigger] grown.children[i],
            ) by {
                if i < parent.children.len() {
                    assert(grown.children[i] == parent.children[i]);
                }
            }
        }
        lemma_with_open_node(forest, level, grown);
        assert(grown.children.last() == n);
        assert(open_depth(grown.children) == 1 + open_depth(n.children));
    }
}

} // verus!
