//! Where the parser puts the nodes: what holds of every forest that it
//! builds.

use vstd::prelude::*;
use crate::element::Node;
use crate::parse::{line_depth, line_kind, parse_state, parse_step, parsed, LineKind};
use crate::tree::{adopting, open_depth, open_node, placed, with_open_node};

verus! {

/// The depth at which line `m` makes a node, or `None` where it makes none:
/// an empty line, a padding line, or a line at or after the first error.
#[verifier::opaque]
pub open spec fn depth_at(lines: Seq<Seq<char>>, m: int) -> Option<int> {
    if 0 <= m < lines.len() && parse_state(lines, (m + 1) as nat).error is None && line_kind(
        lines[m],
        m as nat,
    ) is Shape {
        Some(line_depth(lines[m], parse_state(lines, m as nat).padding))
    } else {
        None
    }
}

/// No line after `from` and before `to` makes a node at depth `depth` or
/// above it in the tree: every node made in between lies deeper.
pub open spec fn deeper_between(lines: Seq<Seq<char>>, from: int, to: int, depth: int) -> bool {
    forall|m: int| from < m < to && (#[trigger] depth_at(lines, m)) is Some ==> depth_at(lines, m)->0 > depth
}

/// The node `n` and everything below it stand where their lines put them:
/// each node has the depth of its line, and each child lies one level below
/// its parent, which is the last node made before the child at that level.
pub open spec fn well_placed(lines: Seq<Seq<char>>, n: Node) -> bool
    decreases n,
{
    &&& depth_at(lines, n.line as int) == Some(n.depth as int)
    &&& forall|j: int|
        0 <= j < n.children.len() ==> {
            let c = #[trigger] n.children[j];
            &&& c.depth == n.depth + 1
            &&& n.line < c.line
            &&& deeper_between(lines, n.line as int, c.line as int, n.depth as int)
            &&& well_placed(lines, c)
        }
}

/// The indices below `n` of the lines that make a node at depth 0, in
/// order.
pub open spec fn root_lines(lines: Seq<Seq<char>>, n: nat) -> Seq<nat>
    decreases n,
{
    if n == 0 {
        Seq::empty()
    } else if depth_at(lines, n - 1) == Some(0int) {
        root_lines(lines, (n - 1) as nat).push((n - 1) as nat)
    } else {
        root_lines(lines, (n - 1) as nat)
    }
}

/// The roots of the forest are the nodes of the depth-0 lines below `n`, in
/// the lines' order, and every tree is well placed.
pub open spec fn forest_placed(lines: Seq<Seq<char>>, forest: Seq<Node>, n: nat) -> bool {
    &&& forest.len() == root_lines(lines, n).len()
    &&& forall|i: int|
        0 <= i < forest.len() ==> {
            &&& (#[trigger] forest[i]).line == root_lines(lines, n)[i]
            &&& forest[i].depth == 0
            &&& well_placed(lines, forest[i])
        }
}

/// The open nodes from `base` down are the last nodes made at their
/// levels: the open node at each level has that level for its depth, comes
/// from a line below `upto`, and every node made after it lies deeper.
pub open spec fn chain_open(lines: Seq<Seq<char>>, forest: Seq<Node>, base: nat, upto: int) -> bool
    decreases forest,
{
    forest.len() > 0 ==> {
        let t = forest.last();
        &&& t.depth == base
        &&& t.line < upto
        &&& deeper_between(lines, t.line as int, upto, base as int)
        &&& chain_open(lines, t.children, base + 1, upto)
    }
}


/// Every tree of the forest is well placed.
pub open spec fn trees_placed(lines: Seq<Seq<char>>, forest: Seq<Node>) -> bool {
    forall|i: int| 0 <= i < forest.len() ==> well_placed(lines, #[trigger] forest[i])
}

/// What the chain of open nodes says of the open node at `level`.
proof fn lemma_open_node_placed(
    lines: Seq<Seq<char>>,
    forest: Seq<Node>,
    level: nat,
    base: nat,
    upto: int,
)
    requires
        level < open_depth(forest),
        trees_placed(lines, forest),
        chain_open(lines, forest, base, upto),
    ensures
        open_node(forest, level).depth == base + level,
        open_node(forest, level).line < upto,
        deeper_between(lines, open_node(forest, level).line as int, upto, (base + level) as int),
        chain_open(lines, open_node(forest, level).children, base + level + 1, upto),
        well_placed(lines, open_node(forest, level)),
    decreases level,
{
    let t = forest.last();
    assert(well_placed(lines, t));
    if level > 0 {
        assert(trees_placed(lines, t.children)) by {
            assert forall|i: int| 0 <= i < t.children.len() implies well_placed(
                lines,
                #[trigger] t.children[i],
            ) by {}
        }
        lemma_open_node_placed(lines, t.children, (level - 1) as nat, base + 1, upto);
    }
}

/// A line that makes no node leaves the chain of open nodes as it is.
proof fn lemma_chain_passes(lines: Seq<Seq<char>>, forest: Seq<Node>, base: nat, upto: int)
    requires
        chain_open(lines, forest, base, upto),
        depth_at(lines, upto) is None,
    ensures
        chain_open(lines, forest, base, upto + 1),
    decreases forest,
{
    if forest.len() > 0 {
        lemma_chain_passes(lines, forest.last().children, base + 1, upto);
    }
}

/// Replacing the open node at `level` by a node of the same line and depth
/// that has taken in the node of line `upto` keeps every tree well placed
/// and the chain of open nodes in order.
proof fn lemma_replace_open(
    lines: Seq<Seq<char>>,
    forest: Seq<Node>,
    level: nat,
    n: Node,
    base: nat,
    upto: int,
)
    requires
        level < open_depth(forest),
        trees_placed(lines, forest),
        chain_open(lines, forest, base, upto),
        n.line == open_node(forest, level).line,
        n.depth == open_node(forest, level).depth,
        well_placed(lines, n),
        chain_open(lines, n.children, base + level + 1, upto + 1),
        depth_at(lines, upto) is Some,
        depth_at(lines, upto)->0 > base + level,
    ensures
        with_open_node(forest, level, n).len() == forest.len(),
        forall|i: int|
            0 <= i < forest.len() ==> (#[trigger] with_open_node(forest, level, n)[i]).line
                == forest[i].line && with_open_node(forest, level, n)[i].depth == forest[i].depth,
        trees_placed(lines, with_open_node(forest, level, n)),
        chain_open(lines, with_open_node(forest, level, n), base, upto + 1),
    decreases level,
{
    let out = with_open_node(forest, level, n);
    let last = forest.last();
    assert(well_placed(lines, last));
    if level == 0 {
        assert(out.last() == n);
        assert forall|i: int| 0 <= i < out.len() implies well_placed(lines, #[trigger] out[i]) by {
            if i < out.len() - 1 {
                assert(out[i] == forest[i]);
            }
        }
        assert(deeper_between(lines, n.line as int, upto + 1, base as int));
    } else {
        let kids = last.children;
        let grown_kids = with_open_node(kids, (level - 1) as nat, n);
        assert(trees_placed(lines, kids)) by {
            assert forall|i: int| 0 <= i < kids.len() implies well_placed(
                lines,
                #[trigger] kids[i],
            ) by {}
        }
        lemma_replace_open(lines, kids, (level - 1) as nat, n, base + 1, upto);
        let grown = Node { children: grown_kids, ..last };
        assert(out.last() == grown);
        assert(well_placed(lines, grown)) by {
            assert forall|j: int| 0 <= j < grown.children.len() implies {
                let c = #[trigger] grown.children[j];
                &&& c.depth == grown.depth + 1
                &&& grown.line < c.line
                &&& deeper_between(lines, grown.line as int, c.line as int, grown.depth as int)
                &&& well_placed(lines, c)
            } by {
                assert(grown_kids[j].line == kids[j].line);
                assert(well_placed(lines, grown_kids[j]));
            }
        }
        assert forall|i: int| 0 <= i < out.len() implies well_placed(lines, #[trigger] out[i]) by {
            if i < out.len() - 1 {
                assert(out[i] == forest[i]);
            }
        }
        assert forall|i: int| 0 <= i < forest.len() implies (#[trigger] out[i]).line
            == forest[i].line && out[i].depth == forest[i].depth by {
            if i < out.len() - 1 {
                assert(out[i] == forest[i]);
            }
        }
        assert(deeper_between(lines, grown.line as int, upto + 1, base as int));
    }
}

/// The forest after the first `n` lines, if they hold no error, has the
/// nodes of the depth-0 lines for its roots, every tree well placed, and
/// its open nodes are the last nodes made at their levels.
proof fn lemma_states_placed(lines: Seq<Seq<char>>, n: nat)
    requires
        n <= lines.len(),
        parse_state(lines, n).error is None,
    ensures
        forest_placed(lines, parse_state(lines, n).forest, n),
        chain_open(lines, parse_state(lines, n).forest, 0, n as int),
    decreases n,
{
    reveal(depth_at);
    if n > 0 {
        let m = (n - 1) as nat;
        let s = parse_state(lines, m);
        let after = parse_state(lines, n);
        assert(after == parse_step(s, lines[m as int], m));
        assert(s.error is None);
        lemma_states_placed(lines, m);
        let roots = root_lines(lines, m);
        match line_kind(lines[m as int], m) {
            LineKind::Shape(shape) => {
                let d = line_depth(lines[m as int], s.padding);
                assert(0 <= d <= open_depth(s.forest));
                assert(depth_at(lines, m as int) == Some(d));
                let node = Node { depth: d as nat, ..shape };
                assert(shape.line == m && shape.children.len() == 0);
                assert(well_placed(lines, node));
                assert(after.forest == placed(s.forest, d as nat, node));
                assert(trees_placed(lines, s.forest));
                if d == 0 {
                    assert(root_lines(lines, n) == roots.push(m));
                    assert(chain_open(lines, node.children, 1, n as int));
                } else {
                    let level = (d - 1) as nat;
                    let parent = open_node(s.forest, level);
                    lemma_open_node_placed(lines, s.forest, level, 0, m as int);
                    let grown = adopting(parent, node);
                    assert(grown.children.last() == node);
                    assert(well_placed(lines, grown)) by {
                        assert forall|j: int| 0 <= j < grown.children.len() implies {
                            let c = #[trigger] grown.children[j];
                            &&& c.depth == grown.depth + 1
                            &&& grown.line < c.line
                            &&& deeper_between(
                                lines,
                                grown.line as int,
                                c.line as int,
                                grown.depth as int,
                            )
                            &&& well_placed(lines, c)
                        } by {
                            if j < parent.children.len() {
                                assert(grown.children[j] == parent.children[j]);
                            }
                        }
                    }
                    assert(chain_open(lines, node.children, (d + 1) as nat, n as int));
                    assert(chain_open(lines, grown.children, d as nat, n as int));
                    lemma_replace_open(lines, s.forest, level, grown, 0, m as int);
                    assert(root_lines(lines, n) == roots);
                }
            },
            _ => {
                assert(depth_at(lines, m as int) is None);
                assert(after.forest == s.forest);
                lemma_chain_passes(lines, s.forest, 0, m as int);
            },
        }
    }
}

/// Where parsing succeeds, every node stands where its line puts it.
///
/// The roots are the nodes of the lines at depth 0, in the lines' order.
/// Each node has the depth of its line, each child lies one level below its
/// parent, and the parent is the last node that was made at that level
/// before the child: every node made between the two lies deeper.
pub proof fn lemma_parse_places_nodes(lines: Seq<Seq<char>>)
    requires
        parsed(lines) is Ok,
    ensures
        forest_placed(lines, parsed(lines)->Ok_0, lines.len()),
{
    lemma_states_placed(lines, lines.len());
}


/// At every point of a parse the open node at each level is the node that
/// the lookup for a new line must find: after the first `n` lines, if they
/// hold no error, the open node at `level` has that level for its depth,
/// comes from a line that makes a node at that level, and is the last such
/// node, since every node made after it lies deeper.
pub proof fn lemma_open_node_is_latest(lines: Seq<Seq<char>>, n: nat, level: nat)
    requires
        n <= lines.len(),
        parse_state(lines, n).error is None,
        level < open_depth(parse_state(lines, n).forest),
    ensures
        open_node(parse_state(lines, n).forest, level).depth == level,
        open_node(parse_state(lines, n).forest, level).line < n,
        depth_at(lines, open_node(parse_state(lines, n).forest, level).line as int) == Some(
            level as int,
        ),
        deeper_between(
            lines,
            open_node(parse_state(lines, n).forest, level).line as int,
            n as int,
            level as int,
        ),
{
    let forest = parse_state(lines, n).forest;
    lemma_states_placed(lines, n);
    assert(trees_placed(lines, forest)) by {
        assert forall|i: int| 0 <= i < forest.len() implies well_placed(
            lines,
            #[trigger] forest[i],
        ) by {}
    }
    lemma_open_node_placed(lines, forest, level, 0, n as int);
}

/// The lines of a node and of everything below it, the node's own line
/// first, then its children's in their order.
pub open spec fn lines_under(n: Node) -> Seq<nat>
    decreases n, 1nat,
{
    seq![n.line] + lines_in(n.children)
}

/// The lines of every tree of the forest, tree after tree.
pub open spec fn lines_in(forest: Seq<Node>) -> Seq<nat>
    decreases forest, 0nat,
{
    if forest.len() == 0 {
        Seq::empty()
    } else {
        lines_in(forest.drop_last()) + lines_under(forest.last())
    }
}

/// The indices below `n` of the lines that make a node, in order.
pub open spec fn node_lines(lines: Seq<Seq<char>>, n: nat) -> Seq<nat>
    decreases n,
{
    if n == 0 {
        Seq::empty()
    } else if depth_at(lines, n - 1) is Some {
        node_lines(lines, (n - 1) as nat).push((n - 1) as nat)
    } else {
        node_lines(lines, (n - 1) as nat)
    }
}

/// A node that becomes the last child of an open node comes last among the
/// lines of the forest.
proof fn lemma_adopted_comes_last(forest: Seq<Node>, level: nat, n: Node)
    requires
        level < open_depth(forest),
    ensures
        lines_in(with_open_node(forest, level, adopting(open_node(forest, level), n)))
            == lines_in(forest) + lines_under(n),
    decreases level,
{
    reveal_with_fuel(lines_in, 2);
    reveal_with_fuel(lines_under, 2);
    let last = forest.last();
    let grown = adopting(open_node(forest, level), n);
    let out = with_open_node(forest, level, grown);
    let front = forest.drop_last();
    assert(out.drop_last() =~= front);
    if level == 0 {
        assert(out.last() == grown);
        assert(grown.children.drop_last() =~= last.children);
        assert(lines_in(grown.children) == lines_in(last.children) + lines_under(n));
        assert(lines_in(front) + (seq![last.line] + (lines_in(last.children) + lines_under(n)))
            =~= (lines_in(front) + (seq![last.line] + lines_in(last.children))) + lines_under(n));
    } else {
        let kids = with_open_node(last.children, (level - 1) as nat, grown);
        lemma_adopted_comes_last(last.children, (level - 1) as nat, n);
        assert(out.last() == (Node { children: kids, ..last }));
        assert(lines_in(front) + (seq![last.line] + (lines_in(last.children) + lines_under(n)))
            =~= (lines_in(front) + (seq![last.line] + lines_in(last.children))) + lines_under(n));
    }
}

/// The lines of the forest after the first `n` lines are the lines that
/// made a node, in their order.
proof fn lemma_states_keep_order(lines: Seq<Seq<char>>, n: nat)
    requires
        n <= lines.len(),
        parse_state(lines, n).error is None,
    ensures
        lines_in(parse_state(lines, n).forest) == node_lines(lines, n),
    decreases n,
{
    reveal(depth_at);
    reveal_with_fuel(lines_in, 2);
    reveal_with_fuel(lines_under, 2);
    if n > 0 {
        let m = (n - 1) as nat;
        let s = parse_state(lines, m);
        let after = parse_state(lines, n);
        assert(after == parse_step(s, lines[m as int], m));
        lemma_states_keep_order(lines, m);
        match line_kind(lines[m as int], m) {
            LineKind::Shape(shape) => {
                let d = line_depth(lines[m as int], s.padding);
                let node = Node { depth: d as nat, ..shape };
                assert(shape.line == m && shape.children.len() == 0);
                assert(lines_in(node.children) =~= Seq::<nat>::empty());
                assert(lines_under(node) =~= seq![m]);
                assert(after.forest == placed(s.forest, d as nat, node));
                if d == 0 {
                    assert(after.forest.drop_last() =~= s.forest);
                } else {
                    lemma_adopted_comes_last(s.forest, (d - 1) as nat, node);
                }
                assert(lines_in(after.forest) =~= node_lines(lines, m).push(m));
            },
            _ => {},
        }
    } else {
        assert(lines_in(parse_state(lines, 0).forest) =~= Seq::<nat>::empty());
    }
}

/// Where parsing succeeds, the forest holds the lines that make a node,
/// each once and in the order of the source: going through the forest tree
/// by tree, each node before its children, meets the lines in that order.
pub proof fn lemma_parse_keeps_order(lines: Seq<Seq<char>>)
    requires
        parsed(lines) is Ok,
    ensures
        lines_in(parsed(lines)->Ok_0) == node_lines(lines, lines.len()),
{
    lemma_states_keep_order(lines, lines.len());
}

} // verus!
