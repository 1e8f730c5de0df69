//! What a line says is what its node holds and what its rendering shows.

use vstd::prelude::*;
use crate::element::{
    attributes_text, close_tag, open_tag, rendered, rendered_lines, tabs, Node,
};
use crate::parse::{line_kind, line_tokens, marks_of, opens_tag, tag_shape, LineKind};
use crate::text::{join, lemma_join_push, lemma_join_split, starts_with, trim_start};
use crate::tokens::{extend_run, group_step, grouped, groups_of, roc_prefix, Grouping};

verus! {

/// The runs of a scan in the order of the line: the closed attribute
/// strings, then the open run if there is one.
pub open spec fn runs_of(g: Grouping) -> Seq<Seq<char>> {
    match g.run {
        Some(t) => g.attributes.push(t),
        None => g.attributes,
    }
}

/// No token is a click-navigation token.
pub open spec fn without_clicks(tokens: Seq<Seq<char>>) -> bool {
    forall|i: int| 0 <= i < tokens.len() ==> !starts_with(#[trigger] tokens[i], roc_prefix())
}

/// While no click token occurs, the scan keeps every token in its place:
/// no content run is closed before the end, and the runs, joined by single
/// spaces, spell the tokens joined by single spaces.
proof fn lemma_scan_keeps_tokens(tokens: Seq<Seq<char>>)
    requires
        without_clicks(tokens),
    ensures
        grouped(tokens).contents.len() == 0,
        (runs_of(grouped(tokens)).len() == 0) == (tokens.len() == 0),
        join(runs_of(grouped(tokens)), seq![' ']) == join(tokens, seq![' ']),
    decreases tokens.len(),
{
    let sep = seq![' '];
    if tokens.len() > 0 {
        let front = tokens.drop_last();
        let t = tokens.last();
        assert(without_clicks(front)) by {
            assert forall|i: int| 0 <= i < front.len() implies !starts_with(
                #[trigger] front[i],
                roc_prefix(),
            ) by {
                assert(front[i] == tokens[i]);
            }
        }
        lemma_scan_keeps_tokens(front);
        let g = grouped(front);
        let after = grouped(tokens);
        assert(after == group_step(g, t));
        let run = extend_run(g.run, t);
        assert(runs_of(after) == g.attributes.push(run));
        lemma_join_push(g.attributes, run, sep);
        assert(front.push(t) =~= tokens);
        lemma_join_push(front, t, sep);
        match g.run {
            Some(r) => {
                lemma_join_push(g.attributes, r, sep);
                if g.attributes.len() == 0 {
                } else {
                    assert(join(g.attributes, sep) + sep + (r + sep + t) =~= (join(
                        g.attributes,
                        sep,
                    ) + sep + r) + sep + t);
                }
            },
            None => {},
        }
    }
}

/// Grouping loses nothing: where no token is a click token and every quote
/// is closed, there is at most one content run, it comes last, and the
/// attribute strings followed by the content run, joined by single spaces,
/// spell the tokens joined by single spaces.
pub proof fn lemma_groups_keep_tokens(tokens: Seq<Seq<char>>)
    requires
        without_clicks(tokens),
        groups_of(tokens) is Some,
    ensures
        match groups_of(tokens) {
            Some((attributes, contents)) => contents.len() <= 1 && join(
                attributes + contents,
                seq![' '],
            ) == join(tokens, seq![' ']),
            None => false,
        },
{
    lemma_scan_keeps_tokens(tokens);
    let g = grouped(tokens);
    let (attributes, contents) = groups_of(tokens)->0;
    assert(attributes + contents =~= runs_of(g));
}

/// What a plain tag line says is what its node holds.
///
/// For a line that opens a tag by name, without class shorthand and
/// without click tokens, whose node is `n`: the tag is the first token
/// without its leading `>` characters; the attribute strings in their order,
/// followed by the content if there is any, spell the tokens after the
/// first; and the tokens together spell the line's text after its
/// indentation.
pub proof fn lemma_tag_line_round_trip(line: Seq<char>, index: nat, n: Node)
    requires
        line_kind(line, index) == LineKind::Shape(n),
        opens_tag(line_tokens(line)[0]),
        !opens_class(line_tokens(line)[0]),
        without_clicks(line_tokens(line).skip(1)),
    ensures
        n.tag == Some(line_tokens(line)[0].skip(marks_of(line_tokens(line)[0]) as int)),
        join(
            match n.content {
                Some(c) => n.attributes.push(c),
                None => n.attributes,
            },
            seq![' '],
        ) == join(line_tokens(line).skip(1), seq![' ']),
        join(line_tokens(line), seq![' ']) == trim_start(line),
{
    let tokens = line_tokens(line);
    lemma_join_split(trim_start(line), ' ');
    assert(tag_shape(tokens, index) == Some(n));
    lemma_groups_keep_tokens(tokens.skip(1));
    let (attributes, contents) = groups_of(tokens.skip(1))->0;
    if contents.len() == 1 {
        assert(contents =~= seq![contents[0]]);
        assert(join(contents, seq![' ']) == contents[0]);
        assert(attributes + contents =~= attributes.push(contents[0]));
    } else {
        assert(attributes + contents =~= attributes);
    }
}

/// Whether a tag token is class shorthand: its name starts with a dot.
pub open spec fn opens_class(token: Seq<char>) -> bool {
    let name = token.skip(marks_of(token) as int);
    name.len() > 0 && name[0] == '.'
}

/// A text line is kept as it is: its node has no tag, and its content is
/// the line's text after its indentation.
pub proof fn lemma_text_line_round_trip(line: Seq<char>, index: nat)
    requires
        line.len() > 0,
        !opens_tag(line_tokens(line)[0]),
    ensures
        line_kind(line, index) is Shape,
        line_kind(line, index)->Shape_0.tag is None,
        line_kind(line, index)->Shape_0.content == Some(trim_start(line)),
{
}


/// A node without children renders on one line, from its own parts alone:
/// a text node as its content behind its tabs; a tag node as its opening
/// tag with the attribute strings in their order, then its content and its
/// closing tag, or `/>` where it is void and has no content.
pub proof fn lemma_leaf_rendering(n: Node)
    requires
        n.children.len() == 0,
    ensures
        n.tag is None ==> rendered(n) == tabs(n.depth) + n.content->0,
        n.tag is Some && n.content is Some ==> rendered(n) == tabs(n.depth) + seq!['<'] + n.tag->0
            + attributes_text(n.attributes) + seq!['>'] + n.content->0 + close_tag(n.tag->0),
        n.tag is Some && n.content is None && n.void ==> rendered(n) == tabs(n.depth) + seq!['<']
            + n.tag->0 + attributes_text(n.attributes) + seq!['/', '>'],
        n.tag is Some && n.content is None && !n.void ==> rendered(n) == tabs(n.depth) + seq!['<']
            + n.tag->0 + attributes_text(n.attributes) + seq!['>'] + close_tag(n.tag->0),
{
    reveal_with_fuel(rendered, 2);
    assert(rendered_lines(n.children) =~= Seq::<char>::empty());
    if n.tag is Some {
        let open = open_tag(n);
        if n.content is Some {
            assert(open + seq!['>'] + n.content->0 + Seq::<char>::empty() + close_tag(n.tag->0)
                =~= open + seq!['>'] + n.content->0 + close_tag(n.tag->0));
        } else if n.void {
            assert(open + Seq::<char>::empty() + seq!['/', '>'] =~= open + seq!['/', '>']);
        } else {
            assert(open + seq!['>'] + Seq::<char>::empty() + close_tag(n.tag->0) =~= open
                + seq!['>'] + close_tag(n.tag->0));
        }
    }
}

} // verus!
