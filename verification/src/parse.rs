//! From resolved lines to a forest of elements.

use vstd::prelude::*;
use crate::element::{
    forest_well_formed, lemma_nodes_index, lemma_nodes_push, nodes, well_formed, Element, Node,
};
use crate::text::{
    append, chars_of, indent_of, join, join_rows, leading_spaces, rows, same_text, slice_of, split,
    split_on, string_of, strings_of, texts, trim_start,
};
use crate::tokens::{group_tokens, groups_of};
use crate::tree::{adopting, find_element_in_level, lemma_placed, open_depth, placed};

verus! {

/// How many columns of indentation make one level of depth.
pub const TAB_SIZE: usize = 4;

/// What is wrong with a line that cannot be parsed.
#[derive(Debug, Clone, Copy, PartialEq, Eq, Structural)]
pub enum ParseErrorKind {
    /// The line stands at a depth at which no node is open one level up.
    NoAncestor,
    /// The line ends while an attribute's quote is open.
    UnterminatedQuote,
}

/// A line that cannot be parsed: its index in the input, and why.
#[derive(Debug, Clone, Copy, PartialEq, Eq, Structural)]
pub struct ParseError {
    pub line: usize,
    pub kind: ParseErrorKind,
}

/// The tokens of a line: the pieces of its text after the indentation,
/// split at single spaces.
pub open spec fn line_tokens(line: Seq<char>) -> Seq<Seq<char>> {
    split_on(trim_start(line), ' ')
}

/// The number of `>` characters at the start of `s`.
pub open spec fn marks_of(s: Seq<char>) -> nat
    decreases s.len(),
{
    if s.len() > 0 && s[0] == '>' {
        1 + marks_of(s.drop_first())
    } else {
        0
    }
}

/// Whether a token opens a tag: it starts with `>`.
pub open spec fn opens_tag(token: Seq<char>) -> bool {
    token.len() > 0 && token[0] == '>'
}

/// The token that raises the padding counter.
pub open spec fn padding_right() -> Seq<char> {
    ">code_padding_right"@
}

/// The token that lowers the padding counter.
pub open spec fn padding_left() -> Seq<char> {
    ">code_padding_left"@
}

/// The tag name of class shorthand and of lines that are never void.
pub open spec fn div() -> Seq<char> {
    seq!['d', 'i', 'v']
}

/// The attribute that class shorthand stands for.
pub open spec fn class_attribute(class: Seq<char>) -> Seq<char> {
    "class=\""@ + class + seq!['"']
}

/// The node of a tag line with the given tokens, at depth 0 and without
/// children, or `None` where the line ends while an attribute's quote is
/// open.
///
/// The tag name is the first token without its leading `>` characters. A name
/// that starts with a dot is class shorthand: the tag is `div`, the rest of
/// the name becomes a `class` attribute after the line's other attributes.
/// Class shorthand and `div` are not void.
pub open spec fn tag_shape(tokens: Seq<Seq<char>>, line: nat) -> Option<Node> {
    let name = tokens[0].skip(marks_of(tokens[0]) as int);
    let shorthand = name.len() > 0 && name[0] == '.';
    match groups_of(tokens.skip(1)) {
        None => None,
        Some((attributes, contents)) => Some(
            Node {
                tag: Some(
                    if shorthand {
                        div()
                    } else {
                        name
                    },
                ),
                depth: 0,
                attributes: if shorthand {
                    attributes.push(class_attribute(name.skip(1)))
                } else {
                    attributes
                },
                content: if contents.len() > 0 {
                    Some(join(contents, seq![' ']))
                } else {
                    None
                },
                children: Seq::empty(),
                void: !shorthand && name != div(),
                line: line,
            },
        ),
    }
}

/// The node of a text line: its content is the line's text after the
/// indentation.
pub open spec fn text_shape(text: Seq<char>, line: nat) -> Node {
    Node {
        tag: None,
        depth: 0,
        attributes: Seq::empty(),
        content: Some(text),
        children: Seq::empty(),
        void: true,
        line: line,
    }
}

/// What a line is to the parser.
pub enum LineKind {
    /// An empty line: nothing happens.
    Blank,
    /// The padding counter goes up by one.
    PadRight,
    /// The padding counter goes down by one.
    PadLeft,
    /// A tag line that ends while a quote is open.
    Broken,
    /// A line that makes a node, given here at depth 0.
    Shape(Node),
}

/// What the line with index `index` is to the parser.
pub open spec fn line_kind(line: Seq<char>, index: nat) -> LineKind {
    let tokens = line_tokens(line);
    if line.len() == 0 {
        LineKind::Blank
    } else if !opens_tag(tokens[0]) {
        LineKind::Shape(text_shape(trim_start(line), index))
    } else if tokens[0] == padding_right() {
        LineKind::PadRight
    } else if tokens[0] == padding_left() {
        LineKind::PadLeft
    } else {
        match tag_shape(tokens, index) {
            None => LineKind::Broken,
            Some(n) => LineKind::Shape(n),
        }
    }
}

/// The depth of a line: one level for every `TAB_SIZE` columns of
/// indentation, plus the padding counter.
pub open spec fn line_depth(line: Seq<char>, padding: int) -> int {
    indent_of(line) as int / TAB_SIZE as int + padding
}

/// Where the parser stands: the forest built so far, the padding counter,
/// and the first error, after which nothing changes any more.
pub struct ParseState {
    pub forest: Seq<Node>,
    pub padding: int,
    pub error: Option<ParseError>,
}

/// The parser's state after the line with index `index`.
pub open spec fn parse_step(s: ParseState, line: Seq<char>, index: nat) -> ParseState {
    if s.error is Some {
        s
    } else {
        match line_kind(line, index) {
            LineKind::Blank => s,
            LineKind::PadRight => ParseState { padding: s.padding + 1, ..s },
            LineKind::PadLeft => ParseState { padding: s.padding - 1, ..s },
            LineKind::Broken => ParseState {
                error: Some(
                    ParseError { line: index as usize, kind: ParseErrorKind::UnterminatedQuote },
                ),
                ..s
            },
            LineKind::Shape(shape) => {
                let depth = line_depth(line, s.padding);
                if 0 <= depth <= open_depth(s.forest) {
                    ParseState {
                        forest: placed(
                            s.forest,
                            depth as nat,
                            Node { depth: depth as nat, ..shape },
                        ),
                        ..s
                    }
                } else {
                    ParseState {
                        error: Some(
                            ParseError { line: index as usize, kind: ParseErrorKind::NoAncestor },
                        ),
                        ..s
                    }
                }
            },
        }
    }
}

/// The parser's state after the first `n` lines.
pub open spec fn parse_state(lines: Seq<Seq<char>>, n: nat) -> ParseState
    decreases n,
{
    if n == 0 {
        ParseState { forest: Seq::empty(), padding: 0, error: None }
    } else {
        parse_step(parse_state(lines, (n - 1) as nat), lines[n - 1], (n - 1) as nat)
    }
}

/// The forest that the lines stand for, or the first line that cannot be
/// parsed.
pub open spec fn parsed(lines: Seq<Seq<char>>) -> Result<Seq<Node>, ParseError> {
    let end = parse_state(lines, lines.len());
    match end.error {
        Some(e) => Err(e),
        None => Ok(end.forest),
    }
}


/// After the first error nothing changes: the state after `n` lines is the
/// final state.
pub proof fn lemma_error_stays(lines: Seq<Seq<char>>, n: nat, m: nat)
    requires
        n <= m,
        parse_state(lines, n).error is Some,
    ensures
        parse_state(lines, m) == parse_state(lines, n),
    decreases m - n,
{
    if n < m {
        lemma_error_stays(lines, n, (m - 1) as nat);
    }
}

/// The first `n` characters of `s` are `>` and the next one, if there is
/// one, is not: then `s` starts with `n` marks.
pub proof fn lemma_marks_of(s: Seq<char>, n: nat)
    requires
        n <= s.len(),
        forall|k: int| 0 <= k < n ==> #[trigger] s[k] == '>',
        n < s.len() ==> s[n as int] != '>',
    ensures
        marks_of(s) == n,
    decreases n,
{
    if n > 0 {
        let t = s.drop_first();
        assert forall|k: int| 0 <= k < n - 1 implies #[trigger] t[k] == '>' by {
            assert(t[k] == s[k + 1]);
        }
        lemma_marks_of(t, (n - 1) as nat);
    }
}

/// Counts the `>` characters at the start of `s`.
fn leading_marks(s: &[char]) -> (n: usize)
    ensures
        n == marks_of(s@),
        n <= s@.len(),
{
    let mut i: usize = 0;
    while i < s.len() && s[i] == '>'
        invariant
            i <= s.len(),
            forall|k: int| 0 <= k < i ==> #[trigger] s@[k] == '>',
        decreases s.len() - i,
    {
        i += 1;
    }
    proof {
        lemma_marks_of(s@, i as nat);
    }
    i
}

/// Builds the element of a tag line from its tokens, at depth 0.
fn tag_element(words: &Vec<Vec<char>>, line: usize) -> (r: Option<Element>)
    requires
        words@.len() >= 1,
    ensures
        match r {
            Some(e) => tag_shape(rows(words@), line as nat) == Some(e@),
            None => tag_shape(rows(words@), line as nat) is None,
        },
{
    let first = &words[0];
    let marks = leading_marks(first.as_slice());
    let name = slice_of(first.as_slice(), marks, first.len());
    assert(name@ =~= rows(words@)[0].skip(marks as int));
    let shorthand = name.len() > 0 && name[0] == '.';
    let (mut attributes, contents) = match group_tokens(words, 1) {
        None => {
            return None;
        },
        Some(groups) => groups,
    };
    let ghost plain = rows(attributes@);
    let d: Vec<char> = vec!['d', 'i', 'v'];
    assert(d@ =~= div());
    let tag = if shorthand {
        let mut class = chars_of("class=\"");
        let rest = slice_of(name.as_slice(), 1, name.len());
        assert(rest@ =~= name@.skip(1));
        append(&mut class, rest.as_slice());
        class.push('"');
        assert(class@ =~= class_attribute(name@.skip(1)));
        attributes.push(class);
        assert(rows(attributes@) =~= plain.push(class_attribute(name@.skip(1))));
        d.clone()
    } else {
        name
    };
    let void = !shorthand && !same_text(tag.as_slice(), d.as_slice());
    let content = if contents.len() > 0 {
        let joined = join_rows(&contents, ' ');
        Some(string_of(joined.as_slice()))
    } else {
        None
    };
    let e = Element {
        tag: Some(string_of(tag.as_slice())),
        depth: 0,
        attributes: strings_of(&attributes),
        content,
        children: Vec::new(),
        void,
        line,
    };
    proof {
        lemma_nodes_index(e.children@);
        assert(e@.children =~= Seq::<Node>::empty());
    }
    Some(e)
}

/// Builds the element of a text line, at depth 0.
fn text_element(text: &[char], line: usize) -> (e: Element)
    ensures
        e@ == text_shape(text@, line as nat),
{
    let e = Element {
        tag: None,
        depth: 0,
        attributes: Vec::new(),
        content: Some(string_of(text)),
        children: Vec::new(),
        void: true,
        line,
    };
    proof {
        lemma_nodes_index(e.children@);
        assert(e@.children =~= Seq::<Node>::empty());
        assert(e@.attributes =~= Seq::<Seq<char>>::empty());
    }
    e
}

/// What a line is to the parser, in executable form.
enum Line {
    Blank,
    PadRight,
    PadLeft,
    Broken,
    Shape(Element),
}

/// Reads the line with index `index`: what it is to the parser, and how
/// many characters of white space it starts with.
fn read_line(line: &[char], index: usize) -> (r: (Line, usize))
    ensures
        r.1 == indent_of(line@),
        match r.0 {
            Line::Blank => line_kind(line@, index as nat) is Blank,
            Line::PadRight => line_kind(line@, index as nat) is PadRight,
            Line::PadLeft => line_kind(line@, index as nat) is PadLeft,
            Line::Broken => line_kind(line@, index as nat) is Broken,
            Line::Shape(e) => line_kind(line@, index as nat) == LineKind::Shape(e@),
        },
{
    let l = leading_spaces(line);
    if line.len() == 0 {
        return (Line::Blank, l);
    }
    let body = slice_of(line, l, line.len());
    assert(body@ =~= trim_start(line@));
    let words = split(body.as_slice(), ' ');
    let first = &words[0];
    assert(first@ == line_tokens(line@)[0]);
    if !(first.len() > 0 && first[0] == '>') {
        return (Line::Shape(text_element(body.as_slice(), index)), l);
    }
    let right = chars_of(">code_padding_right");
    if same_text(first.as_slice(), right.as_slice()) {
        return (Line::PadRight, l);
    }
    let left = chars_of(">code_padding_left");
    if same_text(first.as_slice(), left.as_slice()) {
        return (Line::PadLeft, l);
    }
    match tag_element(&words, index) {
        None => (Line::Broken, l),
        Some(e) => (Line::Shape(e), l),
    }
}

/// Parses resolved lines into a forest of elements.
///
/// Each line that is not empty and does not adjust the padding counter
/// makes one node, placed by its depth: at depth 0 a new root, else a new
/// last child of the node that is open one level up. Parsing stops at the
/// first line that has no such node, or that ends while an attribute's
/// quote is open.
pub fn parse(lines: Vec<String>) -> (r: Result<Vec<Element>, ParseError>)
    ensures
        match r {
            Ok(forest) => parsed(texts(lines@)) == Ok::<Seq<Node>, ParseError>(nodes(forest@))
                && forest_well_formed(nodes(forest@)),
            Err(e) => parsed(texts(lines@)) == Err::<Seq<Node>, ParseError>(e) && e.line
                < lines@.len(),
        },
{
    let ghost all = texts(lines@);
    let mut forest: Vec<Element> = Vec::new();
    let mut padding: i128 = 0;
    let mut i: usize = 0;
    proof {
        lemma_nodes_index(forest@);
        assert(nodes(forest@) =~= Seq::<Node>::empty());
    }
    while i < lines.len()
        invariant
            i <= lines@.len(),
            all == texts(lines@),
            -i <= padding <= i,
            parse_state(all, i as nat) == (ParseState {
                forest: nodes(forest@),
                padding: padding as int,
                error: None,
            }),
            forest_well_formed(nodes(forest@)),
            open_depth(nodes(forest@)) <= i,
        decreases lines.len() - i,
    {
        let line = chars_of(lines[i].as_str());
        assert(line@ == all[i as int]);
        let (kind, l) = read_line(line.as_slice(), i);
        match kind {
            Line::Blank => {},
            Line::PadRight => {
                padding += 1;
            },
            Line::PadLeft => {
                padding -= 1;
            },
            Line::Broken => {
                let e = ParseError { line: i, kind: ParseErrorKind::UnterminatedQuote };
                proof {
                    assert(parse_state(all, (i + 1) as nat).error == Some(e));
                    lemma_error_stays(all, (i + 1) as nat, all.len());
                }
                return Err(e);
            },
            Line::Shape(mut element) => {
                let depth: i128 = (l / TAB_SIZE) as i128 + padding;
                assert(depth == line_depth(line@, padding as int));
                let ghost shape = element@;
                let ghost old_forest = nodes(forest@);
                let e = ParseError { line: i, kind: ParseErrorKind::NoAncestor };
                // No more levels are open than lines were read, so a depth above `i`
                // has no place, and any other depth fits a `usize`.
                if depth < 0 || depth > i as i128 {
                    proof {
                        assert(parse_state(all, (i + 1) as nat).error == Some(e));
                        lemma_error_stays(all, (i + 1) as nat, all.len());
                    }
                    return Err(e);
                }
                element.depth = depth as usize;
                let ghost node = element@;
                proof {
                    assert(node == (Node { depth: depth as nat, ..shape }));
                    assert(well_formed(node));
                    if depth <= open_depth(old_forest) {
                        lemma_placed(old_forest, depth as nat, node);
                    }
                }
                if depth == 0 {
                    proof {
                        lemma_nodes_push(forest@, element);
                    }
                    forest.push(element);
                } else {
                    match find_element_in_level(&mut forest, depth as usize) {
                        None => {
                            proof {
                                assert(parse_state(all, (i + 1) as nat).error == Some(e));
                                lemma_error_stays(all, (i + 1) as nat, all.len());
                            }
                            return Err(e);
                        },
                        Some(parent) => {
                            let ghost was = *parent;
                            proof {
                                lemma_nodes_push(parent.children@, element);
                            }
                            parent.children.push(element);
                            parent.void = false;
                            assert(parent@ == adopting(was@, node));
                        },
                    }
                }
                assert(nodes(forest@) == placed(old_forest, depth as nat, node));
            },
        }
        i += 1;
    }
    Ok(forest)
}

} // verus!
