//! The output tree and its rendering as HTML.

use vstd::prelude::*;
use crate::text::{append, chars_of, join, occurs_at, starts_with, string_of, texts};

verus! {

/// The mathematical value of an [`Element`]: a node of the output tree.
pub struct Node {
    pub tag: Option<Seq<char>>,
    pub depth: nat,
    pub attributes: Seq<Seq<char>>,
    pub content: Option<Seq<char>>,
    pub children: Seq<Node>,
    pub void: bool,
    pub line: nat,
}

/// A node of the output tree.
///
/// `tag` is `None` for a text node. `depth` is the nesting level, `line` the
/// index of the input line that the node came from.
#[derive(Debug, PartialEq, Eq)]
pub struct Element {
    pub tag: Option<String>,
    pub depth: usize,
    pub attributes: Vec<String>,
    pub content: Option<String>,
    pub children: Vec<Element>,
    pub void: bool,
    pub line: usize,
}

/// The values of a sequence of elements.
pub open spec fn nodes(es: Seq<Element>) -> Seq<Node>
    decreases es,
{
    if es.len() == 0 {
        Seq::<Node>::empty()
    } else {
        nodes(es.drop_last()).push(es.last()@)
    }
}

impl View for Element {
    type V = Node;

    open spec fn view(&self) -> Node
        decreases self,
    {
        Node {
            tag: match self.tag {
                Some(t) => Some(t@),
                None => None,
            },
            depth: self.depth as nat,
            attributes: texts(self.attributes@),
            content: match self.content {
                Some(c) => Some(c@),
                None => None,
            },
            children: nodes(self.children@),
            void: self.void,
            line: self.line as nat,
        }
    }
}


/// The values of a sequence of elements, one by one.
pub proof fn lemma_nodes_index(es: Seq<Element>)
    ensures
        nodes(es).len() == es.len(),
        forall|i: int| 0 <= i < es.len() ==> (#[trigger] nodes(es)[i]) == es[i]@,
    decreases es.len(),
{
    reveal_with_fuel(nodes, 2);
    if es.len() > 0 {
        lemma_nodes_index(es.drop_last());
    }
}

/// Pushing an element pushes its value.
pub proof fn lemma_nodes_push(es: Seq<Element>, e: Element)
    ensures
        nodes(es.push(e)) == nodes(es).push(e@),
{
    assert(es.push(e).drop_last() =~= es);
}

/// The invariant of a node and of everything below it: a node that has
/// children is not void, and a text node has content.
pub open spec fn well_formed(n: Node) -> bool
    decreases n,
{
    &&& n.children.len() > 0 ==> !n.void
    &&& n.tag is None ==> n.content is Some
    &&& forall|i: int| 0 <= i < n.children.len() ==> well_formed(#[trigger] n.children[i])
}

/// Every node of the forest is well formed.
pub open spec fn forest_well_formed(ns: Seq<Node>) -> bool {
    forall|i: int| 0 <= i < ns.len() ==> well_formed(#[trigger] ns[i])
}

/// `n` tab characters.
pub open spec fn tabs(n: nat) -> Seq<char> {
    Seq::new(n, |i: int| '\t')
}

/// The attribute strings as they stand inside an opening tag: each one
/// preceded by a space.
pub open spec fn attributes_text(attributes: Seq<Seq<char>>) -> Seq<char> {
    if attributes.len() == 0 {
        Seq::<char>::empty()
    } else {
        seq![' '] + join(attributes, seq![' '])
    }
}

/// The opening tag of `n` without its closing bracket.
pub open spec fn open_tag(n: Node) -> Seq<char> {
    tabs(n.depth) + seq!['<'] + n.tag->0 + attributes_text(n.attributes)
}

/// The closing tag for the tag name `name`.
pub open spec fn close_tag(name: Seq<char>) -> Seq<char> {
    seq!['<', '/'] + name + seq!['>']
}

/// What a node's text holds before the text of its children.
pub open spec fn head_text(n: Node) -> Seq<char> {
    if n.tag is None {
        tabs(n.depth) + n.content->0
    } else if n.children.len() > 0 {
        if n.content is Some {
            open_tag(n) + seq!['>', '\n'] + (tabs(n.depth) + seq![' ', ' ', ' ', ' '] + n.content->0
                + seq!['\n'])
        } else {
            open_tag(n) + seq!['>', '\n']
        }
    } else if n.content is Some {
        open_tag(n) + seq!['>'] + n.content->0
    } else if n.void {
        open_tag(n)
    } else {
        open_tag(n) + seq!['>']
    }
}

/// What a node's text holds after the text of its children.
pub open spec fn tail_text(n: Node) -> Seq<char> {
    if n.tag is None {
        Seq::<char>::empty()
    } else if n.children.len() > 0 {
        tabs(n.depth) + close_tag(n.tag->0)
    } else if n.content is None && n.void {
        seq!['/', '>']
    } else {
        close_tag(n.tag->0)
    }
}

/// The HTML text of a node and of all nodes below it.
pub open spec fn rendered(n: Node) -> Seq<char>
    decreases n, 1nat,
{
    if n.tag is None {
        head_text(n)
    } else {
        head_text(n) + rendered_lines(n.children) + tail_text(n)
    }
}

/// The HTML text of each node in turn, each followed by a line break.
pub open spec fn rendered_lines(ns: Seq<Node>) -> Seq<char>
    decreases ns, 0nat,
{
    if ns.len() == 0 {
        Seq::<char>::empty()
    } else {
        rendered_lines(ns.drop_last()) + rendered(ns.last()) + seq!['\n']
    }
}


fn push_tabs(out: &mut Vec<char>, n: usize)
    ensures
        final(out)@ == old(out)@ + tabs(n as nat),
{
    let mut i: usize = 0;
    assert(out@ =~= old(out)@ + tabs(0));
    while i < n
        invariant
            i <= n,
            out@ == old(out)@ + tabs(i as nat),
        decreases n - i,
    {
        out.push('\t');
        i += 1;
        assert(out@ =~= old(out)@ + tabs(i as nat));
    }
}

fn push_text(out: &mut Vec<char>, s: &String)
    ensures
        final(out)@ == old(out)@ + s@,
{
    let cs = chars_of(s.as_str());
    append(out, cs.as_slice());
}

fn push_attributes(out: &mut Vec<char>, attributes: &Vec<String>)
    ensures
        final(out)@ == old(out)@ + attributes_text(texts(attributes@)),
{
    let ghost all = texts(attributes@);
    if attributes.len() == 0 {
        assert(out@ =~= old(out)@ + attributes_text(all));
        return ;
    }
    out.push(' ');
    let mut i: usize = 0;
    assert(out@ =~= old(out)@ + seq![' '] + join(all.take(0), seq![' ']));
    while i < attributes.len()
        invariant
            i <= attributes@.len(),
            all == texts(attributes@),
            out@ == old(out)@ + seq![' '] + join(all.take(i as int), seq![' ']),
        decreases attributes.len() - i,
    {
        proof {
            assert(all.take(i + 1).drop_last() =~= all.take(i as int));
            assert(all.take(i + 1).last() == attributes@[i as int]@);
        }
        if i > 0 {
            out.push(' ');
        }
        push_text(out, &attributes[i]);
        i += 1;
        assert(out@ =~= old(out)@ + seq![' '] + join(all.take(i as int), seq![' ']));
    }
    assert(all.take(i as int) =~= all);
    assert(out@ =~= old(out)@ + attributes_text(all));
}

fn push_close_tag(out: &mut Vec<char>, name: &String)
    ensures
        final(out)@ == old(out)@ + close_tag(name@),
{
    out.push('<');
    out.push('/');
    push_text(out, name);
    out.push('>');
    assert(out@ =~= old(out)@ + close_tag(name@));
}

impl Element {
    /// Whether the element and everything below it keep the tree's
    /// invariant.
    pub open spec fn well_formed(&self) -> bool {
        well_formed(self@)
    }

    fn push_open_tag(&self, out: &mut Vec<char>)
        requires
            self.tag is Some,
        ensures
            final(out)@ == old(out)@ + open_tag(self@),
    {
        push_tabs(out, self.depth);
        out.push('<');
        match &self.tag {
            Some(name) => {
                push_text(out, name);
            },
            None => {},
        }
        push_attributes(out, &self.attributes);
        assert(out@ =~= old(out)@ + open_tag(self@));
    }

    fn push_head(&self, out: &mut Vec<char>)
        requires
            well_formed(self@),
        ensures
            final(out)@ == old(out)@ + head_text(self@),
    {
        proof {
            lemma_nodes_index(self.children@);
        }
        if self.tag.is_none() {
            push_tabs(out, self.depth);
            match &self.content {
                Some(c) => {
                    push_text(out, c);
                },
                None => {},
            }
            assert(out@ =~= old(out)@ + head_text(self@));
            return ;
        }
        self.push_open_tag(out);
        let ghost opened = out@;
        if self.children.len() > 0 {
            out.push('>');
            out.push('\n');
            assert(out@ =~= opened + seq!['>', '\n']);
            match &self.content {
                Some(c) => {
                    let ghost mid = out@;
                    push_tabs(out, self.depth);
                    out.push(' ');
                    out.push(' ');
                    out.push(' ');
                    out.push(' ');
                    push_text(out, c);
                    out.push('\n');
                    assert(out@ =~= mid + (tabs(self.depth as nat) + seq![' ', ' ', ' ', ' '] + c@
                        + seq!['\n']));
                },
                None => {},
            }
        } else {
            match &self.content {
                Some(c) => {
                    out.push('>');
                    push_text(out, c);
                    assert(out@ =~= opened + seq!['>'] + c@);
                },
                None => {
                    if !self.void {
                        out.push('>');
                        assert(out@ =~= opened + seq!['>']);
                    }
                },
            }
        }
    }

    fn push_tail(&self, out: &mut Vec<char>)
        ensures
            final(out)@ == old(out)@ + tail_text(self@),
    {
        proof {
            lemma_nodes_index(self.children@);
        }
        match &self.tag {
            None => {
                assert(out@ =~= old(out)@ + tail_text(self@));
            },
            Some(name) => {
                if self.children.len() > 0 {
                    let ghost start = out@;
                    push_tabs(out, self.depth);
                    push_close_tag(out, name);
                    assert(out@ =~= start + (tabs(self.depth as nat) + close_tag(name@)));
                } else if self.content.is_none() && self.void {
                    out.push('/');
                    out.push('>');
                    assert(out@ =~= old(out)@ + seq!['/', '>']);
                } else {
                    push_close_tag(out, name);
                }
            },
        }
    }

    fn render_into(&self, out: &mut Vec<char>)
        requires
            well_formed(self@),
        ensures
            final(out)@ == old(out)@ + rendered(self@),
        decreases self,
    {
        proof {
            reveal_with_fuel(rendered, 2);
            lemma_nodes_index(self.children@);
        }
        self.push_head(out);
        if self.tag.is_none() {
            return ;
        }
        let ghost head = out@;
        let ghost kids = nodes(self.children@);
        let mut i: usize = 0;
        assert(out@ =~= head + rendered_lines(kids.take(0)));
        while i < self.children.len()
            invariant
                i <= self.children@.len(),
                kids == nodes(self.children@),
                kids.len() == self.children@.len(),
                forall|k: int| 0 <= k < kids.len() ==> (#[trigger] kids[k]) == self.children@[k]@,
                well_formed(self@),
                out@ == head + rendered_lines(kids.take(i as int)),
            decreases self.children.len() - i,
        {
            let ghost before = out@;
            proof {
                reveal_with_fuel(rendered_lines, 2);
                assert(kids.take(i + 1).drop_last() =~= kids.take(i as int));
                assert(kids.take(i + 1).last() == kids[i as int]);
                assert(well_formed(self@.children[i as int]));
            }
            self.children[i].render_into(out);
            out.push('\n');
            assert(out@ =~= before + (rendered(kids[i as int]) + seq!['\n']));
            i += 1;
            assert(out@ =~= head + rendered_lines(kids.take(i as int)));
        }
        assert(kids.take(i as int) =~= kids);
        let ghost body = out@;
        self.push_tail(out);
        assert(out@ =~= old(out)@ + rendered(self@));
    }

    /// The HTML text of the element and of everything below it.
    pub fn render(&self) -> (html: String)
        requires
            self.well_formed(),
        ensures
            html@ == rendered(self@),
    {
        let mut out: Vec<char> = Vec::new();
        self.render_into(&mut out);
        assert(out@ =~= rendered(self@));
        string_of(out.as_slice())
    }
}

/// The text that every document starts with: the document type and the
/// opening tag without anything between them, then a line break.
pub open spec fn document_head() -> Seq<char> {
    "<!DOCTYPE html><html>\n"@
}

/// The text that every document ends with.
pub open spec fn document_tail() -> Seq<char> {
    "</html>"@
}

/// The HTML document of a forest: the roots in order, one to a line,
/// between the document's head and tail.
pub open spec fn document(forest: Seq<Node>) -> Seq<char> {
    document_head() + rendered_lines(forest) + document_tail()
}

/// Every document starts with the document type and the opening tag, with
/// nothing between them, and ends with the closing tag.
pub proof fn lemma_document_frame(forest: Seq<Node>)
    ensures
        starts_with(document(forest), "<!DOCTYPE html><html>"@),
        occurs_at(document(forest), "</html>"@, document(forest).len() - "</html>"@.len()),
{
    reveal_strlit("<!DOCTYPE html><html>\n");
    reveal_strlit("<!DOCTYPE html><html>");
    reveal_strlit("</html>");
    let text = document(forest);
    let head = "<!DOCTYPE html><html>"@;
    let tail = "</html>"@;
    assert(text.subrange(0, head.len() as int) =~= head);
    assert(text.subrange(text.len() - tail.len(), text.len() as int) =~= tail);
}

/// Renders a forest as an HTML document.
pub fn render_document(forest: &Vec<Element>) -> (html: String)
    requires
        forest_well_formed(nodes(forest@)),
    ensures
        html@ == document(nodes(forest@)),
{
    let ghost roots = nodes(forest@);
    proof {
        lemma_nodes_index(forest@);
    }
    let mut out = chars_of("<!DOCTYPE html><html>\n");
    let mut i: usize = 0;
    assert(out@ =~= document_head() + rendered_lines(roots.take(0)));
    while i < forest.len()
        invariant
            i <= forest@.len(),
            roots == nodes(forest@),
            roots.len() == forest@.len(),
            forall|k: int| 0 <= k < roots.len() ==> (#[trigger] roots[k]) == forest@[k]@,
            forest_well_formed(roots),
            out@ == document_head() + rendered_lines(roots.take(i as int)),
        decreases forest.len() - i,
    {
        let ghost before = out@;
        proof {
            reveal_with_fuel(rendered_lines, 2);
            assert(roots.take(i + 1).drop_last() =~= roots.take(i as int));
            assert(roots.take(i + 1).last() == roots[i as int]);
            assert(well_formed(roots[i as int]));
        }
        forest[i].render_into(&mut out);
        out.push('\n');
        assert(out@ =~= before + (rendered(roots[i as int]) + seq!['\n']));
        i += 1;
        assert(out@ =~= document_head() + rendered_lines(roots.take(i as int)));
    }
    assert(roots.take(i as int) =~= roots);
    let tail = chars_of("</html>");
    append(&mut out, tail.as_slice());
    string_of(out.as_slice())
}

} // verus!
