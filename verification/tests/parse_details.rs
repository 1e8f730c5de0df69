use md_compiler::element::{render_document, Element};
use md_compiler::parse::{parse, ParseError, ParseErrorKind, TAB_SIZE};
use md_compiler::text::{is_space_char, leading_spaces, split};
use md_compiler::tokens::group_tokens;
use md_compiler::tree::{find_element_in_level, get_element_in_level, has_open_level};

fn lines(src: &[&str]) -> Vec<String> {
    src.iter().map(|s| s.to_string()).collect()
}

fn chars(s: &str) -> Vec<char> {
    s.chars().collect()
}

fn words(src: &[&str]) -> Vec<Vec<char>> {
    src.iter().map(|s| chars(s)).collect()
}

fn strings(rows: &[Vec<char>]) -> Vec<String> {
    rows.iter().map(|r| r.iter().collect()).collect()
}

fn leaf(tag: Option<&str>, depth: usize, attributes: &[&str], content: Option<&str>, void: bool, line: usize) -> Element {
    Element {
        tag: tag.map(|t| t.to_string()),
        depth,
        attributes: attributes.iter().map(|a| a.to_string()).collect(),
        content: content.map(|c| c.to_string()),
        children: vec![],
        void,
        line,
    }
}

#[test]
fn tab_size_is_four() {
    assert_eq!(TAB_SIZE, 4);
}

#[test]
fn single_word_tag_is_void() {
    let forest = parse(lines(&[">br"])).unwrap();
    assert_eq!(forest, vec![leaf(Some("br"), 0, &[], None, true, 0)]);
    assert_eq!(forest[0].render(), "<br/>");
}

#[test]
fn div_is_never_void() {
    let forest = parse(lines(&[">div"])).unwrap();
    assert_eq!(forest, vec![leaf(Some("div"), 0, &[], None, false, 0)]);
    assert_eq!(forest[0].render(), "<div></div>");
}

#[test]
fn class_shorthand_makes_a_div_with_a_class() {
    let forest = parse(lines(&[">.card id=\"a\" Text here"])).unwrap();
    assert_eq!(
        forest,
        vec![leaf(Some("div"), 0, &["id=\"a\"", "class=\"card\""], Some("Text here"), false, 0)]
    );
    assert_eq!(forest[0].render(), "<div id=\"a\" class=\"card\">Text here</div>");
}

#[test]
fn attributes_and_content_are_told_apart() {
    let forest = parse(lines(&[">a href=\"/x\" title=\"two words\" Click me now"])).unwrap();
    assert_eq!(
        forest,
        vec![leaf(
            Some("a"),
            0,
            &["href=\"/x\"", "title=\"two words\""],
            Some("Click me now"),
            true,
            0
        )]
    );
    assert_eq!(
        forest[0].render(),
        "<a href=\"/x\" title=\"two words\">Click me now</a>"
    );
}

#[test]
fn quote_may_close_many_tokens_later() {
    let forest = parse(lines(&[">p title=\"a b c d\""])).unwrap();
    assert_eq!(forest[0].attributes, vec!["title=\"a b c d\"".to_string()]);
    assert_eq!(forest[0].content, None);
    assert_eq!(forest[0].render(), "<p title=\"a b c d\"/>");
}

#[test]
fn bare_tokens_before_an_attribute_join_it() {
    let forest = parse(lines(&[">p hello class=\"x\" tail"])).unwrap();
    assert_eq!(forest[0].attributes, vec!["hello class=\"x\"".to_string()]);
    assert_eq!(forest[0].content, Some("tail".to_string()));
}

#[test]
fn click_token_between_content_runs() {
    let forest = parse(lines(&[">a Go roc=/home to home"])).unwrap();
    assert_eq!(forest[0].attributes, vec!["onclick=\"window.location='/home'\"".to_string()]);
    assert_eq!(forest[0].content, Some("Go to home".to_string()));
}

#[test]
fn click_token_keeps_later_roc_text() {
    let forest = parse(lines(&[">a roc=/a?roc=b"])).unwrap();
    assert_eq!(
        forest[0].attributes,
        vec!["onclick=\"window.location='/a?roc=b'\"".to_string()]
    );
    assert_eq!(forest[0].content, None);
    assert_eq!(forest[0].render(), "<a onclick=\"window.location='/a?roc=b'\"/>");
}

#[test]
fn click_token_cuts_an_open_quote_short() {
    let forest = parse(lines(&[">a title=\"x roc=/y z\""])).unwrap();
    assert_eq!(
        forest[0].attributes,
        vec!["onclick=\"window.location='/y'\"".to_string(), "title=\"x".to_string()]
    );
    assert_eq!(forest[0].content, Some("z\"".to_string()));
    assert_eq!(
        forest[0].render(),
        "<a onclick=\"window.location='/y'\" title=\"x>z\"</a>"
    );
}

#[test]
fn click_token_last_on_the_line_closes_the_quote() {
    let forest = parse(lines(&[">a title=\"x roc=/y"])).unwrap();
    assert_eq!(
        forest[0].attributes,
        vec!["onclick=\"window.location='/y'\"".to_string(), "title=\"x".to_string()]
    );
    assert_eq!(forest[0].content, None);
    assert_eq!(
        parse(lines(&[">a roc=/y title=\"x"])),
        Err(ParseError { line: 0, kind: ParseErrorKind::UnterminatedQuote })
    );
}

#[test]
fn text_line_is_kept_whole() {
    let forest = parse(lines(&[">p", "    some text with a=\"b\" in it"])).unwrap();
    assert_eq!(
        forest[0].children,
        vec![leaf(None, 1, &[], Some("some text with a=\"b\" in it"), true, 1)]
    );
    assert_eq!(forest[0].render(), "<p>\n\tsome text with a=\"b\" in it\n</p>");
}

#[test]
fn leading_marks_are_all_stripped() {
    let forest = parse(lines(&[">>>p x"])).unwrap();
    assert_eq!(forest[0].tag, Some("p".to_string()));
    let bare = parse(lines(&[">"])).unwrap();
    assert_eq!(bare[0].tag, Some(String::new()));
    assert_eq!(bare[0].render(), "</>");
}

#[test]
fn trailing_space_gives_empty_content() {
    let forest = parse(lines(&[">p "])).unwrap();
    assert_eq!(forest[0].content, Some(String::new()));
    assert_eq!(forest[0].render(), "<p></p>");
}

#[test]
fn double_space_is_kept_in_content() {
    let forest = parse(lines(&[">p a  b"])).unwrap();
    assert_eq!(forest[0].content, Some("a  b".to_string()));
}

#[test]
fn empty_lines_are_skipped() {
    let forest = parse(lines(&["", ">p a", "", ">p b"])).unwrap();
    assert_eq!(forest.len(), 2);
    assert_eq!(forest[0].line, 1);
    assert_eq!(forest[1].line, 3);
}

#[test]
fn depth_is_indentation_divided_by_tab_size() {
    let forest = parse(lines(&[">a", "   >b", "    >c", "       >d", "        >e"])).unwrap();
    let tags: Vec<Option<String>> = forest.iter().map(|e| e.tag.clone()).collect();
    assert_eq!(tags, vec![Some("a".to_string()), Some("b".to_string())]);
    assert_eq!(forest[1].children.len(), 2);
    assert_eq!(forest[1].children[0].tag, Some("c".to_string()));
    assert_eq!(forest[1].children[0].depth, 1);
    assert_eq!(forest[1].children[1].tag, Some("d".to_string()));
    assert_eq!(forest[1].children[1].children[0].tag, Some("e".to_string()));
    assert_eq!(forest[1].children[1].children[0].depth, 2);
}

#[test]
fn a_tab_counts_as_one_column() {
    assert_eq!(
        parse(lines(&[">a", "\t>b"])).unwrap().len(),
        2
    );
    let forest = parse(lines(&[">a", "\t\t\t\t>b"])).unwrap();
    assert_eq!(forest.len(), 1);
    assert_eq!(forest[0].children[0].depth, 1);
}

#[test]
fn node_goes_under_the_last_node_one_level_up() {
    let forest = parse(lines(&[
        ">a",
        "    >b",
        "        >c",
        "    >d",
        "        >e",
        "            >f",
        "        >g",
        ">h",
        "    >i",
    ]))
    .unwrap();
    fn shape(e: &Element) -> String {
        let kids: Vec<String> = e.children.iter().map(shape).collect();
        format!("{}{}[{}]", e.tag.clone().unwrap(), e.depth, kids.join(","))
    }
    let shapes: Vec<String> = forest.iter().map(shape).collect();
    assert_eq!(
        shapes,
        vec!["a0[b1[c2[]],d1[e2[f3[]],g2[]]]".to_string(), "h0[i1[]]".to_string()]
    );
    assert_eq!(forest[0].children[1].children[1].line, 6);
}

#[test]
fn a_node_with_children_is_not_void() {
    let forest = parse(lines(&[">p", "    >br"])).unwrap();
    assert!(!forest[0].void);
    assert!(forest[0].children[0].void);
    assert_eq!(forest[0].render(), "<p>\n\t<br/>\n</p>");
}

#[test]
fn skipping_a_level_is_an_error() {
    assert_eq!(
        parse(lines(&[">a", "        >c"])),
        Err(ParseError { line: 1, kind: ParseErrorKind::NoAncestor })
    );
    assert_eq!(
        parse(lines(&[">a", "    >b", ">c", "        >d"])),
        Err(ParseError { line: 3, kind: ParseErrorKind::NoAncestor })
    );
}

#[test]
fn padding_lines_shift_the_depth() {
    let forest = parse(lines(&[
        ">div",
        ">code_padding_right",
        ">p inside",
        "    >b deeper",
        ">code_padding_left ignored words",
        ">p outside",
    ]))
    .unwrap();
    assert_eq!(forest.len(), 2);
    assert_eq!(forest[0].children.len(), 1);
    assert_eq!(forest[0].children[0].content, Some("inside".to_string()));
    assert_eq!(forest[0].children[0].depth, 1);
    assert_eq!(forest[0].children[0].children[0].depth, 2);
    assert_eq!(forest[1].content, Some("outside".to_string()));
    assert_eq!(forest[1].depth, 0);
}

#[test]
fn padding_below_zero_leaves_no_place() {
    assert_eq!(
        parse(lines(&[">code_padding_left", ">p"])),
        Err(ParseError { line: 1, kind: ParseErrorKind::NoAncestor })
    );
    let forest = parse(lines(&[">code_padding_left", "    >p"])).unwrap();
    assert_eq!(forest[0].depth, 0);
}

#[test]
fn first_error_wins() {
    assert_eq!(
        parse(lines(&[">p a=\"", "        >q", ">r b=\""])),
        Err(ParseError { line: 0, kind: ParseErrorKind::UnterminatedQuote })
    );
    assert_eq!(
        parse(lines(&["    >q b=\"", ">r"])),
        Err(ParseError { line: 0, kind: ParseErrorKind::UnterminatedQuote })
    );
}

#[test]
fn render_covers_every_form() {
    let mut with_both = leaf(Some("ul"), 1, &["id=\"l\""], Some("Items"), false, 0);
    with_both.children.push(leaf(Some("li"), 2, &[], Some("one"), true, 1));
    with_both.children.push(leaf(None, 2, &[], Some("loose"), false, 2));
    assert_eq!(
        with_both.render(),
        "\t<ul id=\"l\">\n\t    Items\n\t\t<li>one</li>\n\t\tloose\n\t</ul>"
    );
    let mut without_content = leaf(Some("ul"), 0, &[], None, false, 0);
    without_content.children.push(leaf(Some("hr"), 1, &[], None, true, 1));
    assert_eq!(without_content.render(), "<ul>\n\t<hr/>\n</ul>");
    assert_eq!(leaf(Some("p"), 2, &["a=\"1\"", "b=\"2\""], Some("t"), true, 0).render(), "\t\t<p a=\"1\" b=\"2\">t</p>");
    assert_eq!(leaf(Some("img"), 0, &["src=\"x\""], None, true, 0).render(), "<img src=\"x\"/>");
    assert_eq!(leaf(Some("span"), 0, &[], None, false, 0).render(), "<span></span>");
    assert_eq!(leaf(None, 3, &[], Some("text"), false, 0).render(), "\t\t\ttext");
}

#[test]
fn document_wraps_the_roots() {
    let forest = parse(lines(&[">h1 Title", ">p", "    text"])).unwrap();
    assert_eq!(
        render_document(&forest),
        "<!DOCTYPE html><html>\n<h1>Title</h1>\n<p>\n\ttext\n</p>\n</html>"
    );
    assert_eq!(render_document(&vec![]), "<!DOCTYPE html><html>\n</html>");
}

#[test]
fn get_element_in_level_finds_the_open_node() {
    let mut forest = parse(lines(&[">a", "    >b", ">c", "    >d", "    >e", "        >f"])).unwrap();
    assert_eq!(get_element_in_level(&mut forest, 1).tag, Some("c".to_string()));
    assert_eq!(get_element_in_level(&mut forest, 2).tag, Some("e".to_string()));
    assert_eq!(get_element_in_level(&mut forest, 3).tag, Some("f".to_string()));
    get_element_in_level(&mut forest, 2).content = Some("changed".to_string());
    assert_eq!(forest[1].children[1].content, Some("changed".to_string()));
    assert_eq!(forest[1].children[0].content, None);
    assert_eq!(forest[0].children[0].content, None);
}

#[test]
fn has_open_level_counts_the_chain() {
    let forest = parse(lines(&[">a", "    >b", "        >c", ">d", "    >e"])).unwrap();
    assert!(has_open_level(&forest, 0));
    assert!(has_open_level(&forest, 1));
    assert!(has_open_level(&forest, 2));
    assert!(!has_open_level(&forest, 3));
    assert!(has_open_level(&vec![], 0));
    assert!(!has_open_level(&vec![], 1));
}

#[test]
fn group_tokens_groups_runs() {
    let w = words(&[">p", "a=\"1", "2\"", "b=\"3\"", "free", "text"]);
    let (attributes, contents) = group_tokens(&w, 1).unwrap();
    assert_eq!(strings(&attributes), vec!["a=\"1 2\"".to_string(), "b=\"3\"".to_string()]);
    assert_eq!(strings(&contents), vec!["free text".to_string()]);
    assert_eq!(group_tokens(&w, 6), Some((vec![], vec![])));
    assert_eq!(group_tokens(&words(&["x=\"1"]), 0), None);
}

#[test]
fn split_gives_one_piece_more_than_separators() {
    assert_eq!(strings(&split(&chars("a=b="), '=')), vec!["a".to_string(), "b".to_string(), String::new()]);
    assert_eq!(strings(&split(&chars(""), ' ')), vec![String::new()]);
    assert_eq!(strings(&split(&chars("abc"), ' ')), vec!["abc".to_string()]);
}

#[test]
fn white_space_is_unicode_white_space() {
    for c in [' ', '\t', '\n', '\r', '\u{0B}', '\u{0C}', '\u{85}', '\u{A0}', '\u{1680}', '\u{2000}', '\u{200A}', '\u{2028}', '\u{2029}', '\u{202F}', '\u{205F}', '\u{3000}'] {
        assert!(is_space_char(c));
        assert!(c.is_whitespace());
    }
    for c in ['a', '>', '\u{200B}', '\u{180E}', '\u{FEFF}', '\u{1F}', '\u{0E}'] {
        assert!(!is_space_char(c));
        assert!(!c.is_whitespace());
    }
    let mut c = '\0';
    loop {
        assert_eq!(is_space_char(c), c.is_whitespace());
        if c == char::MAX {
            break;
        }
        c = char::from_u32(c as u32 + 1).unwrap_or('\u{E000}');
    }
    assert_eq!(leading_spaces(&chars(" \t\u{3000}x y")), 3);
    assert_eq!(leading_spaces(&chars("   ")), 3);
    assert_eq!(leading_spaces(&chars("")), 0);
}

#[test]
fn find_element_in_level_reports_a_missing_level() {
    let mut empty: Vec<Element> = vec![];
    assert!(find_element_in_level(&mut empty, 0).is_none());
    assert!(find_element_in_level(&mut empty, 1).is_none());
    assert!(empty.is_empty());

    let mut forest = parse(lines(&[">a", "    >b", ">c", "    >d"])).unwrap();
    assert!(find_element_in_level(&mut forest, 0).is_none());
    assert_eq!(find_element_in_level(&mut forest, 1).map(|e| e.tag.clone()), Some(Some("c".to_string())));
    assert_eq!(find_element_in_level(&mut forest, 1).map(|e| e.depth), Some(0));
    assert_eq!(find_element_in_level(&mut forest, 2).map(|e| e.tag.clone()), Some(Some("d".to_string())));
    assert_eq!(find_element_in_level(&mut forest, 2).map(|e| e.depth), Some(1));
    assert!(find_element_in_level(&mut forest, 3).is_none());
    assert!(find_element_in_level(&mut forest, usize::MAX).is_none());
    if let Some(found) = find_element_in_level(&mut forest, 2) {
        found.content = Some("changed".to_string());
    }
    assert_eq!(forest[1].children[0].content, Some("changed".to_string()));
    assert_eq!(forest[0].children[0].content, None);
}
