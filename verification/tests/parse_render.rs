use md_compiler::element::Element;
use md_compiler::parse::{parse, ParseError, ParseErrorKind};

fn lines(src: &[&str]) -> Vec<String> {
    src.iter().map(|s| s.to_string()).collect()
}

fn render_all(forest: &[Element]) -> Vec<String> {
    forest.iter().map(|e| e.render()).collect()
}

#[test]
fn click_token_becomes_onclick_attribute() {
    let forest = parse(lines(&[">a roc=/home Home"])).unwrap();
    assert_eq!(forest.len(), 1);
    assert_eq!(
        forest[0].render(),
        "<a onclick=\"window.location='/home'\">Home</a>"
    );
}

#[test]
fn nested_lines_become_children() {
    let forest = parse(lines(&[
        ">div class=\"box\" Title",
        "    >p Hello world",
        "    >br",
        "    plain text",
        ">.card",
    ]))
    .unwrap();
    assert_eq!(forest.len(), 2);
    assert_eq!(forest[0].children.len(), 3);
    assert_eq!(
        render_all(&forest),
        vec![
            "<div class=\"box\">\n    Title\n\t<p>Hello world</p>\n\t<br/>\n\tplain text\n</div>"
                .to_string(),
            "<div class=\"card\"></div>".to_string(),
        ]
    );
}

#[test]
fn first_line_below_depth_zero_has_no_ancestor() {
    let r = parse(lines(&["    >p orphan"]));
    assert_eq!(
        r,
        Err(ParseError { line: 0, kind: ParseErrorKind::NoAncestor })
    );
}

#[test]
fn open_quote_is_an_error() {
    let r = parse(lines(&[">p ok", ">a href=\"x y"]));
    assert_eq!(
        r,
        Err(ParseError { line: 1, kind: ParseErrorKind::UnterminatedQuote })
    );
}
