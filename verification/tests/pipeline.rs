use md_compiler::compile::{compile_source, CompileError};
use md_compiler::expand::{
    expand, expand_lines, requests, DirectiveError, DirectiveErrorKind, FileEntry, FolderEntry,
    FolderRequest,
};
use md_compiler::metadata::{file_metadata, folder_metadata};
use md_compiler::parse::{parse, ParseError, ParseErrorKind};
use md_compiler::resolve::{resolve, resolve_lines};
use md_compiler::scope::{replace_variables, Scope};
use md_compiler::snippets::{split_lines, SnippetLibrary};
use md_compiler::source::{number, strip, SourceLine};
use md_compiler::text::repeat_spaces;

fn lines(src: &[&str]) -> Vec<String> {
    src.iter().map(|s| s.to_string()).collect()
}

fn folder(url: &str, settings: Option<&str>, files: Vec<FileEntry>) -> FolderEntry {
    FolderEntry { url: url.to_string(), settings: settings.map(|s| s.to_string()), files }
}

fn file(url: &str, text: &str) -> FileEntry {
    FileEntry { url: url.to_string(), text: text.to_string() }
}

#[test]
fn repeat_spaces_prefixes_spaces() {
    assert_eq!(repeat_spaces(">p x".to_string(), 4), "    >p x");
    assert_eq!(repeat_spaces("x".to_string(), 0), "x");
    assert_eq!(repeat_spaces(String::new(), 2), "  ");
}

#[test]
fn replace_variables_replaces_bound_names_only() {
    let mut scope = Scope::new();
    scope.insert("title".to_string(), "Home".to_string());
    scope.insert("n".to_string(), "1".to_string());
    assert_eq!(
        replace_variables(&scope, ">h1 {{title}} {{missing}} {{n}}{{n}}".to_string()),
        ">h1 Home {{missing}} 11"
    );
    assert_eq!(replace_variables(&scope, "no placeholders".to_string()), "no placeholders");
    assert_eq!(replace_variables(&scope, "{{title".to_string()), "{{title");
    assert_eq!(replace_variables(&scope, "{{{{title}}".to_string()), "{{Home");
    assert_eq!(replace_variables(&scope, "}}{{title}}{{".to_string()), "}}Home{{");
}

#[test]
fn replace_variables_does_not_rescan_values() {
    let mut scope = Scope::new();
    scope.insert("a".to_string(), "{{b}}".to_string());
    scope.insert("b".to_string(), "x".to_string());
    assert_eq!(replace_variables(&scope, "{{a}} {{b}}".to_string()), "{{b}} x");
}

#[test]
fn later_assignment_overwrites_earlier() {
    let mut scope = Scope::new();
    scope.insert("k".to_string(), "1".to_string());
    scope.insert("k".to_string(), "2".to_string());
    assert_eq!(scope.get("k"), Some(&"2".to_string()));
    assert_eq!(scope.get("other"), None);
}

#[test]
fn split_lines_keeps_empty_pieces() {
    assert_eq!(split_lines("a\n\nb\n"), lines(&["a", "", "b", ""]));
    assert_eq!(split_lines(""), lines(&[""]));
}

#[test]
fn embed_is_indented_by_the_embedding_line() {
    let mut snippets = SnippetLibrary::new();
    snippets.insert("footer".to_string(), "  >p Contact us");
    let out = resolve(&lines(&["    ++footer"]), &snippets);
    assert_eq!(out, lines(&["      >p Contact us"]));
}

#[test]
fn embed_of_unknown_snippet_is_dropped() {
    let snippets = SnippetLibrary::new();
    let out = resolve(&lines(&[">p a", "++nothing", ">p b"]), &snippets);
    assert_eq!(out, lines(&[">p a", ">p b"]));
}

#[test]
fn assignment_binds_and_is_not_put_out() {
    let mut snippets = SnippetLibrary::new();
    snippets.insert("head".to_string(), ">title {{title}}\n>meta {{other}}");
    let out = resolve(
        &lines(&["title=My page", "", "++head", "  >h1 {{title}}", "\t>p x=1", "  y=2"]),
        &snippets,
    );
    assert_eq!(
        out,
        lines(&[">title My page", ">meta {{other}}", "  >h1 My page", " >p x=1", "  y=2"])
    );
}

#[test]
fn assignment_value_ends_at_second_equals() {
    let snippets = SnippetLibrary::new();
    let out = resolve(&lines(&["a=b=c", "{{a}}"]), &snippets);
    assert_eq!(out, lines(&["b"]));
}

#[test]
fn folder_metadata_reads_settings_file() {
    let m = folder_metadata("docs/a", Some("title=A\nbroken\nx=y=z\nurl=custom"));
    assert_eq!(m.get("title"), Some(&"A".to_string()));
    assert_eq!(m.get("url"), Some(&"custom".to_string()));
    assert_eq!(m.get("x"), None);
    assert_eq!(m.get("broken"), None);
    let bare = folder_metadata("docs/b", None);
    assert_eq!(bare.get("url"), Some(&"docs/b".to_string()));
}

#[test]
fn file_metadata_reads_top_level_settings() {
    let m = file_metadata("docs/a/one.html", "title=One\n  inner=no\n>p a=b\nurl=x\n>h1 t");
    assert_eq!(m.get("title"), Some(&"One".to_string()));
    assert_eq!(m.get("  inner"), None);
    assert_eq!(m.get("inner"), None);
    assert_eq!(m.get(">p a"), None);
    assert_eq!(m.get("url"), Some(&"docs/a/one.html".to_string()));
}

#[test]
fn folder_iteration_expands_once_per_folder() {
    let src = lines(&["for_each_folder=include/docs", ">h1 {{title}}", ";;;", ">p end"]);
    let listing = vec![folder("docs/a", Some("title=A"), vec![]), folder("docs/b", Some("title=B"), vec![])];
    let flat = expand(&src, &vec![listing]).unwrap();
    assert_eq!(flat, lines(&[">h1 A", ">h1 B", ">p end"]));
    let forest = parse(resolve(&flat, &SnippetLibrary::new())).unwrap();
    let html: Vec<String> = forest.iter().map(|e| e.render()).collect();
    assert_eq!(html, lines(&["<h1>A</h1>", "<h1>B</h1>", "<p>end</p>"]));
}

#[test]
fn folder_iteration_over_no_folders_puts_out_nothing() {
    let src = lines(&[">p a", "for_each_folder=x", ">h1 {{title}}", ";;;", ">p b"]);
    let flat = expand(&src, &vec![vec![]]).unwrap();
    assert_eq!(flat, lines(&[">p a", ">p b"]));
}

#[test]
fn file_iteration_expands_once_per_file() {
    let src = lines(&[
        "for_each_folder=include/docs",
        ">h2 {{title}} {{url}}",
        "for_each_md_in_current_folder",
        "    >a href=\"{{url}}\" {{title}}",
        ";;;",
        ">hr",
        ";;;",
        ">p after",
    ]);
    let a = folder(
        "docs/a",
        Some("title=A"),
        vec![file("docs/a/one.html", "title=One\n>p"), file("docs/a/two.html", "title=Two")],
    );
    let b = folder("docs/b", None, vec![]);
    let flat = expand(&src, &vec![vec![a, b]]).unwrap();
    assert_eq!(
        flat,
        lines(&[
            ">h2 A docs/a",
            "    >a href=\"docs/a/one.html\" One",
            "    >a href=\"docs/a/two.html\" Two",
            ">hr",
            ">h2 {{title}} docs/b",
            ">hr",
            ">p after",
        ])
    );
}

#[test]
fn requests_list_paths_in_order() {
    let src = lines(&[
        "for_each_folder=include/docs",
        "for_each_md_in_current_folder",
        ">p {{title}}",
        ";;;",
        ";;;",
        ">p mid",
        "for_each_folder=include/blog=ignored",
        ">p {{title}}",
        ";;;",
    ]);
    assert_eq!(
        requests(&src),
        Ok(vec![
            FolderRequest { line: 0, path: "include/docs".to_string(), wants_files: true },
            FolderRequest { line: 6, path: "include/blog".to_string(), wants_files: false },
        ])
    );
}

#[test]
fn directive_errors_name_the_line() {
    let no_path = lines(&[">p a", "for_each_folder", ";;;"]);
    let e = DirectiveError { line: 1, kind: DirectiveErrorKind::MissingPath };
    assert_eq!(requests(&no_path), Err(e));
    assert_eq!(expand(&no_path, &vec![vec![]]), Err(e));

    let empty_path = lines(&["for_each_folder=", ";;;"]);
    assert_eq!(
        requests(&empty_path),
        Err(DirectiveError { line: 0, kind: DirectiveErrorKind::MissingPath })
    );

    let open = lines(&["for_each_folder=x", ">p a"]);
    let e = DirectiveError { line: 0, kind: DirectiveErrorKind::Unterminated };
    assert_eq!(requests(&open), Err(e));
    assert_eq!(expand(&open, &vec![vec![]]), Err(e));

    let inner_open = lines(&["for_each_folder=x", "for_each_md_in_current_folder", ">p a", ";;;"]);
    assert_eq!(requests(&inner_open), Err(e));

    let two = lines(&["for_each_folder=x", ";;;", "for_each_folder=y", ";;;"]);
    assert_eq!(
        expand(&two, &vec![vec![]]),
        Err(DirectiveError { line: 2, kind: DirectiveErrorKind::MissingListing })
    );
}

#[test]
fn compile_source_builds_a_document() {
    let mut snippets = SnippetLibrary::new();
    snippets.insert("footer".to_string(), ">footer\n    >p {{owner}}");
    let text = "owner=Ann\n>.page\n    >h1 Hello\n    ++footer\n";
    let html = compile_source(text, &snippets, &vec![]).unwrap();
    assert_eq!(
        html,
        "<!DOCTYPE html><html>\n<div class=\"page\">\n\t<h1>Hello</h1>\n\t<footer>\n\t\t<p>Ann</p>\n\t</footer>\n</div>\n</html>"
    );
}

#[test]
fn compile_source_twice_gives_the_same_document() {
    let mut snippets = SnippetLibrary::new();
    snippets.insert("s".to_string(), ">p {{v}}");
    let text = "v=1\n>div\n    ++s\nfor_each_folder=d\n>h1 {{title}}\n;;;";
    let listing = vec![vec![folder("a", Some("title=A"), vec![])]];
    let first = compile_source(text, &snippets, &listing);
    let second = compile_source(text, &snippets, &listing);
    assert!(first.is_ok());
    assert_eq!(first, second);
}

#[test]
fn compile_source_reports_errors() {
    let snippets = SnippetLibrary::new();
    assert_eq!(
        compile_source("for_each_folder=x\n>p", &snippets, &vec![]),
        Err(CompileError::Directive(DirectiveError {
            line: 0,
            kind: DirectiveErrorKind::Unterminated
        }))
    );
    assert_eq!(
        compile_source("a=1\n>p\n        >b deep", &snippets, &vec![]),
        Err(CompileError::Parse(ParseError { line: 2, kind: ParseErrorKind::NoAncestor }))
    );
    assert_eq!(
        compile_source(">p title=\"open", &snippets, &vec![]),
        Err(CompileError::Parse(ParseError { line: 0, kind: ParseErrorKind::UnterminatedQuote }))
    );
    assert_eq!(
        compile_source("", &snippets, &vec![]),
        Ok("<!DOCTYPE html><html>\n</html>".to_string())
    );
}

#[test]
fn parse_errors_name_the_source_line() {
    let mut snippets = SnippetLibrary::new();
    snippets.insert("bad".to_string(), ">p ok\n>a href=\"open");
    assert_eq!(
        compile_source("x=1\n\n>div\n    ++bad\n>p", &snippets, &vec![]),
        Err(CompileError::Parse(ParseError { line: 3, kind: ParseErrorKind::UnterminatedQuote }))
    );
    let text = ">p\nfor_each_folder=d\n>h1 {{title}}\n        >b too deep\n;;;";
    let listing = vec![vec![folder("a", Some("title=A"), vec![]), folder("b", None, vec![])]];
    assert_eq!(
        compile_source(text, &snippets, &listing),
        Err(CompileError::Parse(ParseError { line: 3, kind: ParseErrorKind::NoAncestor }))
    );
}

#[test]
fn expand_lines_keeps_origins() {
    let src = lines(&[">p a", "for_each_folder=d", ">h1 {{title}}", ";;;", ">p b"]);
    let listing = vec![folder("a", Some("title=A"), vec![]), folder("b", Some("title=B"), vec![])];
    let out = expand_lines(&src, &vec![listing]).unwrap();
    let seen: Vec<(usize, String)> =
        out.iter().map(|l| (l.origin, l.text.iter().collect())).collect();
    assert_eq!(
        seen,
        vec![
            (0, ">p a".to_string()),
            (2, ">h1 A".to_string()),
            (2, ">h1 B".to_string()),
            (4, ">p b".to_string()),
        ]
    );
    let plain = resolve_lines(&out, &SnippetLibrary::new());
    let origins: Vec<usize> = plain.iter().map(|l| l.origin).collect();
    assert_eq!(origins, vec![0, 2, 2, 4]);
}

#[test]
fn one_listing_for_each_request_is_enough() {
    let src = lines(&[
        "for_each_folder=a",
        ">p {{url}}",
        ";;;",
        ">hr",
        "for_each_folder=b",
        "for_each_md_in_current_folder",
        ">p {{url}}",
        ";;;",
        ";;;",
    ]);
    let asked = requests(&src).unwrap();
    assert_eq!(asked.len(), 2);
    let listings: Vec<Vec<FolderEntry>> = asked
        .iter()
        .map(|r| vec![folder(&r.path, None, vec![file("f.html", "")])])
        .collect();
    assert_eq!(
        expand(&src, &listings),
        Ok(lines(&[">p a", ">hr", ">p f.html"]))
    );
}

#[test]
fn number_and_strip_keep_the_texts() {
    let src = lines(&["a", "", "  b"]);
    let numbered = number(&src);
    assert_eq!(
        numbered,
        vec![
            SourceLine { origin: 0, text: vec!['a'] },
            SourceLine { origin: 1, text: vec![] },
            SourceLine { origin: 2, text: vec![' ', ' ', 'b'] },
        ]
    );
    assert_eq!(strip(&numbered), src);
}

#[test]
fn folder_iteration_compiles_to_one_heading_per_folder() {
    let text = "for_each_folder=include/docs\n>h1 {{title}}\n;;;";
    let asked = requests(&split_lines(text)).unwrap();
    assert_eq!(
        asked,
        vec![FolderRequest { line: 0, path: "include/docs".to_string(), wants_files: false }]
    );
    let listing = vec![vec![folder("a", Some("title=A"), vec![]), folder("b", Some("title=B"), vec![])]];
    let html = compile_source(text, &SnippetLibrary::new(), &listing).unwrap();
    assert_eq!(html, "<!DOCTYPE html><html>\n<h1>A</h1>\n<h1>B</h1>\n</html>");
    assert!(html.starts_with("<!DOCTYPE html><html>"));
    assert!(html.ends_with("</html>"));
    assert!(!html.contains("{{title}}"));
    assert!(!html.contains("for_each_folder"));
    assert!(!html.contains(";;;"));
}

#[test]
fn body_is_copied_whole_for_each_folder_in_listing_order() {
    let src = lines(&["for_each_folder=d", ">h1 {{title}}", "    >p {{url}}", ";;;"]);
    let listing = vec![
        folder("d/a", Some("title=A"), vec![]),
        folder("d/b", Some("title=B"), vec![]),
        folder("d/c", Some("title=C"), vec![]),
    ];
    let out = expand_lines(&src, &vec![listing]).unwrap();
    let seen: Vec<(usize, String)> =
        out.iter().map(|l| (l.origin, l.text.iter().collect())).collect();
    assert_eq!(
        seen,
        vec![
            (1, ">h1 A".to_string()),
            (2, "    >p d/a".to_string()),
            (1, ">h1 B".to_string()),
            (2, "    >p d/b".to_string()),
            (1, ">h1 C".to_string()),
            (2, "    >p d/c".to_string()),
        ]
    );
}
