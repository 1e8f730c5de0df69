//! One source file from text to document, through all four steps.

use vstd::prelude::*;
use crate::element::{document, render_document};
use crate::expand::{expand_lines, expanded_lines, listed, DirectiveError, FolderEntry, FolderModel};
use crate::parse::{parse, parsed, ParseError};
use crate::resolve::{resolve_lines, resolved_lines};
use crate::snippets::{split_lines, SnippetLibrary};
use crate::source::{strip, texts_of};
use crate::text::{split_on, texts};

verus! {

/// Why a source file cannot be compiled. Either way `line` is the index of
/// the source line at fault.
#[derive(Debug, Clone, Copy, PartialEq, Eq, Structural)]
pub enum CompileError {
    /// An iteration directive cannot be expanded.
    Directive(DirectiveError),
    /// A line that came from this source line cannot be parsed.
    Parse(ParseError),
}

/// The HTML document that the source lines stand for: iterations are
/// expanded over the listings, assignments, embeds and placeholders are
/// resolved against the snippets, the lines that remain are parsed into a
/// forest, and the forest is rendered. A line that cannot be parsed is
/// reported under the index of the source line that it came from.
pub open spec fn compiled_lines(
    lines: Seq<Seq<char>>,
    snippets: Map<Seq<char>, Seq<Seq<char>>>,
    listings: Seq<Seq<FolderModel>>,
) -> Result<Seq<char>, CompileError> {
    match expanded_lines(lines, listings) {
        Err(e) => Err(CompileError::Directive(e)),
        Ok(flat) => {
            let plain = resolved_lines(flat, snippets);
            match parsed(texts_of(plain)) {
                Err(e) => Err(
                    CompileError::Parse(
                        ParseError { line: plain[e.line as int].origin as usize, kind: e.kind },
                    ),
                ),
                Ok(forest) => Ok(document(forest)),
            }
        },
    }
}

/// The HTML document that a source text stands for.
pub open spec fn compiled(
    text: Seq<char>,
    snippets: Map<Seq<char>, Seq<Seq<char>>>,
    listings: Seq<Seq<FolderModel>>,
) -> Result<Seq<char>, CompileError> {
    compiled_lines(split_on(text, '\n'), snippets, listings)
}

/// Compiles the lines of one source file into an HTML document.
pub fn compile_lines(
    lines: &Vec<String>,
    snippets: &SnippetLibrary,
    listings: &Vec<Vec<FolderEntry>>,
) -> (r: Result<String, CompileError>)
    ensures
        match r {
            Ok(html) => compiled_lines(texts(lines@), snippets@, listed(listings@)) == Ok::<
                Seq<char>,
                CompileError,
            >(html@),
            Err(e) => compiled_lines(texts(lines@), snippets@, listed(listings@)) == Err::<
                Seq<char>,
                CompileError,
            >(e),
        },
{
    let flat = match expand_lines(lines, listings) {
        Ok(flat) => flat,
        Err(e) => {
            return Err(CompileError::Directive(e));
        },
    };
    let plain = resolve_lines(&flat, snippets);
    let forest = match parse(strip(&plain)) {
        Ok(forest) => forest,
        Err(e) => {
            let line = plain[e.line].origin;
            return Err(CompileError::Parse(ParseError { line, kind: e.kind }));
        },
    };
    Ok(render_document(&forest))
}

/// Compiles the text of one source file into an HTML document.
pub fn compile_source(
    text: &str,
    snippets: &SnippetLibrary,
    listings: &Vec<Vec<FolderEntry>>,
) -> (r: Result<String, CompileError>)
    ensures
        match r {
            Ok(html) => compiled(text@, snippets@, listed(listings@)) == Ok::<
                Seq<char>,
                CompileError,
            >(html@),
            Err(e) => compiled(text@, snippets@, listed(listings@)) == Err::<
                Seq<char>,
                CompileError,
            >(e),
        },
{
    let lines = split_lines(text);
    compile_lines(&lines, snippets, listings)
}

/// Compiling is a function of the source, the snippets and the listings
/// alone: the same inputs give the same document, character for character,
/// or the same error.
pub proof fn lemma_compile_repeatable(
    first: Result<Seq<char>, CompileError>,
    second: Result<Seq<char>, CompileError>,
    text: Seq<char>,
    snippets: Map<Seq<char>, Seq<Seq<char>>>,
    listings: Seq<Seq<FolderModel>>,
)
    requires
        first == compiled(text, snippets, listings),
        second == compiled(text, snippets, listings),
    ensures
        first == second,
{
}

} // verus!
