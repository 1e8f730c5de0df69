//! Assignments, embeds and placeholders.

use vstd::prelude::*;
use crate::scope::{substitute, substituted, Scope};
use crate::snippets::SnippetLibrary;
use crate::source::{
    lemma_sourced_push, number, numbered, sourced, strip, texts_of, SourceLine, Sourced,
};
use crate::text::{
    chars_of, has_char, indent, indent_of, indented, leading_spaces, matches_at, slice_of, split,
    split_on, starts_with, string_of, texts, trim_start,
};

verus! {

/// The two characters that an embed line starts with.
pub open spec fn embed_mark() -> Seq<char> {
    seq!['+', '+']
}

/// The lines that stand for an embedded snippet: each line of the snippet
/// with its placeholders replaced, behind `l` spaces and its own
/// indentation. They come from the source line `origin`, which embeds them.
pub open spec fn embedded(
    snippet: Seq<Seq<char>>,
    scope: Map<Seq<char>, Seq<char>>,
    l: nat,
    origin: nat,
) -> Seq<Sourced> {
    Seq::new(
        snippet.len(),
        |k: int| Sourced { origin: origin, text: indented(substituted(snippet[k], scope), l) },
    )
}

/// Where the resolving pass stands: the variables assigned so far and the
/// lines put out so far.
pub struct Resolution {
    pub scope: Map<Seq<char>, Seq<char>>,
    pub lines: Seq<Sourced>,
}

/// The pass after one more line.
///
/// An empty line is dropped. A line without indentation that holds `=` and
/// no `>` assigns: the text before the first `=` names the variable, the
/// text up to the next `=` or the line's end is its value. A line without
/// `>` whose text starts with `++` embeds the snippet named by the rest, or
/// nothing if there is no such snippet. Any other line has its placeholders
/// replaced and its indentation rewritten as spaces.
pub open spec fn resolve_step(
    r: Resolution,
    snippets: Map<Seq<char>, Seq<Seq<char>>>,
    line: Sourced,
) -> Resolution {
    let l = indent_of(line.text);
    let body = trim_start(line.text);
    let tag = body.contains('>');
    if line.text.len() == 0 {
        r
    } else if body.contains('=') && l == 0 && !tag {
        let parts = split_on(body, '=');
        if parts.len() > 1 {
            Resolution { scope: r.scope.insert(parts[0], parts[1]), ..r }
        } else {
            r
        }
    } else if !tag && starts_with(body, embed_mark()) {
        let name = body.skip(2);
        if snippets.contains_key(name) {
            Resolution { lines: r.lines + embedded(snippets[name], r.scope, l, line.origin), ..r }
        } else {
            r
        }
    } else {
        Resolution {
            lines: r.lines.push(
                Sourced { origin: line.origin, text: indented(substituted(body, r.scope), l) },
            ),
            ..r
        }
    }
}

/// The pass after the first `n` lines.
pub open spec fn resolve_state(
    lines: Seq<Sourced>,
    snippets: Map<Seq<char>, Seq<Seq<char>>>,
    n: nat,
) -> Resolution
    decreases n,
{
    if n == 0 {
        Resolution { scope: Map::empty(), lines: Seq::empty() }
    } else {
        resolve_step(resolve_state(lines, snippets, (n - 1) as nat), snippets, lines[n - 1])
    }
}

/// The lines that are left once assignments, embeds and placeholders are
/// resolved, each with the origin of the line that it came from.
pub open spec fn resolved_lines(
    lines: Seq<Sourced>,
    snippets: Map<Seq<char>, Seq<Seq<char>>>,
) -> Seq<Sourced> {
    resolve_state(lines, snippets, lines.len()).lines
}

/// The texts that are left once assignments, embeds and placeholders are
/// resolved.
pub open spec fn resolved(lines: Seq<Seq<char>>, snippets: Map<Seq<char>, Seq<Seq<char>>>) -> Seq<
    Seq<char>,
> {
    texts_of(resolved_lines(numbered(lines), snippets))
}

/// Appends the lines of an embedded snippet to `out`.
fn embed(out: &mut Vec<SourceLine>, snippet: &Vec<String>, scope: &Scope, l: usize, origin: usize)
    ensures
        sourced(final(out)@) == sourced(old(out)@) + embedded(
            texts(snippet@),
            scope@,
            l as nat,
            origin as nat,
        ),
{
    let ghost all = embedded(texts(snippet@), scope@, l as nat, origin as nat);
    let mut k: usize = 0;
    assert(sourced(out@) =~= sourced(old(out)@) + all.take(0));
    while k < snippet.len()
        invariant
            k <= snippet@.len(),
            all == embedded(texts(snippet@), scope@, l as nat, origin as nat),
            sourced(out@) == sourced(old(out)@) + all.take(k as int),
        decreases snippet.len() - k,
    {
        let chars = chars_of(snippet[k].as_str());
        let replaced = substitute(scope, chars.as_slice());
        let line = SourceLine { origin, text: indent(replaced.as_slice(), l) };
        proof {
            lemma_sourced_push(out@, line);
            assert(line@ == all[k as int]);
            assert(all.take(k + 1) =~= all.take(k as int).push(all[k as int]));
        }
        out.push(line);
        k += 1;
        assert(sourced(out@) =~= sourced(old(out)@) + all.take(k as int));
    }
    assert(all.take(k as int) =~= all);
}

/// Resolves the assignments, embeds and placeholders of `lines` and keeps
/// with each line that is put out the origin of the line that it came from.
pub fn resolve_lines(lines: &Vec<SourceLine>, snippets: &SnippetLibrary) -> (out: Vec<SourceLine>)
    ensures
        sourced(out@) == resolved_lines(sourced(lines@), snippets@),
{
    let ghost all = sourced(lines@);
    let mark: Vec<char> = vec!['+', '+'];
    assert(mark@ =~= embed_mark());
    let mut scope = Scope::new();
    let mut out: Vec<SourceLine> = Vec::new();
    let mut i: usize = 0;
    assert(sourced(out@) =~= Seq::<Sourced>::empty());
    while i < lines.len()
        invariant
            i <= lines@.len(),
            all == sourced(lines@),
            mark@ == embed_mark(),
            resolve_state(all, snippets@, i as nat) == (Resolution {
                scope: scope@,
                lines: sourced(out@),
            }),
        decreases lines.len() - i,
    {
        let line = &lines[i].text;
        let origin = lines[i].origin;
        assert(all[i as int] == (Sourced { origin: origin as nat, text: line@ }));
        i += 1;
        if line.len() == 0 {
            continue ;
        }
        let l = leading_spaces(line.as_slice());
        let body = slice_of(line.as_slice(), l, line.len());
        assert(body@ =~= trim_start(line@));
        let tag = has_char(body.as_slice(), '>');
        if has_char(body.as_slice(), '=') && l == 0 && !tag {
            let parts = split(body.as_slice(), '=');
            if parts.len() > 1 {
                let name = string_of(parts[0].as_slice());
                let value = string_of(parts[1].as_slice());
                scope.insert(name, value);
            }
        } else if !tag && matches_at(body.as_slice(), mark.as_slice(), 0) {
            let rest = slice_of(body.as_slice(), 2, body.len());
            assert(rest@ =~= body@.skip(2));
            let name = string_of(rest.as_slice());
            match snippets.get(name.as_str()) {
                Some(snippet) => {
                    embed(&mut out, snippet, &scope, l, origin);
                },
                None => {},
            }
        } else {
            let replaced = substitute(&scope, body.as_slice());
            let put = SourceLine { origin, text: indent(replaced.as_slice(), l) };
            proof {
                lemma_sourced_push(out@, put);
            }
            out.push(put);
        }
    }
    out
}

/// Resolves the assignments, embeds and placeholders of `lines`.
pub fn resolve(lines: &Vec<String>, snippets: &SnippetLibrary) -> (out: Vec<String>)
    ensures
        texts(out@) == resolved(texts(lines@), snippets@),
{
    let numbered = number(lines);
    let out = resolve_lines(&numbered, snippets);
    strip(&out)
}

} // verus!
