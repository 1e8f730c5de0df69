//! The bindings that an iteration takes from a folder or a source file.

use vstd::prelude::*;
use crate::scope::Scope;
use crate::text::{chars_of, split, split_on, string_of};

verus! {

/// The name under which an entry's address is bound.
pub open spec fn url_key() -> Seq<char> {
    seq!['u', 'r', 'l']
}

/// Whether a settings line may start the way `line` does. Inside a source
/// file only lines that start neither with a space nor with `>` count.
pub open spec fn may_set(line: Seq<char>, top_level_only: bool) -> bool {
    !top_level_only || !(line.len() > 0 && (line[0] == ' ' || line[0] == '>'))
}

/// The bindings after one more settings line: a line that `=` splits into
/// exactly two parts binds the first to the second, any other line is
/// passed over.
pub open spec fn settings_step(
    m: Map<Seq<char>, Seq<char>>,
    line: Seq<char>,
    top_level_only: bool,
) -> Map<Seq<char>, Seq<char>> {
    let parts = split_on(line, '=');
    if parts.len() == 2 && may_set(line, top_level_only) {
        m.insert(parts[0], parts[1])
    } else {
        m
    }
}

/// The bindings `m` extended by the settings lines of `lines`, in order.
pub open spec fn settings_of(
    lines: Seq<Seq<char>>,
    m: Map<Seq<char>, Seq<char>>,
    top_level_only: bool,
) -> Map<Seq<char>, Seq<char>>
    decreases lines.len(),
{
    if lines.len() == 0 {
        m
    } else {
        settings_step(settings_of(lines.drop_last(), m, top_level_only), lines.last(), top_level_only)
    }
}

/// The metadata of a folder: its address under `url`, then the settings of
/// its settings file, if it has one.
pub open spec fn folder_settings(url: Seq<char>, settings: Option<Seq<char>>) -> Map<
    Seq<char>,
    Seq<char>,
> {
    let start = Map::<Seq<char>, Seq<char>>::empty().insert(url_key(), url);
    match settings {
        Some(text) => settings_of(split_on(text, '\n'), start, false),
        None => start,
    }
}

/// The metadata of a source file: the settings among its top-level lines,
/// then its address under `url`.
pub open spec fn file_settings(url: Seq<char>, text: Seq<char>) -> Map<Seq<char>, Seq<char>> {
    settings_of(split_on(text, '\n'), Map::empty(), true).insert(url_key(), url)
}

/// Adds the settings lines of `text` to `scope`.
fn read_settings(scope: &mut Scope, text: &str, top_level_only: bool)
    ensures
        final(scope)@ == settings_of(split_on(text@, '\n'), old(scope)@, top_level_only),
{
    let chars = chars_of(text);
    let lines = split(chars.as_slice(), '\n');
    let ghost all = split_on(text@, '\n');
    let mut i: usize = 0;
    assert(all.take(0) =~= Seq::<Seq<char>>::empty());
    while i < lines.len()
        invariant
            i <= lines@.len(),
            all.len() == lines@.len(),
            forall|k: int| 0 <= k < all.len() ==> all[k] == (#[trigger] lines@[k])@,
            scope@ == settings_of(all.take(i as int), old(scope)@, top_level_only),
        decreases lines.len() - i,
    {
        let line = &lines[i];
        proof {
            assert(all.take(i + 1).drop_last() =~= all.take(i as int));
            assert(all.take(i + 1).last() == line@);
        }
        let parts = split(line.as_slice(), '=');
        let allowed = !top_level_only || !(line.len() > 0 && (line[0] == ' ' || line[0] == '>'));
        if parts.len() == 2 && allowed {
            let name = string_of(parts[0].as_slice());
            let value = string_of(parts[1].as_slice());
            scope.insert(name, value);
        }
        i += 1;
    }
    assert(all.take(i as int) =~= all);
}

/// Builds the metadata of a folder from its address and the text of its
/// settings file.
pub fn folder_metadata(url: &str, settings: Option<&str>) -> (scope: Scope)
    ensures
        scope@ == folder_settings(
            url@,
            match settings {
                Some(text) => Some(text@),
                None => None,
            },
        ),
{
    let mut scope = Scope::new();
    let key: Vec<char> = vec!['u', 'r', 'l'];
    assert(key@ =~= url_key());
    let owned = chars_of(url);
    scope.insert(string_of(key.as_slice()), string_of(owned.as_slice()));
    match settings {
        Some(text) => {
            read_settings(&mut scope, text, false);
        },
        None => {},
    }
    scope
}

/// Builds the metadata of a source file from its address and its text.
pub fn file_metadata(url: &str, text: &str) -> (scope: Scope)
    ensures
        scope@ == file_settings(url@, text@),
{
    let mut scope = Scope::new();
    read_settings(&mut scope, text, true);
    let key: Vec<char> = vec!['u', 'r', 'l'];
    assert(key@ =~= url_key());
    let owned = chars_of(url);
    scope.insert(string_of(key.as_slice()), string_of(owned.as_slice()));
    scope
}

} // verus!
