//! The library of snippets that embed lines draw from.

use vstd::prelude::*;
use vstd::hash_map::StringHashMap;
use crate::text::{chars_of, split, split_on, strings_of, texts};

verus! {

/// Splits `text` into its lines: the pieces between line feeds.
pub fn split_lines(text: &str) -> (lines: Vec<String>)
    ensures
        texts(lines@) == split_on(text@, '\n'),
{
    let chars = chars_of(text);
    let parts = split(chars.as_slice(), '\n');
    strings_of(&parts)
}

/// The snippets that embed lines can name: each name with the snippet's
/// lines. Filled once, then only read.
pub struct SnippetLibrary {
    map: StringHashMap<Vec<String>>,
}

impl View for SnippetLibrary {
    type V = Map<Seq<char>, Seq<Seq<char>>>;

    closed spec fn view(&self) -> Map<Seq<char>, Seq<Seq<char>>> {
        self.map@.map_values(|v: Vec<String>| texts(v@))
    }
}

impl SnippetLibrary {
    /// A library without snippets.
    pub fn new() -> (s: SnippetLibrary)
        ensures
            s@ == Map::<Seq<char>, Seq<Seq<char>>>::empty(),
    {
        let s = SnippetLibrary { map: StringHashMap::new() };
        assert(s@ =~= Map::<Seq<char>, Seq<Seq<char>>>::empty());
        s
    }

    /// Stores the lines of `text` as the snippet `name`, in place of an
    /// earlier snippet of that name.
    pub fn insert(&mut self, name: String, text: &str)
        ensures
            final(self)@ == old(self)@.insert(name@, split_on(text@, '\n')),
    {
        let lines = split_lines(text);
        self.map.insert(name, lines);
        assert(self@ =~= old(self)@.insert(name@, split_on(text@, '\n')));
    }

    /// The lines of the snippet `name`, if there is one.
    pub fn get(&self, name: &str) -> (r: Option<&Vec<String>>)
        ensures
            match r {
                Some(lines) => self@.contains_key(name@) && texts(lines@) == self@[name@],
                None => !self@.contains_key(name@),
            },
    {
        self.map.get(name)
    }
}

} // verus!
