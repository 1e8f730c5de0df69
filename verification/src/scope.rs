//! Variable bindings and the replacement of placeholders.

use vstd::prelude::*;
use vstd::hash_map::StringHashMap;
use crate::text::{append, chars_of, find, find_from, lemma_find_from, matches_at, occurs_at, slice_of, string_of};

verus! {

/// The bindings of names to values that placeholders are resolved against.
/// A later binding of a name replaces an earlier one.
pub struct Scope {
    map: StringHashMap<String>,
}

impl View for Scope {
    type V = Map<Seq<char>, Seq<char>>;

    closed spec fn view(&self) -> Map<Seq<char>, Seq<char>> {
        self.map@.map_values(|v: String| v@)
    }
}

impl Scope {
    /// A scope without bindings.
    pub fn new() -> (s: Scope)
        ensures
            s@ == Map::<Seq<char>, Seq<char>>::empty(),
    {
        let s = Scope { map: StringHashMap::new() };
        assert(s@ =~= Map::<Seq<char>, Seq<char>>::empty());
        s
    }

    /// Binds `name` to `value`.
    pub fn insert(&mut self, name: String, value: String)
        ensures
            final(self)@ == old(self)@.insert(name@, value@),
    {
        self.map.insert(name, value);
        assert(self@ =~= old(self)@.insert(name@, value@));
    }

    /// The value that `name` is bound to, if it is bound.
    pub fn get(&self, name: &str) -> (r: Option<&String>)
        ensures
            match r {
                Some(v) => self@.contains_key(name@) && v@ == self@[name@],
                None => !self@.contains_key(name@),
            },
    {
        self.map.get(name)
    }
}

/// The two characters that open a placeholder.
pub open spec fn opener() -> Seq<char> {
    seq!['{', '{']
}

/// The two characters that close a placeholder.
pub open spec fn closer() -> Seq<char> {
    seq!['}', '}']
}

/// The text of `s` from position `i` on, with every placeholder whose name
/// is bound replaced by the name's value.
///
/// A placeholder is `{{`, a name and `}}`, where the name holds neither
/// `{{` nor `}}`. One whose name is not bound stays as it is, and the text
/// of a value is not searched for placeholders again.
pub open spec fn substituted_from(s: Seq<char>, scope: Map<Seq<char>, Seq<char>>, i: int) -> Seq<
    char,
>
    decreases s.len() - i,
{
    if i < 0 || i >= s.len() {
        Seq::<char>::empty()
    } else if occurs_at(s, opener(), i) {
        let next = find_from(s, opener(), i + 2);
        let close = find_from(s, closer(), i + 2);
        if i + 2 <= close && occurs_at(s, closer(), close) && close + 2 <= next
            && scope.contains_key(s.subrange(i + 2, close)) {
            scope[s.subrange(i + 2, close)] + substituted_from(s, scope, close + 2)
        } else {
            opener() + substituted_from(s, scope, i + 2)
        }
    } else {
        seq![s[i]] + substituted_from(s, scope, i + 1)
    }
}

/// The text `s` with every placeholder whose name is bound in `scope`
/// replaced by the name's value.
pub open spec fn substituted(s: Seq<char>, scope: Map<Seq<char>, Seq<char>>) -> Seq<char> {
    substituted_from(s, scope, 0)
}

/// Replaces the placeholders of `line` whose names are bound in `scope`.
pub fn substitute(scope: &Scope, line: &[char]) -> (out: Vec<char>)
    ensures
        out@ == substituted(line@, scope@),
{
    let open: Vec<char> = vec!['{', '{'];
    let close: Vec<char> = vec!['}', '}'];
    assert(open@ =~= opener());
    assert(close@ =~= closer());
    let mut out: Vec<char> = Vec::new();
    let mut i: usize = 0;
    while i < line.len()
        invariant
            i <= line@.len(),
            open@ == opener(),
            close@ == closer(),
            substituted(line@, scope@) == out@ + substituted_from(line@, scope@, i as int),
        decreases line.len() - i,
    {
        let ghost before = out@;
        if matches_at(line, open.as_slice(), i) {
            let next = find(line, open.as_slice(), i + 2);
            let end = find(line, close.as_slice(), i + 2);
            let mut bound = false;
            proof {
                lemma_find_from(line@, closer(), i + 2);
                lemma_find_from(line@, opener(), i + 2);
            }
            if i + 2 <= end && end <= next && next - end >= 2 {
                let key = slice_of(line, i + 2, end);
                let name = string_of(key.as_slice());
                match scope.get(name.as_str()) {
                    Some(value) => {
                        let text = chars_of(value.as_str());
                        append(&mut out, text.as_slice());
                        bound = true;
                    },
                    None => {},
                }
            }
            if bound {
                assert(out@ + substituted_from(line@, scope@, end + 2) =~= before + (
                scope@[line@.subrange(i + 2, end as int)] + substituted_from(
                    line@,
                    scope@,
                    end + 2,
                )));
                i = end + 2;
            } else {
                out.push('{');
                out.push('{');
                assert(out@ + substituted_from(line@, scope@, i + 2) =~= before + (opener()
                    + substituted_from(line@, scope@, i + 2)));
                i = i + 2;
            }
        } else {
            out.push(line[i]);
            assert(out@ + substituted_from(line@, scope@, i + 1) =~= before + (seq![line@[i as int]]
                + substituted_from(line@, scope@, i + 1)));
            i = i + 1;
        }
    }
    assert(out@ + substituted_from(line@, scope@, i as int) =~= out@);
    out
}

/// Replaces every placeholder of `line` whose name is bound in `variables`
/// by the name's value.
pub fn replace_variables(variables: &Scope, line: String) -> (res: String)
    ensures
        res@ == substituted(line@, variables@),
{
    let chars = chars_of(line.as_str());
    let out = substitute(variables, chars.as_slice());
    string_of(out.as_slice())
}

} // verus!
