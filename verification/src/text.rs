//! Texts as sequences of characters: searching, splitting, joining and
//! indentation.

use vstd::prelude::*;

verus! {

/// Collects the characters of `s` into a vector.
pub fn chars_of(s: &str) -> (v: Vec<char>)
    ensures
        v@ == s@,
{
    let mut v: Vec<char> = Vec::new();
    for c in it: s.chars()
        invariant
            it.seq() == s@,
            v@ == it.seq().take(it.index()),
    {
        v.push(c);
    }
    assert(v@ =~= s@);
    v
}

/// `String::push` appends the character to the end of the string and
/// changes nothing else, as its documentation says. Trusted: the standard
/// library's code is not read.
pub assume_specification[ String::push ](s: &mut String, ch: char)
    ensures
        final(s)@ == old(s)@.push(ch),
;

/// Builds a string from a slice of characters.
pub fn string_of(v: &[char]) -> (s: String)
    ensures
        s@ == v@,
{
    let mut s = String::new();
    let mut i: usize = 0;
    while i < v.len()
        invariant
            i <= v@.len(),
            s@ == v@.take(i as int),
        decreases v.len() - i,
    {
        s.push(v[i]);
        i += 1;
        assert(s@ =~= v@.take(i as int));
    }
    assert(v@.take(i as int) =~= v@);
    s
}

/// The texts held by a sequence of strings.
pub open spec fn texts(v: Seq<String>) -> Seq<Seq<char>> {
    Seq::new(v.len(), |i: int| v[i]@)
}

/// The texts held by a sequence of character vectors.
pub open spec fn rows(v: Seq<Vec<char>>) -> Seq<Seq<char>> {
    Seq::new(v.len(), |i: int| v[i]@)
}

/// Whether `c` is white space, as Unicode's `White_Space` property has it.
pub open spec fn is_space(c: char) -> bool {
    let n = c as u32;
    ||| 0x09 <= n <= 0x0D
    ||| n == 0x20
    ||| n == 0x85
    ||| n == 0xA0
    ||| n == 0x1680
    ||| 0x2000 <= n <= 0x200A
    ||| n == 0x2028
    ||| n == 0x2029
    ||| n == 0x202F
    ||| n == 0x205F
    ||| n == 0x3000
}

/// Tests whether `c` is white space.
pub fn is_space_char(c: char) -> (r: bool)
    ensures
        r == is_space(c),
{
    let n: u32 = c as u32;
    (0x09 <= n && n <= 0x0D) || n == 0x20 || n == 0x85 || n == 0xA0 || n == 0x1680 || (0x2000 <= n
        && n <= 0x200A) || n == 0x2028 || n == 0x2029 || n == 0x202F || n == 0x205F || n == 0x3000
}

/// The number of white-space characters at the start of `s`.
pub open spec fn indent_of(s: Seq<char>) -> nat
    decreases s.len(),
{
    if s.len() > 0 && is_space(s[0]) {
        1 + indent_of(s.drop_first())
    } else {
        0
    }
}

/// `s` without its leading white space.
pub open spec fn trim_start(s: Seq<char>) -> Seq<char> {
    s.skip(indent_of(s) as int)
}

/// The first `n` characters of `s` are white space and the next one, if
/// there is one, is not: then `n` is the indentation of `s`.
pub proof fn lemma_indent_of(s: Seq<char>, n: nat)
    requires
        n <= s.len(),
        forall|k: int| 0 <= k < n ==> is_space(#[trigger] s[k]),
        n < s.len() ==> !is_space(s[n as int]),
    ensures
        indent_of(s) == n,
    decreases n,
{
    if n > 0 {
        let t = s.drop_first();
        assert forall|k: int| 0 <= k < n - 1 implies is_space(#[trigger] t[k]) by {
            assert(t[k] == s[k + 1]);
        }
        lemma_indent_of(t, (n - 1) as nat);
    }
}

/// Counts the white-space characters at the start of `s`.
pub fn leading_spaces(s: &[char]) -> (n: usize)
    ensures
        n == indent_of(s@),
        n <= s@.len(),
{
    let mut i: usize = 0;
    while i < s.len() && is_space_char(s[i])
        invariant
            i <= s.len(),
            forall|k: int| 0 <= k < i ==> is_space(#[trigger] s@[k]),
        decreases s.len() - i,
    {
        i += 1;
    }
    proof {
        lemma_indent_of(s@, i as nat);
    }
    i
}

/// Copies `s[from..to]` into a new vector.
pub fn slice_of(s: &[char], from: usize, to: usize) -> (v: Vec<char>)
    requires
        from <= to <= s@.len(),
    ensures
        v@ == s@.subrange(from as int, to as int),
{
    let mut v: Vec<char> = Vec::new();
    let mut i: usize = from;
    while i < to
        invariant
            from <= i <= to <= s@.len(),
            v@ == s@.subrange(from as int, i as int),
        decreases to - i,
    {
        v.push(s[i]);
        i += 1;
    }
    v
}

/// Appends the characters of `s` to `out`.
pub fn append(out: &mut Vec<char>, s: &[char])
    ensures
        final(out)@ == old(out)@ + s@,
{
    let mut i: usize = 0;
    while i < s.len()
        invariant
            i <= s@.len(),
            out@ == old(out)@ + s@.subrange(0, i as int),
        decreases s.len() - i,
    {
        out.push(s[i]);
        i += 1;
    }
    assert(s@.subrange(0, i as int) == s@);
}

/// Whether two texts hold the same characters.
pub fn same_text(a: &[char], b: &[char]) -> (r: bool)
    ensures
        r == (a@ == b@),
{
    if a.len() != b.len() {
        return false;
    }
    let mut i: usize = 0;
    while i < a.len()
        invariant
            a@.len() == b@.len(),
            i <= a@.len(),
            forall|k: int| 0 <= k < i ==> a@[k] == b@[k],
        decreases a.len() - i,
    {
        if a[i] != b[i] {
            return false;
        }
        i += 1;
    }
    assert(a@ =~= b@);
    true
}

/// Whether `pat` stands in `s` at position `at`.
pub open spec fn occurs_at(s: Seq<char>, pat: Seq<char>, at: int) -> bool {
    0 <= at && at + pat.len() <= s.len() && s.subrange(at, at + pat.len()) == pat
}

/// Whether `s` begins with `pat`.
pub open spec fn starts_with(s: Seq<char>, pat: Seq<char>) -> bool {
    occurs_at(s, pat, 0)
}

/// Whether `pat` occurs somewhere in `s`.
pub open spec fn contains(s: Seq<char>, pat: Seq<char>) -> bool {
    exists|at: int| occurs_at(s, pat, at)
}

/// The first position at or after `from` where `pat` stands in `s`, or the
/// length of `s` if there is none.
pub open spec fn find_from(s: Seq<char>, pat: Seq<char>, from: int) -> int
    decreases s.len() - from,
{
    if from < 0 || from >= s.len() {
        s.len() as int
    } else if occurs_at(s, pat, from) {
        from
    } else {
        find_from(s, pat, from + 1)
    }
}

/// What the first position is: it lies at or after `from`, the pattern
/// stands there unless the position is the text's length, and the pattern
/// stands nowhere between `from` and it.
pub proof fn lemma_find_from(s: Seq<char>, pat: Seq<char>, from: int)
    requires
        0 <= from,
    ensures
        from <= find_from(s, pat, from) || find_from(s, pat, from) == s.len(),
        find_from(s, pat, from) <= s.len(),
        find_from(s, pat, from) < s.len() ==> occurs_at(s, pat, find_from(s, pat, from)),
        forall|k: int| from <= k < find_from(s, pat, from) ==> !occurs_at(s, pat, k),
    decreases s.len() - from,
{
    if from < s.len() && !occurs_at(s, pat, from) {
        lemma_find_from(s, pat, from + 1);
    }
}

/// Tests whether `pat` stands in `s` at position `at`.
pub fn matches_at(s: &[char], pat: &[char], at: usize) -> (r: bool)
    ensures
        r == occurs_at(s@, pat@, at as int),
{
    if at > s.len() || pat.len() > s.len() - at {
        return false;
    }
    let mut i: usize = 0;
    while i < pat.len()
        invariant
            at + pat@.len() <= s@.len() <= usize::MAX,
            i <= pat@.len(),
            forall|k: int| 0 <= k < i ==> s@[at + k] == pat@[k],
        decreases pat.len() - i,
    {
        if s[at + i] != pat[i] {
            assert(s@.subrange(at as int, at + pat@.len())[i as int] == s@[at + i]);
            return false;
        }
        i += 1;
    }
    assert(s@.subrange(at as int, at + pat@.len()) =~= pat@);
    true
}

/// Finds the first position at or after `from` where `pat` stands in `s`.
pub fn find(s: &[char], pat: &[char], from: usize) -> (r: usize)
    ensures
        r == find_from(s@, pat@, from as int),
        r <= s@.len(),
{
    let mut i: usize = from;
    while i < s.len()
        invariant
            from <= i,
            find_from(s@, pat@, from as int) == find_from(s@, pat@, i as int),
        decreases s.len() - i,
    {
        if matches_at(s, pat, i) {
            return i;
        }
        i += 1;
    }
    s.len()
}

/// Whether the non-empty pattern `pat` occurs somewhere in `s`.
pub fn has_pattern(s: &[char], pat: &[char]) -> (r: bool)
    requires
        pat@.len() > 0,
    ensures
        r == contains(s@, pat@),
{
    let at = find(s, pat, 0);
    proof {
        lemma_find_from(s@, pat@, 0);
        if at == s@.len() {
            assert forall|k: int| !occurs_at(s@, pat@, k) by {
                if 0 <= k < s@.len() {
                } else {
                }
            }
        }
    }
    at < s.len()
}

/// How often the character `c` occurs in `s`.
pub open spec fn count_of(s: Seq<char>, c: char) -> nat
    decreases s.len(),
{
    if s.len() == 0 {
        0
    } else {
        count_of(s.drop_last(), c) + if s.last() == c {
            1nat
        } else {
            0nat
        }
    }
}

/// Whether the character `c` occurs in `s` more than once.
pub fn occurs_twice(s: &[char], c: char) -> (r: bool)
    ensures
        r == (count_of(s@, c) > 1),
{
    let mut seen: usize = 0;
    let mut i: usize = 0;
    assert(s@.take(0) =~= Seq::<char>::empty());
    while i < s.len()
        invariant
            i <= s@.len(),
            seen == count_of(s@.take(i as int), c),
            seen <= i,
        decreases s.len() - i,
    {
        proof {
            assert(s@.take(i + 1).drop_last() =~= s@.take(i as int));
        }
        if s[i] == c {
            seen += 1;
        }
        i += 1;
    }
    assert(s@.take(i as int) =~= s@);
    seen > 1
}

/// Whether the character `c` occurs in `s`.
pub fn has_char(s: &[char], c: char) -> (r: bool)
    ensures
        r == s@.contains(c),
{
    let mut i: usize = 0;
    while i < s.len()
        invariant
            i <= s@.len(),
            forall|k: int| 0 <= k < i ==> s@[k] != c,
        decreases s.len() - i,
    {
        if s[i] == c {
            return true;
        }
        i += 1;
    }
    false
}

/// The pieces of `s` between occurrences of `sep`: one more piece than there
/// are separators, empty pieces included.
pub open spec fn split_on(s: Seq<char>, sep: char) -> Seq<Seq<char>>
    decreases s.len(),
{
    if s.len() == 0 {
        seq![Seq::<char>::empty()]
    } else {
        let before = split_on(s.drop_last(), sep);
        if s.last() == sep {
            before.push(Seq::<char>::empty())
        } else {
            before.drop_last().push(before.last().push(s.last()))
        }
    }
}

/// Splitting gives at least one piece.
pub proof fn lemma_split_nonempty(s: Seq<char>, sep: char)
    ensures
        split_on(s, sep).len() >= 1,
    decreases s.len(),
{
    if s.len() > 0 {
        lemma_split_nonempty(s.drop_last(), sep);
    }
}

/// Splits `s` at every occurrence of `sep`.
pub fn split(s: &[char], sep: char) -> (parts: Vec<Vec<char>>)
    ensures
        rows(parts@) == split_on(s@, sep),
        parts@.len() >= 1,
{
    let mut parts: Vec<Vec<char>> = Vec::new();
    let mut cur: Vec<char> = Vec::new();
    let mut i: usize = 0;
    assert(s@.take(0) =~= Seq::<char>::empty());
    assert(rows(parts@).push(cur@) =~= seq![Seq::<char>::empty()]);
    while i < s.len()
        invariant
            i <= s@.len(),
            rows(parts@).push(cur@) == split_on(s@.take(i as int), sep),
        decreases s.len() - i,
    {
        let ghost before = split_on(s@.take(i as int), sep);
        proof {
            assert(s@.take(i + 1).drop_last() =~= s@.take(i as int));
            assert(s@.take(i + 1).last() == s@[i as int]);
            assert(before.last() == cur@);
            assert(before.drop_last() =~= rows(parts@));
        }
        if s[i] == sep {
            parts.push(cur);
            cur = Vec::new();
            assert(rows(parts@).push(cur@) =~= before.push(Seq::<char>::empty()));
        } else {
            cur.push(s[i]);
            assert(rows(parts@).push(cur@) =~= before.drop_last().push(
                before.last().push(s@[i as int]),
            ));
        }
        i += 1;
    }
    assert(s@.take(i as int) =~= s@);
    let ghost done = rows(parts@).push(cur@);
    parts.push(cur);
    assert(rows(parts@) =~= done);
    parts
}

/// The pieces joined into one text, with `sep` between neighbours.
pub open spec fn join(parts: Seq<Seq<char>>, sep: Seq<char>) -> Seq<char>
    decreases parts.len(),
{
    if parts.len() == 0 {
        Seq::<char>::empty()
    } else if parts.len() == 1 {
        parts[0]
    } else {
        join(parts.drop_last(), sep) + sep + parts.last()
    }
}

/// Joining with one more piece: the piece alone if it is the first, else
/// the join so far, the separator and the piece.
pub proof fn lemma_join_push(parts: Seq<Seq<char>>, piece: Seq<char>, sep: Seq<char>)
    ensures
        join(parts.push(piece), sep) == if parts.len() == 0 {
            piece
        } else {
            join(parts, sep) + sep + piece
        },
{
    assert(parts.push(piece).drop_last() =~= parts);
}

/// Splitting a text at a character and joining the pieces with that
/// character gives the text back.
pub proof fn lemma_join_split(s: Seq<char>, sep: char)
    ensures
        join(split_on(s, sep), seq![sep]) == s,
    decreases s.len(),
{
    if s.len() == 0 {
        assert(join(split_on(s, sep), seq![sep]) =~= s);
    } else {
        let before = split_on(s.drop_last(), sep);
        lemma_join_split(s.drop_last(), sep);
        lemma_split_nonempty(s.drop_last(), sep);
        if s.last() == sep {
            lemma_join_push(before, Seq::<char>::empty(), seq![sep]);
            assert(s.drop_last() + seq![sep] + Seq::<char>::empty() =~= s);
        } else {
            let grown = before.last().push(s.last());
            lemma_join_push(before.drop_last(), grown, seq![sep]);
            assert(before.drop_last().push(before.last()) =~= before);
            lemma_join_push(before.drop_last(), before.last(), seq![sep]);
            if before.len() == 1 {
                assert(grown =~= s);
            } else {
                assert(join(before.drop_last(), seq![sep]) + seq![sep] + grown =~= (join(
                    before.drop_last(),
                    seq![sep],
                ) + seq![sep] + before.last()).push(s.last()));
                assert(s.drop_last().push(s.last()) =~= s);
            }
        }
    }
}

/// Joins the pieces into one text, with the character `sep` between
/// neighbours.
pub fn join_rows(parts: &Vec<Vec<char>>, sep: char) -> (out: Vec<char>)
    ensures
        out@ == join(rows(parts@), seq![sep]),
{
    let ghost all = rows(parts@);
    let mut out: Vec<char> = Vec::new();
    let mut i: usize = 0;
    assert(join(all.take(0), seq![sep]) =~= out@);
    while i < parts.len()
        invariant
            i <= parts@.len(),
            all == rows(parts@),
            out@ == join(all.take(i as int), seq![sep]),
        decreases parts.len() - i,
    {
        proof {
            assert(all.take(i + 1).drop_last() =~= all.take(i as int));
            assert(all.take(i + 1).last() == parts@[i as int]@);
        }
        if i > 0 {
            out.push(sep);
        }
        append(&mut out, parts[i].as_slice());
        i += 1;
        assert(out@ =~= join(all.take(i as int), seq![sep]));
    }
    assert(all.take(i as int) =~= all);
    out
}

/// Turns each row of characters into a string.
pub fn strings_of(parts: &Vec<Vec<char>>) -> (out: Vec<String>)
    ensures
        texts(out@) == rows(parts@),
{
    let mut out: Vec<String> = Vec::new();
    let mut i: usize = 0;
    while i < parts.len()
        invariant
            i <= parts@.len(),
            out@.len() == i,
            texts(out@) == rows(parts@).take(i as int),
        decreases parts.len() - i,
    {
        let ghost before = texts(out@);
        let s = string_of(parts[i].as_slice());
        out.push(s);
        i += 1;
        assert(texts(out@) =~= rows(parts@).take(i as int)) by {
            assert(texts(out@).len() == i);
            assert forall|k: int| 0 <= k < i implies texts(out@)[k] == rows(parts@)[k] by {
                if k < i - 1 {
                    assert(texts(out@)[k] == before[k]);
                }
            }
        }
    }
    assert(rows(parts@).take(i as int) =~= rows(parts@));
    out
}

/// The text `v` preceded by `n` spaces.
pub open spec fn indented(v: Seq<char>, n: nat) -> Seq<char> {
    Seq::new(n, |i: int| ' ') + v
}

/// Prefixes the characters `v` with `l` spaces.
pub fn indent(v: &[char], l: usize) -> (res: Vec<char>)
    ensures
        res@ == indented(v@, l as nat),
{
    let mut out: Vec<char> = Vec::new();
    let mut i: usize = 0;
    while i < l
        invariant
            i <= l,
            out@ == Seq::new(i as nat, |k: int| ' '),
        decreases l - i,
    {
        out.push(' ');
        i += 1;
    }
    append(&mut out, v);
    out
}

/// Prefixes `v` with `l` spaces.
pub fn repeat_spaces(v: String, l: usize) -> (res: String)
    ensures
        res@ == indented(v@, l as nat),
{
    let body = chars_of(v.as_str());
    let out = indent(body.as_slice(), l);
    string_of(out.as_slice())
}

} // verus!
