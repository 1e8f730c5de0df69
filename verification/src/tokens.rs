//! The tokens of a tag line, grouped into attribute strings and content.

use vstd::prelude::*;
use crate::text::{
    append, chars_of, contains, count_of, has_char, has_pattern, matches_at, occurs_twice, rows,
    slice_of, starts_with,
};

verus! {

/// The marker that opens an attribute value: an equals sign and a quote.
pub open spec fn quote_mark() -> Seq<char> {
    seq!['=', '"']
}

/// The prefix of a click-navigation token.
pub open spec fn roc_prefix() -> Seq<char> {
    seq!['r', 'o', 'c', '=']
}

/// The attribute that sends the browser to `target` on a click.
pub open spec fn click_attribute(target: Seq<char>) -> Seq<char> {
    "onclick=\"window.location='"@ + target + seq!['\'', '"']
}

/// Where the scan of a tag line's tokens stands: the attribute strings and
/// content runs closed so far, the run that is still open, and whether that
/// run waits for a closing quote.
pub struct Grouping {
    pub attributes: Seq<Seq<char>>,
    pub contents: Seq<Seq<char>>,
    pub run: Option<Seq<char>>,
    pub quoted: bool,
}

/// The open run with one more token, a single space between tokens.
pub open spec fn extend_run(run: Option<Seq<char>>, token: Seq<char>) -> Seq<char> {
    match run {
        None => token,
        Some(t) => t + seq![' '] + token,
    }
}

/// The scan before any token.
pub open spec fn group_start() -> Grouping {
    Grouping {
        attributes: Seq::empty(),
        contents: Seq::empty(),
        run: None,
        quoted: false,
    }
}

/// The scan with the open run closed, as it is closed before its quote
/// where a click token cuts it short: a run that waits for a closing quote
/// becomes an attribute string as it stands, any other run is content.
pub open spec fn cut_short(g: Grouping) -> Grouping {
    match g.run {
        Some(t) => if g.quoted {
            Grouping { attributes: g.attributes.push(t), run: None, quoted: false, ..g }
        } else {
            Grouping { contents: g.contents.push(t), run: None, quoted: false, ..g }
        },
        None => g,
    }
}

/// The scan after one more token.
///
/// A `roc=` token is rewritten at once: it becomes a click attribute, and
/// the open run is cut short behind it. Any other token joins the open run.
/// The run closes as an attribute with the token that holds the closing
/// quote: the token that opened the quote, if it holds two quotes, or the
/// next one that holds any.
pub open spec fn group_step(g: Grouping, token: Seq<char>) -> Grouping {
    if starts_with(token, roc_prefix()) {
        cut_short(
            Grouping { attributes: g.attributes.push(click_attribute(token.skip(4))), ..g },
        )
    } else {
        let run = extend_run(g.run, token);
        let closes = if g.quoted {
            token.contains('"')
        } else {
            contains(token, quote_mark()) && count_of(token, '"') > 1
        };
        if closes {
            Grouping { attributes: g.attributes.push(run), run: None, quoted: false, ..g }
        } else {
            Grouping {
                run: Some(run),
                quoted: g.quoted || contains(token, quote_mark()),
                ..g
            }
        }
    }
}

/// The scan after all of `tokens`.
pub open spec fn grouped(tokens: Seq<Seq<char>>) -> Grouping
    decreases tokens.len(),
{
    if tokens.len() == 0 {
        group_start()
    } else {
        group_step(grouped(tokens.drop_last()), tokens.last())
    }
}

/// The attribute strings and content runs of a finished scan, or `None`
/// where the line ends while a quote is open.
pub open spec fn group_end(g: Grouping) -> Option<(Seq<Seq<char>>, Seq<Seq<char>>)> {
    if g.quoted {
        None
    } else {
        Some(
            (
                g.attributes,
                match g.run {
                    Some(t) => g.contents.push(t),
                    None => g.contents,
                },
            ),
        )
    }
}

/// The attribute strings and content runs of a tag line's tokens after the
/// tag itself, or `None` where the line ends while a quote is open.
pub open spec fn groups_of(tokens: Seq<Seq<char>>) -> Option<(Seq<Seq<char>>, Seq<Seq<char>>)> {
    group_end(grouped(tokens))
}

/// Builds the click attribute for a `roc=` token.
fn click_attribute_of(token: &[char]) -> (attribute: Vec<char>)
    requires
        token@.len() >= 4,
    ensures
        attribute@ == click_attribute(token@.skip(4)),
{
    let mut out = chars_of("onclick=\"window.location='");
    let target = slice_of(token, 4, token.len());
    append(&mut out, target.as_slice());
    out.push('\'');
    out.push('"');
    assert(target@ =~= token@.skip(4));
    assert(out@ =~= click_attribute(token@.skip(4)));
    out
}

/// Groups the tokens `words[from..]` of a tag line into attribute strings
/// and content runs.
pub fn group_tokens(words: &Vec<Vec<char>>, from: usize) -> (r: Option<
    (Vec<Vec<char>>, Vec<Vec<char>>),
>)
    requires
        from <= words@.len(),
    ensures
        match r {
            Some((attributes, contents)) => groups_of(rows(words@).skip(from as int)) == Some(
                (rows(attributes@), rows(contents@)),
            ),
            None => groups_of(rows(words@).skip(from as int)) is None,
        },
{
    let ghost tokens = rows(words@).skip(from as int);
    let mark: Vec<char> = vec!['=', '"'];
    let roc: Vec<char> = vec!['r', 'o', 'c', '='];
    assert(mark@ =~= quote_mark());
    assert(roc@ =~= roc_prefix());
    let mut attributes: Vec<Vec<char>> = Vec::new();
    let mut contents: Vec<Vec<char>> = Vec::new();
    let mut run: Vec<char> = Vec::new();
    let mut open = false;
    let mut quoted = false;
    let mut i: usize = from;
    assert(tokens.take(0) =~= Seq::<Seq<char>>::empty());
    assert(rows(attributes@) =~= Seq::<Seq<char>>::empty());
    assert(rows(contents@) =~= Seq::<Seq<char>>::empty());
    while i < words.len()
        invariant
            from <= i <= words@.len(),
            tokens == rows(words@).skip(from as int),
            mark@ == quote_mark(),
            roc@ == roc_prefix(),
            !open ==> run@.len() == 0,
            grouped(tokens.take(i - from)) == (Grouping {
                attributes: rows(attributes@),
                contents: rows(contents@),
                run: if open {
                    Some(run@)
                } else {
                    None
                },
                quoted: quoted,
            }),
        decreases words.len() - i,
    {
        let word = &words[i];
        let ghost before = grouped(tokens.take(i - from));
        let ghost old_attributes = rows(attributes@);
        let ghost old_contents = rows(contents@);
        proof {
            assert(tokens.take(i - from + 1).drop_last() =~= tokens.take(i - from));
            assert(tokens.take(i - from + 1).last() == word@);
        }
        if matches_at(word.as_slice(), roc.as_slice(), 0) {
            let attribute = click_attribute_of(word.as_slice());
            attributes.push(attribute);
            let ghost clicked = old_attributes.push(click_attribute(word@.skip(4)));
            assert(rows(attributes@) =~= clicked);
            if open {
                if quoted {
                    attributes.push(run);
                    assert(rows(attributes@) =~= clicked.push(before.run->0));
                } else {
                    contents.push(run);
                    assert(rows(contents@) =~= old_contents.push(before.run->0));
                }
                run = Vec::new();
                open = false;
                quoted = false;
            }
        } else {
            if open {
                run.push(' ');
            }
            append(&mut run, word.as_slice());
            assert(run@ =~= extend_run(before.run, word@));
            let closes = if quoted {
                has_char(word.as_slice(), '"')
            } else {
                has_pattern(word.as_slice(), mark.as_slice()) && occurs_twice(word.as_slice(), '"')
            };
            if closes {
                let ghost text = run@;
                attributes.push(run);
                run = Vec::new();
                open = false;
                quoted = false;
                assert(rows(attributes@) =~= old_attributes.push(text));
            } else {
                open = true;
                if !quoted {
                    quoted = has_pattern(word.as_slice(), mark.as_slice());
                }
            }
        }
        i += 1;
    }
    assert(tokens.take(i - from) =~= tokens);
    if quoted {
        return None;
    }
    if open {
        let ghost old_contents = rows(contents@);
        let ghost text = run@;
        contents.push(run);
        assert(rows(contents@) =~= old_contents.push(text));
    }
    Some((attributes, contents))
}

} // verus!
