//! Lines of the form `name, name, ...: message`, which name the clients a
//! message is meant for.
use vstd::prelude::*;

verus! {

/// A character with the Unicode `White_Space` property.
pub open spec fn is_white_space(c: char) -> bool {
    ('\u{9}' <= c && c <= '\u{d}') || c == ' ' || c == '\u{85}' || c == '\u{a0}' || c == '\u{1680}'
        || ('\u{2000}' <= c && c <= '\u{200a}') || c == '\u{2028}' || c == '\u{2029}' || c
        == '\u{202f}' || c == '\u{205f}' || c == '\u{3000}'
}

/// `s` without its leading and trailing white space.
pub open spec fn trimmed(s: Seq<char>) -> Seq<char>
    decreases s.len(),
{
    if s.len() == 0 {
        s
    } else if is_white_space(s[0]) {
        trimmed(s.drop_first())
    } else if is_white_space(s.last()) {
        trimmed(s.drop_last())
    } else {
        s
    }
}

/// The pieces of `s` between the occurrences of `sep`, in order; there is
/// always one more piece than occurrences.
pub open spec fn split_on(s: Seq<char>, sep: char) -> Seq<Seq<char>>
    decreases s.len(),
{
    if s.len() == 0 {
        seq![Seq::<char>::empty()]
    } else {
        let rest = split_on(s.drop_last(), sep);
        if s.last() == sep {
            rest.push(Seq::<char>::empty())
        } else {
            rest.update(rest.len() - 1, rest.last().push(s.last()))
        }
    }
}

/// Whether `c` has the Unicode `White_Space` property.
pub fn is_white_space_char(c: char) -> (b: bool)
    ensures
        b == is_white_space(c),
{
    ('\u{9}' <= c && c <= '\u{d}') || c == ' ' || c == '\u{85}' || c == '\u{a0}' || c == '\u{1680}'
        || ('\u{2000}' <= c && c <= '\u{200a}') || c == '\u{2028}' || c == '\u{2029}' || c
        == '\u{202f}' || c == '\u{205f}' || c == '\u{3000}'
}

/// `text` without its leading and trailing white space.
pub fn trim(text: &str) -> (r: String)
    ensures
        r@ == trimmed(text@),
{
    let n = text.unicode_len();
    let mut start: usize = 0;
    assert(text@.subrange(0, n as int) =~= text@);
    while start < n && is_white_space_char(text.get_char(start))
        invariant
            n == text@.len(),
            start <= n,
            trimmed(text@) == trimmed(text@.subrange(start as int, n as int)),
        decreases n - start,
    {
        assert(text@.subrange(start as int, n as int).drop_first() =~= text@.subrange(
            start + 1,
            n as int,
        ));
        start += 1;
    }
    let mut end: usize = n;
    while end > start && is_white_space_char(text.get_char(end - 1))
        invariant
            n == text@.len(),
            start <= end <= n,
            start < n ==> !is_white_space(text@[start as int]),
            trimmed(text@) == trimmed(text@.subrange(start as int, end as int)),
        decreases end - start,
    {
        assert(text@.subrange(start as int, end as int).drop_last() =~= text@.subrange(
            start as int,
            end - 1,
        ));
        assert(text@.subrange(start as int, end as int)[0] == text@[start as int]);
        end -= 1;
    }
    let kept = text.substring_char(start, end);
    proof {
        let k = text@.subrange(start as int, end as int);
        if k.len() > 0 {
            assert(k[0] == text@[start as int]);
            assert(k.last() == text@[end - 1]);
        }
    }
    kept.to_owned()
}

/// The names a line is addressed to and the message it carries: the names
/// stand before the first `:`, separated by `,`, and each is trimmed of white
/// space, as is the message after the `:`. A line without `:` is addressed to
/// no one.
pub fn split_addressed(line: &str) -> (r: Option<(Vec<String>, String)>)
    ensures
        r is None <==> !line@.contains(':'),
        r matches Some((names, message)) ==> exists|c: int|
            0 <= c < line@.len() && line@[c] == ':' && (forall|j: int| 0 <= j < c ==> line@[j] != ':')
                && names@.map_values(|n: String| n@) == split_on(line@.take(c), ',').map_values(
                |p: Seq<char>| trimmed(p),
            ) && message@ == trimmed(line@.skip(c + 1)),
{
    let n = line.unicode_len();
    let mut c: usize = 0;
    while c < n && line.get_char(c) != ':'
        invariant
            n == line@.len(),
            c <= n,
            forall|j: int| 0 <= j < c ==> line@[j] != ':',
        decreases n - c,
    {
        c += 1;
    }
    if c == n {
        assert(!line@.contains(':'));
        return None;
    }
    assert(line@[c as int] == ':');
    let dest = line.substring_char(0, c);
    let rest = line.substring_char(c + 1, n);
    let mut names: Vec<String> = Vec::new();
    let ghost mut done: Seq<Seq<char>> = Seq::empty();
    let mut start: usize = 0;
    let mut i: usize = 0;
    assert(dest@.take(0) =~= Seq::<char>::empty());
    assert(dest@.subrange(0, 0) =~= Seq::<char>::empty());
    assert(split_on(Seq::<char>::empty(), ',') =~= done.push(dest@.subrange(0, 0)));
    while i < c
        invariant
            c == dest@.len(),
            start <= i <= c,
            split_on(dest@.take(i as int), ',') == done.push(dest@.subrange(start as int, i as int)),
            names@.map_values(|s: String| s@) == done.map_values(|p: Seq<char>| trimmed(p)),
        decreases c - i,
    {
        let ch = dest.get_char(i);
        assert(dest@.take(i + 1).drop_last() =~= dest@.take(i as int));
        assert(dest@.take(i + 1).last() == ch);
        if ch == ',' {
            let piece = dest.substring_char(start, i);
            let name = trim(piece);
            proof {
                let old_done = done;
                done = done.push(dest@.subrange(start as int, i as int));
                assert(names@.push(name).map_values(|s: String| s@) =~= old_done.map_values(
                    |p: Seq<char>| trimmed(p),
                ).push(trimmed(piece@)));
                assert(done.map_values(|p: Seq<char>| trimmed(p)) =~= old_done.map_values(
                    |p: Seq<char>| trimmed(p),
                ).push(trimmed(piece@)));
                assert(dest@.subrange(i + 1, i + 1) =~= Seq::<char>::empty());
            }
            names.push(name);
            start = i + 1;
        } else {
            proof {
                let rest_pieces = split_on(dest@.take(i as int), ',');
                assert(split_on(dest@.take(i + 1), ',') == rest_pieces.update(
                    rest_pieces.len() - 1,
                    rest_pieces.last().push(ch),
                ));
                assert(rest_pieces.last() == dest@.subrange(start as int, i as int));
                assert(dest@.subrange(start as int, i as int).push(ch) =~= dest@.subrange(
                    start as int,
                    i + 1,
                ));
                assert(rest_pieces.update(rest_pieces.len() - 1, rest_pieces.last().push(ch))
                    =~= done.push(dest@.subrange(start as int, i + 1)));
            }
        }
        i += 1;
    }
    let last = dest.substring_char(start, c);
    let name = trim(last);
    proof {
        let a = names@.map_values(|s: String| s@);
        let b = done.map_values(|p: Seq<char>| trimmed(p));
        assert(a.len() == b.len());
        assert forall|k: int| 0 <= k < a.len() implies names@[k]@ == trimmed(done[k]) by {
            assert(a[k] == b[k]);
        }
        assert(names@.push(name).map_values(|s: String| s@) =~= done.push(last@).map_values(
            |p: Seq<char>| trimmed(p),
        ));
        assert(dest@.take(c as int) =~= dest@);
        assert(dest@ =~= line@.take(c as int));
        assert(rest@ =~= line@.skip(c + 1));
    }
    names.push(name);
    let message = trim(rest);
    Some((names, message))
}

} // verus!
