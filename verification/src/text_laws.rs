//! What trimming, cutting and joining text come to.
use vstd::prelude::*;

use crate::text;
use crate::text::CharSet;

verus! {

/// Which characters a set holds: white space are the characters with the numbers 9 to 13, 32, 133,
/// 160, 5760, 8192 to 8202, 8232, 8233, 8239, 8287 and 12288.
pub proof fn law_char_sets(a: char, b: char, c: char)
    ensures
        CharSet::Only(a).has(c) <==> c == a,
        CharSet::Either(a, b).has(c) <==> c == a || c == b,
        CharSet::Space.has(c) <==> text::is_space(c),
        text::is_space(c) <==> ({
            let n = c as int;
            9 <= n <= 13 || n == 32 || n == 133 || n == 160 || n == 5760 || 8192 <= n <= 8202 || n
                == 8232 || n == 8233 || n == 8239 || n == 8287 || n == 12288
        }),
{
}

proof fn lemma_trim_start(s: Seq<char>, set: CharSet) -> (a: int)
    ensures
        0 <= a <= s.len(),
        text::trim_start(s, set) == s.skip(a),
        forall|i: int| 0 <= i < a ==> set.has(#[trigger] s[i]),
        a < s.len() ==> !set.has(s[a]),
    decreases s.len(),
{
    if s.len() > 0 && set.has(s[0]) {
        let rest = s.drop_first();
        let a = lemma_trim_start(rest, set);
        assert(rest.skip(a) =~= s.skip(a + 1));
        assert forall|i: int| 0 <= i < a + 1 implies set.has(#[trigger] s[i]) by {
            if i > 0 {
                assert(s[i] == rest[i - 1]);
            }
        }
        if a + 1 < s.len() {
            assert(s[a + 1] == rest[a]);
        }
        a + 1
    } else {
        assert(s.skip(0) =~= s);
        0
    }
}

proof fn lemma_trim_end(s: Seq<char>, set: CharSet) -> (b: int)
    ensures
        0 <= b <= s.len(),
        text::trim_end(s, set) == s.take(b),
        forall|i: int| b <= i < s.len() ==> set.has(#[trigger] s[i]),
        b > 0 ==> !set.has(s[b - 1]),
    decreases s.len(),
{
    if s.len() > 0 && set.has(s.last()) {
        let front = s.drop_last();
        let b = lemma_trim_end(front, set);
        assert(front.take(b) =~= s.take(b));
        assert forall|i: int| b <= i < s.len() implies set.has(#[trigger] s[i]) by {
            if i < front.len() {
                assert(s[i] == front[i]);
            }
        }
        b
    } else {
        assert(s.take(s.len() as int) =~= s);
        s.len() as int
    }
}

/// Trimming takes characters of the set, and no others, from both ends, until none of the set is at
/// an end.
pub proof fn law_trimming(s: Seq<char>, set: CharSet)
    ensures
        exists|before: Seq<char>, after: Seq<char>|
            #![trigger before + text::trim_set(s, set) + after]
            {
                let kept = text::trim_set(s, set);
                &&& s == before + kept + after
                &&& forall|i: int| 0 <= i < before.len() ==> set.has(#[trigger] before[i])
                &&& forall|i: int| 0 <= i < after.len() ==> set.has(#[trigger] after[i])
                &&& kept.len() > 0 ==> !set.has(kept[0]) && !set.has(kept.last())
                &&& kept.len() == 0 ==> after.len() == 0 || before.len() == 0
            },
        text::trim(s) == text::trim_set(s, CharSet::Space),
{
    let a = lemma_trim_start(s, set);
    let rest = text::trim_start(s, set);
    let b = lemma_trim_end(rest, set);
    let kept = text::trim_set(s, set);
    let (before, after) = (s.take(a), rest.skip(b));
    assert(s =~= before + kept + after);
    assert forall|i: int| 0 <= i < before.len() implies set.has(#[trigger] before[i]) by {
        assert(before[i] == s[i]);
    }
    assert forall|i: int| 0 <= i < after.len() implies set.has(#[trigger] after[i]) by {
        assert(after[i] == rest[b + i]);
    }
    if kept.len() > 0 {
        assert(kept[0] == s[a]);
        assert(kept.last() == rest[b - 1]);
    } else if rest.len() > 0 {
        assert(rest[0] == s[a]);
        assert(set.has(rest[0]));
    }
}

/// Parts are joined by putting the separator between neighbours.
pub proof fn law_joining(parts: Seq<Seq<char>>, part: Seq<char>, separator: Seq<char>)
    ensures
        text::join(Seq::<Seq<char>>::empty(), separator) == Seq::<char>::empty(),
        text::join(seq![part], separator) == part,
        parts.len() > 0 ==> text::join(parts.push(part), separator) == text::join(parts, separator)
            + separator + part,
        parts.len() > 0 ==> text::join(seq![part] + parts, separator) == part + separator
            + text::join(parts, separator),
    decreases parts.len(),
{
    assert(parts.push(part).drop_last() =~= parts);
    if parts.len() == 1 {
        let two = seq![part] + parts;
        assert(two.drop_last() =~= seq![part]);
        assert(text::join(two.drop_last(), separator) == part);
        assert(two.last() == parts[0]);
    } else if parts.len() > 1 {
        let front = parts.drop_last();
        law_joining(front, part, separator);
        assert((seq![part] + parts).drop_last() =~= seq![part] + front);
        assert(text::join(seq![part] + parts, separator) =~= part + separator + text::join(
            parts,
            separator,
        ));
    }
}

/// Cutting at a character leaves pieces without it, which give the text back when they are joined
/// by it.
pub proof fn law_pieces(s: Seq<char>, c: char)
    ensures
        ({
            let parts = text::pieces(s, CharSet::Only(c));
            &&& parts.len() > 0
            &&& text::join(parts, seq![c]) == s
            &&& forall|i: int, j: int|
                0 <= i < parts.len() && 0 <= j < parts[i].len() ==> #[trigger] parts[i][j] != c
        }),
    decreases s.len(),
{
    let set = CharSet::Only(c);
    let parts = text::pieces(s, set);
    text::lemma_pieces_not_empty(s, set);
    text::lemma_pieces_free(s, set);
    assert forall|i: int, j: int| 0 <= i < parts.len() && 0 <= j < parts[i].len() implies
        #[trigger] parts[i][j] != c by {
        assert(text::free_of(parts[i], set));
        assert(!set.has(parts[i][j]));
    }
    let none = Seq::<char>::empty();
    if s.len() == 0 {
        law_joining(Seq::<Seq<char>>::empty(), none, seq![c]);
        assert(text::join(parts, seq![c]) =~= s);
    } else {
        let shorter = s.drop_last();
        law_pieces(shorter, c);
        let before = text::pieces(shorter, set);
        if s.last() == c {
            law_joining(before, none, seq![c]);
            assert(shorter + seq![c] + none =~= s);
        } else {
            let front = before.drop_last();
            let longer = before.last().push(s.last());
            assert(front.push(before.last()) =~= before);
            law_joining(front, before.last(), seq![c]);
            law_joining(front, longer, seq![c]);
            if front.len() == 0 {
                assert(before =~= seq![before.last()]);
                assert(parts =~= seq![longer]);
                assert(shorter.push(s.last()) =~= s);
            } else {
                let head = text::join(front, seq![c]);
                assert(head + seq![c] + before.last() == shorter);
                assert(parts == front.push(longer));
                assert(head + seq![c] + longer =~= (head + seq![c] + before.last()).push(s.last()));
                assert(shorter.push(s.last()) =~= s);
            }
        }
    }
}

/// Words are the runs without white space: white space divides them, and text without it is one.
pub proof fn law_words(a: Seq<char>, c: char, b: Seq<char>)
    requires
        text::is_space(c),
    ensures
        text::words(a.push(c) + b) == text::words(a) + text::words(b),
        a.len() > 0 && (forall|i: int| 0 <= i < a.len() ==> !text::is_space(#[trigger] a[i]))
            ==> text::words(a) == seq![a],
        text::words(Seq::<char>::empty()) == Seq::<Seq<char>>::empty(),
{
    text::lemma_pieces_divide(a, c, b, CharSet::Space);
    Seq::filter_distributes_over_add(
        text::pieces(a, CharSet::Space),
        text::pieces(b, CharSet::Space),
        text::filled(),
    );
    text::lemma_no_words();
    if a.len() > 0 && (forall|i: int| 0 <= i < a.len() ==> !text::is_space(#[trigger] a[i])) {
        text::lemma_one_piece(a, CharSet::Space);
        text::lemma_filled_all(seq![a]);
    }
}

/// A line ends at a line feed, and loses one carriage return before it; what follows the last line
/// feed is a line too, if there is anything.
pub proof fn law_lines(a: Seq<char>, b: Seq<char>)
    requires
        forall|i: int| 0 <= i < a.len() ==> #[trigger] a[i] != '\n',
    ensures
        text::lines(a.push('\n') + b) == seq![
            if a.len() > 0 && a.last() == '\r' {
                a.drop_last()
            } else {
                a
            },
        ] + text::lines(b),
        a.len() > 0 ==> text::lines(a) == seq![a],
        text::lines(Seq::<char>::empty()) == Seq::<Seq<char>>::empty(),
{
    let newline = CharSet::Only('\n');
    let strip = |line: Seq<char>| text::strip_return(line);
    text::lemma_pieces_divide(a, '\n', b, newline);
    text::lemma_one_piece(a, newline);
    text::lemma_pieces_not_empty(b, newline);
    let (whole, rest) = (text::pieces(a.push('\n') + b, newline), text::pieces(b, newline));
    assert(whole =~= seq![a] + rest);
    assert(whole.drop_last() =~= seq![a] + rest.drop_last());
    assert(whole.drop_last().map_values(strip) =~= seq![text::strip_return(a)]
        + rest.drop_last().map_values(strip));
    assert(text::lines(a.push('\n') + b) =~= seq![text::strip_return(a)] + text::lines(b));
    assert(seq![a].drop_last() =~= Seq::<Seq<char>>::empty());
    if a.len() > 0 {
        assert(text::lines(a) =~= seq![a]);
    }
    let none = Seq::<char>::empty();
    assert(text::pieces(none, newline) =~= seq![none]);
    assert(text::lines(none) =~= Seq::<Seq<char>>::empty());
}

/// Text is cut once at the first of a character, which the part before the cut then lacks; text
/// without the character is not cut.
pub proof fn law_cutting_once(s: Seq<char>, c: char)
    ensures
        match text::cut_at(s, c) {
            Some((a, b)) => s == a.push(c) + b && forall|i: int|
                0 <= i < a.len() ==> #[trigger] a[i] != c,
            None => forall|i: int| 0 <= i < s.len() ==> #[trigger] s[i] != c,
        },
{
    lemma_find_first(s, c);
    let p = text::find(s, c);
    if p < s.len() {
        let (a, b) = (s.take(p), s.skip(p + 1));
        assert(s =~= a.push(c) + b);
        assert forall|i: int| 0 <= i < a.len() implies #[trigger] a[i] != c by {
            assert(a[i] == s[i]);
        }
    }
}

proof fn lemma_find_first(s: Seq<char>, c: char)
    ensures
        0 <= text::find(s, c) <= s.len(),
        forall|i: int| 0 <= i < text::find(s, c) ==> #[trigger] s[i] != c,
        text::find(s, c) < s.len() ==> s[text::find(s, c)] == c,
    decreases s.len(),
{
    if s.len() > 0 && s[0] != c {
        let rest = s.drop_first();
        lemma_find_first(rest, c);
        assert forall|i: int| 0 <= i < text::find(s, c) implies #[trigger] s[i] != c by {
            if i > 0 {
                assert(s[i] == rest[i - 1]);
            }
        }
        if text::find(s, c) < s.len() {
            assert(s[text::find(s, c)] == rest[text::find(rest, c)]);
        }
    }
}

/// Ended lines are the lines one after another, each with a line feed after it.
pub proof fn law_ended_lines(lines: Seq<Seq<char>>, line: Seq<char>)
    ensures
        text::terminated(Seq::<Seq<char>>::empty()) == Seq::<char>::empty(),
        text::terminated(lines.push(line)) == text::terminated(lines) + line + seq!['\n'],
{
    assert(lines.push(line).drop_last() =~= lines);
    assert(text::terminated(lines.push(line)) =~= text::terminated(lines) + line + seq!['\n']);
}

} // verus!
