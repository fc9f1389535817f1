//! Text as sequences of characters: trimming, splitting and joining.
use vstd::prelude::*;

verus! {

/// `String::push` of std appends one character.
pub assume_specification[ String::push ](string: &mut String, ch: char)
    ensures
        final(string)@ == old(string)@.push(ch),
;

/// The characters with the Unicode property White_Space.
pub open spec fn is_space(c: char) -> bool {
    ||| '\u{9}' <= c <= '\u{d}'
    ||| c == '\u{20}'
    ||| c == '\u{85}'
    ||| c == '\u{a0}'
    ||| c == '\u{1680}'
    ||| '\u{2000}' <= c <= '\u{200a}'
    ||| '\u{2028}' <= c <= '\u{2029}'
    ||| c == '\u{202f}'
    ||| c == '\u{205f}'
    ||| c == '\u{3000}'
}

/// A set of characters at which text is cut or trimmed.
#[derive(Clone, Copy, Debug)]
pub enum CharSet {
    /// Every white-space character.
    Space,
    /// One character.
    Only(char),
    /// Two characters.
    Either(char, char),
}

impl CharSet {
    pub open spec fn has(self, c: char) -> bool {
        match self {
            CharSet::Space => is_space(c),
            CharSet::Only(a) => c == a,
            CharSet::Either(a, b) => c == a || c == b,
        }
    }

    /// Whether the set holds the character.
    pub fn contains(&self, c: char) -> (result: bool)
        ensures
            result == self.has(c),
    {
        match *self {
            CharSet::Space => {
                ('\u{9}' <= c && c <= '\u{d}') || c == '\u{20}' || c == '\u{85}' || c == '\u{a0}'
                    || c == '\u{1680}' || ('\u{2000}' <= c && c <= '\u{200a}') || ('\u{2028}' <= c
                    && c <= '\u{2029}') || c == '\u{202f}' || c == '\u{205f}' || c == '\u{3000}'
            },
            CharSet::Only(a) => c == a,
            CharSet::Either(a, b) => c == a || c == b,
        }
    }
}

/// The characters of a string.
pub fn chars_of(text: &str) -> (result: Vec<char>)
    ensures
        result@ == text@,
{
    let mut result: Vec<char> = Vec::new();
    for c in it: text.chars()
        invariant
            it.seq() == text@,
            result@ == text@.take(it.index() as int),
    {
        result.push(c);
    }
    assert(text@.take(text@.len() as int) == text@);
    result
}

/// The string made of the characters from `from` up to but not including `to`.
pub fn string_of(chars: &Vec<char>, from: usize, to: usize) -> (result: String)
    requires
        from <= to <= chars@.len(),
    ensures
        result@ == chars@.subrange(from as int, to as int),
{
    let mut result = String::new();
    let mut i: usize = from;
    while i < to
        invariant
            from <= i <= to <= chars@.len(),
            result@ == chars@.subrange(from as int, i as int),
        decreases to - i,
    {
        result.push(chars[i]);
        i = i + 1;
    }
    result
}

/// `s` without its leading characters of the set.
pub open spec fn trim_start(s: Seq<char>, set: CharSet) -> Seq<char>
    decreases s.len(),
{
    if s.len() > 0 && set.has(s[0]) {
        trim_start(s.drop_first(), set)
    } else {
        s
    }
}

/// `s` without its trailing characters of the set.
pub open spec fn trim_end(s: Seq<char>, set: CharSet) -> Seq<char>
    decreases s.len(),
{
    if s.len() > 0 && set.has(s.last()) {
        trim_end(s.drop_last(), set)
    } else {
        s
    }
}

/// `s` without its leading and trailing characters of the set.
pub open spec fn trim_set(s: Seq<char>, set: CharSet) -> Seq<char> {
    trim_end(trim_start(s, set), set)
}

/// `s` without leading and trailing white space.
pub open spec fn trim(s: Seq<char>) -> Seq<char> {
    trim_set(s, CharSet::Space)
}

/// The text without its leading and trailing characters of the set.
pub fn trimmed_set(text: &str, set: CharSet) -> (result: String)
    ensures
        result@ == trim_set(text@, set),
{
    let chars = chars_of(text);
    let mut from: usize = 0;
    let mut to: usize = chars.len();
    assert(chars@.subrange(0, to as int) == text@);
    while from < to && set.contains(chars[from])
        invariant
            from <= to == chars@.len(),
            chars@ == text@,
            trim_start(chars@.subrange(from as int, to as int), set) == trim_start(text@, set),
        decreases to - from,
    {
        assert(chars@.subrange(from as int, to as int).drop_first() == chars@.subrange(
            from + 1,
            to as int,
        ));
        from = from + 1;
    }
    assert(chars@.subrange(from as int, to as int) == trim_start(text@, set));
    while from < to && set.contains(chars[to - 1])
        invariant
            from <= to <= chars@.len(),
            trim_end(chars@.subrange(from as int, to as int), set) == trim_set(text@, set),
        decreases to - from,
    {
        assert(chars@.subrange(from as int, to as int).drop_last() == chars@.subrange(
            from as int,
            to - 1,
        ));
        to = to - 1;
    }
    string_of(&chars, from, to)
}

/// The text without leading and trailing white space.
pub fn trimmed(text: &str) -> (result: String)
    ensures
        result@ == trim(text@),
{
    trimmed_set(text, CharSet::Space)
}

/// The pieces between the characters of the set, empty ones included.
pub open spec fn pieces(s: Seq<char>, set: CharSet) -> Seq<Seq<char>>
    decreases s.len(),
{
    if s.len() == 0 {
        seq![Seq::<char>::empty()]
    } else {
        let before = pieces(s.drop_last(), set);
        if set.has(s.last()) {
            before.push(Seq::<char>::empty())
        } else {
            before.drop_last().push(before.last().push(s.last()))
        }
    }
}

/// The pieces of the text between the characters of the set, empty ones included.
pub fn split(text: &str, set: CharSet) -> (result: Vec<String>)
    ensures
        result.deep_view() == pieces(text@, set),
{
    let chars = chars_of(text);
    let mut result: Vec<String> = Vec::new();
    let mut current = String::new();
    let mut i: usize = 0;
    assert(chars@.take(0) =~= Seq::<char>::empty());
    while i < chars.len()
        invariant
            i <= chars@.len(),
            chars@ == text@,
            result.deep_view().push(current@) == pieces(chars@.take(i as int), set),
        decreases chars@.len() - i,
    {
        let c = chars[i];
        assert(chars@.take(i + 1).drop_last() == chars@.take(i as int));
        let ghost before = result.deep_view();
        assert(before.push(current@).drop_last() == before);
        if set.contains(c) {
            result.push(current);
            assert(result.deep_view() == before.push(current@));
            current = String::new();
        } else {
            current.push(c);
        }
        i = i + 1;
    }
    assert(chars@.take(i as int) == text@);
    let ghost before = result.deep_view();
    result.push(current);
    assert(result.deep_view() == before.push(current@));
    result
}

/// Whether a piece of text has a character.
pub open spec fn filled() -> spec_fn(Seq<char>) -> bool {
    |part: Seq<char>| part.len() > 0
}

/// The maximal runs of characters that are not white space.
pub open spec fn words(s: Seq<char>) -> Seq<Seq<char>> {
    pieces(s, CharSet::Space).filter(filled())
}

/// The strings of the list that are not empty.
pub fn keep_filled(parts: &Vec<String>) -> (result: Vec<String>)
    ensures
        result.deep_view() == parts.deep_view().filter(filled()),
{
    let mut result: Vec<String> = Vec::new();
    let mut i: usize = 0;
    assert(parts.deep_view().take(0) =~= Seq::<Seq<char>>::empty());
    while i < parts.len()
        invariant
            i <= parts@.len(),
            result.deep_view() == parts.deep_view().take(i as int).filter(filled()),
        decreases parts@.len() - i,
    {
        let ghost seen = parts.deep_view().take(i as int);
        let ghost kept = result.deep_view();
        assert(parts.deep_view().take(i + 1) == seen.push(parts[i as int]@));
        proof {
            seen.lemma_filter_push(parts[i as int]@, filled());
        }
        if !parts[i].as_str().is_empty() {
            result.push(parts[i].clone());
            assert(result.deep_view() == kept.push(parts[i as int]@));
        }
        i = i + 1;
    }
    assert(parts.deep_view().take(i as int) == parts.deep_view());
    result
}

/// The maximal runs of characters of the text that are not white space.
pub fn split_words(text: &str) -> (result: Vec<String>)
    ensures
        result.deep_view() == words(text@),
{
    keep_filled(&split(text, CharSet::Space))
}

/// The parts one after another, with the separator between neighbours.
pub open spec fn join(parts: Seq<Seq<char>>, separator: Seq<char>) -> Seq<char>
    decreases parts.len(),
{
    if parts.len() == 0 {
        Seq::<char>::empty()
    } else if parts.len() == 1 {
        parts[0]
    } else {
        join(parts.drop_last(), separator) + separator + parts.last()
    }
}

/// The parts one after another, with the separator between neighbours.
pub fn joined(parts: &Vec<String>, separator: &str) -> (result: String)
    ensures
        result@ == join(parts.deep_view(), separator@),
{
    let mut result = String::new();
    let mut i: usize = 0;
    while i < parts.len()
        invariant
            i <= parts@.len(),
            result@ == join(parts.deep_view().take(i as int), separator@),
        decreases parts@.len() - i,
    {
        assert(parts.deep_view().take(i + 1).drop_last() == parts.deep_view().take(i as int));
        if i > 0 {
            result.append(separator);
        }
        result.append(parts[i].as_str());
        i = i + 1;
    }
    assert(parts.deep_view().take(i as int) == parts.deep_view());
    result
}

/// `line` without the carriage return that ends it, if one does.
pub open spec fn strip_return(line: Seq<char>) -> Seq<char> {
    if line.len() > 0 && line.last() == '\r' {
        line.drop_last()
    } else {
        line
    }
}

/// The lines of `s`: a line ends in a line feed, which a carriage return may precede, and the
/// last line may lack that ending.
pub open spec fn lines(s: Seq<char>) -> Seq<Seq<char>> {
    let parts = pieces(s, CharSet::Only('\n'));
    let ended = parts.drop_last().map_values(|line: Seq<char>| strip_return(line));
    if parts.last().len() == 0 {
        ended
    } else {
        ended.push(parts.last())
    }
}

/// The lines of the text, without their endings.
pub fn split_lines(text: &str) -> (result: Vec<String>)
    ensures
        result.deep_view() == lines(text@),
{
    let parts = split(text, CharSet::Only('\n'));
    proof {
        lemma_pieces_not_empty(text@, CharSet::Only('\n'));
    }
    let last: usize = parts.len() - 1;
    let ghost all = parts.deep_view();
    let mut result: Vec<String> = Vec::new();
    let mut i: usize = 0;
    while i < last
        invariant
            i <= last == parts@.len() - 1,
            all == parts.deep_view(),
            result.deep_view() == all.take(i as int).map_values(
                |line: Seq<char>| strip_return(line),
            ),
        decreases last - i,
    {
        let ghost before = result.deep_view();
        let chars = chars_of(parts[i].as_str());
        let mut to: usize = chars.len();
        if to > 0 && chars[to - 1] == '\r' {
            to = to - 1;
        }
        let line = string_of(&chars, 0, to);
        assert(line@ == strip_return(all[i as int]));
        result.push(line);
        assert(result.deep_view() == before.push(line@));
        assert(all.take(i + 1) == all.take(i as int).push(all[i as int]));
        i = i + 1;
    }
    assert(all.take(last as int) == all.drop_last());
    if !parts[last].as_str().is_empty() {
        let ghost before = result.deep_view();
        result.push(parts[last].clone());
        assert(result.deep_view() == before.push(all.last()));
    }
    result
}

/// There is always at least one piece.
pub proof fn lemma_pieces_not_empty(s: Seq<char>, set: CharSet)
    ensures
        pieces(s, set).len() > 0,
    decreases s.len(),
{
    if s.len() > 0 {
        lemma_pieces_not_empty(s.drop_last(), set);
    }
}

/// The position of the first `c` in `s`, or the length of `s`.
pub open spec fn find(s: Seq<char>, c: char) -> int
    decreases s.len(),
{
    if s.len() == 0 || s[0] == c {
        0
    } else {
        1 + find(s.drop_first(), c)
    }
}

/// The text before and after the first `c`.
pub open spec fn cut_at(s: Seq<char>, c: char) -> Option<(Seq<char>, Seq<char>)> {
    if find(s, c) < s.len() {
        Some((s.take(find(s, c)), s.skip(find(s, c) + 1)))
    } else {
        None
    }
}

/// `find` is the first position that holds `c`.
pub proof fn lemma_find(s: Seq<char>, c: char, i: int)
    requires
        0 <= i <= s.len(),
        forall|j: int| 0 <= j < i ==> s[j] != c,
        i < s.len() ==> s[i] == c,
    ensures
        find(s, c) == i,
    decreases s.len(),
{
    if i > 0 {
        lemma_find(s.drop_first(), c, i - 1);
    }
}

/// The text before and after the first `c`, where there is one.
pub fn split_once(text: &str, c: char) -> (result: Option<(String, String)>)
    ensures
        result.deep_view() == cut_at(text@, c),
{
    let chars = chars_of(text);
    let mut i: usize = 0;
    while i < chars.len() && chars[i] != c
        invariant
            i <= chars@.len(),
            forall|j: int| 0 <= j < i ==> chars@[j] != c,
        decreases chars@.len() - i,
    {
        i = i + 1;
    }
    proof {
        lemma_find(text@, c, i as int);
    }
    if i < chars.len() {
        Some((string_of(&chars, 0, i), string_of(&chars, i + 1, chars.len())))
    } else {
        None
    }
}

/// Whether the text begins with the prefix.
pub fn starts_with(text: &str, prefix: &str) -> (result: bool)
    ensures
        result == prefix@.is_prefix_of(text@),
{
    let a = chars_of(text);
    let b = chars_of(prefix);
    if b.len() > a.len() {
        return false;
    }
    let mut i: usize = 0;
    while i < b.len()
        invariant
            i <= b@.len() <= a@.len(),
            a@ == text@,
            b@ == prefix@,
            forall|j: int| 0 <= j < i ==> a@[j] == b@[j],
        decreases b@.len() - i,
    {
        if a[i] != b[i] {
            assert(text@.take(b@.len() as int)[i as int] != prefix@[i as int]);
            return false;
        }
        i = i + 1;
    }
    assert(text@.take(b@.len() as int) == prefix@);
    true
}

/// A copy of the optional string.
pub fn clone_optional(value: &Option<String>) -> (result: Option<String>)
    ensures
        result.deep_view() == value.deep_view(),
{
    match value {
        Some(value) => Some(value.clone()),
        None => None,
    }
}

/// A copy of the list of strings.
pub fn clone_list(list: &Vec<String>) -> (result: Vec<String>)
    ensures
        result.deep_view() == list.deep_view(),
{
    let result = list.clone();
    assert(result.deep_view() =~= list.deep_view());
    result
}

/// Whether two strings hold the same characters.
pub fn same_text(a: &str, b: &str) -> (result: bool)
    ensures
        result == (a@ == b@),
{
    let owned_a = a.to_owned();
    let owned_b = b.to_owned();
    owned_a == owned_b
}

/// Whether no character of `s` is in the set.
pub open spec fn free_of(s: Seq<char>, set: CharSet) -> bool {
    forall|i: int| 0 <= i < s.len() ==> !set.has(#[trigger] s[i])
}

/// Text without characters of the set lengthens the last piece.
pub proof fn lemma_pieces_clean(s: Seq<char>, t: Seq<char>, set: CharSet)
    requires
        free_of(t, set),
    ensures
        pieces(s + t, set) == pieces(s, set).drop_last().push(pieces(s, set).last() + t),
    decreases t.len(),
{
    lemma_pieces_not_empty(s, set);
    let before = pieces(s, set);
    if t.len() == 0 {
        assert(s + t =~= s);
        assert(before.last() + t =~= before.last());
        assert(before =~= before.drop_last().push(before.last()));
    } else {
        let shorter = t.drop_last();
        assert(free_of(shorter, set)) by {
            assert forall|i: int| 0 <= i < shorter.len() implies !set.has(#[trigger] shorter[i]) by {
                assert(shorter[i] == t[i]);
            }
        }
        lemma_pieces_clean(s, shorter, set);
        assert((s + t).drop_last() =~= s + shorter);
        assert((s + t).last() == t.last());
        let middle = pieces(s + shorter, set);
        assert(middle.drop_last() =~= before.drop_last());
        assert(middle.last().push(t.last()) =~= before.last() + t);
    }
}

/// Text without characters of the set is one piece.
pub proof fn lemma_one_piece(s: Seq<char>, set: CharSet)
    requires
        free_of(s, set),
    ensures
        pieces(s, set) == seq![s],
{
    let none = Seq::<char>::empty();
    lemma_pieces_clean(none, s, set);
    assert(none + s =~= s);
    assert(pieces(none, set) == seq![none]);
    assert(pieces(s, set) =~= seq![s]);
}

/// A character of the set divides the pieces before it from those after it.
pub proof fn lemma_pieces_divide(s: Seq<char>, c: char, t: Seq<char>, set: CharSet)
    requires
        set.has(c),
    ensures
        pieces(s.push(c) + t, set) == pieces(s, set) + pieces(t, set),
    decreases t.len(),
{
    lemma_pieces_not_empty(s, set);
    lemma_pieces_not_empty(t, set);
    let whole = s.push(c) + t;
    if t.len() == 0 {
        assert(whole =~= s.push(c));
        assert(s.push(c).drop_last() =~= s);
        assert(pieces(t, set) =~= seq![Seq::<char>::empty()]);
        assert(pieces(whole, set) =~= pieces(s, set) + pieces(t, set));
    } else {
        lemma_pieces_divide(s, c, t.drop_last(), set);
        lemma_pieces_not_empty(t.drop_last(), set);
        assert(whole.drop_last() =~= s.push(c) + t.drop_last());
        assert(whole.last() == t.last());
        let a = pieces(s, set);
        let b = pieces(t.drop_last(), set);
        if set.has(t.last()) {
            assert((a + b).push(Seq::<char>::empty()) =~= a + b.push(Seq::<char>::empty()));
        } else {
            assert((a + b).last() == b.last());
            assert((a + b).drop_last().push(b.last().push(t.last())) =~= a + b.drop_last().push(
                b.last().push(t.last()),
            ));
        }
    }
}

/// Parts without the separator come back when they are joined by it and split at it.
pub proof fn lemma_pieces_of_join(parts: Seq<Seq<char>>, c: char, set: CharSet)
    requires
        parts.len() > 0,
        set.has(c),
        forall|i: int| 0 <= i < parts.len() ==> free_of(#[trigger] parts[i], set),
    ensures
        pieces(join(parts, seq![c]), set) == parts,
    decreases parts.len(),
{
    if parts.len() == 1 {
        lemma_one_piece(parts[0], set);
        assert(seq![parts[0]] =~= parts);
    } else {
        let front = parts.drop_last();
        assert forall|i: int| 0 <= i < front.len() implies free_of(#[trigger] front[i], set) by {
            assert(front[i] == parts[i]);
        }
        lemma_pieces_of_join(front, c, set);
        let s = join(front, seq![c]);
        assert(s + seq![c] =~= s.push(c));
        lemma_pieces_divide(s, c, parts.last(), set);
        lemma_one_piece(parts.last(), set);
        assert(front + seq![parts.last()] =~= parts);
    }
}

/// No piece has a character of the set, and each character of a piece is one of the text.
pub proof fn lemma_pieces_free(s: Seq<char>, set: CharSet)
    ensures
        forall|i: int| 0 <= i < pieces(s, set).len() ==> free_of(#[trigger] pieces(s, set)[i], set),
        forall|i: int, j: int|
            0 <= i < pieces(s, set).len() && 0 <= j < pieces(s, set)[i].len() ==> s.contains(
                #[trigger] pieces(s, set)[i][j],
            ),
    decreases s.len(),
{
    let all = pieces(s, set);
    if s.len() > 0 {
        let shorter = s.drop_last();
        let before = pieces(shorter, set);
        lemma_pieces_free(shorter, set);
        lemma_pieces_not_empty(shorter, set);
        assert forall|i: int, j: int| 0 <= i < all.len() && 0 <= j < all[i].len() implies !set.has(
            #[trigger] all[i][j],
        ) && s.contains(all[i][j]) by {
            if i < before.len() && j < before[i].len() {
                assert(all[i][j] == before[i][j]);
                assert(free_of(before[i], set));
                assert(shorter.contains(before[i][j]));
                let k = choose|k: int| 0 <= k < shorter.len() && shorter[k] == before[i][j];
                assert(s[k] == all[i][j]);
            } else {
                assert(all[i][j] == s.last());
                assert(s[s.len() - 1] == all[i][j]);
            }
        }
        assert forall|i: int| 0 <= i < all.len() implies free_of(#[trigger] all[i], set) by {
            assert forall|j: int| 0 <= j < all[i].len() implies !set.has(#[trigger] all[i][j]) by {
            }
        }
    }
}

/// Parts that all have characters are all kept.
pub proof fn lemma_filled_all(parts: Seq<Seq<char>>)
    requires
        forall|i: int| 0 <= i < parts.len() ==> (#[trigger] parts[i]).len() > 0,
    ensures
        parts.filter(filled()) == parts,
    decreases parts.len(),
{
    reveal(Seq::filter);
    if parts.len() > 0 {
        let front = parts.drop_last();
        assert forall|i: int| 0 <= i < front.len() implies (#[trigger] front[i]).len() > 0 by {
            assert(front[i] == parts[i]);
        }
        lemma_filled_all(front);
        assert(front.push(parts.last()) =~= parts);
    } else {
        assert(parts.filter(filled()) =~= parts);
    }
}

/// Words have characters, none of them white space, and each of them one of the text.
pub proof fn lemma_words(s: Seq<char>)
    ensures
        forall|i: int| 0 <= i < words(s).len() ==> (#[trigger] words(s)[i]).len() > 0,
        forall|i: int| 0 <= i < words(s).len() ==> free_of(#[trigger] words(s)[i], CharSet::Space),
        forall|i: int, j: int|
            0 <= i < words(s).len() && 0 <= j < words(s)[i].len() ==> s.contains(
                #[trigger] words(s)[i][j],
            ),
{
    let all = pieces(s, CharSet::Space);
    lemma_pieces_free(s, CharSet::Space);
    assert forall|i: int| 0 <= i < words(s).len() implies (#[trigger] words(s)[i]).len() > 0
        && free_of(words(s)[i], CharSet::Space) by {
        let word = words(s)[i];
        all.lemma_filter_pred(filled(), i);
        all.lemma_filter_contains_rev(filled(), word);
        assert(all.contains(word));
        let k = choose|k: int| 0 <= k < all.len() && all[k] == word;
        assert(free_of(all[k], CharSet::Space));
    }
    assert forall|i: int, j: int|
        0 <= i < words(s).len() && 0 <= j < words(s)[i].len() implies s.contains(
        #[trigger] words(s)[i][j],
    ) by {
        let word = words(s)[i];
        all.lemma_filter_contains_rev(filled(), word);
        assert(all.contains(word));
        let k = choose|k: int| 0 <= k < all.len() && all[k] == word;
        assert(s.contains(all[k][j]));
    }
}

/// The empty text has no word.
pub proof fn lemma_no_words()
    ensures
        words(Seq::<char>::empty()) == Seq::<Seq<char>>::empty(),
{
    let none = Seq::<Seq<char>>::empty();
    none.lemma_filter_push(Seq::<char>::empty(), filled());
    assert(none.push(Seq::<char>::empty()) =~= seq![Seq::<char>::empty()]);
    none.lemma_filter_len(filled());
    assert(none.filter(filled()) =~= none);
}

/// Joining adds no character of the set where neither the parts nor the separator have one.
pub proof fn lemma_join_free(parts: Seq<Seq<char>>, separator: Seq<char>, set: CharSet)
    requires
        free_of(separator, set),
        forall|i: int| 0 <= i < parts.len() ==> free_of(#[trigger] parts[i], set),
    ensures
        free_of(join(parts, separator), set),
    decreases parts.len(),
{
    if parts.len() > 1 {
        let front = parts.drop_last();
        assert forall|i: int| 0 <= i < front.len() implies free_of(#[trigger] front[i], set) by {
            assert(front[i] == parts[i]);
        }
        lemma_join_free(front, separator, set);
        let before = join(front, separator);
        let all = join(parts, separator);
        let last = parts[parts.len() - 1];
        assert(free_of(last, set));
        assert forall|k: int| 0 <= k < all.len() implies !set.has(#[trigger] all[k]) by {
            if k < before.len() {
                assert(all[k] == before[k]);
            } else if k < before.len() + separator.len() {
                assert(all[k] == separator[k - before.len()]);
            } else {
                assert(all[k] == last[k - before.len() - separator.len()]);
            }
        }
    } else if parts.len() == 1 {
        assert(free_of(parts[0], set));
    }
}

/// The lines one after another, each ended by a line feed.
pub open spec fn terminated(lines: Seq<Seq<char>>) -> Seq<char>
    decreases lines.len(),
{
    if lines.len() == 0 {
        Seq::<char>::empty()
    } else {
        terminated(lines.drop_last()) + lines.last().push('\n')
    }
}

/// Ending lines by line feeds and splitting at line feeds gives the lines, and an empty piece.
pub proof fn lemma_pieces_terminated(all: Seq<Seq<char>>)
    requires
        forall|i: int| 0 <= i < all.len() ==> free_of(#[trigger] all[i], CharSet::Only('\n')),
    ensures
        pieces(terminated(all), CharSet::Only('\n')) == all.push(Seq::<char>::empty()),
    decreases all.len(),
{
    let newline = CharSet::Only('\n');
    if all.len() == 0 {
        assert(pieces(terminated(all), newline) =~= all.push(Seq::<char>::empty()));
    } else {
        let front = all.drop_last();
        assert forall|i: int| 0 <= i < front.len() implies free_of(
            #[trigger] front[i],
            newline,
        ) by {
            assert(front[i] == all[i]);
        }
        lemma_pieces_terminated(front);
        let before = terminated(front);
        let last = all[all.len() - 1];
        assert(free_of(last, newline));
        lemma_pieces_clean(before, last, newline);
        let ended = before + last;
        assert(terminated(all) =~= ended.push('\n'));
        assert(ended.push('\n').drop_last() =~= ended);
        assert(ended.push('\n').last() == '\n');
        assert(Seq::<char>::empty() + last =~= last);
        assert(front.push(Seq::<char>::empty()).drop_last() =~= front);
        assert(pieces(ended, newline) =~= all);
    }
}

/// Lines that were ended by line feeds are read back, if none ends in a carriage return.
pub proof fn lemma_lines_terminated(all: Seq<Seq<char>>)
    requires
        forall|i: int| 0 <= i < all.len() ==> free_of(#[trigger] all[i], CharSet::Only('\n')),
        forall|i: int| 0 <= i < all.len() ==> strip_return(#[trigger] all[i]) == all[i],
    ensures
        lines(terminated(all)) == all,
{
    lemma_pieces_terminated(all);
    let parts = all.push(Seq::<char>::empty());
    assert(parts.drop_last() =~= all);
    assert(all.map_values(|line: Seq<char>| strip_return(line)) =~= all);
}

/// Trimming leaves characters of the text only.
pub proof fn lemma_trim_free(s: Seq<char>, set: CharSet, other: CharSet)
    requires
        free_of(s, other),
    ensures
        free_of(trim_start(s, set), other),
        free_of(trim_end(s, set), other),
    decreases s.len(),
{
    if s.len() > 0 {
        let (tail, front) = (s.drop_first(), s.drop_last());
        assert forall|i: int| 0 <= i < tail.len() implies !other.has(#[trigger] tail[i]) by {
            assert(tail[i] == s[i + 1]);
        }
        assert forall|i: int| 0 <= i < front.len() implies !other.has(#[trigger] front[i]) by {
            assert(front[i] == s[i]);
        }
        lemma_trim_free(tail, set, other);
        lemma_trim_free(front, set, other);
    }
}

/// Text that is left by trimming its end does not end in a character of the set.
pub proof fn lemma_trim_end_last(s: Seq<char>, set: CharSet)
    ensures
        trim_end(s, set).len() > 0 ==> !set.has(trim_end(s, set).last()),
    decreases s.len(),
{
    if s.len() > 0 {
        lemma_trim_end_last(s.drop_last(), set);
    }
}

/// Trimming leaves something of a text with a character that is not of the set.
pub proof fn lemma_trim_leaves(s: Seq<char>, set: CharSet, i: int)
    requires
        0 <= i < s.len(),
        !set.has(s[i]),
    ensures
        trim_set(s, set).len() > 0,
    decreases s.len(),
{
    if set.has(s[0]) {
        assert(s.drop_first()[i - 1] == s[i]);
        lemma_trim_leaves(s.drop_first(), set, i - 1);
    } else {
        lemma_trim_end_leaves(s, set, i);
    }
}

proof fn lemma_trim_end_leaves(s: Seq<char>, set: CharSet, i: int)
    requires
        0 <= i < s.len(),
        !set.has(s[i]),
    ensures
        trim_end(s, set).len() > 0,
    decreases s.len(),
{
    if set.has(s.last()) {
        assert(s.drop_last()[i] == s[i]);
        lemma_trim_end_leaves(s.drop_last(), set, i);
    }
}

/// Joined parts begin with the first of them.
pub proof fn lemma_join_begins(parts: Seq<Seq<char>>, separator: Seq<char>)
    requires
        parts.len() > 0,
    ensures
        parts[0].len() <= join(parts, separator).len(),
        forall|i: int| 0 <= i < parts[0].len() ==> #[trigger] join(parts, separator)[i] == parts[0][i],
    decreases parts.len(),
{
    if parts.len() > 1 {
        lemma_join_begins(parts.drop_last(), separator);
    }
}

} // verus!
