//! Search terms: text folded to lower-case ASCII letters and digits.
use vstd::prelude::*;

use crate::text;
use crate::text_laws;

verus! {

/// The character without the accents of Spanish and its neighbours, in lower case where it is an
/// ASCII letter.
pub open spec fn fold(c: char) -> char {
    match c {
        'á' | 'à' | 'ä' | 'â' | 'Á' | 'À' | 'Ä' | 'Â' => 'a',
        'é' | 'è' | 'ë' | 'ê' | 'É' | 'È' | 'Ë' | 'Ê' => 'e',
        'í' | 'ì' | 'ï' | 'î' | 'Í' | 'Ì' | 'Ï' | 'Î' => 'i',
        'ó' | 'ò' | 'ö' | 'ô' | 'Ó' | 'Ò' | 'Ö' | 'Ô' => 'o',
        'ú' | 'ù' | 'ü' | 'û' | 'Ú' | 'Ù' | 'Ü' | 'Û' => 'u',
        'ñ' | 'Ñ' => 'n',
        other => if 'A' <= other <= 'Z' {
            (other as u32 + 32) as char
        } else {
            other
        },
    }
}

/// Whether the character is an ASCII letter in lower case or an ASCII digit.
pub open spec fn is_term_char(c: char) -> bool {
    'a' <= c <= 'z' || '0' <= c <= '9'
}

/// The folded character, or a space where that can be in no term.
pub open spec fn normal(c: char) -> char {
    if is_term_char(fold(c)) {
        fold(c)
    } else {
        ' '
    }
}

/// The terms of a text: the words of its folded characters.
pub open spec fn terms_of(s: Seq<char>) -> Seq<Seq<char>> {
    text::words(s.map_values(|c: char| normal(c)))
}

fn folded(c: char) -> (result: char)
    ensures
        result == fold(c),
{
    match c {
        'á' | 'à' | 'ä' | 'â' | 'Á' | 'À' | 'Ä' | 'Â' => 'a',
        'é' | 'è' | 'ë' | 'ê' | 'É' | 'È' | 'Ë' | 'Ê' => 'e',
        'í' | 'ì' | 'ï' | 'î' | 'Í' | 'Ì' | 'Ï' | 'Î' => 'i',
        'ó' | 'ò' | 'ö' | 'ô' | 'Ó' | 'Ò' | 'Ö' | 'Ô' => 'o',
        'ú' | 'ù' | 'ü' | 'û' | 'Ú' | 'Ù' | 'Ü' | 'Û' => 'u',
        'ñ' | 'Ñ' => 'n',
        other => if 'A' <= other && other <= 'Z' {
            ((other as u8) + 32) as char
        } else {
            other
        },
    }
}

/// Tokenize text into normalized ASCII terms. Spanish accents are folded so `Bogota` and
/// `Bogotá` match without keeping duplicate index entries.
pub fn normalized_terms(text: &str) -> (result: Vec<String>)
    ensures
        result.deep_view() == terms_of(text@),
{
    let chars = text::chars_of(text);
    let mut normalized = String::new();
    let mut i: usize = 0;
    while i < chars.len()
        invariant
            i <= chars@.len(),
            chars@ == text@,
            normalized@ == chars@.take(i as int).map_values(|c: char| normal(c)),
        decreases chars@.len() - i,
    {
        let c = folded(chars[i]);
        let next = if ('a' <= c && c <= 'z') || ('0' <= c && c <= '9') {
            c
        } else {
            ' '
        };
        normalized.push(next);
        assert(chars@.take(i + 1) == chars@.take(i as int).push(chars@[i as int]));
        i = i + 1;
    }
    assert(chars@.take(i as int) == text@);
    text::split_words(normalized.as_str())
}

/// Every term has a character, and letters in lower case and digits only.
pub proof fn law_terms_are_plain(s: Seq<char>)
    ensures
        forall|i: int| 0 <= i < terms_of(s).len() ==> (#[trigger] terms_of(s)[i]).len() > 0,
        forall|i: int, j: int|
            0 <= i < terms_of(s).len() && 0 <= j < terms_of(s)[i].len() ==> is_term_char(
                #[trigger] terms_of(s)[i][j],
            ),
{
    let normalized = s.map_values(|c: char| normal(c));
    text::lemma_words(normalized);
    assert forall|i: int, j: int|
        0 <= i < terms_of(s).len() && 0 <= j < terms_of(s)[i].len() implies is_term_char(
        #[trigger] terms_of(s)[i][j],
    ) by {
        let word = text::words(normalized)[i];
        assert(normalized.contains(word[j]));
        assert(text::free_of(word, text::CharSet::Space));
        let k = choose|k: int| 0 <= k < normalized.len() && normalized[k] == word[j];
        assert(word[j] == normal(s[k]));
        assert(!text::is_space(word[j]));
    }
}

/// Texts that differ in accents or in the case of letters have the same terms.
pub proof fn law_terms_ignore_accents(a: Seq<char>, b: Seq<char>)
    requires
        a.map_values(|c: char| fold(c)) == b.map_values(|c: char| fold(c)),
    ensures
        terms_of(a) == terms_of(b),
{
    let fa = a.map_values(|c: char| fold(c));
    let fb = b.map_values(|c: char| fold(c));
    assert(a.len() == fa.len() && b.len() == fb.len());
    assert forall|i: int| 0 <= i < a.len() implies normal(a[i]) == normal(b[i]) by {
        assert(fa[i] == fold(a[i]) && fb[i] == fold(b[i]));
    }
    assert(a.map_values(|c: char| normal(c)) =~= b.map_values(|c: char| normal(c)));
}

/// The terms of terms, with spaces between them, are those terms.
pub proof fn law_terms_of_terms(s: Seq<char>)
    ensures
        terms_of(text::join(terms_of(s), seq![' '])) == terms_of(s),
{
    let terms = terms_of(s);
    law_terms_are_plain(s);
    lemma_terms_of_joined(terms);
}

/// Plain terms with spaces between them have themselves as terms.
proof fn lemma_terms_of_joined(terms: Seq<Seq<char>>)
    requires
        forall|i: int| 0 <= i < terms.len() ==> (#[trigger] terms[i]).len() > 0,
        forall|i: int, j: int|
            0 <= i < terms.len() && 0 <= j < terms[i].len() ==> is_term_char(
                #[trigger] terms[i][j],
            ),
    ensures
        terms_of(text::join(terms, seq![' '])) == terms,
{
    let space = text::CharSet::Space;
    let joined = text::join(terms, seq![' ']);
    lemma_joined_chars(terms);
    assert(joined.map_values(|c: char| normal(c)) =~= joined);
    if terms.len() == 0 {
        text::lemma_no_words();
        assert(terms =~= Seq::<Seq<char>>::empty());
    } else {
        assert forall|i: int| 0 <= i < terms.len() implies text::free_of(
            #[trigger] terms[i],
            space,
        ) by {
            assert forall|j: int| 0 <= j < terms[i].len() implies !space.has(
                #[trigger] terms[i][j],
            ) by {
                assert(is_term_char(terms[i][j]));
            }
        }
        text::lemma_pieces_of_join(terms, ' ', space);
        text::lemma_filled_all(terms);
    }
}

proof fn lemma_joined_chars(terms: Seq<Seq<char>>)
    requires
        forall|i: int, j: int|
            0 <= i < terms.len() && 0 <= j < terms[i].len() ==> is_term_char(
                #[trigger] terms[i][j],
            ),
    ensures
        ({
            let joined = text::join(terms, seq![' ']);
            forall|k: int|
                0 <= k < joined.len() ==> is_term_char(#[trigger] joined[k]) || joined[k] == ' '
        }),
    decreases terms.len(),
{
    if terms.len() > 1 {
        let front = terms.drop_last();
        assert forall|i: int, j: int|
            0 <= i < front.len() && 0 <= j < front[i].len() implies is_term_char(
            #[trigger] front[i][j],
        ) by {
            assert(front[i][j] == terms[i][j]);
        }
        lemma_joined_chars(front);
        let joined = text::join(terms, seq![' ']);
        let before = text::join(front, seq![' ']);
        assert forall|k: int| 0 <= k < joined.len() implies is_term_char(#[trigger] joined[k])
            || joined[k] == ' ' by {
            if k < before.len() {
                assert(joined[k] == before[k]);
            } else if k > before.len() {
                assert(joined[k] == terms.last()[k - before.len() - 1]);
                assert(is_term_char(terms[terms.len() - 1][k - before.len() - 1]));
            }
        }
    } else if terms.len() == 1 {
        let joined = text::join(terms, seq![' ']);
        assert forall|k: int| 0 <= k < joined.len() implies is_term_char(#[trigger] joined[k]) by {
            assert(joined[k] == terms[0][k]);
        }
    }
}

/// A text of ASCII letters and digits has one term, the text with its letters in lower case.
pub proof fn law_plain_text_is_one_term(s: Seq<char>)
    requires
        s.len() > 0,
        forall|i: int|
            0 <= i < s.len() ==> ({
                let n = #[trigger] s[i] as int;
                48 <= n <= 57 || 65 <= n <= 90 || 97 <= n <= 122
            }),
    ensures
        terms_of(s) == seq![
            Seq::new(
                s.len(),
                |i: int|
                    if 65 <= s[i] as int <= 90 {
                        (s[i] as int + 32) as char
                    } else {
                        s[i]
                    },
            ),
        ],
{
    let lower = Seq::new(
        s.len(),
        |i: int|
            if 65 <= s[i] as int <= 90 {
                (s[i] as int + 32) as char
            } else {
                s[i]
            },
    );
    let normalized = s.map_values(|c: char| normal(c));
    assert forall|i: int| 0 <= i < s.len() implies normalized[i] == #[trigger] lower[i]
        && !text::is_space(lower[i]) by {
        let c = s[i];
        let n = s[i] as int;
        assert(48 <= n <= 57 || 65 <= n <= 90 || 97 <= n <= 122);
    }
    assert(normalized =~= lower);
    text_laws::law_words(lower, ' ', lower);
}

/// Any character that is no ASCII letter or digit and not one of the accented letters divides the
/// terms before it from those after it; and a text without characters has no term.
pub proof fn law_other_characters_divide_terms(a: Seq<char>, c: char, b: Seq<char>)
    requires
        ({
            let n = c as int;
            !(48 <= n <= 57 || 65 <= n <= 90 || 97 <= n <= 122)
        }),
        !seq!['á', 'à', 'ä', 'â', 'Á', 'À', 'Ä', 'Â'].contains(c),
        !seq!['é', 'è', 'ë', 'ê', 'É', 'È', 'Ë', 'Ê'].contains(c),
        !seq!['í', 'ì', 'ï', 'î', 'Í', 'Ì', 'Ï', 'Î'].contains(c),
        !seq!['ó', 'ò', 'ö', 'ô', 'Ó', 'Ò', 'Ö', 'Ô'].contains(c),
        !seq!['ú', 'ù', 'ü', 'û', 'Ú', 'Ù', 'Ü', 'Û'].contains(c),
        !seq!['ñ', 'Ñ'].contains(c),
    ensures
        terms_of(a.push(c) + b) == terms_of(a) + terms_of(b),
        terms_of(Seq::<char>::empty()) == Seq::<Seq<char>>::empty(),
{
    let f = |c: char| normal(c);
    let eight = seq!['á', 'à', 'ä', 'â', 'Á', 'À', 'Ä', 'Â'];
    lemma_not_in_eight(eight, c);
    lemma_not_in_eight(seq!['é', 'è', 'ë', 'ê', 'É', 'È', 'Ë', 'Ê'], c);
    lemma_not_in_eight(seq!['í', 'ì', 'ï', 'î', 'Í', 'Ì', 'Ï', 'Î'], c);
    lemma_not_in_eight(seq!['ó', 'ò', 'ö', 'ô', 'Ó', 'Ò', 'Ö', 'Ô'], c);
    lemma_not_in_eight(seq!['ú', 'ù', 'ü', 'û', 'Ú', 'Ù', 'Ü', 'Û'], c);
    assert(seq!['ñ', 'Ñ'][0] == 'ñ' && seq!['ñ', 'Ñ'][1] == 'Ñ');
    assert(normal(c) == ' ');
    assert((a.push(c) + b).map_values(f) =~= a.map_values(f).push(' ') + b.map_values(f));
    text_laws::law_words(a.map_values(f), ' ', b.map_values(f));
    assert(Seq::<char>::empty().map_values(f) =~= Seq::<char>::empty());
}

proof fn lemma_not_in_eight(letters: Seq<char>, c: char)
    requires
        letters.len() == 8,
        !letters.contains(c),
    ensures
        c != letters[0] && c != letters[1] && c != letters[2] && c != letters[3],
        c != letters[4] && c != letters[5] && c != letters[6] && c != letters[7],
{
}

/// An accented letter counts as the letter without the accent, and a letter in upper case as the
/// letter in lower case: texts that differ in that only have the same terms.
pub proof fn law_letters_count_as_plain(a: Seq<char>, b: Seq<char>)
    requires
        a.len() == b.len(),
        forall|i: int|
            0 <= i < a.len() ==> ({
                let (c, d) = (#[trigger] a[i], b[i]);
                ||| c == d
                ||| 65 <= c as int <= 90 && d as int == c as int + 32
                ||| d == 'a' && (c == 'á' || c == 'à' || c == 'ä' || c == 'â' || c == 'Á' || c
                    == 'À' || c == 'Ä' || c == 'Â')
                ||| d == 'e' && (c == 'é' || c == 'è' || c == 'ë' || c == 'ê' || c == 'É' || c
                    == 'È' || c == 'Ë' || c == 'Ê')
                ||| d == 'i' && (c == 'í' || c == 'ì' || c == 'ï' || c == 'î' || c == 'Í' || c
                    == 'Ì' || c == 'Ï' || c == 'Î')
                ||| d == 'o' && (c == 'ó' || c == 'ò' || c == 'ö' || c == 'ô' || c == 'Ó' || c
                    == 'Ò' || c == 'Ö' || c == 'Ô')
                ||| d == 'u' && (c == 'ú' || c == 'ù' || c == 'ü' || c == 'û' || c == 'Ú' || c
                    == 'Ù' || c == 'Ü' || c == 'Û')
                ||| d == 'n' && (c == 'ñ' || c == 'Ñ')
            }),
    ensures
        terms_of(a) == terms_of(b),
{
    let f = |c: char| normal(c);
    assert forall|i: int| 0 <= i < a.len() implies #[trigger] a.map_values(f)[i] == b.map_values(
        f,
    )[i] by {
        let (c, d) = (a[i], b[i]);
        if 65 <= c as int <= 90 && d as int == c as int + 32 {
            assert(d == (c as u32 + 32) as char);
        }
    }
    assert(a.map_values(f) =~= b.map_values(f));
}

} // verus!
