//! What the web service reads from requests and writes into answers.
use vstd::prelude::*;
use vstd::utf8;

use crate::decimal;
use crate::http;
use crate::http::{HitNumeralsView, RouteView};
use crate::query::HitView;
use crate::text;
use crate::text::CharSet;
use crate::text_laws;

verus! {

/// The list of features in the answer has as many elements as there are hits, and each of them is
/// the GeoJSON text of the hit in its place; commas stand between them.
pub proof fn law_features_of_hits(hits: Seq<HitView>, numerals: Seq<HitNumeralsView>)
    requires
        numerals.len() == hits.len(),
    ensures
        exists|features: Seq<Seq<char>>|
            {
                &&& #[trigger] features.len() == hits.len()
                &&& forall|i: int|
                    0 <= i < hits.len() ==> #[trigger] features[i] == http::feature(
                        hits[i],
                        numerals[i],
                    )
                &&& http::collection(hits, numerals)
                    == "{\"type\":\"FeatureCollection\",\"features\":["@ + text::join(
                    features,
                    seq![','],
                ) + "]}"@
            },
{
    let features = http::features(hits, numerals);
    assert(features.len() == hits.len());
}

/// The answer to one hit more is the answer to the others with a comma and the GeoJSON text of that
/// hit put in before the closing brackets. The answer to no hit has an empty list, and the answer to
/// one hit a list of its text alone.
pub proof fn law_answer_grows_by_hit(
    hits: Seq<HitView>,
    numerals: Seq<HitNumeralsView>,
    hit: HitView,
    figures: HitNumeralsView,
)
    requires
        numerals.len() == hits.len(),
    ensures
        hits.len() > 0 ==> ({
            let before = http::collection(hits, numerals);
            let end = before.len() - 2;
            &&& end >= 0
            &&& before.skip(end) == seq![']', '}']
            &&& http::collection(hits.push(hit), numerals.push(figures)) == before.take(end) + seq![
                ',',
            ] + http::feature(hit, figures) + seq![']', '}']
        }),
        http::collection(Seq::<HitView>::empty(), Seq::<HitNumeralsView>::empty())
            == "{\"type\":\"FeatureCollection\",\"features\":[]}"@,
        http::collection(seq![hit], seq![figures])
            == "{\"type\":\"FeatureCollection\",\"features\":["@ + http::feature(hit, figures)
            + seq![']', '}'],
{
    reveal_strlit("]}");
    assert("]}"@ =~= seq![']', '}']);
    lemma_no_hits();
    let text = http::feature(hit, figures);
    assert(http::features(seq![hit], seq![figures]) =~= seq![text]);
    text_laws::law_joining(Seq::<Seq<char>>::empty(), text, seq![',']);
    if hits.len() > 0 {
        lemma_one_hit_more(hits, numerals, hit, figures);
    }
}

proof fn lemma_no_hits()
    ensures
        http::collection(Seq::<HitView>::empty(), Seq::<HitNumeralsView>::empty())
            == "{\"type\":\"FeatureCollection\",\"features\":[]}"@,
{
    reveal_strlit("{\"type\":\"FeatureCollection\",\"features\":[");
    reveal_strlit("]}");
    reveal_strlit("{\"type\":\"FeatureCollection\",\"features\":[]}");
    let open = "{\"type\":\"FeatureCollection\",\"features\":["@;
    let none = Seq::<HitView>::empty();
    let no_numerals = Seq::<HitNumeralsView>::empty();
    assert(http::features(none, no_numerals) =~= Seq::<Seq<char>>::empty());
    assert(open + Seq::<char>::empty() + "]}"@
        =~= "{\"type\":\"FeatureCollection\",\"features\":[]}"@);
}

proof fn lemma_one_hit_more(
    hits: Seq<HitView>,
    numerals: Seq<HitNumeralsView>,
    hit: HitView,
    figures: HitNumeralsView,
)
    requires
        numerals.len() == hits.len(),
        hits.len() > 0,
        "]}"@ == seq![']', '}'],
    ensures
        ({
            let before = http::collection(hits, numerals);
            let end = before.len() - 2;
            &&& end >= 0
            &&& before.skip(end) == seq![']', '}']
            &&& http::collection(hits.push(hit), numerals.push(figures)) == before.take(end) + seq![
                ',',
            ] + http::feature(hit, figures) + seq![']', '}']
        }),
{
    let open = "{\"type\":\"FeatureCollection\",\"features\":["@;
    let close = seq![']', '}'];
    let features = http::features(hits, numerals);
    let more = http::features(hits.push(hit), numerals.push(figures));
    let text = http::feature(hit, figures);
    assert(more =~= features.push(text)) by {
        assert forall|i: int| 0 <= i < features.len() implies #[trigger] more[i] == features[i] by {
            assert(hits.push(hit)[i] == hits[i]);
            assert(numerals.push(figures)[i] == numerals[i]);
        }
    }
    text_laws::law_joining(features, text, seq![',']);
    let list = text::join(features, seq![',']);
    let before = http::collection(hits, numerals);
    assert(before == open + list + close);
    let end = before.len() - 2;
    assert(before.take(end) =~= open + list);
    assert(before.skip(end) =~= close);
    assert(open + (list + seq![','] + text) + close =~= before.take(end) + seq![','] + text
        + close);
}

/// The GeoJSON text of a hit gives its longitude and then its latitude, its identifier, source,
/// layer, name, label and country, its score, and its distance where it has one.
pub proof fn law_text_of_hit(hit: HitView, numerals: HitNumeralsView)
    ensures
        ({
            let document = hit.document;
            let until_score =
                "{\"type\":\"Feature\",\"geometry\":{\"type\":\"Point\",\"coordinates\":["@
                + numerals.longitude + seq![','] + numerals.latitude
                + "]},\"properties\":{\"id\":\""@ + http::json_escaped(document.id)
                + "\",\"source\":\""@ + http::json_escaped(document.source) + "\",\"layer\":\""@
                + http::json_escaped(document.layer) + "\",\"name\":\""@ + http::json_escaped(
                document.name,
            ) + "\",\"label\":\""@ + http::json_escaped(document.label)
                + "\",\"country_code\":\""@ + http::json_escaped(document.country_code)
                + "\",\"score\":"@ + numerals.score;
            &&& hit.distance_meters is None ==> http::feature(hit, numerals) == until_score + seq![
                '}',
                '}',
            ]
            &&& hit.distance_meters is Some ==> http::feature(hit, numerals) == until_score
                + ",\"distance_meters\":"@ + numerals.distance + seq!['}', '}']
        }),
{
    reveal_strlit(",");
    reveal_strlit("}}");
    assert(","@ =~= seq![',']);
    assert("}}"@ =~= seq!['}', '}']);
    let document = hit.document;
    let until_score = "{\"type\":\"Feature\",\"geometry\":{\"type\":\"Point\",\"coordinates\":["@
        + numerals.longitude + seq![','] + numerals.latitude + "]},\"properties\":{\"id\":\""@
        + http::json_escaped(document.id) + "\",\"source\":\""@ + http::json_escaped(
        document.source,
    ) + "\",\"layer\":\""@ + http::json_escaped(document.layer) + "\",\"name\":\""@
        + http::json_escaped(document.name) + "\",\"label\":\""@ + http::json_escaped(
        document.label,
    ) + "\",\"country_code\":\""@ + http::json_escaped(document.country_code) + "\",\"score\":"@
        + numerals.score;
    if hit.distance_meters is Some {
        let distance = ",\"distance_meters\":"@ + numerals.distance;
        assert(http::feature(hit, numerals) == until_score + distance + seq!['}', '}']);
        assert(until_score + distance =~= until_score + ",\"distance_meters\":"@
            + numerals.distance);
    } else {
        assert(http::feature(hit, numerals) == until_score + Seq::<char>::empty() + seq!['}', '}']);
        assert(until_score + Seq::<char>::empty() =~= until_score);
    }
}

/// Text is escaped for JSON character by character: a backslash goes before a backslash and before
/// a quotation mark, a line feed becomes a backslash and an `n`, and any other character stays.
pub proof fn law_json_escaping(a: Seq<char>, c: char, b: Seq<char>)
    ensures
        http::json_escaped(Seq::<char>::empty()) == Seq::<char>::empty(),
        http::json_escaped(a + b) == http::json_escaped(a) + http::json_escaped(b),
        http::json_escaped(seq!['\\']) == seq!['\\', '\\'],
        http::json_escaped(seq!['"']) == seq!['\\', '"'],
        http::json_escaped(seq!['\n']) == seq!['\\', 'n'],
        c != '\\' && c != '"' && c != '\n' ==> http::json_escaped(seq![c]) == seq![c],
{
    lemma_json_add(a, b);
    lemma_json_one('\\');
    lemma_json_one('"');
    lemma_json_one('\n');
    lemma_json_one(c);
}

proof fn lemma_json_one(c: char)
    ensures
        http::json_escaped(seq![c]) == http::json_char(c),
{
    let rest = seq![c].drop_first();
    assert(rest =~= Seq::<char>::empty());
    assert(http::json_escaped(rest) == Seq::<char>::empty());
    assert(http::json_escaped(seq![c]) =~= http::json_char(c));
}

proof fn lemma_json_add(a: Seq<char>, b: Seq<char>)
    ensures
        http::json_escaped(a + b) == http::json_escaped(a) + http::json_escaped(b),
    decreases a.len(),
{
    if a.len() == 0 {
        assert(a + b =~= b);
        assert(http::json_escaped(a) + http::json_escaped(b) =~= http::json_escaped(b));
    } else {
        lemma_json_add(a.drop_first(), b);
        assert((a + b).drop_first() =~= a.drop_first() + b);
        assert(http::json_escaped(a + b) =~= http::json_escaped(a) + http::json_escaped(b));
    }
}

/// Encoded bytes are decoded from left to right: a plus sign is a space, and a byte other than a
/// plus and a percent sign is the character with its number.
pub proof fn law_decoding_plain_bytes(b: u8, rest: Seq<u8>)
    requires
        b != 37,
    ensures
        http::url_decoded(Seq::<u8>::empty()) == Seq::<char>::empty(),
        http::url_decoded(seq![b] + rest) == seq![
            if b == 43 {
                ' '
            } else {
                b as char
            },
        ] + http::url_decoded(rest),
        http::decodable(Seq::<u8>::empty()),
        http::decodable(seq![b] + rest) == http::decodable(rest),
{
    assert((seq![b] + rest).skip(1) =~= rest);
}

/// A percent sign and two hexadecimal digits, or a plus sign and one, are the character with that
/// number; any other percent sign stands for itself. Where at least two bytes follow a percent sign,
/// the byte after these two must not go on with a character.
pub proof fn law_decoding_percent_signs(a: u8, b: u8, rest: Seq<u8>)
    ensures
        ({
            let is_digit = |c: u8| 48 <= c <= 57 || 65 <= c <= 70 || 97 <= c <= 102;
            let digit = |c: u8|
                if c <= 57 {
                    c - 48
                } else if c <= 70 {
                    c - 65 + 10
                } else {
                    c - 97 + 10
                };
            let all = seq![37u8, a, b] + rest;
            let breaks = rest.len() > 0 && 128 <= rest[0] < 192;
            &&& is_digit(a) && is_digit(b) ==> http::url_decoded(all) == seq![
                (16 * digit(a) + digit(b)) as char,
            ] + http::url_decoded(rest) && http::decodable(all) == (!breaks && http::decodable(
                rest,
            ))
            &&& a == 43 && is_digit(b) ==> http::url_decoded(all) == seq![digit(b) as char]
                + http::url_decoded(rest) && http::decodable(all) == (!breaks && http::decodable(
                rest,
            ))
            &&& !is_digit(b) || (!is_digit(a) && a != 43) ==> http::url_decoded(all) == seq!['%']
                + http::url_decoded(seq![a, b] + rest) && http::decodable(all) == (!breaks
                && http::decodable(seq![a, b] + rest))
        }),
        http::url_decoded(seq![37u8]) == seq!['%'],
        http::decodable(seq![37u8]),
        http::url_decoded(seq![37u8, a]) == seq!['%'] + http::url_decoded(seq![a]),
        http::decodable(seq![37u8, a]) == http::decodable(seq![a]),
{
    let all = seq![37u8, a, b] + rest;
    assert(all.skip(3) =~= rest);
    assert(all.skip(1) =~= seq![a, b] + rest);
    assert(all[1] == a && all[2] == b);
    if rest.len() > 0 {
        assert(all[3] == rest[0]);
    }
    assert(37u8 as char == '%');
    assert(seq![37u8].skip(1) =~= Seq::<u8>::empty());
    assert(http::url_decoded(seq![37u8].skip(1)) == Seq::<char>::empty());
    assert(http::url_decoded(seq![37u8]) =~= seq!['%']);
    assert(http::decodable(seq![37u8].skip(1)));
    assert(seq![37u8, a].skip(1) =~= seq![a]);
}

/// A part of a query with an equals sign gives the parameter that its decoded text before the first
/// equals sign names the decoded text after it, in place of any earlier one; a part without an
/// equals sign gives none.
pub proof fn law_parameters_of_query(
    parts: Seq<Seq<char>>,
    key: Seq<char>,
    value: Seq<char>,
)
    requires
        forall|i: int| 0 <= i < key.len() ==> #[trigger] key[i] != '=',
    ensures
        http::parameters(Seq::<Seq<char>>::empty()) == Map::<Seq<char>, Seq<char>>::empty(),
        http::parameters(parts.push(key.push('=') + value)) == http::parameters(parts).insert(
            http::url_decoded(utf8::encode_utf8(key)),
            http::url_decoded(utf8::encode_utf8(value)),
        ),
        http::part_decodable(key.push('=') + value) <==> http::decodable(utf8::encode_utf8(key))
            && http::decodable(utf8::encode_utf8(value)),
        http::parameters(parts.push(key)) == http::parameters(parts),
        http::part_decodable(key),
{
    lemma_cut(key, '=', value);
    assert(parts.push(key.push('=') + value).drop_last() =~= parts);
    assert(parts.push(key).drop_last() =~= parts);
}

proof fn lemma_cut(a: Seq<char>, c: char, b: Seq<char>)
    requires
        forall|i: int| 0 <= i < a.len() ==> #[trigger] a[i] != c,
    ensures
        text::cut_at(a.push(c) + b, c) == Some((a, b)),
        text::cut_at(a, c) is None,
{
    let s = a.push(c) + b;
    assert forall|j: int| 0 <= j < a.len() implies s[j] != c by {
        assert(s[j] == a[j]);
    }
    text::lemma_find(s, c, a.len() as int);
    text::lemma_find(a, c, a.len() as int);
    assert(s.take(a.len() as int) =~= a);
    assert(s.skip(a.len() as int + 1) =~= b);
}

/// A query can be decoded where each of the parts can be that its ampersands divide.
pub proof fn law_query_can_be_decoded(query: Seq<char>)
    ensures
        http::query_decodable(query) <==> forall|i: int|
            0 <= i < text::pieces(query, CharSet::Only('&')).len() ==> http::part_decodable(
                #[trigger] text::pieces(query, CharSet::Only('&'))[i],
            ),
{
}

/// Only `GET` is served, at four paths; what follows the first question mark of the target is the
/// query. The method and the target are the first two words of the first line.
pub proof fn law_routes(line: Seq<char>, path: Seq<char>, query: Seq<char>)
    requires
        forall|i: int| 0 <= i < path.len() ==> #[trigger] path[i] != '?',
    ensures
        ({
            let words = text::words(line);
            let params = http::parameters(text::pieces(query, CharSet::Only('&')));
            let no_params = http::parameters(
                text::pieces(Seq::<char>::empty(), CharSet::Only('&')),
            );
            let at = |given: Map<Seq<char>, Seq<char>>|
                if path == "/healthz"@ {
                    RouteView::Health
                } else if path == "/v1/search"@ {
                    RouteView::Search(given)
                } else if path == "/v1/autocomplete"@ {
                    RouteView::Autocomplete(given)
                } else if path == "/v1/reverse"@ {
                    RouteView::Reverse(given)
                } else {
                    RouteView::NotFound
                };
            &&& words.len() == 0 || words[0] != "GET"@ ==> http::routed(line)
                == RouteView::MethodNotAllowed
            &&& words.len() == 1 && words[0] == "GET"@ ==> http::routed(line) == RouteView::NotFound
            &&& words.len() >= 2 && words[0] == "GET"@ && words[1] == path.push('?') + query
                ==> http::routed(line) == at(params)
            &&& words.len() >= 2 && words[0] == "GET"@ && words[1] == path ==> http::routed(line)
                == at(no_params)
        }),
{
    reveal_strlit("GET");
    reveal_strlit("/healthz");
    reveal_strlit("/v1/search");
    reveal_strlit("/v1/autocomplete");
    reveal_strlit("/v1/reverse");
    lemma_cut(path, '?', query);
    let none = Seq::<char>::empty();
    lemma_cut(none, '?', none);
    let words = text::words(line);
    if words.len() == 0 {
        assert(http::word(line, 0) == none);
        assert(http::word(line, 0).len() != "GET"@.len());
    } else if words.len() == 1 {
        assert(http::word(line, 1) == none);
        assert(http::path_and_query(none).0 == none);
        assert(none.len() != "/healthz"@.len());
        assert(none.len() != "/v1/search"@.len());
        assert(none.len() != "/v1/autocomplete"@.len());
        assert(none.len() != "/v1/reverse"@.len());
    }
}

/// The first line of a request says what it asks for, and a request without a line asks for
/// nothing. A request with the method `GET` can be answered where its query can be decoded, and any
/// other request always.
pub proof fn law_first_line_counts(request: Seq<char>, path: Seq<char>, query: Seq<char>)
    requires
        forall|i: int| 0 <= i < path.len() ==> #[trigger] path[i] != '?',
    ensures
        ({
            let lines = text::lines(request);
            let words = text::words(lines[0]);
            &&& lines.len() == 0 ==> http::request_route(request) is None
                && http::request_decodable(request)
            &&& lines.len() > 0 ==> http::request_route(request) == Some(http::routed(lines[0]))
            &&& lines.len() > 0 && (words.len() < 2 || words[0] != "GET"@)
                ==> http::request_decodable(request)
            &&& lines.len() > 0 && words.len() >= 2 && words[0] == "GET"@ && words[1]
                == path.push('?') + query ==> http::request_decodable(request)
                == http::query_decodable(query)
            &&& lines.len() > 0 && words.len() >= 2 && words[0] == "GET"@ && words[1] == path
                ==> http::request_decodable(request)
        }),
{
    lemma_cut(path, '?', query);
    let none = Seq::<char>::empty();
    lemma_cut(none, '=', none);
    assert(text::pieces(none, CharSet::Only('&')) =~= seq![none]);
}

/// A response gives the status with what it says, the length of the body in bytes, and the body.
pub proof fn law_response_text(body: Seq<char>, status: u16)
    ensures
        ({
            let told = |first_line: Seq<char>|
                first_line + "\r\nContent-Type: application/json\r\nContent-Length: "@
                    + decimal::digits(utf8::encode_utf8(body).len())
                    + "\r\nConnection: close\r\n\r\n"@ + body;
            let line = "HTTP/1.1 "@ + decimal::digits(status as nat) + seq![' '];
            http::response(status, body) == told(
                line + if status == 200 {
                    "OK"@
                } else if status == 404 {
                    "Not Found"@
                } else if status == 405 {
                    "Method Not Allowed"@
                } else {
                    "Internal Server Error"@
                },
            )
        }),
{
    reveal_strlit(" ");
    assert(" "@ =~= seq![' ']);
}

/// A body is answered with the status 200. The error `not found` is answered with 404, any other
/// with 500, and both as a JSON object with the escaped error.
pub proof fn law_answers(outcome: Result<Seq<char>, Seq<char>>, route: RouteView)
    ensures
        outcome matches Ok(body) ==> http::answer(outcome) == http::response(200, body),
        outcome matches Err(error) ==> http::answer(outcome) == http::response(
            if error == "not found"@ {
                404
            } else {
                500
            },
            "{\"error\":\""@ + http::json_escaped(error) + "\"}"@,
        ),
        http::immediate(route) == if route is MethodNotAllowed {
            Some(http::response(405, "{\"error\":\"method not allowed\"}"@))
        } else if route is Health {
            Some(http::response(200, "{\"ok\":true}"@))
        } else if route is NotFound {
            Some(http::response(404, "{\"error\":\"not found\"}"@))
        } else {
            None
        },
{
    let name = "not found"@;
    reveal_strlit("not found");
    reveal_strlit("{\"error\":\"");
    reveal_strlit("\"}");
    reveal_strlit("{\"error\":\"not found\"}");
    lemma_json_plain(name);
    assert("{\"error\":\""@ + name + "\"}"@ =~= "{\"error\":\"not found\"}"@);
}

proof fn lemma_json_plain(s: Seq<char>)
    requires
        forall|i: int|
            0 <= i < s.len() ==> #[trigger] s[i] != '\\' && s[i] != '"' && s[i] != '\n',
    ensures
        http::json_escaped(s) == s,
    decreases s.len(),
{
    if s.len() == 0 {
        assert(http::json_escaped(s) =~= s);
    } else {
        let rest = s.drop_first();
        assert forall|i: int| 0 <= i < rest.len() implies #[trigger] rest[i] != '\\' && rest[i]
            != '"' && rest[i] != '\n' by {
            assert(rest[i] == s[i + 1]);
        }
        lemma_json_plain(rest);
        assert(s[0] != '\\' && s[0] != '"' && s[0] != '\n');
        assert(http::json_escaped(s) =~= s);
    }
}

} // verus!
