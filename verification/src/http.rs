//! The text of requests and responses of the web service.
use vstd::prelude::*;
use vstd::utf8;

use crate::decimal;
use crate::ordered::TextMap;
use crate::query::{HitView, SearchHit};
use crate::text;
use crate::text::CharSet;

verus! {

/// The value of a hexadecimal digit.
pub open spec fn hex_digit(b: u8) -> Option<int> {
    if 48 <= b <= 57 {
        Some(b - 48)
    } else if 65 <= b <= 70 {
        Some(b - 55)
    } else if 97 <= b <= 102 {
        Some(b - 87)
    } else {
        None
    }
}

/// The number that two bytes write: two hexadecimal digits, or a plus sign and one digit.
pub open spec fn hex_pair(a: u8, b: u8) -> Option<int> {
    match (hex_digit(a), hex_digit(b)) {
        (Some(x), Some(y)) => Some(16 * x + y),
        (None, Some(y)) => if a == 43 {
            Some(y)
        } else {
            None
        },
        _ => None,
    }
}

fn hex_value(b: u8) -> (result: Option<u8>)
    ensures
        match result {
            Some(x) => hex_digit(b) == Some(x as int) && x < 16,
            None => hex_digit(b) is None,
        },
{
    if 48 <= b && b <= 57 {
        Some(b - 48)
    } else if 65 <= b && b <= 70 {
        Some(b - 55)
    } else if 97 <= b && b <= 102 {
        Some(b - 87)
    } else {
        None
    }
}

fn hex_number(a: u8, b: u8) -> (result: Option<u8>)
    ensures
        match result {
            Some(x) => hex_pair(a, b) == Some(x as int),
            None => hex_pair(a, b) is None,
        },
{
    match (hex_value(a), hex_value(b)) {
        (Some(x), Some(y)) => Some(16 * x + y),
        (None, Some(y)) => if a == 43 {
            Some(y)
        } else {
            None
        },
        _ => None,
    }
}

/// The text that encoded bytes stand for: a plus sign stands for a space, a percent sign and two
/// hexadecimal digits for the character with that number, and any other byte for the character
/// with its number.
pub open spec fn url_decoded(bytes: Seq<u8>) -> Seq<char>
    decreases bytes.len(),
{
    if bytes.len() == 0 {
        Seq::<char>::empty()
    } else if bytes[0] == 43 {
        seq![' '] + url_decoded(bytes.skip(1))
    } else if bytes[0] == 37 && bytes.len() > 2 && hex_pair(bytes[1], bytes[2]) is Some {
        seq![hex_pair(bytes[1], bytes[2])->0 as char] + url_decoded(bytes.skip(3))
    } else {
        seq![bytes[0] as char] + url_decoded(bytes.skip(1))
    }
}

/// Whether a byte goes on with a character that an earlier byte began.
pub open spec fn continues(b: u8) -> bool {
    128 <= b < 192
}

/// Whether no percent sign that begins an escape has two bytes after it that end inside a
/// character.
pub open spec fn decodable(bytes: Seq<u8>) -> bool
    decreases bytes.len(),
{
    if bytes.len() == 0 {
        true
    } else if bytes[0] == 37 && bytes.len() > 2 {
        &&& bytes.len() > 3 ==> !continues(bytes[3])
        &&& if hex_pair(bytes[1], bytes[2]) is Some {
            decodable(bytes.skip(3))
        } else {
            decodable(bytes.skip(1))
        }
    } else {
        decodable(bytes.skip(1))
    }
}

/// Whether the escapes of an encoded text can be decoded.
pub fn is_decodable(value: &str) -> (result: bool)
    ensures
        result == decodable(utf8::encode_utf8(value@)),
{
    let bytes = value.as_bytes();
    let ghost all = utf8::encode_utf8(value@);
    let mut index: usize = 0;
    assert(all.skip(0) =~= all);
    while index < bytes.len()
        invariant
            index <= bytes@.len(),
            bytes@ == all,
            all == utf8::encode_utf8(value@),
            decodable(all) == decodable(all.skip(index as int)),
        decreases bytes@.len() - index,
    {
        let ghost rest = all.skip(index as int);
        assert(rest[0] == bytes@[index as int]);
        assert(rest.skip(1) =~= all.skip(index + 1));
        if bytes[index] == 37 && bytes.len() - index > 2 {
            assert(rest[1] == bytes@[index + 1] && rest[2] == bytes@[index + 2]);
            if bytes.len() - index > 3 {
                assert(rest[3] == bytes@[index + 3]);
                let next: u8 = bytes[index + 3];
                if 128 <= next && next < 192 {
                    return false;
                }
            }
            match hex_number(bytes[index + 1], bytes[index + 2]) {
                Some(_) => {
                    assert(rest.skip(3) =~= all.skip(index + 3));
                    index = index + 3;
                },
                None => {
                    index = index + 1;
                },
            }
        } else {
            index = index + 1;
        }
    }
    true
}

/// The text that an encoded text stands for.
pub fn url_decode(value: &str) -> (result: String)
    requires
        decodable(utf8::encode_utf8(value@)),
    ensures
        result@ == url_decoded(utf8::encode_utf8(value@)),
{
    let bytes = value.as_bytes();
    let ghost all = utf8::encode_utf8(value@);
    let mut output = String::new();
    let mut index: usize = 0;
    assert(all.skip(0) =~= all);
    assert(output@ + url_decoded(all) =~= url_decoded(all));
    while index < bytes.len()
        invariant
            index <= bytes@.len(),
            bytes@ == all,
            output@ + url_decoded(all.skip(index as int)) == url_decoded(all),
        decreases bytes@.len() - index,
    {
        let ghost rest = all.skip(index as int);
        let ghost before = output@;
        assert(rest[0] == bytes@[index as int]);
        assert(rest.skip(1) =~= all.skip(index + 1));
        let byte: u8 = bytes[index];
        let escape = if byte == 37 && bytes.len() - index > 2 {
            assert(rest[1] == bytes@[index + 1] && rest[2] == bytes@[index + 2]);
            hex_number(bytes[index + 1], bytes[index + 2])
        } else {
            None
        };
        match escape {
            Some(number) => {
                output.push(number as char);
                assert(rest.skip(3) =~= all.skip(index + 3));
                assert(output@ + url_decoded(rest.skip(3)) =~= before + url_decoded(rest));
                index = index + 3;
            },
            None => {
                if byte == 43 {
                    output.push(' ');
                } else {
                    output.push(byte as char);
                }
                assert(output@ + url_decoded(rest.skip(1)) =~= before + url_decoded(rest));
                index = index + 1;
            },
        }
    }
    assert(output@ + url_decoded(all.skip(index as int)) =~= output@);
    output
}

/// The parameters of a query: pairs that ampersands divide, each cut at its first equals sign.
/// Parts without one are passed over, and of parameters with the same name the last counts.
pub open spec fn parameters(parts: Seq<Seq<char>>) -> Map<Seq<char>, Seq<char>>
    decreases parts.len(),
{
    if parts.len() == 0 {
        Map::<Seq<char>, Seq<char>>::empty()
    } else {
        let before = parameters(parts.drop_last());
        match text::cut_at(parts.last(), '=') {
            Some((key, value)) => before.insert(
                url_decoded(utf8::encode_utf8(key)),
                url_decoded(utf8::encode_utf8(value)),
            ),
            None => before,
        }
    }
}

/// Whether the name and the value of a part of a query can be decoded.
pub open spec fn part_decodable(part: Seq<char>) -> bool {
    match text::cut_at(part, '=') {
        Some((key, value)) => decodable(utf8::encode_utf8(key)) && decodable(
            utf8::encode_utf8(value),
        ),
        None => true,
    }
}

/// Whether the names and the values of a query can be decoded.
pub open spec fn query_decodable(query: Seq<char>) -> bool {
    let parts = text::pieces(query, CharSet::Only('&'));
    forall|i: int| 0 <= i < parts.len() ==> part_decodable(#[trigger] parts[i])
}

/// Whether the names and the values of a query can be decoded.
pub fn is_query_decodable(query: &str) -> (result: bool)
    ensures
        result == query_decodable(query@),
{
    let parts = text::split(query, CharSet::Only('&'));
    let ghost all = parts.deep_view();
    let mut i: usize = 0;
    while i < parts.len()
        invariant
            i <= parts@.len(),
            all == parts.deep_view(),
            all == text::pieces(query@, CharSet::Only('&')),
            forall|j: int| 0 <= j < i ==> part_decodable(#[trigger] all[j]),
        decreases parts@.len() - i,
    {
        match text::split_once(parts[i].as_str(), '=') {
            Some((key, value)) => {
                if !is_decodable(key.as_str()) || !is_decodable(value.as_str()) {
                    assert(!part_decodable(all[i as int]));
                    return false;
                }
            },
            None => {},
        }
        i = i + 1;
    }
    true
}

/// The parameters of a query by their names.
pub fn parse_query(query: &str) -> (result: TextMap<String>)
    requires
        query_decodable(query@),
    ensures
        result.wf(),
        result@ == parameters(text::pieces(query@, CharSet::Only('&'))),
{
    let parts = text::split(query, CharSet::Only('&'));
    let ghost all = parts.deep_view();
    let mut params: TextMap<String> = TextMap::new();
    let mut i: usize = 0;
    while i < parts.len()
        invariant
            i <= parts@.len(),
            all == parts.deep_view(),
            forall|j: int| 0 <= j < all.len() ==> part_decodable(#[trigger] all[j]),
            params.wf(),
            params@ == parameters(all.take(i as int)),
        decreases parts@.len() - i,
    {
        assert(all.take(i + 1).drop_last() =~= all.take(i as int));
        assert(all.take(i + 1).last() == parts@[i as int]@);
        assert(part_decodable(all[i as int]));
        match text::split_once(parts[i].as_str(), '=') {
            Some((key, value)) => {
                params.insert(url_decode(key.as_str()), url_decode(value.as_str()));
            },
            None => {},
        }
        i = i + 1;
    }
    assert(all.take(i as int) =~= all);
    params
}

/// What a request asks for.
#[derive(Debug)]
pub enum Route {
    MethodNotAllowed,
    Health,
    Search(TextMap<String>),
    Autocomplete(TextMap<String>),
    Reverse(TextMap<String>),
    NotFound,
}

/// What a `Route` holds.
pub ghost enum RouteView {
    MethodNotAllowed,
    Health,
    Search(Map<Seq<char>, Seq<char>>),
    Autocomplete(Map<Seq<char>, Seq<char>>),
    Reverse(Map<Seq<char>, Seq<char>>),
    NotFound,
}

impl View for Route {
    type V = RouteView;

    open spec fn view(&self) -> RouteView {
        match self {
            Route::MethodNotAllowed => RouteView::MethodNotAllowed,
            Route::Health => RouteView::Health,
            Route::Search(params) => RouteView::Search(params@),
            Route::Autocomplete(params) => RouteView::Autocomplete(params@),
            Route::Reverse(params) => RouteView::Reverse(params@),
            Route::NotFound => RouteView::NotFound,
        }
    }
}

impl Route {
    pub open spec fn wf(&self) -> bool {
        match self {
            Route::Search(params) => params.wf(),
            Route::Autocomplete(params) => params.wf(),
            Route::Reverse(params) => params.wf(),
            _ => true,
        }
    }
}

/// A word of a line, or an empty text where the line has not as many.
pub open spec fn word(line: Seq<char>, i: int) -> Seq<char> {
    if i < text::words(line).len() {
        text::words(line)[i]
    } else {
        Seq::<char>::empty()
    }
}

/// The path and the query of a target.
pub open spec fn path_and_query(target: Seq<char>) -> (Seq<char>, Seq<char>) {
    match text::cut_at(target, '?') {
        Some((path, query)) => (path, query),
        None => (target, Seq::<char>::empty()),
    }
}

/// What the first line of a request asks for.
pub open spec fn routed(line: Seq<char>) -> RouteView {
    let (path, query) = path_and_query(word(line, 1));
    let params = parameters(text::pieces(query, CharSet::Only('&')));
    if word(line, 0) != "GET"@ {
        RouteView::MethodNotAllowed
    } else if path == "/healthz"@ {
        RouteView::Health
    } else if path == "/v1/search"@ {
        RouteView::Search(params)
    } else if path == "/v1/autocomplete"@ {
        RouteView::Autocomplete(params)
    } else if path == "/v1/reverse"@ {
        RouteView::Reverse(params)
    } else {
        RouteView::NotFound
    }
}

/// What a request asks for; nothing where it has no line.
pub open spec fn request_route(request: Seq<char>) -> Option<RouteView> {
    if text::lines(request).len() == 0 {
        None
    } else {
        Some(routed(text::lines(request)[0]))
    }
}

/// Whether the query of a request can be decoded, where the request has one that counts.
pub open spec fn request_decodable(request: Seq<char>) -> bool {
    let line = text::lines(request)[0];
    text::lines(request).len() > 0 && word(line, 0) == "GET"@ ==> query_decodable(
        path_and_query(word(line, 1)).1,
    )
}

/// The method and the target of a request, where it has a line.
fn method_and_target(request: &str) -> (result: Option<(String, String)>)
    ensures
        result.deep_view() == if text::lines(request@).len() == 0 {
            None
        } else {
            let line = text::lines(request@)[0];
            Some((word(line, 0), word(line, 1)))
        },
{
    let lines = text::split_lines(request);
    if lines.len() == 0 {
        return None;
    }
    let ghost all = lines.deep_view();
    assert(all[0] == lines@[0]@);
    let words = text::split_words(lines[0].as_str());
    let ghost each = words.deep_view();
    let method = if words.len() > 0 {
        assert(each[0] == words@[0]@);
        words[0].clone()
    } else {
        String::new()
    };
    let target = if words.len() > 1 {
        assert(each[1] == words@[1]@);
        words[1].clone()
    } else {
        String::new()
    };
    assert(words@.len() == 0 ==> method@ =~= Seq::<char>::empty());
    assert(words@.len() <= 1 ==> target@ =~= Seq::<char>::empty());
    Some((method, target))
}

/// The path and the query of a target.
fn split_target(target: String) -> (result: (String, String))
    ensures
        (result.0@, result.1@) == path_and_query(target@),
{
    match text::split_once(target.as_str(), '?') {
        Some((path, query)) => (path, query),
        None => {
            let query = String::new();
            assert(query@ =~= Seq::<char>::empty());
            (target, query)
        },
    }
}

/// Whether the query of a request can be decoded, where the request has one that counts.
pub fn is_request_decodable(request: &str) -> (result: bool)
    ensures
        result == request_decodable(request@),
{
    match method_and_target(request) {
        None => true,
        Some((method, target)) => {
            if text::same_text(method.as_str(), "GET") {
                let (_, query) = split_target(target);
                is_query_decodable(query.as_str())
            } else {
                true
            }
        },
    }
}

/// What a request asks for; nothing where it has no line.
pub fn route(request: &str) -> (result: Option<Route>)
    requires
        request_decodable(request@),
    ensures
        match result {
            Some(route) => route.wf() && request_route(request@) == Some(route@),
            None => request_route(request@) is None,
        },
{
    let (method, target) = match method_and_target(request) {
        Some(both) => both,
        None => return None,
    };
    if !text::same_text(method.as_str(), "GET") {
        return Some(Route::MethodNotAllowed);
    }
    let (path, query) = split_target(target);
    let params = parse_query(query.as_str());
    let path = path.as_str();
    if text::same_text(path, "/healthz") {
        Some(Route::Health)
    } else if text::same_text(path, "/v1/search") {
        Some(Route::Search(params))
    } else if text::same_text(path, "/v1/autocomplete") {
        Some(Route::Autocomplete(params))
    } else if text::same_text(path, "/v1/reverse") {
        Some(Route::Reverse(params))
    } else {
        Some(Route::NotFound)
    }
}

/// A character as it stands in a JSON string.
pub open spec fn json_char(c: char) -> Seq<char> {
    match c {
        '\\' => seq!['\\', '\\'],
        '"' => seq!['\\', '"'],
        '\n' => seq!['\\', 'n'],
        other => seq![other],
    }
}

/// A text as it stands in a JSON string: backslashes, quotation marks and line feeds are escaped.
pub open spec fn json_escaped(s: Seq<char>) -> Seq<char>
    decreases s.len(),
{
    if s.len() == 0 {
        Seq::<char>::empty()
    } else {
        json_char(s[0]) + json_escaped(s.drop_first())
    }
}

/// The text as it stands in a JSON string.
pub fn json_escape(value: &str) -> (result: String)
    ensures
        result@ == json_escaped(value@),
{
    let chars = text::chars_of(value);
    let mut result = String::new();
    let mut i: usize = 0;
    assert(chars@.skip(0) =~= chars@);
    while i < chars.len()
        invariant
            i <= chars@.len(),
            chars@ == value@,
            result@ + json_escaped(chars@.skip(i as int)) == json_escaped(value@),
        decreases chars@.len() - i,
    {
        let ghost before = result@;
        let c = chars[i];
        match c {
            '\\' => {
                result.push('\\');
                result.push('\\');
            },
            '"' => {
                result.push('\\');
                result.push('"');
            },
            '\n' => {
                result.push('\\');
                result.push('n');
            },
            other => {
                result.push(other);
            },
        }
        assert(result@ =~= before + json_char(c));
        assert(chars@.skip(i as int).drop_first() =~= chars@.skip(i + 1));
        assert(result@ + json_escaped(chars@.skip(i + 1)) =~= before + json_escaped(
            chars@.skip(i as int),
        ));
        i = i + 1;
    }
    assert(result@ =~= result@ + json_escaped(chars@.skip(i as int)));
    result
}

/// The numbers of a hit in decimal notation. That of the distance is used only where the hit has
/// one.
#[derive(Clone, Debug)]
pub struct HitNumerals {
    pub longitude: String,
    pub latitude: String,
    pub score: String,
    pub distance: String,
}

/// What a `HitNumerals` holds.
pub ghost struct HitNumeralsView {
    pub longitude: Seq<char>,
    pub latitude: Seq<char>,
    pub score: Seq<char>,
    pub distance: Seq<char>,
}

impl View for HitNumerals {
    type V = HitNumeralsView;

    open spec fn view(&self) -> HitNumeralsView {
        HitNumeralsView {
            longitude: self.longitude@,
            latitude: self.latitude@,
            score: self.score@,
            distance: self.distance@,
        }
    }
}

impl DeepView for HitNumerals {
    type V = HitNumeralsView;

    open spec fn deep_view(&self) -> HitNumeralsView {
        self@
    }
}

/// The GeoJSON text of a hit.
pub open spec fn feature(hit: HitView, numerals: HitNumeralsView) -> Seq<char> {
    let distance = if hit.distance_meters is Some {
        ",\"distance_meters\":"@ + numerals.distance
    } else {
        Seq::<char>::empty()
    };
    "{\"type\":\"Feature\",\"geometry\":{\"type\":\"Point\",\"coordinates\":["@ + numerals.longitude
        + ","@ + numerals.latitude + "]},\"properties\":{\"id\":\""@ + json_escaped(hit.document.id)
        + "\",\"source\":\""@ + json_escaped(hit.document.source) + "\",\"layer\":\""@ + json_escaped(
        hit.document.layer,
    ) + "\",\"name\":\""@ + json_escaped(hit.document.name) + "\",\"label\":\""@ + json_escaped(
        hit.document.label,
    ) + "\",\"country_code\":\""@ + json_escaped(hit.document.country_code) + "\",\"score\":"@
        + numerals.score + distance + "}}"@
}

fn append_escaped(out: &mut String, value: &str)
    ensures
        final(out)@ == old(out)@ + json_escaped(value@),
{
    let escaped = json_escape(value);
    out.append(escaped.as_str());
}

/// The GeoJSON text of a hit, whose numbers stand in it as the numerals write them.
pub fn feature_json(hit: &SearchHit, numerals: &HitNumerals) -> (result: String)
    ensures
        result@ == feature(hit@, numerals@),
{
    let mut out =
        "{\"type\":\"Feature\",\"geometry\":{\"type\":\"Point\",\"coordinates\":[".to_owned();
    out.append(numerals.longitude.as_str());
    out.append(",");
    out.append(numerals.latitude.as_str());
    out.append("]},\"properties\":{\"id\":\"");
    append_escaped(&mut out, hit.document.id.as_str());
    out.append("\",\"source\":\"");
    append_escaped(&mut out, hit.document.source.as_str());
    out.append("\",\"layer\":\"");
    append_escaped(&mut out, hit.document.layer.as_str());
    out.append("\",\"name\":\"");
    append_escaped(&mut out, hit.document.name.as_str());
    out.append("\",\"label\":\"");
    append_escaped(&mut out, hit.document.label.as_str());
    out.append("\",\"country_code\":\"");
    append_escaped(&mut out, hit.document.country_code.as_str());
    out.append("\",\"score\":");
    out.append(numerals.score.as_str());
    let ghost before = out@;
    match hit.distance_meters {
        Some(_) => {
            out.append(",\"distance_meters\":");
            out.append(numerals.distance.as_str());
            assert(out@ =~= before + (",\"distance_meters\":"@ + numerals.distance@));
        },
        None => {
            assert(out@ =~= before + Seq::<char>::empty());
        },
    }
    out.append("}}");
    out
}

/// The GeoJSON texts of the hits.
pub open spec fn features(hits: Seq<HitView>, numerals: Seq<HitNumeralsView>) -> Seq<Seq<char>> {
    Seq::new(hits.len(), |i: int| feature(hits[i], numerals[i]))
}

/// The GeoJSON text of a list of hits.
pub open spec fn collection(hits: Seq<HitView>, numerals: Seq<HitNumeralsView>) -> Seq<char> {
    "{\"type\":\"FeatureCollection\",\"features\":["@ + text::join(
        features(hits, numerals),
        seq![','],
    ) + "]}"@
}

/// The GeoJSON text of the hits, whose numbers stand in it as the numerals write them.
pub fn response_json(hits: &Vec<SearchHit>, numerals: &Vec<HitNumerals>) -> (result: String)
    requires
        numerals@.len() == hits@.len(),
    ensures
        result@ == collection(hits.deep_view(), numerals.deep_view()),
{
    let ghost all = features(hits.deep_view(), numerals.deep_view());
    let mut parts: Vec<String> = Vec::new();
    let mut i: usize = 0;
    assert(parts.deep_view() =~= all.take(0));
    while i < hits.len()
        invariant
            i <= hits@.len() == numerals@.len(),
            all == features(hits.deep_view(), numerals.deep_view()),
            parts.deep_view() == all.take(i as int),
        decreases hits@.len() - i,
    {
        let ghost before = parts.deep_view();
        let part = feature_json(&hits[i], &numerals[i]);
        assert(part@ == all[i as int]);
        parts.push(part);
        assert(parts.deep_view() =~= before.push(part@));
        assert(all.take(i + 1) =~= all.take(i as int).push(all[i as int]));
        i = i + 1;
    }
    assert(all.take(i as int) =~= all);
    proof {
        reveal_strlit(",");
        assert(","@ =~= seq![',']);
    }
    let list = text::joined(&parts, ",");
    let mut result = "{\"type\":\"FeatureCollection\",\"features\":[".to_owned();
    result.append(list.as_str());
    result.append("]}");
    result
}

/// What a status says.
pub open spec fn reason(status: u16) -> Seq<char> {
    if status == 200 {
        "OK"@
    } else if status == 404 {
        "Not Found"@
    } else if status == 405 {
        "Method Not Allowed"@
    } else {
        "Internal Server Error"@
    }
}

/// The text of a response.
pub open spec fn response(status: u16, body: Seq<char>) -> Seq<char> {
    "HTTP/1.1 "@ + decimal::digits(status as nat) + " "@ + reason(status)
        + "\r\nContent-Type: application/json\r\nContent-Length: "@ + decimal::digits(
        utf8::encode_utf8(body).len(),
    ) + "\r\nConnection: close\r\n\r\n"@ + body
}

/// The text of a response.
pub fn response_text(status: u16, body: &str) -> (result: String)
    ensures
        result@ == response(status, body@),
{
    let code = decimal::unsigned_text(status as u64);
    let length = decimal::unsigned_text(body.as_bytes().len() as u64);
    let mut result = "HTTP/1.1 ".to_owned();
    result.append(code.as_str());
    result.append(" ");
    if status == 200 {
        result.append("OK");
    } else if status == 404 {
        result.append("Not Found");
    } else if status == 405 {
        result.append("Method Not Allowed");
    } else {
        result.append("Internal Server Error");
    }
    result.append("\r\nContent-Type: application/json\r\nContent-Length: ");
    result.append(length.as_str());
    result.append("\r\nConnection: close\r\n\r\n");
    result.append(body);
    result
}

/// What answers the outcome of a request: its body, or what went wrong.
pub open spec fn answer(outcome: Result<Seq<char>, Seq<char>>) -> Seq<char> {
    match outcome {
        Ok(body) => response(200, body),
        Err(error) => if error == "not found"@ {
            response(404, "{\"error\":\"not found\"}"@)
        } else {
            response(500, "{\"error\":\""@ + json_escaped(error) + "\"}"@)
        },
    }
}

/// What answers the outcome of a request.
pub fn answer_text(outcome: &Result<String, String>) -> (result: String)
    ensures
        result@ == answer(
            match outcome {
                Ok(body) => Ok(body@),
                Err(error) => Err(error@),
            },
        ),
{
    match outcome {
        Ok(body) => response_text(200, body.as_str()),
        Err(error) => {
            if text::same_text(error.as_str(), "not found") {
                response_text(404, "{\"error\":\"not found\"}")
            } else {
                let mut body = "{\"error\":\"".to_owned();
                append_escaped(&mut body, error.as_str());
                body.append("\"}");
                response_text(500, body.as_str())
            }
        },
    }
}

/// What answers a request that needs no search.
pub open spec fn immediate(route: RouteView) -> Option<Seq<char>> {
    match route {
        RouteView::MethodNotAllowed => Some(
            response(405, "{\"error\":\"method not allowed\"}"@),
        ),
        RouteView::Health => Some(answer(Ok("{\"ok\":true}"@))),
        RouteView::NotFound => Some(answer(Err("not found"@))),
        _ => None,
    }
}

/// What answers a request that needs no search.
pub fn immediate_answer(route: &Route) -> (result: Option<String>)
    ensures
        result.deep_view() == immediate(route@),
{
    match route {
        Route::MethodNotAllowed => Some(
            response_text(405, "{\"error\":\"method not allowed\"}"),
        ),
        Route::Health => Some(answer_text(&Ok("{\"ok\":true}".to_owned()))),
        Route::NotFound => Some(answer_text(&Err("not found".to_owned()))),
        _ => None,
    }
}

/// Whether the text writes each of the bytes as a percent sign and two hexadecimal digits, in lower
/// or upper case.
pub open spec fn percent_encodes(text: Seq<u8>, bytes: Seq<u8>) -> bool
    decreases bytes.len(),
{
    if bytes.len() == 0 {
        text.len() == 0
    } else {
        &&& text.len() >= 3
        &&& text[0] == 37
        &&& hex_digit(text[1]) == Some(bytes[0] as int / 16)
        &&& hex_digit(text[2]) == Some(bytes[0] as int % 16)
        &&& percent_encodes(text.skip(3), bytes.skip(1))
    }
}

/// Bytes that are written as percent signs and hexadecimal digits, in lower or upper case, are read
/// back, each as the character with its number.
pub proof fn law_percent_encoding_read_back(text: Seq<u8>, bytes: Seq<u8>)
    requires
        percent_encodes(text, bytes),
    ensures
        decodable(text),
        url_decoded(text) == bytes.map_values(|b: u8| b as char),
    decreases bytes.len(),
{
    let chars = bytes.map_values(|b: u8| b as char);
    if bytes.len() > 0 {
        let rest = bytes.skip(1);
        let tail = text.skip(3);
        law_percent_encoding_read_back(tail, rest);
        assert(hex_pair(text[1], text[2]) == Some(bytes[0] as int));
        if text.len() > 3 {
            assert(text[3] == tail[0]);
            assert(rest.len() > 0);
        }
        assert(chars =~= seq![bytes[0] as char] + rest.map_values(|b: u8| b as char));
    } else {
        assert(url_decoded(text) =~= chars);
    }
}

/// Where the first quotation mark stands that no backslash escapes.
pub open spec fn string_end(s: Seq<char>) -> int
    decreases s.len(),
{
    if s.len() == 0 || s[0] == '"' {
        0
    } else if s[0] == '\\' && s.len() > 1 {
        2 + string_end(s.skip(2))
    } else {
        1 + string_end(s.skip(1))
    }
}

/// A JSON string ends where the quotation mark after an escaped text stands, whatever the text.
pub proof fn law_json_string_ends(s: Seq<char>, rest: Seq<char>)
    ensures
        string_end(json_escaped(s) + (seq!['"'] + rest)) == json_escaped(s).len(),
    decreases s.len(),
{
    let tail = seq!['"'] + rest;
    let all = json_escaped(s) + tail;
    if s.len() == 0 {
        assert(all[0] == '"');
    } else {
        let front = s.drop_first();
        law_json_string_ends(front, rest);
        let head = json_char(s[0]);
        assert(all =~= head + (json_escaped(front) + tail));
        if head.len() == 2 {
            assert(all[0] == '\\');
            assert(all.skip(2) =~= json_escaped(front) + tail);
        } else {
            assert(all[0] == s[0]);
            assert(all.skip(1) =~= json_escaped(front) + tail);
        }
    }
}

/// Different texts stand differently in a JSON string, and none breaks the line.
pub proof fn law_json_escape_faithful(a: Seq<char>, b: Seq<char>)
    ensures
        json_escaped(a) == json_escaped(b) ==> a == b,
        text::free_of(json_escaped(a), CharSet::Only('\n')),
    decreases a.len(),
{
    if a.len() > 0 {
        let rest = a.drop_first();
        let head = json_char(a[0]);
        let tail = json_escaped(rest);
        assert forall|i: int| 0 <= i < json_escaped(a).len() implies !CharSet::Only('\n').has(
            #[trigger] json_escaped(a)[i],
        ) by {
            law_json_escape_faithful(rest, rest);
            if i < head.len() {
                assert(json_escaped(a)[i] == head[i]);
            } else {
                assert(json_escaped(a)[i] == tail[i - head.len()]);
            }
        }
        if json_escaped(a) == json_escaped(b) {
            let whole = json_escaped(a);
            assert(whole.len() > 0);
            if b.len() == 0 {
                assert(json_escaped(b).len() == 0);
            }
            let other = json_char(b[0]);
            let other_tail = json_escaped(b.drop_first());
            assert(whole == other + other_tail);
            assert(whole[0] == head[0] && whole[0] == other[0]);
            if head.len() == 2 && other.len() == 2 {
                assert(whole[1] == head[1] && whole[1] == other[1]);
            }
            assert(head == other && a[0] == b[0]);
            assert(tail =~= whole.skip(head.len() as int));
            assert(other_tail =~= whole.skip(head.len() as int));
            law_json_escape_faithful(rest, b.drop_first());
            assert(a =~= seq![a[0]] + rest);
            assert(b =~= seq![b[0]] + b.drop_first());
        }
    } else {
        if b.len() > 0 && json_escaped(a) == json_escaped(b) {
            assert(json_escaped(b).len() >= json_char(b[0]).len());
        }
        if b.len() == 0 {
            assert(a =~= b);
        }
    }
}

} // verus!
