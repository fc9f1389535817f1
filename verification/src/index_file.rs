//! Index files: one line for each key, with the offsets that are posted under it.
use vstd::prelude::*;

use crate::decimal;
use crate::offsets;
use crate::offsets::OffsetSet;
use crate::ordered;
use crate::ordered::TextMap;
use crate::postings;
use crate::record;
use crate::text;
use crate::text::CharSet;

verus! {

/// Offsets in decimal notation.
pub open spec fn numerals(list: Seq<u64>) -> Seq<Seq<char>> {
    list.map_values(|offset: u64| decimal::digits(offset as nat))
}

/// The line of a key: the escaped key, a tab, and the offsets with commas between them.
pub open spec fn index_line(key: Seq<char>, list: Seq<u64>) -> Seq<char> {
    record::escaped(key).push('\t') + text::join(numerals(list), seq![','])
}

/// The lines of an index whose keys are given in order.
pub open spec fn index_lines(keys: Seq<Seq<char>>, index: Map<Seq<char>, Seq<u64>>) -> Seq<
    Seq<char>,
> {
    keys.map_values(|key: Seq<char>| index_line(key, index[key]))
}

/// The text of the file of an index, with its keys in dictionary order.
pub open spec fn index_text(index: Map<Seq<char>, Seq<u64>>) -> Seq<char> {
    text::terminated(index_lines(ordered::ordered_keys(index.dom()), index))
}

/// The text of the offsets with commas between them.
fn offsets_text(set: &OffsetSet) -> (result: String)
    ensures
        result@ == text::join(numerals(set@), seq![',']),
{
    let mut parts: Vec<String> = Vec::new();
    let mut i: usize = 0;
    while i < set.len()
        invariant
            i <= set@.len(),
            parts.deep_view() == numerals(set@.take(i as int)),
        decreases set@.len() - i,
    {
        let ghost before = parts.deep_view();
        let part = decimal::unsigned_text(set.at(i));
        parts.push(part);
        assert(parts.deep_view() =~= before.push(part@));
        assert(set@.take(i + 1) =~= set@.take(i as int).push(set@[i as int]));
        i = i + 1;
    }
    assert(set@.take(i as int) =~= set@);
    proof {
        reveal_strlit(",");
        assert(","@ =~= seq![',']);
    }
    text::joined(&parts, ",")
}

/// The text of an index file, with its keys in dictionary order.
pub fn write_offset_index(index: &TextMap<OffsetSet>) -> (result: String)
    requires
        index.wf(),
    ensures
        result@ == index_text(index@),
{
    proof {
        index.lemma_ordered_keys();
    }
    let ghost lines = index_lines(index.keys(), index@);
    let mut result = String::new();
    let mut i: usize = 0;
    while i < index.len()
        invariant
            i <= index.keys().len(),
            index.wf(),
            lines == index_lines(index.keys(), index@),
            result@ == text::terminated(lines.take(i as int)),
        decreases index.keys().len() - i,
    {
        let ghost before = result@;
        let key = record::escape(index.key_at(i).as_str());
        let list = offsets_text(index.value_at(i));
        result.append(key.as_str());
        result.push('\t');
        result.append(list.as_str());
        result.push('\n');
        assert(lines[i as int] == key@.push('\t') + list@);
        assert(result@ =~= before + lines[i as int].push('\n'));
        assert(lines.take(i + 1).drop_last() =~= lines.take(i as int));
        i = i + 1;
    }
    assert(lines.take(i as int) =~= lines);
    result
}

/// The offsets that the parts of a list write; parts that write none are passed over.
pub open spec fn listed(parts: Seq<Seq<char>>) -> Seq<u64>
    decreases parts.len(),
{
    if parts.len() == 0 {
        Seq::<u64>::empty()
    } else {
        match decimal::number(parts.last(), u64::MAX as nat) {
            Ok(offset) => offsets::with_offset(listed(parts.drop_last()), offset as u64),
            Err(_) => listed(parts.drop_last()),
        }
    }
}

/// The key and the offsets of a line; none where the line has no tab.
pub open spec fn entry_of(line: Seq<char>) -> Option<(Seq<char>, Seq<u64>)> {
    match text::cut_at(line, '\t') {
        Some((key, list)) => Some(
            (record::unescaped(key), listed(text::pieces(list, CharSet::Only(',')))),
        ),
        None => None,
    }
}

/// The index that lines make; of lines with the same key the last counts.
pub open spec fn index_of(lines: Seq<Seq<char>>) -> Map<Seq<char>, Seq<u64>>
    decreases lines.len(),
{
    if lines.len() == 0 {
        Map::<Seq<char>, Seq<u64>>::empty()
    } else {
        match entry_of(lines.last()) {
            Some((key, list)) => index_of(lines.drop_last()).insert(key, list),
            None => index_of(lines.drop_last()),
        }
    }
}

/// Listed offsets are in rising order.
pub proof fn lemma_listed(parts: Seq<Seq<char>>)
    ensures
        offsets::climbing(listed(parts)),
    decreases parts.len(),
{
    if parts.len() > 0 {
        lemma_listed(parts.drop_last());
        match decimal::number(parts.last(), u64::MAX as nat) {
            Ok(offset) => {
                offsets::lemma_with_offset(listed(parts.drop_last()), offset as u64);
            },
            Err(_) => {},
        }
    }
}

fn offsets_in(list: &str) -> (result: OffsetSet)
    ensures
        result.wf(),
        result@ == listed(text::pieces(list@, CharSet::Only(','))),
{
    let parts = text::split(list, CharSet::Only(','));
    let ghost all = parts.deep_view();
    let mut result = OffsetSet::new();
    let mut i: usize = 0;
    while i < parts.len()
        invariant
            i <= parts@.len(),
            all == parts.deep_view(),
            result.wf(),
            result@ == listed(all.take(i as int)),
        decreases parts@.len() - i,
    {
        assert(all.take(i + 1).drop_last() =~= all.take(i as int));
        match decimal::parse_number(parts[i].as_str(), u64::MAX) {
            Ok(offset) => {
                result.insert(offset);
            },
            Err(_) => {},
        }
        i = i + 1;
    }
    assert(all.take(i as int) =~= all);
    result
}

/// The index of the text of an index file.
pub fn read_offset_index(text: &str) -> (result: TextMap<OffsetSet>)
    ensures
        result.wf(),
        postings::sound(result@),
        result@ == index_of(text::lines(text@)),
{
    let lines = text::split_lines(text);
    let ghost all = lines.deep_view();
    let mut result: TextMap<OffsetSet> = TextMap::new();
    let mut i: usize = 0;
    while i < lines.len()
        invariant
            i <= lines@.len(),
            all == lines.deep_view(),
            result.wf(),
            postings::sound(result@),
            result@ == index_of(all.take(i as int)),
        decreases lines@.len() - i,
    {
        assert(all.take(i + 1).drop_last() =~= all.take(i as int));
        match text::split_once(lines[i].as_str(), '\t') {
            Some((key, list)) => {
                let key = record::unescape(key.as_str());
                let set = offsets_in(list.as_str());
                result.insert(key, set);
            },
            None => {},
        }
        i = i + 1;
    }
    assert(all.take(i as int) =~= all);
    result
}

/// Reading the decimal notation of rising offsets gives the offsets.
proof fn lemma_listed_numerals(list: Seq<u64>)
    requires
        offsets::climbing(list),
    ensures
        listed(numerals(list)) == list,
    decreases list.len(),
{
    if list.len() > 0 {
        let front = list.drop_last();
        lemma_listed_numerals(front);
        assert(numerals(list).drop_last() =~= numerals(front));
        let offset = list.last();
        decimal::law_number_of_digits(offset as nat, u64::MAX as nat);
        if front.len() > 0 {
            assert(list[list.len() - 2] < list[list.len() - 1]);
        }
        assert(list =~= front.push(offset));
    } else {
        assert(listed(numerals(list)) =~= list);
    }
}

/// The line of a key has no line feed, and is not ended by a carriage return.
proof fn lemma_index_line(key: Seq<char>, list: Seq<u64>)
    requires
        offsets::climbing(list),
    ensures
        text::free_of(index_line(key, list), CharSet::Only('\n')),
        text::strip_return(index_line(key, list)) == index_line(key, list),
        entry_of(index_line(key, list)) == Some((key, list)),
{
    let line = index_line(key, list);
    let head = record::escaped(key);
    let parts = numerals(list);
    let tail = text::join(parts, seq![',']);
    let newline = CharSet::Only('\n');
    let comma = CharSet::Only(',');
    let end = CharSet::Either('\n', '\r');
    record::law_escape_hides_separators(key);
    record::law_unescape_escape(key);
    assert forall|i: int| 0 <= i < parts.len() implies text::free_of(#[trigger] parts[i], end)
        && text::free_of(parts[i], comma) by {
        decimal::lemma_digits(list[i] as nat);
        let part = parts[i];
        assert(part == decimal::digits(list[i] as nat));
        assert forall|j: int| 0 <= j < part.len() implies !end.has(#[trigger] part[j])
            && !comma.has(part[j]) by {
            assert('0' <= part[j] <= '9');
        }
    }
    text::lemma_join_free(parts, seq![','], end);
    assert forall|i: int| 0 <= i < line.len() implies !newline.has(#[trigger] line[i]) by {
        if i < head.len() {
            assert(line[i] == head[i]);
            assert(!CharSet::Either('\t', '\n').has(head[i]));
        } else if i > head.len() {
            assert(line[i] == tail[i - head.len() - 1]);
            assert(!end.has(tail[i - head.len() - 1]));
        }
    }
    if tail.len() > 0 {
        assert(line.last() == tail[tail.len() - 1]);
        assert(!end.has(tail[tail.len() - 1]));
    } else {
        assert(line.last() == '\t');
    }
    assert forall|j: int| 0 <= j < head.len() implies line[j] != '\t' by {
        assert(line[j] == head[j]);
        assert(!CharSet::Either('\t', '\n').has(head[j]));
    }
    text::lemma_find(line, '\t', head.len() as int);
    assert(line.take(head.len() as int) =~= head);
    assert(line.skip(head.len() as int + 1) =~= tail);
    if list.len() == 0 {
        assert(tail =~= Seq::<char>::empty());
        let pieces = text::pieces(tail, comma);
        assert(pieces =~= seq![Seq::<char>::empty()]);
        assert(pieces.drop_last() =~= Seq::<Seq<char>>::empty());
        assert(listed(Seq::<Seq<char>>::empty()) =~= list);
    } else {
        text::lemma_pieces_of_join(parts, ',', comma);
        lemma_listed_numerals(list);
    }
}

proof fn lemma_index_of_lines(keys: Seq<Seq<char>>, index: Map<Seq<char>, Seq<u64>>)
    requires
        postings::sound(index),
        forall|i: int| 0 <= i < keys.len() ==> index.contains_key(#[trigger] keys[i]),
    ensures
        ({
            let read = index_of(index_lines(keys, index));
            &&& forall|key: Seq<char>| #[trigger] read.contains_key(key) <==> keys.contains(key)
            &&& forall|key: Seq<char>| #[trigger] keys.contains(key) ==> read[key] == index[key]
        }),
    decreases keys.len(),
{
    let lines = index_lines(keys, index);
    let read = index_of(lines);
    if keys.len() > 0 {
        let front = keys.drop_last();
        let last = keys[keys.len() - 1];
        assert forall|i: int| 0 <= i < front.len() implies index.contains_key(
            #[trigger] front[i],
        ) by {
            assert(front[i] == keys[i]);
        }
        lemma_index_of_lines(front, index);
        assert(lines.drop_last() =~= index_lines(front, index));
        assert(index.contains_key(last));
        lemma_index_line(last, index[last]);
        let before = index_of(index_lines(front, index));
        assert(read == before.insert(last, index[last]));
        assert forall|key: Seq<char>| #[trigger] read.contains_key(key) <==> keys.contains(key) by {
            if keys.contains(key) && key != last {
                let i = choose|i: int| 0 <= i < keys.len() && keys[i] == key;
                assert(front[i] == key);
                assert(front.contains(key));
            }
            if front.contains(key) {
                let i = choose|i: int| 0 <= i < front.len() && front[i] == key;
                assert(keys[i] == key);
            }
            assert(before.contains_key(key) <==> front.contains(key));
        }
        assert forall|key: Seq<char>| #[trigger] keys.contains(key) implies read[key]
            == index[key] by {
            if key != last {
                let i = choose|i: int| 0 <= i < keys.len() && keys[i] == key;
                assert(front[i] == key);
                assert(front.contains(key));
            }
        }
    }
}

/// An index is read back from its file.
pub proof fn law_index_read_back(index: Map<Seq<char>, Seq<u64>>)
    requires
        postings::sound(index),
        index.dom().finite(),
    ensures
        index_of(text::lines(index_text(index))) == index,
{
    let keys = ordered::ordered_keys(index.dom());
    ordered::lemma_ordered_keys(index.dom());
    let lines = index_lines(keys, index);
    assert forall|i: int| 0 <= i < lines.len() implies text::free_of(
        #[trigger] lines[i],
        CharSet::Only('\n'),
    ) && text::strip_return(lines[i]) == lines[i] by {
        assert(keys.contains(keys[i]));
        assert(index.contains_key(keys[i]));
        lemma_index_line(keys[i], index[keys[i]]);
    }
    text::lemma_lines_terminated(lines);
    assert forall|i: int| 0 <= i < keys.len() implies index.contains_key(#[trigger] keys[i]) by {
        assert(keys.contains(keys[i]));
    }
    lemma_index_of_lines(keys, index);
    let read = index_of(lines);
    assert forall|key: Seq<char>| #[trigger] read.contains_key(key) <==> index.contains_key(key) by {
        assert(keys.contains(key) <==> index.contains_key(key));
    }
    assert forall|key: Seq<char>| #[trigger] read.contains_key(key) implies read[key]
        == index[key] by {
        assert(keys.contains(key));
    }
    assert(read =~= index);
}

} // verus!
