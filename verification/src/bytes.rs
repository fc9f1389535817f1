//! Lines of files as bytes.
use vstd::prelude::*;
use vstd::utf8;

use crate::text;
use crate::text::CharSet;

verus! {

/// The number of bytes up to and including the first line feed, or of all bytes where there is
/// none.
pub open spec fn line_length(bytes: Seq<u8>) -> nat
    decreases bytes.len(),
{
    if bytes.len() == 0 {
        0
    } else if bytes[0] == 10 {
        1
    } else {
        1 + line_length(bytes.drop_first())
    }
}

/// The line that begins at an offset, up to and including its line feed.
pub open spec fn line_at(bytes: Seq<u8>, offset: int) -> Seq<u8> {
    bytes.skip(offset).take(line_length(bytes.skip(offset)) as int)
}

/// The number of lines: one for each line feed, and one for what may follow the last of them.
pub open spec fn line_count(bytes: Seq<u8>) -> nat {
    if bytes.len() == 0 || bytes.last() == 10 {
        line_feeds(bytes)
    } else {
        line_feeds(bytes) + 1
    }
}

/// The number of line feeds.
pub open spec fn line_feeds(bytes: Seq<u8>) -> nat
    decreases bytes.len(),
{
    if bytes.len() == 0 {
        0
    } else if bytes.last() == 10 {
        line_feeds(bytes.drop_last()) + 1
    } else {
        line_feeds(bytes.drop_last())
    }
}

/// The number of lines of a file, the last of which may lack a line feed.
pub fn count_lines(bytes: &[u8]) -> (result: u64)
    ensures
        result == line_count(bytes@),
{
    let mut feeds: u64 = 0;
    let mut i: usize = 0;
    let length: usize = bytes.len();
    while i < length
        invariant
            i <= length == bytes@.len(),
            feeds <= i,
            feeds == line_feeds(bytes@.take(i as int)),
        decreases length - i,
    {
        assert(bytes@.take(i + 1).drop_last() =~= bytes@.take(i as int));
        if bytes[i] == 10 {
            feeds = feeds + 1;
        }
        i = i + 1;
    }
    assert(bytes@.take(i as int) =~= bytes@);
    if length > 0 && bytes[length - 1] != 10 {
        proof {
            lemma_line_feeds_bound(bytes@.drop_last());
        }
        feeds + 1
    } else {
        feeds
    }
}

proof fn lemma_line_feeds_bound(bytes: Seq<u8>)
    ensures
        line_feeds(bytes) <= bytes.len(),
    decreases bytes.len(),
{
    if bytes.len() > 0 {
        lemma_line_feeds_bound(bytes.drop_last());
    }
}

/// Text one after another is encoded one after another.
pub proof fn lemma_encode_add(a: Seq<char>, b: Seq<char>)
    ensures
        utf8::encode_utf8(a + b) == utf8::encode_utf8(a) + utf8::encode_utf8(b),
    decreases a.len(),
{
    if a.len() == 0 {
        assert(a + b =~= b);
        assert(utf8::encode_utf8(a) + utf8::encode_utf8(b) =~= utf8::encode_utf8(b));
    } else {
        lemma_encode_add(a.drop_first(), b);
        assert((a + b).drop_first() =~= a.drop_first() + b);
        assert((a + b)[0] == a[0]);
        assert(utf8::encode_utf8(a + b) =~= utf8::encode_utf8(a) + utf8::encode_utf8(b));
    }
}

/// The byte of a line feed stands for a line feed only.
proof fn lemma_scalar_bytes(c: char)
    ensures
        c == '\n' ==> utf8::encode_scalar(c as u32) == seq![10u8],
        c != '\n' ==> forall|i: int|
            0 <= i < utf8::encode_scalar(c as u32).len() ==> #[trigger] utf8::encode_scalar(
                c as u32,
            )[i] != 10,
        utf8::encode_scalar(c as u32).len() > 0,
{
    let v = c as u32;
    utf8::char_is_scalar(c);
    assert(v <= 0x7f ==> (v & 0x7f) as u8 == v) by (bit_vector);
    assert((0xC0u8 | (((v >> 6) & 0x1F) as u8)) >= 0x80) by (bit_vector);
    assert((0xE0u8 | (((v >> 12) & 0x0F) as u8)) >= 0x80) by (bit_vector);
    assert((0xF0u8 | (((v >> 18) & 0x7) as u8)) >= 0x80) by (bit_vector);
    assert((0x80u8 | ((v & 0x3F) as u8)) >= 0x80) by (bit_vector);
    assert((0x80u8 | (((v >> 6) & 0x3F) as u8)) >= 0x80) by (bit_vector);
    assert((0x80u8 | (((v >> 12) & 0x3F) as u8)) >= 0x80) by (bit_vector);
    if c == '\n' {
        assert(utf8::encode_scalar(v) =~= seq![10u8]);
    }
}

/// Text without a line feed is encoded without the byte of a line feed.
pub proof fn lemma_no_line_feed(s: Seq<char>)
    requires
        text::free_of(s, CharSet::Only('\n')),
    ensures
        forall|i: int|
            0 <= i < utf8::encode_utf8(s).len() ==> #[trigger] utf8::encode_utf8(s)[i] != 10,
    decreases s.len(),
{
    if s.len() > 0 {
        let rest = s.drop_first();
        assert forall|i: int| 0 <= i < rest.len() implies !CharSet::Only('\n').has(
            #[trigger] rest[i],
        ) by {
            assert(rest[i] == s[i + 1]);
        }
        lemma_no_line_feed(rest);
        assert(!CharSet::Only('\n').has(s[0]));
        lemma_scalar_bytes(s[0]);
        let head = utf8::encode_scalar(s[0] as u32);
        let tail = utf8::encode_utf8(rest);
        assert forall|i: int| 0 <= i < utf8::encode_utf8(s).len() implies #[trigger] utf8::encode_utf8(
            s,
        )[i] != 10 by {
            if i < head.len() {
                assert(utf8::encode_utf8(s)[i] == head[i]);
            } else {
                assert(utf8::encode_utf8(s)[i] == tail[i - head.len()]);
            }
        }
    }
}

/// A line ends at the first line feed.
proof fn lemma_line_length(line: Seq<u8>, rest: Seq<u8>)
    requires
        forall|i: int| 0 <= i < line.len() ==> #[trigger] line[i] != 10,
    ensures
        line_length(line.push(10) + rest) == line.len() + 1,
    decreases line.len(),
{
    let all = line.push(10) + rest;
    if line.len() == 0 {
        assert(all[0] == 10);
    } else {
        assert(all[0] == line[0]);
        assert(all.drop_first() =~= line.drop_first().push(10) + rest);
        assert forall|i: int| 0 <= i < line.drop_first().len() implies #[trigger] line.drop_first()[i]
            != 10 by {
            assert(line.drop_first()[i] == line[i + 1]);
        }
        lemma_line_length(line.drop_first(), rest);
    }
}

/// In a text of ended lines, the line that begins where a line begins is that line.
pub proof fn lemma_line_at(before: Seq<char>, line: Seq<char>, after: Seq<char>)
    requires
        text::free_of(line, CharSet::Only('\n')),
    ensures
        line_at(
            utf8::encode_utf8(before + line.push('\n') + after),
            utf8::encode_utf8(before).len() as int,
        ) == utf8::encode_utf8(line.push('\n')),
{
    lemma_encode_add(before + line.push('\n'), after);
    lemma_encode_add(before, line.push('\n'));
    lemma_encode_push(line, '\n');
    lemma_scalar_bytes('\n');
    lemma_no_line_feed(line);
    let a = utf8::encode_utf8(before);
    let b = utf8::encode_utf8(line);
    let c = utf8::encode_utf8(after);
    let whole = utf8::encode_utf8(before + line.push('\n') + after);
    assert(b + seq![10u8] =~= b.push(10));
    assert(whole.skip(a.len() as int) =~= b.push(10) + c);
    lemma_line_length(b, c);
    assert((b.push(10) + c).take(b.len() as int + 1) =~= b.push(10));
}

/// One character more adds its encoding.
pub proof fn lemma_encode_push(s: Seq<char>, c: char)
    ensures
        utf8::encode_utf8(s.push(c)) == utf8::encode_utf8(s) + utf8::encode_scalar(c as u32),
{
    assert(s.push(c) =~= s + seq![c]);
    lemma_encode_add(s, seq![c]);
    let one = seq![c];
    assert(one.drop_first() =~= Seq::<char>::empty());
    assert(utf8::encode_utf8(Seq::<char>::empty()) =~= Seq::<u8>::empty());
    assert(utf8::encode_utf8(one) =~= utf8::encode_scalar(c as u32));
}

proof fn lemma_line_feeds_add(a: Seq<u8>, b: Seq<u8>)
    ensures
        line_feeds(a + b) == line_feeds(a) + line_feeds(b),
    decreases b.len(),
{
    if b.len() == 0 {
        assert(a + b =~= a);
    } else {
        lemma_line_feeds_add(a, b.drop_last());
        assert((a + b).drop_last() =~= a + b.drop_last());
        assert((a + b).last() == b.last());
    }
}

proof fn lemma_no_line_feeds(s: Seq<u8>)
    requires
        forall|i: int| 0 <= i < s.len() ==> #[trigger] s[i] != 10,
    ensures
        line_feeds(s) == 0,
    decreases s.len(),
{
    if s.len() > 0 {
        assert(s[s.len() - 1] != 10);
        assert forall|i: int| 0 <= i < s.drop_last().len() implies #[trigger] s.drop_last()[i]
            != 10 by {
            assert(s.drop_last()[i] == s[i]);
        }
        lemma_no_line_feeds(s.drop_last());
    }
}

/// One ended line more is one line feed more, and the text then ends in a line feed.
pub proof fn lemma_line_feeds_row(before: Seq<char>, line: Seq<char>)
    requires
        text::free_of(line, CharSet::Only('\n')),
    ensures
        line_feeds(utf8::encode_utf8(before + line.push('\n'))) == line_feeds(
            utf8::encode_utf8(before),
        ) + 1,
        utf8::encode_utf8(before + line.push('\n')).len() > utf8::encode_utf8(before).len(),
        utf8::encode_utf8(before + line.push('\n')).last() == 10,
{
    lemma_encode_add(before, line.push('\n'));
    lemma_encode_push(line, '\n');
    lemma_scalar_bytes('\n');
    lemma_no_line_feed(line);
    let a = utf8::encode_utf8(before);
    let b = utf8::encode_utf8(line);
    lemma_line_feeds_add(a, b + seq![10u8]);
    lemma_line_feeds_add(b, seq![10u8]);
    lemma_no_line_feeds(b);
    assert(seq![10u8].drop_last() =~= Seq::<u8>::empty());
    assert(line_feeds(Seq::<u8>::empty()) == 0);
    assert(line_feeds(seq![10u8]) == 1);
}

/// The line at an offset goes up to and including the first line feed from there on, or to the end
/// where none follows.
pub proof fn law_line_at_offset(before: Seq<u8>, line: Seq<u8>, rest: Seq<u8>)
    requires
        forall|i: int| 0 <= i < line.len() ==> #[trigger] line[i] != 10,
    ensures
        line_at(before + line.push(10) + rest, before.len() as int) == line.push(10),
        line_at(before + line, before.len() as int) == line,
{
    let from = before.len() as int;
    assert((before + line.push(10) + rest).skip(from) =~= line.push(10) + rest);
    lemma_line_length(line, rest);
    assert((line.push(10) + rest).take(line.len() as int + 1) =~= line.push(10));
    assert((before + line).skip(from) =~= line);
    lemma_whole_line(line);
    assert(line.take(line.len() as int) =~= line);
}

proof fn lemma_whole_line(line: Seq<u8>)
    requires
        forall|i: int| 0 <= i < line.len() ==> #[trigger] line[i] != 10,
    ensures
        line_length(line) == line.len(),
    decreases line.len(),
{
    if line.len() > 0 {
        let rest = line.drop_first();
        assert(line[0] != 10);
        assert forall|i: int| 0 <= i < rest.len() implies #[trigger] rest[i] != 10 by {
            assert(rest[i] == line[i + 1]);
        }
        lemma_whole_line(rest);
    }
}

/// Each line feed ends a line, and what follows the last line feed is a line where it is not empty.
pub proof fn law_counting_lines(line: Seq<u8>, rest: Seq<u8>)
    requires
        forall|i: int| 0 <= i < line.len() ==> #[trigger] line[i] != 10,
    ensures
        line_count(Seq::<u8>::empty()) == 0,
        line.len() > 0 ==> line_count(line) == 1,
        line_count(line.push(10) + rest) == 1 + line_count(rest),
{
    let ended = line.push(10);
    lemma_no_line_feeds(line);
    assert(ended.drop_last() =~= line);
    assert(line_feeds(ended) == 1);
    lemma_line_feeds_add(ended, rest);
    if line.len() > 0 {
        assert(line[line.len() - 1] != 10);
    }
    if rest.len() > 0 {
        assert((ended + rest).last() == rest.last());
    } else {
        assert(ended + rest =~= ended);
    }
}

} // verus!
