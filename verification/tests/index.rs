use geosearch::index_file::{read_offset_index, write_offset_index};
use geosearch::offsets::{intersect_sets, OffsetSet};
use geosearch::ordered::{text_order, TextMap, TextOrder};
use geosearch::postings::{autocomplete_offsets, intersect_offsets, post, union_offsets};

fn set(items: &[u64]) -> OffsetSet {
    let mut result = OffsetSet::new();
    for item in items {
        result.insert(*item);
    }
    result
}

fn list(set: &OffsetSet) -> Vec<u64> {
    (0..set.len()).map(|i| set.at(i)).collect()
}

fn owned(parts: &[&str]) -> Vec<String> {
    parts.iter().map(|part| part.to_string()).collect()
}

fn sample() -> TextMap<OffsetSet> {
    let mut index = TextMap::new();
    for (key, offset) in [("calle", 30), ("bogota", 9), ("calle", 2), ("calles", 5), ("bogota", 2)] {
        post(&mut index, key, offset);
    }
    index
}

#[test]
fn offsets_are_kept_in_rising_order_once() {
    assert_eq!(list(&set(&[5, 1, 9, 5, 0, 9])), vec![0, 1, 5, 9]);
    let mut all = set(&[3, 8]);
    all.insert_all(&set(&[1, 8, 10]));
    assert_eq!(list(&all), vec![1, 3, 8, 10]);
    assert_eq!(list(&all.intersection(&set(&[10, 2, 3]))), vec![3, 10]);
}

#[test]
fn what_is_in_all_sets_is_left() {
    assert!(list(&intersect_sets(&vec![])).is_empty());
    assert_eq!(list(&intersect_sets(&vec![set(&[4, 2])])), vec![2, 4]);
    assert_eq!(
        list(&intersect_sets(&vec![set(&[1, 2, 3, 4]), set(&[2, 4, 6]), set(&[4, 2, 9])])),
        vec![2, 4]
    );
    assert!(list(&intersect_sets(&vec![set(&[1]), set(&[])])).is_empty());
}

#[test]
fn text_is_ordered_as_std_orders_it() {
    let texts = ["", "a", "ab", "b", "á", "z", "\u{ffff}", "😀", "a\u{0}"];
    for a in texts {
        for b in texts {
            let order = text_order(a, b);
            let expected = if a < b {
                TextOrder::Before
            } else if a == b {
                TextOrder::Same
            } else {
                TextOrder::After
            };
            assert_eq!(order, expected, "{a} {b}");
        }
    }
}

#[test]
fn maps_hold_one_value_for_each_key() {
    let mut map: TextMap<String> = TextMap::new();
    for (key, value) in [("b", "1"), ("a", "2"), ("c", "3"), ("b", "4")] {
        map.insert(key.to_string(), value.to_string());
    }
    assert_eq!(map.len(), 3);
    assert_eq!(map.get("b").unwrap(), "4");
    assert!(map.get("d").is_none());
    assert_eq!(map.key_at(0), "a");
    assert_eq!(map.value_at(2), "3");
    map.get_mut("a").unwrap().push('!');
    assert_eq!(map.get("a").unwrap(), "2!");
    assert!(map.get_mut("").is_none());
}

#[test]
fn postings_answer_terms() {
    let index = sample();
    let all = |terms: &[&str]| list(&intersect_offsets(&owned(terms), &index));
    assert_eq!(all(&["calle"]), vec![2, 30]);
    assert_eq!(all(&["calle", "bogota"]), vec![2]);
    assert!(all(&["calle", "cali"]).is_empty());
    assert!(all(&[]).is_empty());
    let completed = |terms: &[&str]| list(&autocomplete_offsets(&owned(terms), &index));
    assert_eq!(completed(&["call"]), vec![2, 5, 30]);
    assert_eq!(completed(&["bogota", "call"]), vec![2]);
    assert!(completed(&["bog", "call"]).is_empty());
    let any = |keys: &[&str]| list(&union_offsets(&owned(keys), &index));
    assert_eq!(any(&["bogota", "calles", "cali"]), vec![2, 5, 9]);
}

#[test]
fn an_index_is_read_back_from_its_file() {
    let mut index = sample();
    post(&mut index, "tab\tand\\", 7);
    let text = write_offset_index(&index);
    assert_eq!(text, "bogota\t2,9\ncalle\t2,30\ncalles\t5\ntab\\tand\\\\\t7\n");
    let read = read_offset_index(&text);
    assert_eq!(read.len(), 4);
    assert_eq!(list(read.get("tab\tand\\").unwrap()), vec![7]);
    assert_eq!(write_offset_index(&read), text);
}

#[test]
fn lines_that_say_nothing_are_passed_over() {
    let read = read_offset_index("no tab\na\t3,,x,1,+2,18446744073709551616\r\nb\t\na\t4\n");
    assert_eq!(read.len(), 2);
    assert_eq!(list(read.get("a").unwrap()), vec![4]);
    assert!(list(read.get("b").unwrap()).is_empty());
    let read = read_offset_index("a\t3,,x,1,+2,18446744073709551616\n");
    assert_eq!(list(read.get("a").unwrap()), vec![1, 2, 3]);
    assert_eq!(read_offset_index("").len(), 0);
}
