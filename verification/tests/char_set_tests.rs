use safe_regular_expression::char_set::{CharSet, CharSetTable};
use safe_regular_expression::ConstructionError;

#[test]
fn test_range() {
    let mut p_char_set_table = CharSetTable::new();
    let id1 = p_char_set_table.range('a', 'z');
    assert_eq!(id1, 0);
    assert_eq!(p_char_set_table.table.len(), 1);
    let seg = p_char_set_table.table[0];
    assert_eq!(seg.index_id, 0);
    assert_eq!(seg.segment_id, 0);
    assert_eq!(seg.from_char, 'a');
    assert_eq!(seg.to_char, 'z');
}

#[test]
fn test_range_swapped() {
    let mut table = CharSetTable::new();
    let id = table.range('z', 'a');
    assert_eq!(id, 0);
    assert_eq!(table.table[0].from_char, 'a');
    assert_eq!(table.table[0].to_char, 'z');
}

#[test]
fn test_char_union_char() {
    let mut p_char_set_table = CharSetTable::new();
    let char_set1 = CharSet {
        index_id: 0,
        segment_id: 0,
        from_char: 'a',
        to_char: 'z',
    };
    let _ = char_set1;
    let id = p_char_set_table.union_chars('b', 'c');
    // 'b' and 'c' are adjacent, so they collapse into one segment.
    assert_eq!(id, 0);
    assert_eq!(p_char_set_table.table.len(), 1);
    assert_eq!(p_char_set_table.table[0].from_char, 'b');
    assert_eq!(p_char_set_table.table[0].to_char, 'c');
}

#[test]
fn test_char_union_char_apart() {
    let mut table = CharSetTable::new();
    let id = table.union_chars('a', 'x');
    assert_eq!(id, 0);
    assert_eq!(table.table.len(), 2);
    assert_eq!((table.table[0].from_char, table.table[0].to_char), ('a', 'a'));
    assert_eq!((table.table[1].from_char, table.table[1].to_char), ('x', 'x'));
    assert_eq!(table.table[1].segment_id, 1);
}

#[test]
fn test_char_set_union_char() {
    let mut table = CharSetTable::new();
    let id = table.range('a', 'c');
    let id2 = table.union_with_char(id, 'x').unwrap();
    assert_eq!(id2, 1);
    // The new class holds a copy of ['a','c'] and the segment ['x','x'].
    assert_eq!(table.table.len(), 3);
    assert_eq!(table.table[1].index_id, 1);
    assert_eq!((table.table[1].from_char, table.table[1].to_char), ('a', 'c'));
    assert_eq!(table.table[2].index_id, 1);
    assert_eq!((table.table[2].from_char, table.table[2].to_char), ('x', 'x'));
    assert_eq!(table.table[2].segment_id, 1);
}

#[test]
fn test_char_set_union_char_set() {
    let mut table = CharSetTable::new();
    let id1 = table.range('a', 'c');
    let id2 = table.range('x', 'z');
    let id3 = table.union_sets(id1, id2).unwrap();
    assert_eq!(id3, 2);
    assert_eq!(table.table.len(), 4);
    assert_eq!(table.table[2].index_id, 2);
    assert_eq!((table.table[2].from_char, table.table[2].to_char), ('a', 'c'));
    assert_eq!(table.table[2].segment_id, 0);
    assert_eq!(table.table[3].index_id, 2);
    assert_eq!((table.table[3].from_char, table.table[3].to_char), ('x', 'z'));
    assert_eq!(table.table[3].segment_id, 1);
}

#[test]
fn test_difference1() {
    let mut p_char_set_table = CharSetTable::new();
    let char_set1 = CharSet {
        index_id: 0,
        segment_id: 0,
        from_char: 'a',
        to_char: 'z',
    };
    p_char_set_table.push(char_set1);
    let id = p_char_set_table.difference(0, 'b').unwrap();
    // Splitting ['a','z'] around 'b' leaves ['a','a'] and ['c','z'] under
    // the new class, both carrying the same class identifier.
    assert_eq!(id, 1);
    assert_eq!(p_char_set_table.table.len(), 3);
    let s1 = p_char_set_table.table[1];
    let s2 = p_char_set_table.table[2];
    assert_eq!(s1.index_id, 1);
    assert_eq!((s1.from_char, s1.to_char), ('a', 'a'));
    assert_eq!(s2.index_id, 1);
    assert_eq!((s2.from_char, s2.to_char), ('c', 'z'));
}

#[test]
fn test_difference2() {
    let mut p_char_set_table = CharSetTable::new();
    let char_set1 = CharSet {
        index_id: 0,
        segment_id: 0,
        from_char: 'a',
        to_char: 'z',
    };
    let char_set2 = CharSet {
        index_id: 0,
        segment_id: 1,
        from_char: 'b',
        to_char: 'b',
    };
    let char_set3 = CharSet {
        index_id: 1,
        segment_id: 0,
        from_char: 'a',
        to_char: 'a',
    };
    p_char_set_table.push(char_set1);
    p_char_set_table.push(char_set2);
    p_char_set_table.push(char_set3);
    let id = p_char_set_table.difference(0, 'b').unwrap();
    assert_eq!(id, 2);
    // ['a','z'] splits into ['a','a'] and ['c','z']; the singleton
    // ['b','b'] disappears entirely.
    assert_eq!(p_char_set_table.table.len(), 5);
    let s1 = p_char_set_table.table[3];
    let s2 = p_char_set_table.table[4];
    assert_eq!(s1.index_id, 2);
    assert_eq!((s1.from_char, s1.to_char), ('a', 'a'));
    assert_eq!(s2.index_id, 2);
    assert_eq!((s2.from_char, s2.to_char), ('c', 'z'));
}

#[test]
fn test_difference_singleton_removed() {
    let mut table = CharSetTable::new();
    table.push(CharSet {
        index_id: 0,
        segment_id: 0,
        from_char: 'm',
        to_char: 'm',
    });
    let id = table.difference(0, 'm').unwrap();
    // The only segment was exactly the removed symbol: the new class is
    // empty, so nothing is appended.
    assert_eq!(id, 1);
    assert_eq!(table.table.len(), 1);
}

#[test]
fn test_difference_at_edge() {
    let mut table = CharSetTable::new();
    table.push(CharSet {
        index_id: 0,
        segment_id: 0,
        from_char: 'a',
        to_char: 'z',
    });
    let id = table.difference(0, 'a').unwrap();
    assert_eq!(id, 1);
    assert_eq!(table.table.len(), 2);
    // The range shrinks at its lower edge: the stepped-up start proves the
    // code-point step really happened.
    assert_eq!((table.table[1].from_char, table.table[1].to_char), ('b', 'z'));
}

#[test]
fn test_difference_unknown_class() {
    let mut table = CharSetTable::new();
    let r = table.difference(5, 'a');
    assert_eq!(r, Err(ConstructionError::UnknownSetId));
    assert_eq!(table.table.len(), 0);
}

#[test]
fn test_union_with_char_unknown_class() {
    let mut table = CharSetTable::new();
    let r = table.union_with_char(3, 'a');
    assert_eq!(r, Err(ConstructionError::UnknownSetId));
}

#[test]
fn test_union_sets_unknown_class() {
    let mut table = CharSetTable::new();
    let id = table.range('a', 'b');
    assert_eq!(table.union_sets(id, 7), Err(ConstructionError::UnknownSetId));
    assert_eq!(table.union_sets(7, id), Err(ConstructionError::UnknownSetId));
}

#[test]
fn test_difference_symbol_range_overflow() {
    let mut table = CharSetTable::new();
    // The code point after U+D7FF is a surrogate, not a character, so the
    // shrink at the lower edge cannot be represented.
    table.push(CharSet {
        index_id: 0,
        segment_id: 0,
        from_char: '\u{D7FF}',
        to_char: '\u{E000}',
    });
    let r = table.difference(0, '\u{D7FF}');
    assert_eq!(r, Err(ConstructionError::SymbolRangeOverflow));
    assert_eq!(table.table.len(), 1);
}

#[test]
fn test_copy_by_index_id() {
    let mut table = CharSetTable::new();
    let id = table.range('a', 'c');
    let id2 = table.copy_by_index_id(id);
    assert_eq!(id2, 1);
    assert_eq!(table.table.len(), 2);
    assert_eq!(table.table[1].index_id, 1);
    assert_eq!((table.table[1].from_char, table.table[1].to_char), ('a', 'c'));
}

#[test]
fn test_ref() {
    let test_char_set = CharSet {
        index_id: 0,
        segment_id: 1,
        from_char: 'b',
        to_char: 'b',
    };
    let test3 = test_char_set.clone();
    assert_eq!(test3, test_char_set);
    assert_eq!(format!("{:?}", test3), format!("{:?}", test_char_set));
}
