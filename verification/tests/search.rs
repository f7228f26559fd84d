use memchunk::search::{
    build_table, find_last_pattern, find_last_with_needles, find_last_with_table,
};

#[test]
fn no_delimiter_finds_nothing() {
    assert_eq!(find_last_with_needles(b"", b"a.b.c"), None);
}

#[test]
fn one_needle_finds_its_last_position() {
    assert_eq!(find_last_with_needles(b".", b"a.b.c"), Some(3));
    assert_eq!(find_last_with_needles(b".", b"abc"), None);
    assert_eq!(find_last_with_needles(b".", b""), None);
}

#[test]
fn two_needles_find_the_last_of_either() {
    assert_eq!(find_last_with_needles(b".?", b"a?b.c!"), Some(3));
    assert_eq!(find_last_with_needles(b".?", b"a.b?c!"), Some(3));
    assert_eq!(find_last_with_needles(b".?", b"a!b!c!"), None);
}

#[test]
fn three_needles_find_the_last_of_any() {
    assert_eq!(find_last_with_needles(b".?!", b"a?b.c!"), Some(5));
    assert_eq!(find_last_with_needles(b".?!", b"!abcde"), Some(0));
    assert_eq!(find_last_with_needles(b".?!", b"abcdef"), None);
}

#[test]
fn table_marks_the_delimiters_and_nothing_else() {
    let table = build_table(b".?!;");
    for byte in 0..=255u8 {
        assert_eq!(table[byte as usize], b".?!;".contains(&byte));
    }
    assert_eq!(build_table(b""), [false; 256]);
}

#[test]
fn table_search_finds_the_last_marked_byte() {
    let table = build_table(b".?!;");
    assert_eq!(find_last_with_table(&table, b"A. B? C! D; E"), Some(10));
    assert_eq!(find_last_with_table(&table, b"A. B?"), Some(4));
    assert_eq!(find_last_with_table(&table, b"ABCDE"), None);
    assert_eq!(find_last_with_table(&table, b""), None);
}

#[test]
fn table_and_needles_agree_on_every_window() {
    let text = b"The quick brown fox. Jumps over? The lazy dog! And on. The end";
    let table = build_table(b".?!");
    for start in 0..text.len() {
        for end in start..=text.len() {
            let window = &text[start..end];
            assert_eq!(find_last_with_needles(b".?!", window), find_last_with_table(&table, window));
        }
    }
}

#[test]
fn pattern_search_finds_the_last_occurrence() {
    assert_eq!(find_last_pattern(b"foo bar foo baz", b"foo"), Some(8));
    assert_eq!(find_last_pattern(b"foo bar foo baz", b"baz"), Some(12));
    assert_eq!(find_last_pattern(b"foo bar foo baz", b"quux"), None);
    assert_eq!(find_last_pattern(b"ab", b"abc"), None);
    assert_eq!(find_last_pattern(b"aaaa", b"aa"), Some(2));
}
