use memchunk::{
    chunk, chunk_offsets, chunk_offsets_pattern, default_delimiters, default_target_size,
    flatten_offsets, Chunker, InvalidConfig, DEFAULT_DELIMITERS, DEFAULT_TARGET_SIZE,
};

#[test]
fn default_target_size_is_4096() {
    assert_eq!(default_target_size(), 4096);
    assert_eq!(DEFAULT_TARGET_SIZE, 4096);
}

#[test]
fn default_delimiters_are_newline_full_stop_question_mark() {
    assert_eq!(default_delimiters(), b"\n.?".to_vec());
    assert_eq!(&DEFAULT_DELIMITERS, b"\n.?");
}

#[test]
fn collect_offsets_gives_start_and_end_of_each_chunk() {
    let mut chunker = chunk(b"Hello. World. Test.").size(10).unwrap().delimiters(b".");
    assert_eq!(chunker.collect_offsets(), vec![(0, 6), (6, 13), (13, 19)]);
    assert_eq!(chunker.next(), None);
    assert_eq!(chunker.collect_offsets(), vec![]);
}

#[test]
fn collect_offsets_covers_only_what_is_left() {
    let mut chunker = chunk(b"Hello. World. Test.").size(10).unwrap().delimiters(b".");
    assert_eq!(chunker.next(), Some(b"Hello.".to_vec()));
    assert_eq!(chunker.collect_offsets(), vec![(6, 13), (13, 19)]);
    chunker.reset();
    assert_eq!(chunker.collect_offsets(), vec![(0, 6), (6, 13), (13, 19)]);
}

#[test]
fn collect_offsets_of_an_empty_text_is_empty() {
    let mut chunker = chunk(b"");
    assert_eq!(chunker.collect_offsets(), vec![]);
    assert_eq!(chunk_offsets(b"", Some(7), None, Some(true)), Ok(vec![]));
    assert_eq!(chunk_offsets_pattern(b"", 7, b"ab", None), Ok(vec![]));
}

#[test]
fn offsets_are_contiguous_from_zero_to_the_end() {
    let text = b"The quick brown fox. Jumps over? The lazy dog! And on; and on. The end";
    for size in 1..30 {
        let mut chunker = chunk(text).size(size).unwrap().delimiters(b".?!;");
        let offsets = chunker.collect_offsets();
        assert_eq!(offsets.first().map(|range| range.0), Some(0));
        assert_eq!(offsets.last().map(|range| range.1), Some(text.len()));
        for range in &offsets {
            assert!(range.0 < range.1);
        }
        for pair in offsets.windows(2) {
            assert_eq!(pair[0].1, pair[1].0);
        }
    }
}

#[test]
fn offsets_and_chunks_agree() {
    let text = b"The quick brown fox. Jumps over? The lazy dog! And on; and on. The end";
    for size in 1..30 {
        let chunks = chunk(text).size(size).unwrap().delimiters(b".?!;").prefix().collect();
        let mut chunker = chunk(text).size(size).unwrap().delimiters(b".?!;").prefix();
        let offsets = chunker.collect_offsets();
        assert_eq!(offsets.len(), chunks.len());
        for (range, bytes) in offsets.iter().zip(&chunks) {
            assert_eq!(&text[range.0..range.1], bytes.as_slice());
        }
    }
}

#[test]
fn offsets_are_the_same_after_every_reset() {
    let mut chunker = Chunker::with_pattern(b"one--two--three", 8, b"--", None).unwrap();
    let first = chunker.collect_offsets();
    chunker.reset();
    let second = chunker.collect_offsets();
    chunker.reset();
    let third = chunker.collect_offsets();
    assert_eq!(first, vec![(0, 5), (5, 10), (10, 15)]);
    assert_eq!(first, second);
    assert_eq!(second, third);
}

#[test]
fn chunk_offsets_with_settings() {
    assert_eq!(
        chunk_offsets(b"Hello. World. Test.", Some(10), Some(String::from(".")), None),
        Ok(vec![(0, 6), (6, 13), (13, 19)])
    );
    assert_eq!(
        chunk_offsets(b"Hello. World. Test.", Some(10), Some(String::from(".")), Some(true)),
        Ok(vec![(0, 5), (5, 12), (12, 19)])
    );
}

#[test]
fn chunk_offsets_with_defaults() {
    assert_eq!(chunk_offsets(b"Hello world. This is a test.", None, None, None), Ok(vec![(0, 28)]));
    assert_eq!(
        chunk_offsets(b"Hello world? This is a test.", Some(20), None, None),
        Ok(vec![(0, 12), (12, 28)])
    );
}

#[test]
fn chunk_offsets_refuses_a_zero_target_size() {
    assert_eq!(chunk_offsets(b"abc", Some(0), None, None), Err(InvalidConfig::ZeroTargetSize));
}

#[test]
fn chunk_offsets_pattern_with_settings() {
    assert_eq!(
        chunk_offsets_pattern(b"one--two--three", 8, b"--", None),
        Ok(vec![(0, 5), (5, 10), (10, 15)])
    );
    assert_eq!(
        chunk_offsets_pattern(b"one--two--three", 8, b"--", Some(true)),
        Ok(vec![(0, 3), (3, 8), (8, 15)])
    );
}

#[test]
fn chunk_offsets_pattern_refuses_bad_settings() {
    assert_eq!(chunk_offsets_pattern(b"abc", 0, b"b", None), Err(InvalidConfig::ZeroTargetSize));
    assert_eq!(chunk_offsets_pattern(b"abc", 2, b"", None), Err(InvalidConfig::EmptyPattern));
}

#[test]
fn flatten_offsets_lays_pairs_out_in_order() {
    assert_eq!(flatten_offsets(&[(0, 6), (6, 13), (13, 19)]), vec![0, 6, 6, 13, 13, 19]);
    assert_eq!(flatten_offsets(&[]), Vec::<usize>::new());
}
