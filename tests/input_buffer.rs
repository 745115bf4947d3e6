use input_buffer::input_buffer::{BufferError, InputBuffer};
use spectral::{assert_that, Spec};

fn default_test_case() -> InputBuffer {
    InputBuffer::new(1 << 20, 1 << 7, 4, 5).unwrap()
}

fn loaded(size: u32, max_lookahead: usize, text: &str) -> InputBuffer {
    let mut buffer = InputBuffer::new(size, max_lookahead, 4, 5).unwrap();
    let taken = buffer.fill(text.as_bytes());
    assert_eq!(taken, text.len());
    buffer
}

/// Scans `input` to the end through a buffer of `size` bytes, refilling it
/// from `input` whenever it runs dry.
fn scan_all(size: u32, threshold_num: u32, threshold_den: u32, input: &str) -> Vec<Vec<u8>> {
    let mut buffer = InputBuffer::new(size, 2, threshold_num, threshold_den).unwrap();
    let bytes = input.as_bytes();
    let mut fed = 0;
    let mut words = Vec::new();
    loop {
        match buffer.advance() {
            Ok((head, tail)) => {
                let word = buffer.word();
                assert_eq!(word.len(), tail - head);
                words.push(word);
            }
            Err(BufferError::BufferExhausted) => {
                if fed == bytes.len() {
                    buffer.end_input();
                } else {
                    let taken = buffer.fill(&bytes[fed..]);
                    assert!(taken > 0);
                    fed += taken;
                }
            }
            Err(BufferError::EndOfInput) => break,
            Err(other) => panic!("unexpected error {:?}", other),
        }
    }
    words
}

#[test]
fn test_create_buffer() {
    let buffer_size = 1 << 30;
    let us_buffer_size = buffer_size as usize;
    let max_lookahead_size = 1 << 7;
    let buffer = InputBuffer::new(buffer_size, max_lookahead_size, 4, 5).unwrap();
    assert_that(&buffer.buffer_size()).is_equal_to(&us_buffer_size);
    assert_that(&buffer.capacity()).is_equal_to(us_buffer_size);
    // four fifths of 2^30, rounded to the nearest byte
    assert_that(&buffer.threshold()).is_equal_to(858_993_459usize);
}

#[test]
fn test_lookahead() {
    let mut buffer = default_test_case();
    let contents = "test for lookahead function".as_bytes();
    buffer.fill(contents);

    assert_eq!(buffer.lookahead(4).unwrap(), "test".as_bytes());
    assert_eq!(buffer.next(), 4);

    assert_eq!(buffer.lookahead(5).unwrap(), " for ".as_bytes());
    assert_eq!(buffer.next(), 9);
}

#[test]
fn test_advance() {
    let mut buffer = default_test_case();
    let contents = "test for advance function".as_bytes();
    buffer.fill(contents);

    buffer.advance().unwrap();
    let test = buffer.word();
    let expect_test = "test".as_bytes();
    assert_eq!(test, expect_test);
    buffer.advance().unwrap();
    let for_ = buffer.word();
    let expect_for = "for".as_bytes();
    assert_eq!(for_, expect_for);
    buffer.advance().unwrap();
    let advance = buffer.word();
    let expect_advance = "advance".as_bytes();
    assert_eq!(advance, expect_advance);
}

#[test]
fn advance_reports_bounds_of_each_word() {
    let mut buffer = default_test_case();
    buffer.fill("test for advance function".as_bytes());
    assert_eq!(buffer.advance(), Ok((0, 4)));
    assert_eq!(buffer.next(), 5);
    assert_eq!(buffer.advance(), Ok((5, 8)));
    assert_eq!(buffer.advance(), Ok((9, 16)));
    assert_eq!(buffer.next(), 17);
}

#[test]
fn words_come_back_in_order_then_end_of_input() {
    let mut buffer = default_test_case();
    buffer.fill("alpha beta gamma".as_bytes());
    buffer.end_input();
    let mut words = Vec::new();
    loop {
        match buffer.advance() {
            Ok(_) => words.push(buffer.word()),
            Err(e) => {
                assert_eq!(e, BufferError::EndOfInput);
                break;
            }
        }
    }
    assert_eq!(words, vec![b"alpha".to_vec(), b"beta".to_vec(), b"gamma".to_vec()]);
}

#[test]
fn last_word_waits_for_end_of_input() {
    let mut buffer = default_test_case();
    buffer.fill("one two".as_bytes());
    assert_eq!(buffer.advance(), Ok((0, 3)));
    assert_eq!(buffer.advance(), Err(BufferError::BufferExhausted));
    assert_eq!(buffer.next(), 4);
    buffer.end_input();
    assert_eq!(buffer.advance(), Ok((4, 7)));
    assert_eq!(buffer.word(), b"two".to_vec());
    assert_eq!(buffer.advance(), Err(BufferError::EndOfInput));
}

#[test]
fn separators_around_words_are_skipped() {
    let mut buffer = default_test_case();
    buffer.fill("  ab   cd  ".as_bytes());
    buffer.end_input();
    assert_eq!(buffer.advance(), Ok((2, 4)));
    assert_eq!(buffer.word(), b"ab".to_vec());
    assert_eq!(buffer.next(), 7);
    assert_eq!(buffer.advance(), Ok((7, 9)));
    assert_eq!(buffer.word(), b"cd".to_vec());
    assert_eq!(buffer.next(), 11);
    assert_eq!(buffer.advance(), Err(BufferError::EndOfInput));
}

#[test]
fn lookahead_then_back_restores_cursors() {
    let mut buffer = default_test_case();
    buffer.fill("test for lookahead function".as_bytes());
    buffer.advance().unwrap();
    let (next, head, tail) = (buffer.next(), buffer.word_head(), buffer.word_tail());
    assert_eq!(buffer.lookahead(3).unwrap(), "for".as_bytes());
    assert_eq!(buffer.back(3), Ok(()));
    assert_eq!(buffer.next(), next);
    assert_eq!(buffer.word_head(), head);
    assert_eq!(buffer.word_tail(), tail);
    assert_eq!(buffer.word(), b"test".to_vec());
}

#[test]
fn lookahead_then_back_across_compaction_keeps_content() {
    // capacity 10, threshold 8
    let mut buffer = InputBuffer::new(10, 4, 4, 5).unwrap();
    buffer.fill("ab cd efg".as_bytes());
    buffer.advance().unwrap();
    assert_eq!(buffer.advance(), Ok((3, 5)));
    assert_eq!(buffer.next(), 6);
    assert_eq!(buffer.lookahead(3).unwrap(), "efg".as_bytes());
    assert_eq!((buffer.word_head(), buffer.word_tail(), buffer.next()), (0, 2, 6));
    assert_eq!(buffer.back(3), Ok(()));
    assert_eq!(buffer.next(), 3);
    assert_eq!(buffer.word(), b"cd".to_vec());
    assert_eq!(buffer.free_space(), 4);
    assert_eq!(buffer.lookahead(3).unwrap(), "efg".as_bytes());
}

#[test]
fn compaction_does_not_change_reported_words() {
    let input = "ab cd ef gh";
    let small = scan_all(8, 1, 2, input);
    let large = scan_all(1 << 10, 4, 5, input);
    let expected = vec![b"ab".to_vec(), b"cd".to_vec(), b"ef".to_vec(), b"gh".to_vec()];
    assert_eq!(large, expected);
    assert_eq!(small, expected);
}

#[test]
fn compaction_with_longer_text() {
    let input = "the quick brown fox   jumps over the lazy dog";
    let small = scan_all(12, 1, 2, input);
    let large = scan_all(1 << 10, 4, 5, input);
    assert_eq!(small, large);
    assert_eq!(large.len(), 9);
    assert_eq!(large[4], b"jumps".to_vec());
}

#[test]
fn flush_moves_current_word_to_start() {
    let mut buffer = default_test_case();
    buffer.fill("test for flush".as_bytes());
    buffer.advance().unwrap();
    buffer.advance().unwrap();
    assert_eq!((buffer.word_head(), buffer.word_tail(), buffer.next()), (5, 8, 9));
    buffer.flush();
    assert_eq!((buffer.word_head(), buffer.word_tail(), buffer.next()), (0, 3, 4));
    assert_eq!(buffer.word(), b"for".to_vec());
    assert_eq!(buffer.free_space(), (1 << 20) - 9);
    assert_eq!(buffer.lookahead(5).unwrap(), "flush".as_bytes());
}

#[test]
fn input_without_separator_does_not_loop() {
    let mut buffer = default_test_case();
    buffer.fill("lookahead".as_bytes());
    assert_eq!(buffer.advance(), Err(BufferError::BufferExhausted));
    assert_eq!(buffer.next(), 0);
    buffer.end_input();
    assert_eq!(buffer.advance(), Ok((0, 9)));
    assert_eq!(buffer.word(), b"lookahead".to_vec());
    assert_eq!(buffer.advance(), Err(BufferError::EndOfInput));
}

#[test]
fn full_store_without_separator_is_exhausted() {
    let mut buffer = loaded(8, 2, "abcdefgh");
    assert_eq!(buffer.free_space(), 0);
    assert_eq!(buffer.advance(), Err(BufferError::BufferExhausted));
}

#[test]
fn only_separators_yield_no_word() {
    let mut buffer = default_test_case();
    buffer.fill("     ".as_bytes());
    assert_eq!(buffer.advance(), Err(BufferError::BufferExhausted));
    buffer.end_input();
    assert_eq!(buffer.advance(), Err(BufferError::EndOfInput));
}

#[test]
fn empty_input_yields_no_word() {
    let mut buffer = default_test_case();
    assert_eq!(buffer.advance(), Err(BufferError::BufferExhausted));
    buffer.end_input();
    assert!(buffer.input_ended());
    assert_eq!(buffer.advance(), Err(BufferError::EndOfInput));
}

#[test]
fn threshold_at_capacity_is_rejected() {
    // 19/20 of 10 rounds to 10
    assert_eq!(InputBuffer::new(10, 2, 19, 20).err(), Some(BufferError::ConfigurationError));
    let ok = InputBuffer::new(10, 2, 9, 10).unwrap();
    assert_eq!(ok.threshold(), 9);
}

#[test]
fn threshold_rounds_halves_up() {
    assert_eq!(InputBuffer::new(5, 1, 1, 2).unwrap().threshold(), 3);
    assert_eq!(InputBuffer::new(10, 1, 1, 3).unwrap().threshold(), 3);
    assert_eq!(InputBuffer::new(10, 1, 2, 3).unwrap().threshold(), 7);
    assert_eq!(InputBuffer::new(1000, 1, 999, 1000).unwrap().threshold(), 999);
}

#[test]
fn invalid_configurations_are_rejected() {
    let bad = Some(BufferError::ConfigurationError);
    assert_eq!(InputBuffer::new(0, 1, 1, 2).err(), bad);
    assert_eq!(InputBuffer::new(10, 0, 1, 2).err(), bad);
    assert_eq!(InputBuffer::new(10, 11, 1, 2).err(), bad);
    assert_eq!(InputBuffer::new(10, 2, 0, 2).err(), bad);
    assert_eq!(InputBuffer::new(10, 2, 2, 2).err(), bad);
    assert_eq!(InputBuffer::new(10, 2, 3, 2).err(), bad);
    assert_eq!(InputBuffer::new(10, 2, 1, 0).err(), bad);
    let ok = InputBuffer::new(10, 10, 1, 2).unwrap();
    assert_eq!(ok.max_lookahead_size(), 10);
    assert_eq!((ok.word_head(), ok.word_tail(), ok.next()), (0, 0, 0));
}

#[test]
fn rewind_past_word_start_is_refused() {
    let mut buffer = default_test_case();
    assert_eq!(buffer.back(1), Err(BufferError::InvalidRewind));
    buffer.fill("ab cd".as_bytes());
    buffer.advance().unwrap();
    assert_eq!(buffer.back(4), Err(BufferError::InvalidRewind));
    assert_eq!(buffer.next(), 3);
    assert_eq!(buffer.back(3), Ok(()));
    assert_eq!(buffer.next(), 0);
}

#[test]
fn lookahead_errors() {
    let mut buffer = loaded(16, 4, "abc");
    assert_eq!(buffer.lookahead(5), Err(BufferError::LookaheadTooLarge));
    assert_eq!(buffer.lookahead(4), Err(BufferError::BufferExhausted));
    assert_eq!(buffer.next(), 0);
    assert_eq!(buffer.lookahead(3).unwrap(), b"abc".to_vec());
}

#[test]
fn fill_takes_only_what_fits() {
    let mut buffer = InputBuffer::new(4, 2, 1, 2).unwrap();
    assert_eq!(buffer.fill(b"abcdef"), 4);
    assert_eq!(buffer.free_space(), 0);
    assert_eq!(buffer.fill(b"gh"), 0);
    assert_eq!(buffer.lookahead(2).unwrap(), b"ab".to_vec());
}

#[test]
fn word_tail_stays_on_first_separator() {
    let mut buffer = default_test_case();
    buffer.fill("a   b".as_bytes());
    assert_eq!(buffer.advance(), Ok((0, 1)));
    assert_eq!(buffer.next(), 4);
    buffer.end_input();
    assert_eq!(buffer.advance(), Ok((4, 5)));
    assert_eq!(buffer.advance(), Err(BufferError::EndOfInput));
}

#[test]
fn last_word_at_end_of_input_has_its_bounds() {
    let mut buffer = default_test_case();
    buffer.fill("test for advance function".as_bytes());
    buffer.end_input();
    assert_eq!(buffer.advance(), Ok((0, 4)));
    assert_eq!(buffer.advance(), Ok((5, 8)));
    assert_eq!(buffer.advance(), Ok((9, 16)));
    assert_eq!(buffer.advance(), Ok((17, 25)));
    assert_eq!(buffer.word(), b"function".to_vec());
    assert_eq!(buffer.advance(), Err(BufferError::EndOfInput));
}

#[test]
fn make_room_compacts_before_refill() {
    // capacity 8, threshold 4
    let mut buffer = InputBuffer::new(8, 2, 1, 2).unwrap();
    assert_eq!(buffer.fill(b"ab cdefg"), 8);
    assert_eq!(buffer.advance(), Ok((0, 2)));
    assert_eq!(buffer.advance(), Err(BufferError::BufferExhausted));
    assert_eq!(buffer.make_room(), Ok(3));
    assert_eq!(buffer.word_head(), 0);
    assert_eq!(buffer.fill(b"h i"), 3);
    assert_eq!(buffer.advance(), Ok((0, 6)));
    assert_eq!(buffer.word(), b"cdefgh".to_vec());
}

#[test]
fn make_room_fails_when_a_word_fills_the_store() {
    let mut buffer = loaded(8, 2, "abcdefgh");
    assert_eq!(buffer.advance(), Err(BufferError::BufferExhausted));
    assert_eq!(buffer.make_room(), Err(BufferError::BufferExhausted));
}
