use tts_stream::lexicon::{
    break_words, ends_with, ends_with_any, is_numbered_list_item, last_char, word_ends_clause,
    word_ends_comma, word_is_break_word,
};
use tts_stream::segmenter::{
    migrate_break_words, split_at_boundaries, split_long_chunks, split_text_into_speech_chunks,
    DEFAULT_WORDS_PER_CHUNK,
};
use tts_stream::splitter::{LONG_CHUNK_THRESHOLD, MAX_SPLIT_DEPTH, MIN_SPLIT_OFFSET};
use tts_stream::splitter::{
    find_closest_break_word, find_closest_punctuation, find_split_point,
    split_long_chunk_with_depth,
};
use tts_stream::text::{
    as_strs, char_is_whitespace, chars_of, join, same_text, split_words, string_of,
};

fn strings(items: &[&str]) -> Vec<String> {
    items.iter().map(|s| s.to_string()).collect()
}

fn std_words(text: &str) -> Vec<String> {
    text.split_whitespace().map(|s| s.to_string()).collect()
}

fn words_of_chunks(chunks: &[String]) -> Vec<String> {
    chunks.iter().flat_map(|c| std_words(c)).collect()
}

fn numbered_words(n: usize) -> Vec<String> {
    (0..n).map(|i| format!("w{}", i)).collect()
}

#[test]
fn comma_cuts_once_the_target_is_reached() {
    let chunks = split_text_into_speech_chunks("Hello world, how are you today, my friend", 4);
    assert_eq!(chunks, strings(&["Hello world, how are you today,", "my friend"]));
}

#[test]
fn numbered_items_open_chunks() {
    let chunks = split_text_into_speech_chunks("1. First item 2. Second item 3. Third item", 10);
    assert_eq!(chunks, strings(&["1. First item", "2. Second item", "3. Third item"]));
}

#[test]
fn long_sentence_is_cut_in_front_of_break_words() {
    let text = "The quick brown fox jumped over the lazy dog and then it ran across the wide \
                green field because it was late.";
    let chunks = split_text_into_speech_chunks(text, 10);
    assert_eq!(
        chunks,
        strings(&[
            "The quick brown fox jumped over the lazy dog",
            "and then it ran across the wide green field",
            "because it was late.",
        ])
    );
}

#[test]
fn limits_have_their_fixed_values() {
    assert_eq!(DEFAULT_WORDS_PER_CHUNK, 10);
    assert_eq!(LONG_CHUNK_THRESHOLD, 12);
    assert_eq!(MAX_SPLIT_DEPTH, 3);
    assert_eq!(MIN_SPLIT_OFFSET, 3);
}

#[test]
fn parenthesized_item_opens_a_chunk() {
    let chunks = split_text_into_speech_chunks("buy milk (2) buy eggs", 10);
    assert_eq!(chunks, strings(&["buy milk", "(2) buy eggs"]));
}

#[test]
fn comma_in_the_middle_halves_a_long_chunk() {
    let mut words = numbered_words(20);
    words[9] = "w9,".to_string();
    let chunk = words.join(" ");
    let pieces = split_long_chunk_with_depth(&chunk, 12, true, 0);
    assert_eq!(pieces.len(), 2);
    assert_eq!(pieces[0], words[..10].join(" "));
    assert_eq!(pieces[1], words[10..].join(" "));
    assert_eq!(std_words(&pieces[0]).len(), 10);
    assert_eq!(std_words(&pieces[1]).len(), 10);
}

#[test]
fn comma_is_ignored_without_punctuation_splitting() {
    let mut words = numbered_words(20);
    words[9] = "w9,".to_string();
    let chunk = words.join(" ");
    let pieces = split_long_chunk_with_depth(&chunk, 12, false, 0);
    assert_eq!(pieces, vec![chunk]);
}

#[test]
fn empty_text_has_no_chunks() {
    assert_eq!(split_text_into_speech_chunks("", 10), Vec::<String>::new());
    assert_eq!(split_text_into_speech_chunks("  \t\n ", 10), Vec::<String>::new());
}

#[test]
fn short_text_is_one_chunk() {
    let chunks = split_text_into_speech_chunks("  hello   there\tmy\n friend ", 10);
    assert_eq!(chunks, strings(&["hello there my friend"]));
    let eleven = numbered_words(11).join(" ");
    assert_eq!(split_text_into_speech_chunks(&eleven, 10), vec![eleven]);
}

#[test]
fn early_comma_forces_no_cut() {
    let chunks = split_text_into_speech_chunks("one, two three four five", 3);
    assert_eq!(chunks, strings(&["one, two three four five"]));
    let chunks = split_text_into_speech_chunks("one two three, four five", 3);
    assert_eq!(chunks, strings(&["one two three,", "four five"]));
    let chunks = split_text_into_speech_chunks("one two, three four, five", 3);
    assert_eq!(chunks, strings(&["one two, three four,", "five"]));
}

#[test]
fn sentence_ends_always_cut() {
    let chunks = split_text_into_speech_chunks("Hi. Go! Why? Note: yes; ok", 10);
    assert_eq!(chunks, strings(&["Hi.", "Go!", "Why?", "Note:", "yes;", "ok"]));
}

#[test]
fn segmentation_keeps_every_word_in_order() {
    let text = "The quick brown fox, which was very hungry and tired, jumped over the lazy dog \
                because it wanted to reach the other side of the river. 1. First we walk and \
                2. then we run but only if the weather is fine, although nobody knows.  Since \
                the   morning\tthe sky has been grey and the wind has been cold however the \
                children play outside & laugh though it rains";
    for target in [1usize, 3, 10, 50] {
        let chunks = split_text_into_speech_chunks(text, target);
        assert!(chunks.iter().all(|c| !c.trim().is_empty()));
        assert_eq!(words_of_chunks(&chunks), std_words(text));
        let joined = chunks.join(" ");
        assert_eq!(std_words(&joined).join(" "), std_words(text).join(" "));
    }
}

#[test]
fn splitting_stops_at_the_depth_cap() {
    let mut words: Vec<String> = Vec::new();
    for i in 0..200 {
        words.push(format!("w{}", i));
        words.push("and".to_string());
    }
    let chunk = words.join(" ");
    let pieces = split_long_chunk_with_depth(&chunk, 12, true, 0);
    assert_eq!(pieces.len(), 8);
    assert_eq!(words_of_chunks(&pieces), words);
    assert_eq!(split_long_chunk_with_depth(&chunk, 12, true, 2).len(), 2);
    assert_eq!(split_long_chunk_with_depth(&chunk, 12, true, 3), vec![chunk.clone()]);
    assert_eq!(split_long_chunk_with_depth(&chunk, 12, true, 7), vec![chunk]);
}

#[test]
fn break_word_opens_the_second_half() {
    let chunk = "a b c d e f and g h i j k l";
    let pieces = split_long_chunk_with_depth(chunk, 12, false, 0);
    assert_eq!(pieces, strings(&["a b c d e f", "and g h i j k l"]));
}

#[test]
fn unsplit_chunk_is_returned_as_given() {
    let chunk = "  a b  c ";
    assert_eq!(split_long_chunk_with_depth(chunk, 12, true, 0), vec![chunk.to_string()]);
    let long = "a  b c d e f g h i j k l m";
    assert_eq!(split_long_chunk_with_depth(long, 12, true, 0), vec![long.to_string()]);
}

#[test]
fn early_comma_is_rejected_and_break_word_used() {
    let words = ["a", "b,", "c", "d", "e", "f", "g", "h", "or", "j", "k", "l"];
    assert_eq!(find_split_point(&words, true), Some(8));
    assert_eq!(find_split_point(&words, false), Some(8));
    let early = ["a", "but", "c,", "d", "e", "f", "g", "h", "i", "j", "k", "l"];
    assert_eq!(find_split_point(&early, true), Some(3));
    assert_eq!(find_split_point(&early, false), None);
    let last = ["a", "b", "c", "d", "e", "f", "g", "h", "i", "j", "k", "l,"];
    assert_eq!(find_split_point(&last, true), None);
}

#[test]
fn closest_punctuation_is_behind_the_nearest_comma() {
    let words = ["a,", "b", "c", "d,", "e", "f", "g,", "h"];
    let commas = [","];
    assert_eq!(find_closest_punctuation(&words, 4, &commas), Some(4));
    assert_eq!(find_closest_punctuation(&words, 5, &commas), Some(7));
    assert_eq!(find_closest_punctuation(&words, 0, &commas), Some(1));
    assert_eq!(find_closest_punctuation(&words, 100, &commas), Some(7));
    assert_eq!(find_closest_punctuation(&words, usize::MAX, &commas), Some(7));
    assert_eq!(find_closest_punctuation(&["a", "b"], 1, &commas), None);
    assert_eq!(find_closest_punctuation(&[], 0, &commas), None);
    assert_eq!(find_closest_punctuation(&words, 4, &[]), None);
    assert_eq!(find_closest_punctuation(&["a;", "b", "c,"], 0, &[";", ","]), Some(1));
}

#[test]
fn equally_near_positions_give_the_earlier() {
    let words = ["a", "b,", "c", "d,", "e"];
    assert_eq!(find_closest_punctuation(&words, 2, &[","]), Some(2));
    let lexicon = break_words();
    let words = ["a", "and", "c", "or", "e"];
    assert_eq!(find_closest_break_word(&words, 2, &lexicon), Some(1));
}

#[test]
fn closest_break_word_ignores_case() {
    let lexicon = break_words();
    let words = ["x", "y", "BUT", "z", "w", "Because", "v"];
    assert_eq!(find_closest_break_word(&words, 3, &lexicon), Some(2));
    assert_eq!(find_closest_break_word(&words, 5, &lexicon), Some(5));
    assert_eq!(find_closest_break_word(&["x", "band", "andy"], 1, &lexicon), None);
    assert_eq!(find_closest_break_word(&words, 3, &[]), None);
    assert_eq!(find_closest_break_word(&words, 3, &["z"]), Some(3));
}

#[test]
fn break_word_lexicon_is_fixed() {
    assert_eq!(
        break_words(),
        [
            "and", "or", "but", "&", "because", "if", "since", "though", "although", "however",
            "which"
        ]
    );
    let lexicon = break_words();
    assert!(word_is_break_word("and", &lexicon));
    assert!(word_is_break_word("AND", &lexicon));
    assert!(word_is_break_word("Although", &lexicon));
    assert!(word_is_break_word("&", &lexicon));
    assert!(!word_is_break_word("and,", &lexicon));
    assert!(!word_is_break_word("the", &lexicon));
    assert!(!word_is_break_word("", &lexicon));
}

#[test]
fn trailing_break_word_moves_to_the_next_chunk() {
    let chunks = split_text_into_speech_chunks("apples and 2. pears", 10);
    assert_eq!(chunks, strings(&["apples", "and 2. pears"]));
    let chunks = split_text_into_speech_chunks("apples AND 2. pears", 10);
    assert_eq!(chunks, strings(&["apples", "AND 2. pears"]));
}

#[test]
fn lone_break_word_stays_in_its_chunk() {
    let mut chunks = strings(&["and", "pears"]);
    migrate_break_words(&mut chunks);
    assert_eq!(chunks, strings(&["and", "pears"]));
}

#[test]
fn migration_runs_once_from_left_to_right() {
    let mut chunks = strings(&["tea but", "and", "milk or"]);
    migrate_break_words(&mut chunks);
    assert_eq!(chunks, strings(&["tea", "but", "and milk or"]));
    let mut single = strings(&["tea and"]);
    migrate_break_words(&mut single);
    assert_eq!(single, strings(&["tea and"]));
    let mut none: Vec<String> = Vec::new();
    migrate_break_words(&mut none);
    assert!(none.is_empty());
}

#[test]
fn only_the_first_two_chunks_split_at_commas() {
    let mut words = numbered_words(12);
    words[5] = "w5,".to_string();
    let long = words.join(" ");
    let chunks = vec![long.clone(), long.clone(), long.clone()];
    let pieces = split_long_chunks(&chunks);
    let first = words[..6].join(" ");
    let second = words[6..].join(" ");
    assert_eq!(pieces, vec![first.clone(), second.clone(), first, second, long]);
}

#[test]
fn boundaries_cut_words_into_chunks() {
    let words = strings(&["a", "b.", "1.", "c", "(2)", "d,", "e"]);
    assert_eq!(split_at_boundaries(&words, 1), strings(&["a b.", "1. c", "(2) d,", "e"]));
    assert_eq!(split_at_boundaries(&words, 3), strings(&["a b.", "1. c", "(2) d, e"]));
    assert_eq!(split_at_boundaries(&Vec::new(), 3), Vec::<String>::new());
}

#[test]
fn numbered_list_items_are_recognised() {
    for word in ["1.", "(2)", "3:", "4),", "12.", "(7:", "007:", "5.,", "(8.,"] {
        assert!(is_numbered_list_item(word), "{}", word);
    }
    for word in [
        "", "1", "a.", "1.5", "(", "()", "1.a", "x1.", "1..", "((1)", "1.,,", "(7).", "１.", "1;",
    ] {
        assert!(!is_numbered_list_item(word), "{}", word);
    }
}

#[test]
fn closing_punctuation_is_read_from_the_last_character() {
    assert_eq!(last_char("abc"), Some('c'));
    assert_eq!(last_char("é"), Some('é'));
    assert_eq!(last_char(""), None);
    for word in ["a.", "a!", "a?", "a:", "a;", "."] {
        assert!(word_ends_clause(word));
    }
    for word in ["a", "a,", "", ".a"] {
        assert!(!word_ends_clause(word));
    }
    assert!(word_ends_comma("a,"));
    assert!(!word_ends_comma("a,b"));
    assert!(!word_ends_comma(""));
}

#[test]
fn suffixes_are_compared_character_by_character() {
    assert!(ends_with("hello,", ","));
    assert!(ends_with("hello", "llo"));
    assert!(ends_with("hello", ""));
    assert!(ends_with("", ""));
    assert!(!ends_with("hello", "hell"));
    assert!(!ends_with("lo", "hello"));
    assert!(ends_with("naïve", "ïve"));
    assert!(ends_with_any("a;", &[",", ";"]));
    assert!(!ends_with_any("a", &[",", ";"]));
    assert!(!ends_with_any("a,", &[]));
}

#[test]
fn words_are_runs_without_whitespace() {
    let texts = [
        "",
        " ",
        "a",
        " a",
        "a ",
        "a b",
        "  a \t b\n\nc  ",
        "non\u{a0}breaking\u{3000}ideographic\u{2003}em\u{85}next",
        "zero\u{200b}width stays",
        "tabs\tand\r\nlines\u{b}\u{c}",
        "\u{1680}\u{2000}\u{200a}\u{2028}\u{2029}\u{202f}\u{205f}x",
    ];
    for text in texts {
        assert_eq!(split_words(text), std_words(text), "{:?}", text);
    }
}

#[test]
fn whitespace_follows_unicode() {
    for code in 0u32..0x11000 {
        if let Some(c) = char::from_u32(code) {
            assert_eq!(char_is_whitespace(c), c.is_whitespace(), "{:x}", code);
        }
    }
}

#[test]
fn characters_and_strings_convert_both_ways() {
    assert_eq!(chars_of("héllo"), vec!['h', 'é', 'l', 'l', 'o']);
    assert_eq!(chars_of(""), Vec::<char>::new());
    let chars = vec!['a', 'b', 'ç', 'd'];
    assert_eq!(string_of(&chars, 1, 3), "bç");
    assert_eq!(string_of(&chars, 0, 4), "abçd");
    assert_eq!(string_of(&chars, 2, 2), "");
}

#[test]
fn texts_compare_by_their_characters() {
    assert!(same_text("", ""));
    assert!(same_text("añb", "añb"));
    assert!(!same_text("ab", "abc"));
    assert!(!same_text("abc", "abd"));
    let owned = strings(&["x", "yz"]);
    assert_eq!(as_strs(&owned), vec!["x", "yz"]);
    assert!(as_strs(&Vec::new()).is_empty());
}

#[test]
fn join_puts_one_space_between_words() {
    let words = strings(&["a", "b", "c", "d"]);
    assert_eq!(join(&words, 0, 4), "a b c d");
    assert_eq!(join(&words, 1, 3), "b c");
    assert_eq!(join(&words, 2, 3), "c");
    assert_eq!(join(&words, 2, 2), "");
}
