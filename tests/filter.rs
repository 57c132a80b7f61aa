use sensitive_words::{
    build_sensitive_word_map, check_sensitive_word, find_sensitive_word, from_chars, mask_words,
    replace_chars, replace_sensitive_word, to_chars, MatchType, SensitiveWordMap,
};

fn dictionary(words: &[&str]) -> SensitiveWordMap {
    build_sensitive_word_map(words.iter().map(|w| w.to_string()).collect())
}

fn credit_words() -> SensitiveWordMap {
    dictionary(&["信用卡", "信用", "代还", "套现"])
}

fn strings(words: &[&str]) -> Vec<String> {
    words.iter().map(|w| w.to_string()).collect()
}

#[test]
fn filter_sensitive_words() {
    let map = credit_words();
    let str_vec = vec![
        "花呗信用卡代还OK套现",
        "套花呗分期代付",
        "马上套现信用卡",
        "期货套利",
        "空手套白狼",
        "守信用卡脖子",
        "坚定信心,同舟共济,科学防治,精准施策",
        "D+1还是T+1秒到结算免结算费",
        "Fuck you!",
        "Son of Bitch",
    ];
    let expected = vec![
        "花呗**卡**OK**",
        "套花呗分期代付",
        "马上****卡",
        "期货套利",
        "空手套白狼",
        "守**卡脖子",
        "坚定信心,同舟共济,科学防治,精准施策",
        "D+1还是T+1秒到结算免结算费",
        "Fuck you!",
        "Son of Bitch",
    ];
    println!("replace_sensitive_word......");
    for (str, want) in str_vec.iter().zip(expected.iter()) {
        let replace_str = replace_sensitive_word(&map, str, &MatchType::MinMatchType, '*');
        println!("{} --> {}", str, replace_str);
        assert_eq!(replace_str.chars().count(), str.chars().count());
        assert_eq!(&replace_str, want);
    }
}

#[test]
fn shortest_and_longest_scans_differ() {
    let map = credit_words();
    let text = "花呗信用卡代还OK套现";
    assert_eq!(
        find_sensitive_word(&map, text, &MatchType::MinMatchType),
        strings(&["代还", "信用", "套现"])
    );
    assert_eq!(
        find_sensitive_word(&map, text, &MatchType::MaxMatchType),
        strings(&["代还", "信用卡", "套现"])
    );
}

#[test]
fn shortest_mask_keeps_rest_of_longer_word() {
    let map = credit_words();
    assert_eq!(
        replace_sensitive_word(&map, "信用卡之家", &MatchType::MinMatchType, '*'),
        "**卡之家"
    );
    assert_eq!(
        replace_sensitive_word(&map, "信用卡之家", &MatchType::MaxMatchType, '*'),
        "***之家"
    );
}

#[test]
fn absent_words_leave_text_unchanged() {
    let map = credit_words();
    let text = "今天天气很好";
    assert!(find_sensitive_word(&map, text, &MatchType::MinMatchType).is_empty());
    assert!(find_sensitive_word(&map, text, &MatchType::MaxMatchType).is_empty());
    assert_eq!(replace_sensitive_word(&map, text, &MatchType::MinMatchType, '*'), text);
    assert_eq!(replace_sensitive_word(&map, text, &MatchType::MaxMatchType, '*'), text);
}

#[test]
fn repeated_word_masked_everywhere() {
    let map = dictionary(&["代还", "还代"]);
    let text = "代还X还代还";
    assert_eq!(
        find_sensitive_word(&map, text, &MatchType::MinMatchType),
        strings(&["代还", "还代"])
    );
    assert_eq!(replace_sensitive_word(&map, text, &MatchType::MinMatchType, '*'), "**X还**");
}

#[test]
fn found_words_occur_in_text() {
    let map = credit_words();
    let text = "马上套现信用卡,守信用卡脖子";
    for mt in [MatchType::MinMatchType, MatchType::MaxMatchType] {
        let found = find_sensitive_word(&map, text, &mt);
        assert!(!found.is_empty());
        for w in &found {
            assert!(text.contains(w.as_str()));
        }
    }
}

#[test]
fn masking_twice_changes_nothing_more() {
    let map = credit_words();
    for text in ["花呗信用卡代还OK套现", "马上套现信用卡", "信用卡之家"] {
        for mt in [MatchType::MinMatchType, MatchType::MaxMatchType] {
            let once = replace_sensitive_word(&map, text, &mt, '*');
            let twice = replace_sensitive_word(&map, &once, &mt, '*');
            assert_eq!(once, twice);
        }
    }
}

#[test]
fn probe_lengths_by_policy() {
    let map = credit_words();
    let text = to_chars("花呗信用卡代还OK套现");
    let min = MatchType::MinMatchType;
    let max = MatchType::MaxMatchType;
    assert_eq!(check_sensitive_word(&map, &text, 0, &min), 0);
    assert_eq!(check_sensitive_word(&map, &text, 2, &min), 2);
    assert_eq!(check_sensitive_word(&map, &text, 2, &max), 3);
    assert_eq!(check_sensitive_word(&map, &text, 5, &min), 2);
    assert_eq!(check_sensitive_word(&map, &text, 5, &max), 2);
    assert_eq!(check_sensitive_word(&map, &text, 3, &max), 0);
    assert_eq!(check_sensitive_word(&map, &text, 11, &max), 0);
    assert_eq!(check_sensitive_word(&map, &text, 40, &min), 0);
    for i in 0..text.len() {
        assert!(check_sensitive_word(&map, &text, i, &min) <= check_sensitive_word(&map, &text, i, &max));
    }
}

#[test]
fn longest_probe_needs_terminal_node() {
    // "信用卡套" is a path in the trie but no word: the longest match stays "信用卡".
    let map = dictionary(&["信用卡", "信用卡套现"]);
    let text = to_chars("信用卡套利");
    assert_eq!(check_sensitive_word(&map, &text, 0, &MatchType::MaxMatchType), 3);
    assert_eq!(check_sensitive_word(&map, &text, 0, &MatchType::MinMatchType), 3);
    let text = to_chars("信用卡套现");
    assert_eq!(check_sensitive_word(&map, &text, 0, &MatchType::MaxMatchType), 5);
}

#[test]
fn insertion_order_does_not_matter() {
    // The shorter word is added after the longer one that extends it.
    let map = dictionary(&["信用卡", "信用", "", "信用"]);
    let text = to_chars("信用");
    assert_eq!(check_sensitive_word(&map, &text, 0, &MatchType::MinMatchType), 2);
    let text = to_chars("信用卡");
    assert_eq!(check_sensitive_word(&map, &text, 0, &MatchType::MinMatchType), 2);
    assert_eq!(check_sensitive_word(&map, &text, 0, &MatchType::MaxMatchType), 3);
}

#[test]
fn single_character_word() {
    let map = dictionary(&["卡"]);
    assert_eq!(
        find_sensitive_word(&map, "卡卡西", &MatchType::MaxMatchType),
        strings(&["卡"])
    );
    assert_eq!(replace_sensitive_word(&map, "卡卡西", &MatchType::MaxMatchType, '#'), "##西");
}

#[test]
fn empty_dictionary_and_empty_text() {
    let map = SensitiveWordMap::new();
    assert!(find_sensitive_word(&map, "信用卡", &MatchType::MaxMatchType).is_empty());
    let map = credit_words();
    assert!(find_sensitive_word(&map, "", &MatchType::MinMatchType).is_empty());
    assert_eq!(replace_sensitive_word(&map, "", &MatchType::MinMatchType, '*'), "");
}

#[test]
fn found_words_sorted_lexicographically() {
    let map = dictionary(&["b", "ab", "a", "ba"]);
    assert_eq!(
        find_sensitive_word(&map, "ba a ab b", &MatchType::MaxMatchType),
        strings(&["a", "ab", "b", "ba"])
    );
}

#[test]
fn replace_is_left_to_right_without_overlap() {
    let s = to_chars("aaaa a");
    let r = replace_chars(&s, &to_chars("aa"), &to_chars("*x"));
    assert_eq!(from_chars(&r), "*x*x a");
    let r = replace_chars(&to_chars("aaa"), &to_chars("aa"), &to_chars("**"));
    assert_eq!(from_chars(&r), "**a");
}

#[test]
fn mask_words_in_given_order() {
    let words = strings(&["代还", "还代"]);
    assert_eq!(mask_words("代还代", &words, '*'), "**代");
    let words = strings(&["还代", "代还"]);
    assert_eq!(mask_words("代还代", &words, '*'), "代**");
}

#[test]
fn chars_round_trip() {
    let cs = to_chars("信用OK");
    assert_eq!(cs, vec!['信', '用', 'O', 'K']);
    assert_eq!(from_chars(&cs), "信用OK");
}

#[test]
fn second_mask_can_reach_word_left_by_first() {
    // Under the longest policy "ba" is found at the start and "a" after it;
    // masking "a" first breaks "ba", so "b" is left for the next pass.
    let map = dictionary(&["ba", "b", "a"]);
    let mt = MatchType::MaxMatchType;
    assert_eq!(find_sensitive_word(&map, "baa", &mt), strings(&["a", "ba"]));
    let once = replace_sensitive_word(&map, "baa", &mt, '*');
    assert_eq!(once, "b**");
    assert_eq!(replace_sensitive_word(&map, &once, &mt, '*'), "***");
}

#[test]
fn second_mask_under_shortest_policy() {
    // "cba" is found at offset 3; masking "a" first breaks it and leaves "b".
    let map = dictionary(&["a", "b", "ca", "cba"]);
    let mt = MatchType::MinMatchType;
    let once = replace_sensitive_word(&map, "aaccba", &mt, '*');
    assert_eq!(once, "**ccb*");
    assert_eq!(replace_sensitive_word(&map, &once, &mt, '*'), "**cc**");
}

#[test]
fn no_word_found_inside_matched_span() {
    // "用卡" starts inside the span of "信用卡" and is not looked for there.
    let map = dictionary(&["信用卡", "用卡"]);
    assert_eq!(
        find_sensitive_word(&map, "信用卡", &MatchType::MaxMatchType),
        strings(&["信用卡"])
    );
    assert_eq!(
        find_sensitive_word(&map, "信用卡用卡", &MatchType::MaxMatchType),
        strings(&["信用卡", "用卡"])
    );
}
