use ime::converter::{Dictionary, DictionaryEntry, LITERAL_COST, UNKNOWN_COST};

#[test]
fn exact_candidates_are_ordered_by_cost() {
    let dictionary = Dictionary::bundled();
    let candidates = dictionary.candidates("にほん");

    assert_eq!(candidates[0].surface, "日本");
    assert_eq!(candidates[1].surface, "二本");
    assert_eq!(candidates[2].surface, "にほん");
}

#[test]
fn viterbi_selects_best_segmented_path() {
    let dictionary = Dictionary::bundled();
    let conversion = dictionary.convert_best("わたしはにほん").unwrap();

    assert_eq!(conversion.surface, "私は日本");
    assert_eq!(conversion.cost, 21);
    assert_eq!(conversion.segments.len(), 3);
}

#[test]
fn unknown_input_falls_back_without_data_loss() {
    let dictionary = Dictionary::bundled();
    let conversion = dictionary.convert_best("ねこ").unwrap();

    assert_eq!(conversion.surface, "ねこ");
    assert_eq!(conversion.segments.len(), 2);
}

#[test]
fn lower_cost_path_wins_over_longer_entry() {
    let dictionary = Dictionary::new(vec![
        DictionaryEntry {
            reading: "あ",
            surface: "亜",
            word_cost: 10,
        },
        DictionaryEntry {
            reading: "い",
            surface: "伊",
            word_cost: 10,
        },
        DictionaryEntry {
            reading: "あい",
            surface: "愛",
            word_cost: 30,
        },
    ]);

    assert_eq!(dictionary.convert_best("あい").unwrap().surface, "亜伊");
}

#[test]
fn empty_input_has_no_conversion() {
    assert!(Dictionary::bundled().convert_best("").is_none());
}

#[test]
fn bundled_dictionary_has_six_entries() {
    assert_eq!(Dictionary::bundled().entry_count(), 6);
    assert_eq!(Dictionary::default().entry_count(), 6);
    assert_eq!(Dictionary::new(Vec::new()).entry_count(), 0);
}

#[test]
fn candidates_of_unknown_reading_are_the_reading_itself() {
    let candidates = Dictionary::bundled().candidates("ねこ");
    assert_eq!(candidates.len(), 1);
    assert_eq!(candidates[0].surface, "ねこ");
    assert_eq!(candidates[0].cost, 2 * UNKNOWN_COST);
}

#[test]
fn candidates_include_segmented_conversion_and_literal() {
    let candidates = Dictionary::bundled().candidates("わたしは");
    let surfaces: Vec<&str> = candidates.iter().map(|c| c.surface.as_str()).collect();
    assert_eq!(surfaces, vec!["私は", "わたしは"]);
    assert_eq!(candidates[0].cost, 11);
    assert_eq!(candidates[1].cost, LITERAL_COST);
}

#[test]
fn literal_candidate_is_not_duplicated() {
    let candidates = Dictionary::bundled().candidates("こんにちは");
    let surfaces: Vec<&str> = candidates.iter().map(|c| c.surface.as_str()).collect();
    assert_eq!(surfaces, vec!["こんにちは"]);
    assert_eq!(candidates[0].cost, 5);
}

#[test]
fn segments_cover_the_reading_in_order() {
    let conversion = Dictionary::bundled().convert_best("きょうはねこ").unwrap();
    let readings: Vec<&str> = conversion.segments.iter().map(|s| s.reading.as_str()).collect();
    assert_eq!(readings, vec!["きょう", "は", "ね", "こ"]);
    assert_eq!(conversion.surface, "今日はねこ");
    assert_eq!(conversion.cost, 10 + 1 + 2 * UNKNOWN_COST);
    assert_eq!(conversion.segments[2].cost, UNKNOWN_COST);
}

#[test]
fn equal_cost_paths_keep_the_first_found() {
    let dictionary = Dictionary::new(vec![
        DictionaryEntry { reading: "あい", surface: "藍", word_cost: 20 },
        DictionaryEntry { reading: "あ", surface: "亜", word_cost: 10 },
        DictionaryEntry { reading: "い", surface: "伊", word_cost: 10 },
        DictionaryEntry { reading: "あい", surface: "愛", word_cost: 20 },
    ]);
    let conversion = dictionary.convert_best("あい").unwrap();
    assert_eq!(conversion.surface, "愛");
    assert_eq!(conversion.cost, 20);
}

#[test]
fn saturated_path_is_not_reached() {
    let dictionary = Dictionary::new(vec![DictionaryEntry {
        reading: "あ",
        surface: "亜",
        word_cost: i32::MAX,
    }]);
    let conversion = dictionary.convert_best("あ").unwrap();
    assert_eq!(conversion.surface, "あ");
    assert_eq!(conversion.cost, UNKNOWN_COST);
}

#[test]
fn negative_costs_saturate_at_the_minimum() {
    let dictionary = Dictionary::new(vec![DictionaryEntry {
        reading: "あ",
        surface: "亜",
        word_cost: i32::MIN,
    }]);
    let conversion = dictionary.convert_best("ああ").unwrap();
    assert_eq!(conversion.surface, "亜亜");
    assert_eq!(conversion.cost, i32::MIN);
}

#[test]
fn entries_are_kept_in_dictionary_order() {
    let dictionary = Dictionary::new(vec![
        DictionaryEntry { reading: "に", surface: "荷", word_cost: 5 },
        DictionaryEntry { reading: "に", surface: "二", word_cost: 5 },
        DictionaryEntry { reading: "に", surface: "似", word_cost: 1 },
    ]);
    let candidates = dictionary.candidates("に");
    let surfaces: Vec<&str> = candidates.iter().map(|c| c.surface.as_str()).collect();
    assert_eq!(surfaces, vec!["似", "二", "荷", "に"]);
}

#[test]
fn negative_empty_reading_entry_can_block_the_path() {
    let dictionary = Dictionary::new(vec![DictionaryEntry {
        reading: "",
        surface: "x",
        word_cost: -1,
    }]);
    assert!(dictionary.convert_best("ああ").is_none());
    let harmless = Dictionary::new(vec![DictionaryEntry {
        reading: "",
        surface: "x",
        word_cost: 0,
    }]);
    assert_eq!(harmless.convert_best("ああ").unwrap().surface, "ああ");
}

fn compose_and_convert(input: &str) -> String {
    let mut composer = ime::romaji::RomajiComposer::new();
    let mut reading = String::new();
    for character in input.chars() {
        reading.push_str(&composer.push(character).unwrap());
    }
    reading.push_str(&composer.flush());
    Dictionary::bundled().candidates(&reading)[0].surface.clone()
}

#[test]
fn composed_readings_convert_to_first_candidates() {
    let cases = [
        ("nihon", "日本"),
        ("kyou", "今日"),
        ("watashi", "私"),
        ("watashihanihon", "私は日本"),
        ("neko", "ねこ"),
    ];
    for (input, expected) in cases {
        assert_eq!(compose_and_convert(input), expected, "input: {input}");
    }
}

#[test]
fn unconverted_reading_comes_after_converted_candidates() {
    let surfaces: Vec<String> = Dictionary::bundled()
        .candidates("ねこにほん")
        .into_iter()
        .map(|c| c.surface)
        .collect();
    assert_eq!(surfaces, vec!["ねこ日本", "ねこにほん"]);

    let dictionary = Dictionary::new(vec![DictionaryEntry {
        reading: "a",
        surface: "A",
        word_cost: 30000,
    }]);
    let candidates = dictionary.candidates("a");
    assert_eq!(candidates[0].surface, "A");
    assert_eq!(candidates[0].cost, 30000);
    assert_eq!(candidates[1].surface, "a");
    assert_eq!(candidates[1].cost, UNKNOWN_COST);
}

#[test]
fn entry_order_does_not_change_results() {
    let entries = vec![
        DictionaryEntry { reading: "あ", surface: "亜", word_cost: 10 },
        DictionaryEntry { reading: "あい", surface: "愛", word_cost: 30 },
        DictionaryEntry { reading: "い", surface: "胃", word_cost: 12 },
        DictionaryEntry { reading: "あ", surface: "阿", word_cost: 10 },
        DictionaryEntry { reading: "あい", surface: "藍", word_cost: 25 },
    ];
    let mut reversed = entries.clone();
    reversed.reverse();
    let forward = Dictionary::new(entries);
    let backward = Dictionary::new(reversed);
    for reading in ["あ", "あい", "い", "あいあ", "う"] {
        assert_eq!(forward.candidates(reading), backward.candidates(reading), "reading: {reading}");
        assert_eq!(forward.convert_best(reading), backward.convert_best(reading), "reading: {reading}");
    }
    assert_eq!(forward.convert_best("あい").unwrap().surface, "亜胃");
    assert_eq!(forward.convert_best("あい").unwrap().cost, 22);
}

#[test]
fn more_entries_never_make_conversion_dearer() {
    let small = vec![
        DictionaryEntry { reading: "あ", surface: "亜", word_cost: 10 },
        DictionaryEntry { reading: "い", surface: "胃", word_cost: 12 },
    ];
    let before = Dictionary::new(small.clone()).convert_best("あい").unwrap();
    assert_eq!(before.cost, 22);

    let mut dearer = small.clone();
    dearer.push(DictionaryEntry { reading: "あい", surface: "愛", word_cost: 40 });
    let same = Dictionary::new(dearer).convert_best("あい").unwrap();
    assert_eq!(same.cost, 22);
    assert_eq!(same.surface, "亜胃");

    let mut cheaper = small;
    cheaper.push(DictionaryEntry { reading: "あい", surface: "愛", word_cost: 15 });
    let after = Dictionary::new(cheaper).convert_best("あい").unwrap();
    assert_eq!(after.cost, 15);
    assert_eq!(after.surface, "愛");
}
