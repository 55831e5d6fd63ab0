use ime::romaji::{InvalidRomaji, RomajiComposer};

fn compose(input: &str) -> String {
    let mut composer = RomajiComposer::new();
    let mut output = String::new();
    for character in input.chars() {
        output.push_str(&composer.push(character).unwrap());
    }
    output.push_str(&composer.flush());
    output
}

#[test]
fn converts_basic_syllables() {
    assert_eq!(compose("nihongo"), "にほんご");
    assert_eq!(compose("watashi"), "わたし");
}

#[test]
fn converts_contracted_sounds() {
    assert_eq!(compose("kyoushitsu"), "きょうしつ");
    assert_eq!(compose("ryokou"), "りょこう");
}

#[test]
fn converts_double_consonant() {
    assert_eq!(compose("kitte"), "きって");
    assert_eq!(compose("gakkou"), "がっこう");
}

#[test]
fn handles_syllabic_n() {
    assert_eq!(compose("konna"), "こんな");
    assert_eq!(compose("kanpai"), "かんぱい");
    assert_eq!(compose("kin'youbi"), "きんようび");
    assert_eq!(compose("hon"), "ほん");
}

#[test]
fn retains_ambiguous_suffix_until_resolved() {
    let mut composer = RomajiComposer::new();
    assert_eq!(composer.push('s').unwrap(), "");
    assert_eq!(composer.push('h').unwrap(), "");
    assert_eq!(composer.pending(), "sh");
    assert_eq!(composer.push('i').unwrap(), "し");
    assert_eq!(composer.pending(), "");
}

#[test]
fn backspace_edits_pending_input() {
    let mut composer = RomajiComposer::new();
    composer.push('k').unwrap();
    assert!(composer.backspace());
    assert_eq!(composer.pending(), "");
    assert!(!composer.backspace());
}

#[test]
fn rejects_non_romaji_characters_without_mutation() {
    let mut composer = RomajiComposer::new();
    assert!(composer.push('1').is_err());
    assert_eq!(composer.pending(), "");
}

#[test]
fn refused_character_is_reported() {
    let mut composer = RomajiComposer::new();
    composer.push('k').unwrap();
    assert_eq!(composer.push('あ'), Err(InvalidRomaji('あ')));
    assert_eq!(composer.pending(), "k");
}

#[test]
fn upper_case_letters_are_lowered() {
    assert_eq!(compose("NIHON"), "にほん");
    let mut composer = RomajiComposer::default();
    assert_eq!(composer.push('K').unwrap(), "");
    assert_eq!(composer.pending(), "k");
}

#[test]
fn unsupported_sequences_pass_through() {
    assert_eq!(compose("qa"), "qあ");
    assert_eq!(compose("kq"), "kq");
}

#[test]
fn flush_resolves_trailing_n_and_empties_pending() {
    let mut composer = RomajiComposer::new();
    assert_eq!(composer.push('n').unwrap(), "");
    assert_eq!(composer.flush(), "ん");
    assert_eq!(composer.pending(), "");
    assert_eq!(composer.flush(), "");
}

#[test]
fn clear_drops_pending_input() {
    let mut composer = RomajiComposer::new();
    composer.push('s').unwrap();
    composer.push('h').unwrap();
    composer.clear();
    assert_eq!(composer.pending(), "");
    assert_eq!(composer.flush(), "");
}

#[test]
fn small_kana_and_apostrophe() {
    assert_eq!(compose("xtu"), "っ");
    assert_eq!(compose("n'a"), "んあ");
    assert_eq!(compose("nn"), "んん");
}

#[test]
fn pending_stays_short_and_undecided() {
    let inputs = ["kyakusha", "shinbun", "xtsu", "konnnichiha", "qwrtz", "n'ya", "tta", "ltsu", "nyu"];
    for input in inputs {
        let mut composer = RomajiComposer::new();
        for character in input.chars() {
            composer.push(character).unwrap();
            let pending = composer.pending();
            assert!(pending.chars().count() <= 2, "input {input}: pending {pending}");
            assert!(
                pending.chars().all(|c| c.is_ascii_lowercase() || c == '\''),
                "input {input}: pending {pending}"
            );
        }
    }

    let mut composer = RomajiComposer::new();
    composer.push('k').unwrap();
    composer.push('y').unwrap();
    assert_eq!(composer.pending(), "ky");
    assert!(composer.backspace());
    assert_eq!(composer.pending(), "k");

    let mut composer = RomajiComposer::new();
    assert_eq!(composer.push('n').unwrap(), "");
    assert_eq!(composer.pending(), "n");
    assert_eq!(composer.push('a').unwrap(), "な");
    assert_eq!(composer.pending(), "");
}
