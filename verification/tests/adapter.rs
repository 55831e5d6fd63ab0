use ime::adapter::{
    decode_event, success_response, write_action, ImeAction, InputEvent, EVENT_BACKSPACE,
    EVENT_CHARACTER, EVENT_ENTER, EVENT_ESCAPE, EVENT_NEXT_CANDIDATE, EVENT_PREVIOUS_CANDIDATE,
    EVENT_SPACE,
};
use ime::json::error_response;

#[test]
fn events_decode_from_codes() {
    assert_eq!(decode_event(EVENT_CHARACTER, 'n' as u32), Ok(InputEvent::Character('n')));
    assert_eq!(decode_event(EVENT_SPACE, 0), Ok(InputEvent::Space));
    assert_eq!(decode_event(EVENT_ENTER, 0), Ok(InputEvent::Enter));
    assert_eq!(decode_event(EVENT_ESCAPE, 0), Ok(InputEvent::Escape));
    assert_eq!(decode_event(EVENT_BACKSPACE, 0), Ok(InputEvent::Backspace));
    assert_eq!(decode_event(EVENT_NEXT_CANDIDATE, 0), Ok(InputEvent::NextCandidate));
    assert_eq!(decode_event(EVENT_PREVIOUS_CANDIDATE, 0), Ok(InputEvent::PreviousCandidate));
}

#[test]
fn invalid_codes_are_reported() {
    assert_eq!(decode_event(999, 0), Err("invalid_event_kind"));
    assert_eq!(decode_event(EVENT_CHARACTER, 0xD800), Err("invalid_unicode_scalar"));
    assert_eq!(decode_event(EVENT_CHARACTER, 0x110000), Err("invalid_unicode_scalar"));
    let error = decode_event(999, 0).unwrap_err();
    assert_eq!(error_response(error), "{\"ok\":false,\"error\":\"invalid_event_kind\"}");
}

#[test]
fn actions_are_written_as_json() {
    let actions = vec![
        ImeAction::UpdatePreedit("にほん".to_string()),
        ImeAction::ShowCandidates {
            candidates: vec!["日本".to_string(), "二本".to_string()],
            selected: 12,
        },
        ImeAction::HideCandidates,
        ImeAction::Commit("日本".to_string()),
        ImeAction::Clear,
        ImeAction::ForwardKey,
    ];
    assert_eq!(
        success_response(&actions),
        "{\"ok\":true,\"actions\":[{\"type\":\"update_preedit\",\"text\":\"にほん\"},\
         {\"type\":\"show_candidates\",\"selected\":12,\"candidates\":[\"日本\",\"二本\"]},\
         {\"type\":\"hide_candidates\"},{\"type\":\"commit\",\"text\":\"日本\"},\
         {\"type\":\"clear\"},{\"type\":\"forward_key\"}]}"
    );
    assert_eq!(success_response(&[]), "{\"ok\":true,\"actions\":[]}");
}

#[test]
fn empty_candidate_list_and_zero_selection() {
    let mut out = String::new();
    write_action(
        &mut out,
        &ImeAction::ShowCandidates { candidates: Vec::new(), selected: 0 },
    );
    assert_eq!(out, "{\"type\":\"show_candidates\",\"selected\":0,\"candidates\":[]}");
}
