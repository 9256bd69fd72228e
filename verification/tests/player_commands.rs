use smdbc::player::{
    player_step, response_result, start_reply, AudioCommand, AudioResponse, PlayerAction,
    StartFailure,
};

#[test]
fn commands_without_output() {
    let (action, reply, has) = player_step(false, AudioCommand::Stop);
    assert!(matches!(action, PlayerAction::Nothing));
    assert_eq!(reply.as_deref(), Some("No audio is playing"));
    assert!(!has);
    let (action, reply, has) = player_step(false, AudioCommand::Pause);
    assert!(matches!(action, PlayerAction::Nothing));
    assert_eq!(reply.as_deref(), Some("No audio is playing"));
    assert!(!has);
}

#[test]
fn commands_with_output() {
    let (action, reply, has) = player_step(true, AudioCommand::Stop);
    assert!(matches!(action, PlayerAction::Stop));
    assert_eq!(reply.as_deref(), Some("Audio stopped"));
    assert!(!has);
    let (action, reply, has) = player_step(true, AudioCommand::Pause);
    assert!(matches!(action, PlayerAction::Pause));
    assert_eq!(reply.as_deref(), Some("Audio paused"));
    assert!(has);
    let (action, reply, has) = player_step(true, AudioCommand::Resume);
    assert!(matches!(action, PlayerAction::Resume));
    assert_eq!(reply.as_deref(), Some("Audio resumed"));
    assert!(has);
    let (action, reply, has) = player_step(true, AudioCommand::Play("/a.wav".to_string()));
    assert!(matches!(action, PlayerAction::Start(ref p) if p == "/a.wav"));
    assert!(reply.is_none());
    assert!(has);
}

#[test]
fn starting_a_file() {
    let (reply, has) = start_reply("/a.wav", false, None);
    assert_eq!(response_result(reply), Ok("Playing audio: /a.wav".to_string()));
    assert!(has);
    let (reply, has) = start_reply("/a.wav", true, Some(StartFailure::Decode("bad".to_string())));
    assert_eq!(response_result(reply), Err("Failed to decode audio: bad".to_string()));
    assert!(has);
    let (reply, has) = start_reply("/a.wav", false, Some(StartFailure::Open("gone".to_string())));
    assert!(matches!(reply, AudioResponse::Error(ref m) if m == "Failed to open file: gone"));
    assert!(!has);
    let (reply, _) = start_reply("x", false, Some(StartFailure::Sink("busy".to_string())));
    assert_eq!(response_result(reply), Err("Failed to create sink: busy".to_string()));
}
