use vstd::prelude::*;
use crate::text::{append_chars, string_from_chars};

verus! {

/// A command to the audio player.
#[derive(Debug, Clone)]
pub enum AudioCommand {
    Play(String),
    Stop,
    Pause,
    Resume,
}

/// The player's reply to a command.
#[derive(Debug, Clone)]
pub enum AudioResponse {
    Success(String),
    Error(String),
}

/// What the player does to its audio output for a command.
#[derive(Debug, Clone)]
pub enum PlayerAction {
    /// Stop what plays, if anything, then open, decode and play this file.
    Start(String),
    /// Stop what plays and let it go.
    Stop,
    /// Pause what plays.
    Pause,
    /// Resume what is paused.
    Resume,
    /// Nothing.
    Nothing,
}

/// Why a file could not be started, with the error's text.
#[derive(Debug, Clone)]
pub enum StartFailure {
    Open(String),
    Decode(String),
    Sink(String),
}

/// What the player does with a command, given whether it holds an output
/// (a file started earlier): the action on its output, the reply where the
/// command gets one at once, and whether it holds an output afterwards.
pub open spec fn step_spec(has_output: bool, cmd: AudioCommand) -> (PlayerAction, Option<Seq<char>>, bool) {
    match cmd {
        AudioCommand::Play(path) => (PlayerAction::Start(path), None, has_output),
        AudioCommand::Stop => if has_output {
            (PlayerAction::Stop, Some("Audio stopped"@), false)
        } else {
            (PlayerAction::Nothing, Some("No audio is playing"@), false)
        },
        AudioCommand::Pause => if has_output {
            (PlayerAction::Pause, Some("Audio paused"@), true)
        } else {
            (PlayerAction::Nothing, Some("No audio is playing"@), false)
        },
        AudioCommand::Resume => if has_output {
            (PlayerAction::Resume, Some("Audio resumed"@), true)
        } else {
            (PlayerAction::Nothing, Some("No audio is playing"@), false)
        },
    }
}

/// What the player does with a command: the action on its output, the
/// reply where the command gets one at once (a successful one), and whether
/// it holds an output afterwards. Starting a file is answered by
/// `start_reply` once the output has tried it.
pub fn player_step(has_output: bool, cmd: AudioCommand) -> (r: (PlayerAction, Option<String>, bool))
    ensures
        r.0 == step_spec(has_output, cmd).0,
        r.2 == step_spec(has_output, cmd).2,
        match (r.1, step_spec(has_output, cmd).1) {
            (Some(a), Some(b)) => a@ == b,
            (None, None) => true,
            _ => false,
        },
{
    match cmd {
        AudioCommand::Play(path) => (PlayerAction::Start(path), None, has_output),
        AudioCommand::Stop => if has_output {
            (PlayerAction::Stop, Some(String::from_str("Audio stopped")), false)
        } else {
            (PlayerAction::Nothing, Some(String::from_str("No audio is playing")), false)
        },
        AudioCommand::Pause => if has_output {
            (PlayerAction::Pause, Some(String::from_str("Audio paused")), true)
        } else {
            (PlayerAction::Nothing, Some(String::from_str("No audio is playing")), false)
        },
        AudioCommand::Resume => if has_output {
            (PlayerAction::Resume, Some(String::from_str("Audio resumed")), true)
        } else {
            (PlayerAction::Nothing, Some(String::from_str("No audio is playing")), false)
        },
    }
}

/// The reply to starting a file, and whether the player holds an output
/// afterwards: a started file is playing; where starting failed the reply
/// names the step that failed, and the player keeps the output that it held
/// before, stopped.
pub open spec fn start_spec(path: Seq<char>, had_output: bool, failure: Option<StartFailure>) -> (
    bool,
    Seq<char>,
    bool,
) {
    match failure {
        None => (true, "Playing audio: "@ + path, true),
        Some(StartFailure::Open(e)) => (false, "Failed to open file: "@ + e@, had_output),
        Some(StartFailure::Decode(e)) => (false, "Failed to decode audio: "@ + e@, had_output),
        Some(StartFailure::Sink(e)) => (false, "Failed to create sink: "@ + e@, had_output),
    }
}

fn concat(a: &str, b: &str) -> (r: String)
    ensures
        r@ == a@ + b@,
{
    let mut v: Vec<char> = Vec::new();
    append_chars(&mut v, a);
    append_chars(&mut v, b);
    assert(v@ =~= a@ + b@);
    string_from_chars(&v)
}

/// The reply to starting the file at `path`, given what went wrong, if
/// anything, and whether the player holds an output afterwards.
pub fn start_reply(path: &str, had_output: bool, failure: Option<StartFailure>) -> (r: (AudioResponse, bool))
    ensures
        r.1 == start_spec(path@, had_output, failure).2,
        match r.0 {
            AudioResponse::Success(m) => start_spec(path@, had_output, failure).0 && m@ == start_spec(
                path@,
                had_output,
                failure,
            ).1,
            AudioResponse::Error(m) => !start_spec(path@, had_output, failure).0 && m@ == start_spec(
                path@,
                had_output,
                failure,
            ).1,
        },
{
    match failure {
        None => (AudioResponse::Success(concat("Playing audio: ", path)), true),
        Some(StartFailure::Open(e)) => (AudioResponse::Error(concat("Failed to open file: ", e.as_str())), had_output),
        Some(StartFailure::Decode(e)) => (
            AudioResponse::Error(concat("Failed to decode audio: ", e.as_str())),
            had_output,
        ),
        Some(StartFailure::Sink(e)) => (AudioResponse::Error(concat("Failed to create sink: ", e.as_str())), had_output),
    }
}

/// What a command returns to its caller: the message of a successful reply,
/// or the error of a failed one.
pub fn response_result(response: AudioResponse) -> (r: Result<String, String>)
    ensures
        match (response, r) {
            (AudioResponse::Success(a), Ok(b)) => a == b,
            (AudioResponse::Error(a), Err(b)) => a == b,
            _ => false,
        },
{
    match response {
        AudioResponse::Success(msg) => Ok(msg),
        AudioResponse::Error(err) => Err(err),
    }
}

} // verus!
