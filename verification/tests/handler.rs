use irc_relay::ConnState;
use irc_relay::IrcMessage;

const HOST: &str = "rearguard.local";

fn client_line(line: &str) -> IrcMessage {
    line.parse().unwrap()
}

#[test]
fn nick_sets_nickname_and_welcomes() {
    let mut state = ConnState::new();
    let (reply, quit) = state.handle_message(&client_line("NICK alice"), HOST);
    assert_eq!(state.nickname, Some("alice".to_string()));
    assert!(state.welcomed);
    assert!(!quit);
    assert_eq!(reply.unwrap().to_string(), ":rearguard.local 001 alice :Welcome");
}

#[test]
fn nick_welcome_only_once() {
    let mut state = ConnState::new();
    let (first, _) = state.handle_message(&client_line("NICK alice"), HOST);
    assert!(first.is_some());
    let (second, quit) = state.handle_message(&client_line("NICK bob"), HOST);
    assert!(second.is_none());
    assert!(!quit);
    assert_eq!(state.nickname, Some("bob".to_string()));
    assert!(state.welcomed);
}

#[test]
fn ping_answers_pong() {
    let mut state = ConnState::new();
    let (reply, quit) = state.handle_message(&client_line("PING freenode"), HOST);
    assert!(!quit);
    assert_eq!(
        reply.unwrap().to_string(),
        ":rearguard.local PONG rearguard.local :freenode"
    );
}

#[test]
fn quit_sends_farewell_and_terminates() {
    let mut state = ConnState::new();
    let (reply, quit) = state.handle_message(&client_line("QUIT"), HOST);
    assert!(quit);
    assert_eq!(reply.unwrap().to_string(), ":rearguard.local QUIT :Client Quit");
}

#[test]
fn user_is_accepted_silently() {
    let mut state = ConnState::new();
    let (reply, quit) = state.handle_message(&client_line("USER a a localhost :Unknown"), HOST);
    assert!(reply.is_none());
    assert!(!quit);
    assert_eq!(state.nickname, None);
    assert!(!state.welcomed);
}

#[test]
fn unknown_command_gets_no_reply() {
    let mut state = ConnState::new();
    let (reply, quit) = state.handle_message(&client_line("TOPIC #room :hi"), HOST);
    assert!(reply.is_none());
    assert!(!quit);
}

#[test]
fn session_scenario() {
    let mut state = ConnState::new();

    let (reply, quit) = state.handle_message(&client_line("NICK alice\r"), HOST);
    assert!(!quit);
    assert_eq!(reply.unwrap().to_wire_line(), ":rearguard.local 001 alice :Welcome\r\n");

    let (reply, quit) = state.handle_message(&client_line("PING freenode\r"), HOST);
    assert!(!quit);
    assert_eq!(
        reply.unwrap().to_wire_line(),
        ":rearguard.local PONG rearguard.local :freenode\r\n"
    );

    let (reply, quit) = state.handle_message(&client_line("QUIT\r"), HOST);
    assert!(quit);
    assert_eq!(reply.unwrap().to_wire_line(), ":rearguard.local QUIT :Client Quit\r\n");
}
