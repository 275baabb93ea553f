use irc_relay::IrcMessage;
use irc_relay::ParseError;

fn round_trips(m: IrcMessage) {
    let wire = m.to_string();
    let back: IrcMessage = wire.parse().unwrap();
    assert_eq!(back.prefix, m.prefix);
    assert_eq!(back.command, m.command);
    assert_eq!(back.params, m.params);
    assert_eq!(back.trail, m.trail);
    assert_eq!(back.to_string(), wire);
}

#[test]
fn round_trip_full() {
    round_trips(IrcMessage::new(Some("server.example"), "PRIVMSG", vec!["#room", "x"], Some("hi there")));
}

#[test]
fn round_trip_no_prefix() {
    round_trips(IrcMessage::new(None, "NICK", vec!["alice"], Some("note")));
}

#[test]
fn round_trip_no_trail() {
    round_trips(IrcMessage::new(Some("server.example"), "PING", vec!["token"], None));
}

#[test]
fn round_trip_bare_command() {
    round_trips(IrcMessage::new(None, "QUIT", vec![], None));
}

#[test]
fn round_trip_multiple_params_with_trail() {
    round_trips(IrcMessage::new(None, "USER", vec!["a", "b", "c"], Some("real name")));
}

#[test]
fn round_trip_numeric_only_trail() {
    round_trips(IrcMessage::new(None, "001", vec![], Some("Welcome")));
}

#[test]
fn serialize_is_pure() {
    let msg = IrcMessage::new(Some("a"), "NOTICE", vec!["b"], Some("c d"));
    let first = msg.to_string();
    let second = msg.to_string();
    assert_eq!(first, second);
}

#[test]
fn parse_empty_line_fails() {
    assert_eq!("".parse::<IrcMessage>().unwrap_err(), ParseError::MalformedMessage);
}

#[test]
fn parse_carriage_returns_only_fails() {
    assert_eq!("\r\r".parse::<IrcMessage>().unwrap_err(), ParseError::MalformedMessage);
}

#[test]
fn parse_lone_prefix_fails() {
    assert_eq!(":sendak.freenode.net".parse::<IrcMessage>().unwrap_err(), ParseError::MalformedMessage);
}

#[test]
fn parse_strips_trailing_carriage_return() {
    let msg: IrcMessage = "NICK alice\r".parse().unwrap();
    assert_eq!(msg.command, "NICK");
    assert_eq!(msg.params, vec!["alice".to_string()]);
    assert_eq!(msg.trail, None);
}

#[test]
fn parse_trail_keeps_inner_spaces_and_colons() {
    let msg: IrcMessage = "332 #room :topic: a  b".parse().unwrap();
    assert_eq!(msg.command, "332");
    assert_eq!(msg.params, vec!["#room".to_string()]);
    assert_eq!(msg.trail, Some("topic: a  b".to_string()));
    assert_eq!(msg.to_string(), "332 #room :topic: a  b");
}

#[test]
fn parse_empty_trail() {
    let msg: IrcMessage = "AWAY :".parse().unwrap();
    assert_eq!(msg.params.len(), 0);
    assert_eq!(msg.trail, Some("".to_string()));
}

#[test]
fn reparse_is_stable_on_degenerate_input() {
    for line in [" CMD  x", ":p :q r", "CMD a ", ":p ", "NICK alice\r"] {
        let first: IrcMessage = line.parse().unwrap();
        let printed = first.to_string();
        let second: IrcMessage = printed.parse().unwrap();
        assert_eq!(second.prefix, first.prefix);
        assert_eq!(second.command, first.command);
        assert_eq!(second.params, first.params);
        assert_eq!(second.trail, first.trail);
        assert_eq!(second.to_string(), printed);
    }
}

#[test]
fn to_wire_line_appends_terminator() {
    let msg = IrcMessage::new(Some("host"), "001", vec!["alice"], Some("Welcome"));
    assert_eq!(msg.to_wire_line(), ":host 001 alice :Welcome\r\n");
}

#[test]
fn duplicate_copies_every_field() {
    let msg = IrcMessage::new(Some("host"), "PONG", vec!["host"], Some("freenode"));
    let copy = msg.duplicate();
    assert_eq!(copy.prefix, msg.prefix);
    assert_eq!(copy.command, msg.command);
    assert_eq!(copy.params, msg.params);
    assert_eq!(copy.trail, msg.trail);
}
