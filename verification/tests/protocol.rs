use chess_engine::game_setup::GameSetup;
use chess_engine::messaging::split_message;
use chess_engine::protocol::{read_clock, read_command, same_text, Command};
use chess_engine::state::{ChessState, Side};

fn lines(setup: &mut GameSetup, command: &str, argument: &str) -> (Vec<String>, Option<i32>) {
    let reply = setup.handle(command, argument);
    (reply.lines, reply.exit)
}

fn in_protocol_mode() -> GameSetup {
    let mut setup = GameSetup::new();
    assert_eq!(lines(&mut setup, "xboard", ""), (vec![], None));
    assert_eq!(
        lines(&mut setup, "protover", "2"),
        (vec!["".to_string(), "feature usermove=1".to_string()], None)
    );
    let features = [
        "feature ping=1",
        "feature variants=\"normal\"",
        "feature sigint=0",
        "feature sigterm=1",
        "feature colors=0",
        "feature nps=0",
        "feature setboard=1",
        "feature done=1",
        "",
    ];
    for feature in features.iter() {
        assert!(setup.xboard);
        assert_ne!(setup.handshake, 0);
        assert_eq!(lines(&mut setup, "accepted", ""), (vec![feature.to_string()], None));
    }
    assert_eq!(setup.handshake, 0);
    setup
}

#[test]
fn lines_are_split_at_the_first_blank() {
    assert_eq!(split_message("ping 17\n"), ("ping".to_string(), "17".to_string()));
    assert_eq!(split_message("  quit \n"), ("quit".to_string(), "".to_string()));
    assert_eq!(
        split_message("setboard 8/8/8/8/8/8/8/8 w - - 0 1\r\n"),
        ("setboard".to_string(), "8/8/8/8/8/8/8/8 w - - 0 1".to_string())
    );
    assert_eq!(split_message("a  b"), ("a".to_string(), " b".to_string()));
    assert_eq!(split_message(""), ("".to_string(), "".to_string()));
    assert_eq!(split_message(" \t "), ("".to_string(), "".to_string()));
    assert_eq!(split_message("ping \u{e9}"), ("".to_string(), "".to_string()));
}

#[test]
fn names_of_commands() {
    assert_eq!(read_command("xboard"), Command::Xboard);
    assert_eq!(read_command("protover"), Command::Protover);
    assert_eq!(read_command("accepted"), Command::Accepted);
    assert_eq!(read_command("new"), Command::New);
    assert_eq!(read_command("setboard"), Command::SetBoard);
    assert_eq!(read_command("force"), Command::Force);
    assert_eq!(read_command("go"), Command::Go);
    assert_eq!(read_command("usermove"), Command::UserMove);
    assert_eq!(read_command("ping"), Command::Ping);
    assert_eq!(read_command("quit"), Command::Quit);
    assert_eq!(read_command("hard"), Command::Hard);
    assert_eq!(read_command("easy"), Command::Easy);
    assert_eq!(read_command("time"), Command::Time);
    assert_eq!(read_command("otim"), Command::Otim);
    assert_eq!(read_command("Quit"), Command::Unknown);
    assert_eq!(read_command(""), Command::Unknown);
    assert!(same_text("go", "go"));
    assert!(!same_text("go", "g"));
    assert_eq!(read_clock("300"), Some(300));
    assert_eq!(read_clock("2147483647"), Some(2147483647));
    assert_eq!(read_clock("2147483648"), None);
    assert_eq!(read_clock("-1"), None);
    assert_eq!(read_clock(""), None);
}

#[test]
fn outside_the_protocol_mode_the_program_stops() {
    let mut setup = GameSetup::new();
    assert_eq!(lines(&mut setup, "ping", "1"), (vec!["pong 1".to_string()], Some(0)));
    let mut setup = GameSetup::new();
    assert_eq!(lines(&mut setup, "quit", ""), (vec![], Some(0)));
}

#[test]
fn a_wrong_exchange_stops_the_program() {
    let mut setup = GameSetup::new();
    lines(&mut setup, "xboard", "");
    assert_eq!(lines(&mut setup, "new", ""), (vec![], Some(1)));
    let mut setup = GameSetup::new();
    lines(&mut setup, "xboard", "");
    assert_eq!(
        lines(&mut setup, "protover", "1"),
        (vec!["# unsupported version".to_string()], Some(1))
    );
    let mut setup = GameSetup::new();
    lines(&mut setup, "xboard", "");
    lines(&mut setup, "protover", "2");
    assert_eq!(lines(&mut setup, "rejected", "usermove"), (vec![], Some(1)));
}

#[test]
fn commands_in_protocol_mode() {
    let mut setup = in_protocol_mode();
    assert_eq!(lines(&mut setup, "ping", "42"), (vec!["pong 42".to_string()], None));
    assert_eq!(lines(&mut setup, "hard", ""), (vec![], None));
    assert!(setup.pondering);
    assert_eq!(lines(&mut setup, "easy", ""), (vec![], None));
    assert!(!setup.pondering);
    assert_eq!(lines(&mut setup, "time", "3000"), (vec![], None));
    assert_eq!(lines(&mut setup, "otim", "2500"), (vec![], None));
    assert_eq!(lines(&mut setup, "time", "soon"), (vec![], None));
    assert_eq!((setup.time, setup.otime), (3000, 2500));
    assert_eq!(lines(&mut setup, "nonsense", ""), (vec![], None));
    assert_eq!(lines(&mut setup, "force", ""), (vec![], None));
    assert!(setup.forced);
    assert_eq!(setup.computer_player, [false, false]);
    assert_eq!(lines(&mut setup, "setboard", "6k1/5ppp/8/8/8/8/8/R3K3 w - - 0 1"), (vec![], None));
    assert_eq!(setup.game_state.to_fen(), "6k1/5ppp/8/8/8/8/8/R3K3 w - - 0 1");
    assert_eq!(
        lines(&mut setup, "go", ""),
        (
            vec!["# received 'go', playing as white\n".to_string(), "move a1a8".to_string()],
            None
        )
    );
    assert!(!setup.forced);
    assert_eq!(setup.computer_player, [true, false]);
    assert_eq!(setup.game_state.to_fen(), "R5k1/5ppp/8/8/8/8/8/4K3 b - - 1 1");
    assert_eq!(lines(&mut setup, "new", ""), (vec![], None));
    assert_eq!(setup.game_state, ChessState::new_game());
    assert_eq!(setup.computer_player, [false, false]);
    assert_eq!(lines(&mut setup, "quit", ""), (vec![], Some(0)));
}

#[test]
fn moves_of_the_user() {
    let mut setup = in_protocol_mode();
    lines(&mut setup, "setboard", "r3k3/8/8/8/8/8/4PPPP/6K1 w - - 0 1");
    // not a move, no piece, not legal: forced mode, and the game stays
    for bad in ["e2", "e3e4", "e2e5", "g1g2"] {
        setup.forced = false;
        assert_eq!(lines(&mut setup, "usermove", bad), (vec![], None));
        assert!(setup.forced);
        assert_eq!(setup.game_state.to_fen(), "r3k3/8/8/8/8/8/4PPPP/6K1 w - - 0 1");
    }
    // a legal move is made, and the engine answers for the other side
    let (sent, exit) = lines(&mut setup, "usermove", "e2e4");
    assert_eq!(exit, None);
    assert_eq!(sent, vec!["move a8a1".to_string()]);
    assert!(!setup.forced);
    assert_eq!(setup.computer_player, [false, true]);
    assert_eq!(setup.game_state.next_to_move, Side::White);
    assert_eq!(setup.game_state.to_fen(), "4k3/8/8/8/4P3/8/5PPP/r5K1 w - - 1 2");
    // the user is mated: no move is read as legal
    assert_eq!(lines(&mut setup, "usermove", "g1h1"), (vec![], None));
    assert!(setup.forced);
}

#[test]
fn a_mated_engine_goes_into_forced_mode() {
    let mut setup = in_protocol_mode();
    lines(&mut setup, "setboard", "R5k1/5ppp/8/8/8/8/8/4K3 b - - 0 1");
    assert_eq!(
        lines(&mut setup, "go", ""),
        (vec!["# received 'go', playing as black\n".to_string()], None)
    );
    assert!(setup.forced);
    assert_eq!(lines(&mut setup, "setboard", "nonsense"), (vec![], None));
    assert!(setup.forced);
}
