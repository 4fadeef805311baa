//! The protocol of the chess interface as a machine from the setup and a line to
//! the next setup, the lines to send and the end of the program.
use crate::bboard::{board_name, lemma_has_square_bit, square_bit};
use crate::castle_laws::lemma_castle_key;
use crate::engine::{best_root, position_after};
use crate::fen::{initial_position, parse_fen, parse_number, read_number};
use crate::game_setup::{ChessMove, GameSetup, Setup, parse_move, small_letter};
use crate::move_generator::{MoveKey, castle_key, extends_by, is_key_move, legal_keys};
use crate::position_laws::{is_piece_key, lemma_legal_key_kinds};
use crate::state::{BBPiece, CastleSide, ChessState, Position, Side};
use vstd::prelude::*;
use vstd::string::{StringExecFns, StringSliceAdditionalSpecFns};

verus! {

/// The commands of the protocol.
#[derive(Clone, Copy, PartialEq, Eq, Structural, Debug)]
pub enum Command {
    Xboard,
    Protover,
    Accepted,
    New,
    SetBoard,
    Force,
    Go,
    UserMove,
    Ping,
    Quit,
    Hard,
    Easy,
    Time,
    Otim,
    Unknown,
}

/// The command that a word names.
pub open spec fn command_of(name: Seq<char>) -> Command {
    if name == "xboard"@ {
        Command::Xboard
    } else if name == "protover"@ {
        Command::Protover
    } else if name == "accepted"@ {
        Command::Accepted
    } else if name == "new"@ {
        Command::New
    } else if name == "setboard"@ {
        Command::SetBoard
    } else if name == "force"@ {
        Command::Force
    } else if name == "go"@ {
        Command::Go
    } else if name == "usermove"@ {
        Command::UserMove
    } else if name == "ping"@ {
        Command::Ping
    } else if name == "quit"@ {
        Command::Quit
    } else if name == "hard"@ {
        Command::Hard
    } else if name == "easy"@ {
        Command::Easy
    } else if name == "time"@ {
        Command::Time
    } else if name == "otim"@ {
        Command::Otim
    } else {
        Command::Unknown
    }
}

/// Whether two texts are the same.
pub fn same_text(a: &str, b: &str) -> (r: bool)
    ensures
        r == (a@ == b@),
{
    String::from_str(a) == String::from_str(b)
}

/// The command that a word names.
pub fn read_command(name: &str) -> (r: Command)
    ensures
        r == command_of(name@),
{
    if same_text(name, "xboard") {
        Command::Xboard
    } else if same_text(name, "protover") {
        Command::Protover
    } else if same_text(name, "accepted") {
        Command::Accepted
    } else if same_text(name, "new") {
        Command::New
    } else if same_text(name, "setboard") {
        Command::SetBoard
    } else if same_text(name, "force") {
        Command::Force
    } else if same_text(name, "go") {
        Command::Go
    } else if same_text(name, "usermove") {
        Command::UserMove
    } else if same_text(name, "ping") {
        Command::Ping
    } else if same_text(name, "quit") {
        Command::Quit
    } else if same_text(name, "hard") {
        Command::Hard
    } else if same_text(name, "easy") {
        Command::Easy
    } else if same_text(name, "time") {
        Command::Time
    } else if same_text(name, "otim") {
        Command::Otim
    } else {
        Command::Unknown
    }
}

/// What is to be done after a command: the lines to send, in their order, and
/// whether to stop, with which exit code.
pub struct Reply {
    pub lines: Vec<String>,
    pub exit: Option<i32>,
}

/// The lines of a reply as texts.
pub open spec fn texts(lines: Seq<String>) -> Seq<Seq<char>> {
    Seq::new(lines.len(), |i: int| lines[i]@)
}

/// What a command leads to: what the engine and the game are set to after it, the
/// lines to send and whether to stop.
pub ghost struct Step {
    pub setup: Setup,
    pub lines: Seq<Seq<char>>,
    pub exit: Option<int>,
}

/// What a reply and the setup that is left with it make together.
pub open spec fn step_of(v: Setup, r: Reply) -> Step {
    Step { setup: v, lines: texts(r.lines@), exit: r.exit_code() }
}

/// The line that declares the feature which is declared once `h - 1` answers have
/// come in the exchange after `xboard`.
pub open spec fn feature_line(h: int) -> Seq<char> {
    if h == 2 {
        "feature ping=1"@
    } else if h == 3 {
        "feature variants=\"normal\""@
    } else if h == 4 {
        "feature sigint=0"@
    } else if h == 5 {
        "feature sigterm=1"@
    } else if h == 6 {
        "feature colors=0"@
    } else if h == 7 {
        "feature nps=0"@
    } else if h == 8 {
        "feature setboard=1"@
    } else {
        "feature done=1"@
    }
}

/// Whether the engine plays the side that is to move.
pub open spec fn engine_to_move(v: Setup) -> bool {
    match v.position.side {
        Side::White => v.white_engine,
        Side::Black => v.black_engine,
    }
}

/// The setup with the engine playing, or not playing, the side `side`.
pub open spec fn with_engine(v: Setup, side: Side, plays: bool) -> Setup {
    match side {
        Side::White => Setup { white_engine: plays, ..v },
        Side::Black => Setup { black_engine: plays, ..v },
    }
}

/// Whether a move can still be made and searched: the move counters leave room.
pub open spec fn has_room(p: Position) -> bool {
    p.half_moves + 5 < u32::MAX && p.full_moves + 5 < u32::MAX
}

/// The text of the move that `k` names, in coordinate notation.
pub open spec fn key_text(k: MoveKey) -> Seq<char> {
    board_name(square_bit(k.from)) + board_name(square_bit(k.to)) + match k.promote {
        Some(pc) => seq![small_letter(pc)],
        None => Seq::empty(),
    }
}

/// The engine's turn after a command. Outside the protocol mode the program
/// stops. In forced mode, and where the engine does not play the side to move,
/// nothing happens. Else the engine makes the move that `best_root` chooses and says
/// so; where there is no legal move, or no room in the move counters, it goes into
/// forced mode.
pub open spec fn engine_step(v: Setup, lines: Seq<Seq<char>>) -> Step {
    let p = v.position;
    if !v.xboard {
        Step { setup: v, lines, exit: Some(0) }
    } else if v.forced || !engine_to_move(v) {
        Step { setup: v, lines, exit: None }
    } else if !has_room(p) || legal_keys(p).len() == 0 {
        Step { setup: Setup { forced: true, ..v }, lines, exit: None }
    } else {
        let k = legal_keys(p)[best_root(p, legal_keys(p).len() as int)];
        Step {
            setup: Setup { position: position_after(p, k), ..v },
            lines: lines.push("move "@ + key_text(k)),
            exit: None,
        }
    }
}

/// The first of the moves from the `i`-th on that leaves and reaches the given
/// squares with the given promotion; the number of moves if there is none.
pub open spec fn find_key(
    keys: Seq<MoveKey>,
    from: int,
    to: int,
    promote: Option<BBPiece>,
    i: int,
) -> int
    decreases keys.len() - i,
{
    if i < 0 || i >= keys.len() {
        keys.len() as int
    } else if keys[i].from == from && keys[i].to == to && keys[i].promote == promote {
        i
    } else {
        find_key(keys, from, to, promote, i + 1)
    }
}

/// The user's move: a move that is read and is one of the legal moves is made,
/// the engine stops playing the side that has moved and plays the other side, and
/// forced mode ends. A move that is not read, or is not legal, or for which the move
/// counters leave no room, leaves the game as it is and starts forced mode.
pub open spec fn user_move_step(v: Setup, argument: &str) -> Setup {
    let p = v.position;
    match parse_move(argument.spec_bytes(), p) {
        Err(_) => Setup { forced: true, ..v },
        Ok(m) => {
            let i = find_key(legal_keys(p), m.1, m.2, m.3, 0);
            if !has_room(p) || i >= legal_keys(p).len() {
                Setup { forced: true, ..v }
            } else {
                let moved = Setup { position: position_after(p, legal_keys(p)[i]), forced: false, ..v };
                with_engine(with_engine(moved, p.side, false), p.side.other(), true)
            }
        },
    }
}

/// The number of centiseconds that an argument gives, if it is a decimal number
/// that fits.
pub open spec fn clock_of(argument: &str) -> Option<int> {
    match parse_number(argument.spec_bytes()) {
        Some(n) => if n <= i32::MAX {
            Some(n as int)
        } else {
            None
        },
        None => None,
    }
}

/// What a command does while no exchange after `xboard` is going on, before the
/// engine's turn.
pub open spec fn command_step(v: Setup, command: Command, argument: &str) -> Step {
    let quiet = Seq::<Seq<char>>::empty();
    match command {
        Command::Xboard => Step {
            setup: Setup { xboard: true, handshake: 1, ..v },
            lines: quiet,
            exit: None,
        },
        Command::Hard => Step { setup: Setup { pondering: true, ..v }, lines: quiet, exit: None },
        Command::Easy => Step { setup: Setup { pondering: false, ..v }, lines: quiet, exit: None },
        Command::New => Step {
            setup: Setup {
                position: initial_position(),
                white_engine: false,
                black_engine: false,
                forced: false,
                ..v
            },
            lines: quiet,
            exit: None,
        },
        Command::SetBoard => Step {
            setup: match parse_fen(argument.spec_bytes()) {
                Ok(p) => Setup { position: p, ..v },
                Err(_) => Setup { forced: true, ..v },
            },
            lines: quiet,
            exit: None,
        },
        Command::Force => Step {
            setup: Setup { white_engine: false, black_engine: false, forced: true, ..v },
            lines: quiet,
            exit: None,
        },
        Command::Time => Step {
            setup: match clock_of(argument) {
                Some(n) => Setup { time: n, ..v },
                None => v,
            },
            lines: quiet,
            exit: None,
        },
        Command::Otim => Step {
            setup: match clock_of(argument) {
                Some(n) => Setup { otime: n, ..v },
                None => v,
            },
            lines: quiet,
            exit: None,
        },
        Command::Quit => Step { setup: v, lines: quiet, exit: Some(0) },
        Command::Ping => Step { setup: v, lines: seq!["pong "@ + argument@], exit: None },
        Command::UserMove => Step { setup: user_move_step(v, argument), lines: quiet, exit: None },
        Command::Go => Step {
            setup: Setup { forced: false, ..with_engine(v, v.position.side, true) },
            lines: seq![
                if v.position.side == Side::White {
                    "# received 'go', playing as white\n"@
                } else {
                    "# received 'go', playing as black\n"@
                },
            ],
            exit: None,
        },
        _ => Step { setup: v, lines: quiet, exit: None },
    }
}

/// What a line does while the exchange after `xboard` is going on: the protocol
/// version must be 2 and the first feature must be accepted, else the program stops
/// with exit code 1; each answer is followed by the next feature, and the last by
/// an empty line.
pub open spec fn handshake_step(v: Setup, command: Command, argument: &str) -> Step {
    let quiet = Seq::<Seq<char>>::empty();
    if v.handshake == 1 {
        if command != Command::Protover {
            Step { setup: v, lines: quiet, exit: Some(1) }
        } else if argument@ != "2"@ {
            Step { setup: v, lines: seq!["# unsupported version"@], exit: Some(1) }
        } else {
            Step {
                setup: Setup { handshake: 2, ..v },
                lines: seq![""@, "feature usermove=1"@],
                exit: None,
            }
        }
    } else if v.handshake == 2 && command != Command::Accepted {
        Step { setup: v, lines: quiet, exit: Some(1) }
    } else if v.handshake < 10 {
        Step {
            setup: Setup { handshake: v.handshake + 1, ..v },
            lines: seq![feature_line(v.handshake)],
            exit: None,
        }
    } else {
        Step { setup: Setup { handshake: 0, ..v }, lines: seq![""@], exit: None }
    }
}

/// What a command leads to. While the exchange after `xboard` is going on the line
/// belongs to it; else the command is carried out. Unless the program stops or the
/// exchange goes on, the engine has its turn.
pub open spec fn step(v: Setup, command: &str, argument: &str) -> Step {
    let c = command_of(command@);
    let first = if v.handshake != 0 {
        handshake_step(v, c, argument)
    } else {
        command_step(v, c, argument)
    };
    if first.exit is Some || first.setup.handshake != 0 {
        first
    } else {
        engine_step(first.setup, first.lines)
    }
}

/// Two squares of the board with the same board are the same square.
pub proof fn lemma_same_square(a: int, b: int)
    requires
        0 <= a < 64,
        0 <= b < 64,
        square_bit(a) == square_bit(b),
    ensures
        a == b,
{
    lemma_has_square_bit(a, a);
    lemma_has_square_bit(b, a);
}

/// The squares of every legal move are squares of the board.
pub proof fn lemma_legal_key_squares(p: Position, i: int)
    requires
        0 <= i < legal_keys(p).len(),
    ensures
        0 <= legal_keys(p)[i].from < 64,
        0 <= legal_keys(p)[i].to < 64,
{
    let k = legal_keys(p)[i];
    lemma_legal_key_kinds(p, i);
    if !is_piece_key(p, k) {
        if castle_key(p, CastleSide::King) == seq![k] {
            assert(castle_key(p, CastleSide::King)[0] == k);
        } else {
            assert(castle_key(p, CastleSide::Queen)[0] == k);
        }
    }
}

/// The place among the legal moves `moves` of the first that leaves and reaches the
/// squares of `wanted` with its promotion, if there is one.
fn find_move(
    moves: &Vec<ChessMove>,
    wanted: &ChessMove,
    Ghost(p): Ghost<Position>,
    Ghost(from): Ghost<int>,
    Ghost(to): Ghost<int>,
) -> (r: Option<usize>)
    requires
        extends_by(p, Seq::empty(), moves@, legal_keys(p)),
        wanted.move_from == square_bit(from),
        wanted.move_to == square_bit(to),
        0 <= from < 64,
        0 <= to < 64,
    ensures
        match r {
            Some(i) => i < moves@.len() && i == find_key(
                legal_keys(p),
                from,
                to,
                wanted.promote,
                0,
            ),
            None => find_key(legal_keys(p), from, to, wanted.promote, 0) >= legal_keys(p).len(),
        },
{
    let ghost keys = legal_keys(p);
    let mut i: usize = 0;
    while i < moves.len()
        invariant
            0 <= i <= moves.len(),
            keys == legal_keys(p),
            extends_by(p, Seq::empty(), moves@, keys),
            wanted.move_from == square_bit(from),
            wanted.move_to == square_bit(to),
            0 <= from < 64,
            0 <= to < 64,
            find_key(keys, from, to, wanted.promote, i as int) == find_key(
                keys,
                from,
                to,
                wanted.promote,
                0,
            ),
        decreases moves.len() - i,
    {
        let m = moves[i];
        proof {
            assert(is_key_move(p, keys[i as int], moves@[0 + i]));
            lemma_legal_key_squares(p, i as int);
            if m.move_from == wanted.move_from {
                lemma_same_square(keys[i as int].from, from);
            }
            if m.move_to == wanted.move_to {
                lemma_same_square(keys[i as int].to, to);
            }
        }
        if m.move_from == wanted.move_from && m.move_to == wanted.move_to && m.promote
            == wanted.promote {
            return Some(i);
        }
        i += 1;
    }
    None
}

impl GameSetup {
    /// The tables of the engine are in order, and the exchange after `xboard` is at
    /// one of its steps.
    pub open spec fn wf(&self) -> bool {
        self.engine.wf() && self.handshake <= 10
    }

    /// Makes the user's move, if it is read and legal.
    fn user_move(&mut self, argument: &str)
        requires
            old(self).wf(),
        ensures
            final(self).wf(),
            final(self)@ == user_move_step(old(self)@, argument),
    {
        let ghost p = self.game_state@;
        let ghost keys = legal_keys(p);
        let wanted = match ChessMove::parse(argument, &self.game_state) {
            Ok(m) => m,
            Err(_) => {
                self.forced = true;
                return ;
            },
        };
        let ghost want = parse_move(argument.spec_bytes(), p)->Ok_0;
        if self.game_state.half_move_count >= u32::MAX - 5 || self.game_state.full_move_count
            >= u32::MAX - 5 {
            self.forced = true;
            return ;
        }
        let mut moves: Vec<ChessMove> = Vec::new();
        self.engine.move_generator.generate_moves(&mut self.game_state, &mut moves);
        match find_move(&moves, &wanted, Ghost(p), Ghost(want.1), Ghost(want.2)) {
            Some(i) => {
                let m = moves[i];
                assert(is_key_move(p, keys[i as int], moves@[0 + i]));
                let side = self.game_state.next_to_move;
                self.game_state.do_move(&m);
                self.forced = false;
                self.computer_player[side.idx()] = false;
                self.computer_player[side.opposite().idx()] = true;
            },
            None => {
                self.forced = true;
            },
        }
    }

    /// The engine's turn after a command.
    fn engine_turn(&mut self, lines: Vec<String>) -> (r: Reply)
        requires
            old(self).wf(),
        ensures
            final(self).wf(),
            step_of(final(self)@, r) == engine_step(
                old(self)@,
                texts(lines@),
            ),
    {
        let mut lines = lines;
        if !self.xboard {
            return Reply { lines, exit: Some(0) };
        }
        if self.forced || !self.computer_player[self.game_state.next_to_move.idx()] {
            return Reply { lines, exit: None };
        }
        if self.game_state.half_move_count >= u32::MAX - 5 || self.game_state.full_move_count
            >= u32::MAX - 5 {
            self.forced = true;
            return Reply { lines, exit: None };
        }
        let ghost p = self.game_state@;
        match self.engine.find_best_move(&mut self.game_state) {
            None => {
                self.forced = true;
                Reply { lines, exit: None }
            },
            Some(m) => {
                let ghost k = legal_keys(p)[best_root(p, legal_keys(p).len() as int)];
                let mut line = String::from_str("move ");
                line.append(m.to_string().as_str());
                assert(line@ =~= "move "@ + key_text(k));
                let ghost before = texts(lines@);
                lines.push(line);
                assert(texts(lines@) =~= before.push("move "@ + key_text(k)));
                self.game_state.do_move(&m);
                Reply { lines, exit: None }
            },
        }
    }

    /// Carries out a command while no exchange after `xboard` is going on.
    fn run_command(&mut self, command: Command, argument: &str) -> (r: Reply)
        requires
            old(self).wf(),
            old(self).handshake == 0,
        ensures
            final(self).wf(),
            step_of(final(self)@, r) == command_step(old(self)@, command, argument),
    {
        let mut lines: Vec<String> = Vec::new();
        let mut exit: Option<i32> = None;
        assert(texts(lines@) =~= Seq::<Seq<char>>::empty());
        match command {
            Command::Xboard => {
                self.xboard = true;
                self.handshake = 1;
            },
            Command::Hard => {
                self.pondering = true;
            },
            Command::Easy => {
                self.pondering = false;
            },
            Command::New => {
                self.game_state = ChessState::new_game();
                self.computer_player[0] = false;
                self.computer_player[1] = false;
                self.forced = false;
            },
            Command::SetBoard => {
                match ChessState::from_fen(argument) {
                    Ok(state) => {
                        self.game_state = state;
                    },
                    Err(_) => {
                        self.forced = true;
                    },
                }
            },
            Command::Force => {
                self.computer_player[0] = false;
                self.computer_player[1] = false;
                self.forced = true;
            },
            Command::Time => {
                match read_clock(argument) {
                    Some(n) => {
                        self.time = n;
                    },
                    None => {},
                }
            },
            Command::Otim => {
                match read_clock(argument) {
                    Some(n) => {
                        self.otime = n;
                    },
                    None => {},
                }
            },
            Command::Quit => {
                exit = Some(0);
            },
            Command::Ping => {
                let mut line = String::from_str("pong ");
                line.append(argument);
                lines.push(line);
                assert(texts(lines@) =~= seq!["pong "@ + argument@]);
            },
            Command::UserMove => {
                self.user_move(argument);
            },
            Command::Go => {
                let side = self.game_state.next_to_move;
                let line = match side {
                    Side::White => String::from_str("# received 'go', playing as white\n"),
                    Side::Black => String::from_str("# received 'go', playing as black\n"),
                };
                lines.push(line);
                assert(texts(lines@) =~= seq![line@]);
                self.computer_player[side.idx()] = true;
                self.forced = false;
            },
            _ => {},
        }
        Reply { lines, exit }
    }

    /// Takes a line of the exchange after `xboard`.
    fn run_handshake(&mut self, command: Command, argument: &str) -> (r: Reply)
        requires
            old(self).wf(),
            old(self).handshake != 0,
        ensures
            final(self).wf(),
            step_of(final(self)@, r) == handshake_step(old(self)@, command, argument),
    {
        let mut lines: Vec<String> = Vec::new();
        assert(texts(lines@) =~= Seq::<Seq<char>>::empty());
        let h = self.handshake;
        if h == 1 {
            if command != Command::Protover {
                return Reply { lines, exit: Some(1) };
            }
            if !same_text(argument, "2") {
                let line = String::from_str("# unsupported version");
                lines.push(line);
                assert(texts(lines@) =~= seq![line@]);
                return Reply { lines, exit: Some(1) };
            }
            let l1 = String::from_str("");
            let l2 = String::from_str("feature usermove=1");
            lines.push(l1);
            lines.push(l2);
            assert(texts(lines@) =~= seq![l1@, l2@]);
            self.handshake = 2;
            return Reply { lines, exit: None };
        }
        if h == 2 && command != Command::Accepted {
            return Reply { lines, exit: Some(1) };
        }
        let line = if h == 2 {
            String::from_str("feature ping=1")
        } else if h == 3 {
            String::from_str("feature variants=\"normal\"")
        } else if h == 4 {
            String::from_str("feature sigint=0")
        } else if h == 5 {
            String::from_str("feature sigterm=1")
        } else if h == 6 {
            String::from_str("feature colors=0")
        } else if h == 7 {
            String::from_str("feature nps=0")
        } else if h == 8 {
            String::from_str("feature setboard=1")
        } else if h == 9 {
            String::from_str("feature done=1")
        } else {
            String::from_str("")
        };
        lines.push(line);
        assert(texts(lines@) =~= seq![line@]);
        self.handshake = if h < 10 {
            h + 1
        } else {
            0
        };
        Reply { lines, exit: None }
    }

    /// Takes one line of the protocol, split into its command and its argument:
    /// changes the setup and the game as the command asks, lets the engine move
    /// when it is its turn, and says which lines to send and whether to stop.
    pub fn handle(&mut self, command: &str, argument: &str) -> (r: Reply)
        requires
            old(self).wf(),
        ensures
            final(self).wf(),
            step_of(final(self)@, r) == step(
                old(self)@,
                command,
                argument,
            ),
    {
        let c = read_command(command);
        let first = if self.handshake != 0 {
            self.run_handshake(c, argument)
        } else {
            self.run_command(c, argument)
        };
        if first.exit.is_some() || self.handshake != 0 {
            first
        } else {
            self.engine_turn(first.lines)
        }
    }
}

impl Reply {
    /// The exit code with which to stop, if the program is to stop.
    pub open spec fn exit_code(&self) -> Option<int> {
        match self.exit {
            Some(c) => Some(c as int),
            None => None,
        }
    }
}

/// The number of centiseconds that an argument gives.
pub fn read_clock(argument: &str) -> (r: Option<i32>)
    ensures
        match r {
            Some(n) => clock_of(argument) == Some(n as int),
            None => clock_of(argument) is None,
        },
{
    let bytes = argument.as_bytes();
    match read_number(bytes, 0, bytes.len()) {
        Some(n) => {
            assert(bytes@.subrange(0, bytes@.len() as int) =~= bytes@);
            if n <= 0x7fff_ffff {
                Some(n as i32)
            } else {
                None
            }
        },
        None => {
            assert(bytes@.subrange(0, bytes@.len() as int) =~= bytes@);
            None
        },
    }
}

} // verus!
