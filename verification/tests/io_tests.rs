use tgp::game::decision_impl::plain_decision::{FollowUp, PlainDecision};
use tgp::game::engine::io::{load_game, parse_saved_game, restore_game_state, restore_game_state_impl, save_game, LoadGameError};
use tgp::game::engine::logging::SerializedLog;
use tgp::game::trait_definitions::{Effect, GameData, RevEffect};

/// A game where each player in turn adds one of the numbers of a decision
/// to a sum, until three numbers were added.
#[derive(Debug, Clone, PartialEq, Eq)]
struct SumGame {
    sum: u32,
    turns: u32,
    player: usize,
}

#[derive(Debug, Clone, Copy, PartialEq, Eq)]
struct Add(u32);

impl Effect<SumGame> for Add {
    fn apply(&self, data: &mut SumGame) -> Option<Self> {
        data.sum += self.0;
        data.turns += 1;
        data.player = 1 - data.player;
        None
    }
}

impl RevEffect<SumGame> for Add {
    fn undo(&self, data: &mut SumGame) {
        data.sum -= self.0;
        data.turns -= 1;
        data.player = 1 - data.player;
    }
}

/// Sum games have no follow-up decisions.
struct NoFollowUp;

impl FollowUp<SumGame, PlainDecision<SumGame, Add, u32, NoFollowUp>> for NoFollowUp {
    fn make(&self, data: &SumGame) -> PlainDecision<SumGame, Add, u32, NoFollowUp> {
        PlainDecision::with_context(data.player, data.turns)
    }
}

impl GameData for SumGame {
    type Context = u32;
    type EffectType = Add;
    type DecisionType = PlainDecision<SumGame, Add, u32, NoFollowUp>;

    fn next_decision(&self) -> Option<Self::DecisionType> {
        if self.turns >= 3 {
            return None;
        }
        let mut dec = PlainDecision::with_context(self.player, self.turns);
        dec.add_effect(Add(1));
        dec.add_effect(Add(10));
        dec.add_effect(Add(100));
        Some(dec)
    }
}

fn new_game() -> SumGame {
    SumGame { sum: 0, turns: 0, player: 0 }
}

fn pairs(input: &[(&str, &str)]) -> Vec<(String, String)> {
    input.iter().map(|(k, v)| (k.to_string(), v.to_string())).collect()
}

#[test]
fn save_game_writes_the_format() {
    let log = SerializedLog { log: vec![(0, 0), (12, 1)], redo_stack: vec![(3, 0)] };
    let text = save_game("sum game", &pairs(&[("a", "1"), ("b", "x")]), 2, &log);
    assert_eq!(text, "sum game\na 1 b x\n2\n0P0\n12P1\nC\n3P0\n");
    let empty = save_game("h", &Vec::new(), 10, &SerializedLog { log: Vec::new(), redo_stack: Vec::new() });
    assert_eq!(empty, "h\n\n10\nC\n");
}

#[test]
fn parse_gives_back_what_save_wrote() {
    let log = SerializedLog { log: vec![(0, 0), (12, 1), (7, 0)], redo_stack: vec![(3, 0), (105, 1)] };
    let initial = pairs(&[("size", "9"), ("mode", "fast")]);
    let text = save_game("header line", &initial, 2, &log);
    let (state, num_players, parsed) = parse_saved_game(&text, "header line").unwrap();
    assert_eq!(state, initial);
    assert_eq!(num_players, 2);
    assert_eq!(parsed, log);
}

fn file_error(r: Result<(Vec<(String, String)>, usize, SerializedLog), LoadGameError>) -> (usize, String) {
    match r {
        Err(LoadGameError::InvalidFileContent { line, msg }) => (line, msg),
        other => panic!("expected a file error, got {:?}", other),
    }
}

#[test]
fn parse_reports_the_first_wrong_line() {
    assert_eq!(
        file_error(parse_saved_game("other\n\n2\n", "game")),
        (1, "Invalid header: other, expected: game".to_string())
    );
    assert_eq!(
        file_error(parse_saved_game("game\na 1 b\n2\n", "game")),
        (2, "Uneven number of key-value entries".to_string())
    );
    assert_eq!(file_error(parse_saved_game("game\n\ntwo\n", "game")), (3, "Expected player number".to_string()));
    assert_eq!(file_error(parse_saved_game("game\n\n", "game")), (3, "Expected player number".to_string()));
    assert_eq!(
        file_error(parse_saved_game("game\n\n2\n1P0\nC\nC\n", "game")),
        (6, "Current state is ambiguous".to_string())
    );
    assert_eq!(
        file_error(parse_saved_game("game\n\n2\n1P0P1\n", "game")),
        (4, "Invalid line: 1P0P1, expected: <dec>P<player>".to_string())
    );
    assert_eq!(
        file_error(parse_saved_game("game\n\n2\nxP0\n", "game")),
        (4, "Invalid number: invalid digit found in string".to_string())
    );
    assert_eq!(
        file_error(parse_saved_game("game\n\n2\n1P\n", "game")),
        (4, "Invalid number: cannot parse integer from empty string".to_string())
    );
}

#[test]
fn parse_accepts_a_missing_final_newline_and_plus_signs() {
    let (state, num_players, log) = parse_saved_game("game\nk v\n+3\n1P2", "game").unwrap();
    assert_eq!(state, pairs(&[("k", "v")]));
    assert_eq!(num_players, 3);
    assert_eq!(log, SerializedLog { log: vec![(1, 2)], redo_stack: Vec::new() });
}

#[test]
fn restore_replays_the_log() {
    let engine = restore_game_state_impl(2, new_game(), &vec![(1, 0), (2, 1)]).unwrap();
    assert_eq!(engine.data().sum, 110);
    assert_eq!(engine.data().turns, 2);
    assert!(engine.is_pending_decision());
}

#[test]
fn restore_rejects_wrong_decisions() {
    match restore_game_state_impl(2, new_game(), &vec![(3, 0)]) {
        Err(LoadGameError::InvalidDecisionIndex { decision_nr, index, max_index }) => {
            assert_eq!((decision_nr, index, max_index), (0, 3, 3))
        }
        _ => panic!("expected an invalid index"),
    }
    match restore_game_state_impl(2, new_game(), &vec![(0, 0), (0, 0)]) {
        Err(LoadGameError::UnexpectedPlayer { decision_nr, player, expected_player }) => {
            assert_eq!((decision_nr, player, expected_player), (1, 0, 1))
        }
        _ => panic!("expected an unexpected player"),
    }
    match restore_game_state_impl(2, new_game(), &vec![(0, 0), (0, 1), (0, 0), (0, 1)]) {
        Err(LoadGameError::GameAlreadyFinished { decision_nr }) => assert_eq!(decision_nr, 3),
        _ => panic!("expected a finished game"),
    }
}

#[test]
fn restore_keeps_the_redo_stack() {
    let log = SerializedLog { log: vec![(0, 0)], redo_stack: vec![(2, 0), (1, 1)] };
    let engine = restore_game_state(2, || Ok(new_game()), log).unwrap();
    assert_eq!(engine.data().sum, 1);
    assert!(engine.log().redo_available());
    let bad = SerializedLog { log: vec![(0, 0)], redo_stack: vec![(1, 0)] };
    assert!(matches!(
        restore_game_state(2, || Ok(new_game()), bad),
        Err(LoadGameError::UnexpectedPlayer { decision_nr: 1, player: 0, expected_player: 1 })
    ));
    assert!(matches!(
        restore_game_state(2, || Err::<SumGame, String>("no data".to_string()), SerializedLog { log: Vec::new(), redo_stack: Vec::new() }),
        Err(LoadGameError::InvalidFileContent { line: 0, .. })
    ));
}

#[test]
fn load_game_reads_and_replays() {
    let text = "sum\nstart 0\n2\n2P0\n0P1\nC\n";
    let engine = load_game(text, "sum", |state: &Vec<(String, String)>| {
        assert_eq!(state, &pairs(&[("start", "0")]));
        Ok(new_game())
    })
    .unwrap();
    assert_eq!(engine.data().sum, 101);
    assert!(matches!(
        load_game("other\n", "sum", |_: &Vec<(String, String)>| Ok(new_game())),
        Err(LoadGameError::InvalidFileContent { line: 1, .. })
    ));
}

#[test]
fn load_game_error_from_string() {
    let e = LoadGameError::from("bad".to_string());
    assert!(matches!(e, LoadGameError::InvalidFileContent { line: 0, ref msg } if msg == "bad"));
}
