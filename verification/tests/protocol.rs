use othello_gui::ai::{parse_agent_output, AIRunHandle, AIRunResult, ProcStatus, AI};
use othello_gui::game::UpdateResult;
use othello_gui::othello::{Pos, Vec2};

fn exited(code: i32, stdout: &str, stderr: &str) -> ProcStatus {
    ProcStatus::Exited { code, stdout: stdout.to_string(), stderr: stderr.to_string() }
}

#[test]
fn parse_plain_move() {
    match parse_agent_output("d3") {
        AIRunResult::Success(mv, note) => {
            assert_eq!(mv, Vec2::new(3, 2));
            assert!(note.is_none());
        },
        _ => panic!("expected a decoded move"),
    }
}

#[test]
fn parse_move_with_note_and_whitespace() {
    match parse_agent_output("  d3  \n   thinking hard  \n") {
        AIRunResult::Success(mv, note) => {
            assert_eq!(mv, Vec2::new(3, 2));
            assert_eq!(note.unwrap(), "thinking hard");
        },
        _ => panic!("expected a decoded move"),
    }
}

#[test]
fn malformed_outputs_never_decode() {
    let bad = [
        "",
        "   ",
        "d",
        "d33",
        "z9",
        "d9",
        "i1",
        "a0",
        "3d",
        "D3",
        "d3\nnote\nextra",
        "one\ntwo\nthree\nfour",
    ];
    for s in bad.iter() {
        assert!(
            matches!(parse_agent_output(s), AIRunResult::InvalidOutput(_)),
            "{:?} decoded unexpectedly",
            s
        );
    }
}

#[test]
fn nonzero_exit_is_a_runtime_error() {
    let h = AIRunHandle { time_limit: 100, input: String::new() };
    match h.handle_finished_child(3, "d3".to_string(), "boom".to_string()) {
        AIRunResult::RuntimeError { status, stderr } => {
            assert_eq!(status, 3);
            assert_eq!(stderr, "boom");
        },
        _ => panic!("expected a runtime error"),
    }
}

#[test]
fn poll_classifies_deadline() {
    let h = AIRunHandle { time_limit: 100, input: String::new() };
    assert!(matches!(h.check(ProcStatus::Running { elapsed_ms: 100 }), AIRunResult::Running));
    assert!(matches!(h.check(ProcStatus::Running { elapsed_ms: 101 }), AIRunResult::TimeOut));
}

#[test]
fn agent_update_times_out_as_a_failure() {
    let mut agent = AI::new("some/agent".to_string(), 50);
    let pos = Pos::new();
    let _req = agent.init(&pos);
    let r = agent.update(&pos, ProcStatus::Running { elapsed_ms: 51 });
    assert!(matches!(r, UpdateResult::Fail { .. }));
    let mut agent2 = AI::new("some/agent".to_string(), 50);
    let _req2 = agent2.init(&pos);
    let r2 = agent2.update(&pos, ProcStatus::Running { elapsed_ms: 50 });
    assert!(matches!(r2, UpdateResult::Wait));
}

#[test]
fn agent_update_rejects_illegal_move() {
    let mut agent = AI::new("some/agent".to_string(), 50);
    let pos = Pos::new();
    let _req = agent.init(&pos);
    // a1 is a syntactically valid token but not a legal opening move
    let r = agent.update(&pos, exited(0, "a1", ""));
    assert!(matches!(r, UpdateResult::Fail { .. }));
}

#[test]
fn agent_update_accepts_legal_move() {
    let mut agent = AI::new("some/agent".to_string(), 50);
    let pos = Pos::new();
    let _req = agent.init(&pos);
    match agent.update(&pos, exited(0, "d3\ncorner play", "")) {
        UpdateResult::Moved { mv, notes } => {
            assert_eq!(mv, Vec2::new(3, 2));
            assert_eq!(notes, "corner play");
        },
        _ => panic!("expected a move"),
    }
    assert!(agent.ai_run_handle.is_none());
}

#[test]
fn agent_update_supplies_default_note() {
    let mut agent = AI::new("some/agent".to_string(), 50);
    let pos = Pos::new();
    let _req = agent.init(&pos);
    match agent.update(&pos, exited(0, "d3", "")) {
        UpdateResult::Moved { notes, .. } => assert_eq!(notes, "no notes provided"),
        _ => panic!("expected a move"),
    }
}

#[test]
fn request_wire_format() {
    let agent = AI::new("some/agent".to_string(), 1500);
    let req = agent.input(&Pos::new());
    let mut board = String::new();
    for i in 0..64 {
        board.push(match i {
            27 => 'o',
            28 => 'x',
            35 => 'x',
            36 => 'o',
            _ => '.',
        });
    }
    let expected = format!("{}x\n1500\n4 c4 d3 e6 f5\n", board);
    assert_eq!(req, expected);
}

#[test]
fn spawn_request_carries_path_and_input() {
    let mut agent = AI::new("bots/alpha".to_string(), 250);
    let pos = Pos::new();
    let req = agent.run(&pos);
    assert_eq!(req.path, "bots/alpha");
    assert_eq!(req.input, agent.input(&pos));
    assert!(agent.ai_run_handle.is_some());
    assert!(agent.try_clone().is_err());
    let kill = agent.interrupt();
    assert!(kill);
    assert!(agent.ai_run_handle.is_none());
    assert!(agent.try_clone().is_ok());
}
