//! The agent process supervisor: encodes the request an agent receives on
//! its standard input, decodes and classifies what came back, and enforces
//! the wall-clock deadline. The operating-system work itself — spawning,
//! polling and killing the child process — is done by the host around this
//! library, which reports each observation here as a [`ProcStatus`].
use crate::game::UpdateResult;
use crate::othello::{
    board_chars_spec, is_valid_move_spec, lemma_valid_moves_membership, move_token_spec,
    tile_char_spec, tile_str, valid_moves_spec, Pos, Vec2,
};
use crate::text::{
    count_nl, dec_spec, find_nl, first_nl, i64_string, is_ws_char, lemma_first_nl_at,
    lemma_trim_of_clean, nl_count, signed_dec_spec, trim_spec, trim_str, u64_string, usize_string,
};
use vstd::prelude::*;

verus! {

/// An order to the host: start the agent at `path` and write `input` to
/// its standard input.
#[derive(Debug)]
pub struct SpawnRequest {
    pub path: String,
    pub input: String,
}

/// One observation of a running agent process, made by the host.
#[derive(Debug)]
pub enum ProcStatus {
    /// The process has not exited; `elapsed_ms` milliseconds have passed
    /// since it was started.
    Running { elapsed_ms: u64 },
    /// The process exited with `code` (zero meaning success), with the
    /// whole of its standard output and standard error captured.
    Exited { code: i32, stdout: String, stderr: String },
}

/// The supervisor's classification of one poll of an agent.
#[derive(Debug)]
pub enum AIRunResult {
    /// Still thinking, within its deadline.
    Running,
    /// Still running past its deadline; the host must kill the process.
    TimeOut,
    /// Exited with a non-zero status; standard error is attached.
    RuntimeError { status: i32, stderr: String },
    /// Exited cleanly but its output does not decode as a response.
    InvalidOutput(String),
    /// A decoded move, with the agent's free-text note if it sent one.
    Success(Vec2, Option<String>),
}

/// A syntactically well-formed move line: exactly two characters, a
/// column letter `a..h` and a row digit `1..8`.
pub open spec fn move_line_ok(l: Seq<char>) -> bool {
    &&& l.len() == 2
    &&& 'a' as int <= l[0] as int <= 'h' as int
    &&& '1' as int <= l[1] as int <= '8' as int
}

/// The square named by a well-formed move line.
pub open spec fn decode_move_spec(l: Seq<char>) -> Vec2 {
    Vec2 { x: (l[0] as int - 'a' as int) as isize, y: (l[1] as int - '1' as int) as isize }
}

/// The first line of trimmed output `t`, itself trimmed.
pub open spec fn first_line_spec(t: Seq<char>) -> Seq<char> {
    trim_spec(t.take(first_nl(t)))
}

/// The second line of trimmed output `t`, itself trimmed.
pub open spec fn second_line_spec(t: Seq<char>) -> Seq<char> {
    trim_spec(t.subrange(first_nl(t) + 1, t.len() as int))
}

/// Agent output decodes: at most two lines after trimming, and the first
/// is a well-formed move token.
pub open spec fn output_ok(out: Seq<char>) -> bool {
    nl_count(trim_spec(out)) <= 1 && move_line_ok(first_line_spec(trim_spec(out)))
}

/// The move named by well-formed agent output.
pub open spec fn output_move(out: Seq<char>) -> Vec2 {
    decode_move_spec(first_line_spec(trim_spec(out)))
}

/// The free-text note of agent output, present exactly when a second
/// line is.
pub open spec fn output_note(out: Seq<char>) -> Option<Seq<char>> {
    if nl_count(trim_spec(out)) == 1 {
        Some(second_line_spec(trim_spec(out)))
    } else {
        None
    }
}

/// The line count reported for an over-long output; it saturates at the
/// machine limit, as the counter that produces it does.
pub open spec fn lines_reported(t: Seq<char>) -> int {
    if nl_count(t) + 1 <= usize::MAX as int {
        nl_count(t) + 1
    } else {
        nl_count(t)
    }
}

/// The diagnostic a non-decoding output earns, naming the first failed
/// constraint: the line count, the token's length, its column letter, or
/// its row digit.
pub open spec fn invalid_reason_spec(out: Seq<char>) -> Seq<char> {
    let t = trim_spec(out);
    let l = first_line_spec(t);
    if nl_count(t) > 1 {
        "Output contains "@ + dec_spec(lines_reported(t))
            + " lines, which is invalid. It must be between 1 and 2."@
    } else if l.len() != 2 {
        "Output '"@ + l + "' has invalid length"@
    } else if !('a' as int <= l[0] as int <= 'h' as int) {
        "Move '"@ + l + "' has invalid x coordinate"@
    } else {
        "Move '"@ + l + "' has invalid y coordinate"@
    }
}

/// An output with at least one line feed has its first line feed inside.
proof fn lemma_first_nl_lt(s: Seq<char>)
    requires
        nl_count(s) > 0,
    ensures
        0 <= first_nl(s) < s.len(),
    decreases s.len(),
{
    if s.len() > 0 && s[0] != '\n' {
        lemma_first_nl_lt(s.drop_first());
    }
}

/// Decode and classify the standard output of an agent that exited
/// cleanly: `Success` exactly for decodable output, `InvalidOutput` with
/// a diagnostic for everything else.
pub fn parse_agent_output(output: &str) -> (r: AIRunResult)
    ensures
        output_ok(output@) ==> (match r {
            AIRunResult::Success(mv, note) => {
                &&& mv == output_move(output@)
                &&& match (note, output_note(output@)) {
                    (Some(n), Some(sn)) => n@ == sn,
                    (None, None) => true,
                    _ => false,
                }
            },
            _ => false,
        }),
        !output_ok(output@) ==> (r matches AIRunResult::InvalidOutput(m) && m@
            == invalid_reason_spec(output@)),
{
    let t = trim_str(output);
    let nls = count_nl(t);
    if nls >= 2 {
        let lines = if nls < usize::MAX {
            nls + 1
        } else {
            nls
        };
        let mut msg = String::from_str("Output contains ");
        msg.append(usize_string(lines).as_str());
        msg.append(" lines, which is invalid. It must be between 1 and 2.");
        proof {
            assert(msg@ =~= invalid_reason_spec(output@));
        }
        return AIRunResult::InvalidOutput(msg);
    }
    let len_t = t.unicode_len();
    let i1 = find_nl(t);
    let line1 = trim_str(t.substring_char(0, i1));
    proof {
        assert(t@.subrange(0, i1 as int) =~= t@.take(first_nl(t@)));
    }
    if line1.unicode_len() != 2 {
        let mut msg = String::from_str("Output '");
        msg.append(line1);
        msg.append("' has invalid length");
        proof {
            assert(msg@ =~= invalid_reason_spec(output@));
        }
        return AIRunResult::InvalidOutput(msg);
    }
    let x_char = line1.get_char(0);
    if !(x_char as u32 >= 'a' as u32 && x_char as u32 <= 'h' as u32) {
        let mut msg = String::from_str("Move '");
        msg.append(line1);
        msg.append("' has invalid x coordinate");
        proof {
            assert(msg@ =~= invalid_reason_spec(output@));
        }
        return AIRunResult::InvalidOutput(msg);
    }
    let y_char = line1.get_char(1);
    if !(y_char as u32 >= '1' as u32 && y_char as u32 <= '8' as u32) {
        let mut msg = String::from_str("Move '");
        msg.append(line1);
        msg.append("' has invalid y coordinate");
        proof {
            assert(msg@ =~= invalid_reason_spec(output@));
        }
        return AIRunResult::InvalidOutput(msg);
    }
    let x = (x_char as u32 - 'a' as u32) as isize;
    let y = (y_char as u32 - '1' as u32) as isize;
    let mv = Vec2::new(x, y);
    if nls == 1 {
        proof {
            lemma_first_nl_lt(t@);
        }
        let line2 = trim_str(t.substring_char(i1 + 1, len_t));
        AIRunResult::Success(mv, Some(line2.to_owned()))
    } else {
        AIRunResult::Success(mv, None)
    }
}


/// The token naming any on-board square decodes back to exactly that
/// square: the encode/decode round trip holds over the whole 8x8 token
/// space.
pub proof fn lemma_move_token_round_trip(v: Vec2)
    requires
        v.in_board_spec(),
    ensures
        move_line_ok(move_token_spec(v)),
        decode_move_spec(move_token_spec(v)) == v,
{
    let t = move_token_spec(v);
    assert(t.len() == 2);
    assert(t[0] == crate::othello::col_char_spec(v.x as int));
    assert(t[1] == crate::othello::row_char_spec(v.y as int));
}

/// A bare move token, taken as a whole agent response, is classified as
/// well formed, decodes to its square, and carries no note.
pub proof fn lemma_output_round_trip(v: Vec2)
    requires
        v.in_board_spec(),
    ensures
        output_ok(move_token_spec(v)),
        output_move(move_token_spec(v)) == v,
        output_note(move_token_spec(v)) is None,
{
    let t = move_token_spec(v);
    lemma_move_token_round_trip(v);
    assert(!is_ws_char(t[0]) && !is_ws_char(t[1]));
    assert(t.last() == t[1]);
    lemma_trim_of_clean(t);
    assert(nl_count(t) == 0) by {
        assert(t[0] != '\n' && t.drop_first()[0] != '\n');
        assert(t.drop_first().drop_first() =~= Seq::<char>::empty());
        assert(nl_count(Seq::<char>::empty()) == 0);
        assert(nl_count(t.drop_first()) == (if t.drop_first()[0] == '\n' {
            1int
        } else {
            0int
        }) + nl_count(t.drop_first().drop_first()));
        assert(nl_count(t) == (if t[0] == '\n' {
            1int
        } else {
            0int
        }) + nl_count(t.drop_first()));
    }
    lemma_first_nl_at(t, 2);
    assert(t.take(2) =~= t);
    assert(first_line_spec(t) == t);
}

/// The engine's record of one outstanding agent request: the request that
/// was written, and the deadline in milliseconds. The host owns the
/// process itself and reports observations of it.
#[derive(Debug)]
pub struct AIRunHandle {
    /// The deadline for this request, in milliseconds.
    pub time_limit: u64,
    /// The exact request that was sent, kept for diagnostics.
    pub input: String,
}

impl AIRunHandle {
    /// Classify one observation of the agent process: still within its
    /// deadline, timed out, crashed, undecodable, or a decoded move.
    pub fn check(&self, obs: ProcStatus) -> (r: AIRunResult)
        ensures
            match obs {
                ProcStatus::Running { elapsed_ms } => r == (if elapsed_ms > self.time_limit {
                    AIRunResult::TimeOut
                } else {
                    AIRunResult::Running
                }),
                ProcStatus::Exited { code, ref stdout, ref stderr } => {
                    if code != 0 {
                        r matches AIRunResult::RuntimeError { status, stderr: ref e } && status
                            == code && e@ == stderr@
                    } else {
                        (output_ok(stdout@) ==> (match r {
                            AIRunResult::Success(mv, ref note) => {
                                &&& mv == output_move(stdout@)
                                &&& match (note, output_note(stdout@)) {
                                    (Some(n), Some(sn)) => n@ == sn,
                                    (None, None) => true,
                                    _ => false,
                                }
                            },
                            _ => false,
                        })) && (!output_ok(stdout@) ==> (r matches AIRunResult::InvalidOutput(
                            ref m,
                        ) && m@ == invalid_reason_spec(stdout@)))
                    }
                },
            },
    {
        match obs {
            ProcStatus::Running { elapsed_ms } => {
                if elapsed_ms > self.time_limit {
                    AIRunResult::TimeOut
                } else {
                    AIRunResult::Running
                }
            },
            ProcStatus::Exited { code, stdout, stderr } => {
                self.handle_finished_child(code, stdout, stderr)
            },
        }
    }

    /// Classify an exited agent process: non-zero exit carries its
    /// standard error; clean exit is decoded from its standard output.
    pub fn handle_finished_child(&self, status: i32, stdout: String, stderr: String) -> (r:
        AIRunResult)
        ensures
            status != 0 ==> (r matches AIRunResult::RuntimeError { status: st, stderr: ref e } && st
                == status && e@ == stderr@),
            status == 0 && output_ok(stdout@) ==> (match r {
                AIRunResult::Success(mv, ref note) => {
                    &&& mv == output_move(stdout@)
                    &&& match (note, output_note(stdout@)) {
                        (Some(n), Some(sn)) => n@ == sn,
                        (None, None) => true,
                        _ => false,
                    }
                },
                _ => false,
            }),
            status == 0 && !output_ok(stdout@) ==> (r matches AIRunResult::InvalidOutput(ref m)
                && m@ == invalid_reason_spec(stdout@)),
    {
        if status != 0 {
            return AIRunResult::RuntimeError { status, stderr };
        }
        parse_agent_output(stdout.as_str())
    }
}

/// The tokens of `ms`, separated by single spaces.
pub open spec fn joined_tokens_spec(ms: Seq<Vec2>) -> Seq<char>
    decreases ms.len(),
{
    if ms.len() == 0 {
        Seq::empty()
    } else if ms.len() == 1 {
        move_token_spec(ms[0])
    } else {
        move_token_spec(ms[0]) + seq![' '] + joined_tokens_spec(ms.drop_first())
    }
}

proof fn lemma_joined_push(ms: Seq<Vec2>, v: Vec2)
    ensures
        joined_tokens_spec(ms.push(v)) == (if ms.len() == 0 {
            move_token_spec(v)
        } else {
            joined_tokens_spec(ms) + seq![' '] + move_token_spec(v)
        }),
    decreases ms.len(),
{
    let w = ms.push(v);
    assert(w.len() == ms.len() + 1);
    if ms.len() == 0 {
        assert(w[0] == v);
    } else {
        assert(w[0] == ms[0]);
        assert(w.drop_first() =~= ms.drop_first().push(v));
        lemma_joined_push(ms.drop_first(), v);
        if ms.len() == 1 {
            assert(joined_tokens_spec(w) =~= joined_tokens_spec(ms) + seq![' '] + move_token_spec(
                v,
            ));
        } else {
            assert(joined_tokens_spec(w) =~= joined_tokens_spec(ms) + seq![' '] + move_token_spec(
                v,
            ));
        }
    }
}

/// The request an agent receives for `p` under a `time_limit` (in
/// milliseconds): the encoded board with the mover's token, the time
/// limit, and the count and tokens of the valid moves, one line each.
pub open spec fn request_spec(p: Pos, time_limit: u64) -> Seq<char> {
    board_chars_spec(p.board) + seq![tile_char_spec(p.next_player)] + seq!['\n'] + dec_spec(
        time_limit as int,
    ) + seq!['\n'] + dec_spec(valid_moves_spec(p).len() as int) + seq![' '] + joined_tokens_spec(
        valid_moves_spec(p),
    ) + seq!['\n']
}

/// The diagnostic context every failure report carries: which agent
/// failed, and the exact request it was given — enough to reproduce the
/// failure offline.
pub open spec fn debug_info_spec(path: Seq<char>, pos: Pos, time_limit: u64) -> Seq<char> {
    "For '"@ + path + "' the input was\n"@ + request_spec(pos, time_limit)
}

/// What one poll of an agent guarantees: identity preserved, a decoded
/// move re-validated against the current position, waiting while the
/// deadline has not passed, and a failure for a timeout, a crash, an
/// undecodable output or an illegal move.
pub open spec fn ai_update_ensures(a0: AI, a1: AI, pos: Pos, obs: ProcStatus, r: UpdateResult) -> bool {
    &&& a1.path == a0.path
    &&& a1.time_limit == a0.time_limit
    &&& (r matches UpdateResult::Moved { mv, .. } ==> is_valid_move_spec(pos, mv))
    &&& match obs {
        ProcStatus::Running { elapsed_ms } => {
            if elapsed_ms > a0.ai_run_handle->Some_0.time_limit {
                (r matches UpdateResult::Fail { report } && report@ == "AI program exceeded time limit\n"@
                    + debug_info_spec(a0.path@, pos, a0.time_limit)) && a1 == a0
            } else {
                (r is Wait) && a1 == a0
            }
        },
        ProcStatus::Exited { code, stdout, stderr } => {
            if code != 0 {
                (r matches UpdateResult::Fail { report } && report@
                    == "AI program exit code was non-zero: "@ + signed_dec_spec(code as int)
                    + "\nstderr:\n"@ + stderr@ + "\n"@ + debug_info_spec(
                    a0.path@,
                    pos,
                    a0.time_limit,
                )) && a1 == a0
            } else if !output_ok(stdout@) {
                (r matches UpdateResult::Fail { report } && report@ == "Error reading AI move: "@
                    + invalid_reason_spec(stdout@) + "\n"@ + debug_info_spec(
                    a0.path@,
                    pos,
                    a0.time_limit,
                )) && a1 == a0
            } else {
                &&& a1.ai_run_handle is None
                &&& if is_valid_move_spec(pos, output_move(stdout@)) {
                    r matches UpdateResult::Moved { mv, notes } && mv == output_move(stdout@)
                        && notes@ == (match output_note(stdout@) {
                        Some(n) => n,
                        None => "no notes provided"@,
                    })
                } else {
                    r matches UpdateResult::Fail { report } && report@
                        == "Invalid move played by AI: "@ + move_token_spec(output_move(stdout@))
                        + "\n"@ + debug_info_spec(a0.path@, pos, a0.time_limit)
                }
            }
        },
    }
}

/// One agent program: where it lives, how long it may think, and its
/// outstanding request if one is in flight.
#[derive(Debug)]
pub struct AI {
    /// Path of the agent executable, as given on the command line.
    pub path: String,
    /// The wall-clock deadline per move, in milliseconds.
    pub time_limit: u64,
    /// The outstanding request, while one is in flight.
    pub ai_run_handle: Option<AIRunHandle>,
}

impl AI {
    /// An agent with no request outstanding.
    pub fn new(path: String, time_limit: u64) -> (a: AI)
        ensures
            a.path == path,
            a.time_limit == time_limit,
            a.ai_run_handle is None,
    {
        AI { path, time_limit, ai_run_handle: None }
    }

    /// The request this agent receives for `pos`.
    pub fn input(&self, pos: &Pos) -> (r: String)
        requires
            pos.wf(),
        ensures
            r@ == request_spec(*pos, self.time_limit),
    {
        proof {
            reveal_strlit("\n");
            reveal_strlit(" ");
        }
        let valid_moves = pos.valid_moves();
        let mut s = pos.board.board_string();
        s.append(tile_str(pos.next_player));
        s.append("\n");
        s.append(u64_string(self.time_limit).as_str());
        s.append("\n");
        s.append(usize_string(valid_moves.len()).as_str());
        s.append(" ");
        let ghost base = s@;
        let mut i: usize = 0;
        while i < valid_moves.len()
            invariant
                i <= valid_moves.len(),
                s@ == base + joined_tokens_spec(valid_moves@.take(i as int)),
            decreases valid_moves.len() - i,
        {
            if i > 0 {
                s.append(" ");
            }
            proof {
                assert(valid_moves@[i as int].in_board_spec()) by {
                    assert(valid_moves@.contains(valid_moves@[i as int]));
                    lemma_valid_moves_membership(*pos, valid_moves@[i as int]);
                }
            }
            let token = valid_moves[i].move_string();
            s.append(token.as_str());
            proof {
                lemma_joined_push(valid_moves@.take(i as int), valid_moves@[i as int]);
                assert(valid_moves@.take(i as int).push(valid_moves@[i as int]) =~= valid_moves@
                    .take(i as int + 1));
                assert(s@ =~= base + joined_tokens_spec(valid_moves@.take(i as int + 1)));
            }
            i += 1;
        }
        s.append("\n");
        proof {
            assert(valid_moves@.take(valid_moves@.len() as int) =~= valid_moves@);
            assert(s@ =~= request_spec(*pos, self.time_limit));
        }
        s
    }

    /// Issue a request for `pos`: record it with its deadline and hand
    /// the host the spawn order.
    pub fn run(&mut self, pos: &Pos) -> (req: SpawnRequest)
        requires
            pos.wf(),
        ensures
            final(self).path == old(self).path,
            final(self).time_limit == old(self).time_limit,
            final(self).ai_run_handle matches Some(h) && h.time_limit == old(self).time_limit
                && h.input@ == request_spec(*pos, old(self).time_limit),
            req.path == old(self).path,
            req.input@ == request_spec(*pos, old(self).time_limit),
    {
        let input = self.input(pos);
        let request = SpawnRequest { path: self.path.clone(), input: input.clone() };
        self.ai_run_handle = Some(AIRunHandle { time_limit: self.time_limit, input });
        request
    }

    /// Start a turn: issue the request for `pos`.
    pub fn init(&mut self, pos: &Pos) -> (req: SpawnRequest)
        requires
            pos.wf(),
        ensures
            final(self).path == old(self).path,
            final(self).time_limit == old(self).time_limit,
            final(self).ai_run_handle matches Some(h) && h.time_limit == old(self).time_limit
                && h.input@ == request_spec(*pos, old(self).time_limit),
            req.path == old(self).path,
            req.input@ == request_spec(*pos, old(self).time_limit),
    {
        self.run(pos)
    }

    /// Abandon the outstanding request, if any; reports whether the host
    /// must kill a process.
    pub fn interrupt(&mut self) -> (kill: bool)
        ensures
            final(self).path == old(self).path,
            final(self).time_limit == old(self).time_limit,
            final(self).ai_run_handle is None,
            kill == (old(self).ai_run_handle is Some),
    {
        let had = self.ai_run_handle.is_some();
        self.ai_run_handle = None;
        had
    }

    /// A copy of this agent, possible only while no request is in flight.
    pub fn try_clone(&self) -> (r: Result<AI, String>)
        ensures
            self.ai_run_handle is None ==> (r matches Ok(a) && a.path@ == self.path@ && a.time_limit
                == self.time_limit && a.ai_run_handle is None),
            self.ai_run_handle is Some ==> r is Err,
    {
        match self.ai_run_handle {
            None => Ok(AI { path: self.path.clone(), time_limit: self.time_limit, ai_run_handle: None }),
            Some(_) => Err(String::from_str("Unable to clone ran AI")),
        }
    }

    /// The agent's name: the path it was started from.
    pub fn name(&self) -> (r: String)
        ensures
            r@ == self.path@,
    {
        self.path.clone()
    }

    /// Poll the outstanding request once, classifying the host's
    /// observation `obs` and re-validating a decoded move against `pos`.
    pub fn update(&mut self, pos: &Pos, obs: ProcStatus) -> (r: UpdateResult)
        requires
            pos.wf(),
            old(self).ai_run_handle is Some,
        ensures
            ai_update_ensures(*old(self), *final(self), *pos, obs, r),
    {
        let ghost obs0 = obs;
        let res = match &self.ai_run_handle {
            Some(h) => h.check(obs),
            None => AIRunResult::Running,
        };
        match res {
            AIRunResult::Running => UpdateResult::Wait,
            AIRunResult::InvalidOutput(err) => {
                let mut report = String::from_str("Error reading AI move: ");
                report.append(err.as_str());
                report.append("\n");
                report.append(self.debug_info(pos).as_str());
                UpdateResult::Fail { report }
            },
            AIRunResult::RuntimeError { status, stderr } => {
                let mut report = String::from_str("AI program exit code was non-zero: ");
                report.append(i64_string(status as i64).as_str());
                report.append("\nstderr:\n");
                report.append(stderr.as_str());
                report.append("\n");
                report.append(self.debug_info(pos).as_str());
                UpdateResult::Fail { report }
            },
            AIRunResult::TimeOut => {
                let mut report = String::from_str("AI program exceeded time limit\n");
                report.append(self.debug_info(pos).as_str());
                UpdateResult::Fail { report }
            },
            AIRunResult::Success(mv, notes) => {
                proof {
                    match obs0 {
                        ProcStatus::Exited { code, stdout, .. } => {
                            assert(output_ok(stdout@));
                            assert(mv == output_move(stdout@));
                            assert(move_line_ok(first_line_spec(trim_spec(stdout@))));
                            assert(mv.in_board_spec());
                        },
                        ProcStatus::Running { .. } => {
                            assert(false);
                        },
                    }
                }
                self.ai_run_handle = None;
                if pos.is_valid_move(mv) {
                    UpdateResult::Moved {
                        mv,
                        notes: match notes {
                            Some(n) => n,
                            None => String::from_str("no notes provided"),
                        },
                    }
                } else {
                    let mut report = String::from_str("Invalid move played by AI: ");
                    report.append(mv.move_string().as_str());
                    report.append("\n");
                    report.append(self.debug_info(pos).as_str());
                    UpdateResult::Fail { report }
                }
            },
        }
    }

    /// Diagnostic context for a failure report: which agent, and the
    /// exact request it was given.
    pub fn debug_info(&self, pos: &Pos) -> (r: String)
        requires
            pos.wf(),
        ensures
            r@ == debug_info_spec(self.path@, *pos, self.time_limit),
    {
        let mut s = String::from_str("For '");
        s.append(self.path.as_str());
        s.append("' the input was\n");
        s.append(self.input(pos).as_str());
        s
    }
}

} // verus!
