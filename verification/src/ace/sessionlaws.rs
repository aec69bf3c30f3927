//! How the commands of a session relate to each other and to the engine.

use vstd::prelude::*;

use crate::ace::convert::{is_ace_move, lemma_move_round_trip, to_ace, to_board};
use crate::ace::daemon::{obeyed, Answer, Cmd, Daemon};
use crate::ace::eval::NetInput;
use crate::ace::game::{AceGame, AceState, ACE_NO_MOVE};
use crate::ace::replay::{
    lemma_replay_in_parts, replayed, start_state, word_move, Replay, MAX_GAME_LENGTH,
};
use crate::ace::session::{
    bestmove_text, lemma_one_more, lemma_same_names, Action, Fault, SessionState, Span,
};
use crate::util::notation::{lemma_name_means, move_chars};

verus! {

/// A move that the session can play now.
pub open spec fn can_go_on(s: AceState, m: i16) -> bool {
    is_ace_move(m) && s.playable(m) && s.hist.len() < MAX_GAME_LENGTH && s.winner_spec() < 0
}

/// The commands are different words.
proof fn lemma_commands_differ()
    ensures
        "position"@ != "reset"@,
        "makemove"@ != "reset"@ && "makemove"@ != "position"@,
        "go"@ != "reset"@ && "go"@ != "position"@ && "go"@ != "makemove"@,
        "stop"@ != "reset"@ && "stop"@ != "position"@ && "stop"@ != "makemove"@ && "stop"@ != "go"@,
        "ponderhit"@ != "reset"@ && "ponderhit"@ != "position"@ && "ponderhit"@ != "makemove"@
            && "ponderhit"@ != "go"@ && "ponderhit"@ != "stop"@,
        "movemiss"@ != "reset"@ && "movemiss"@ != "position"@ && "movemiss"@ != "makemove"@
            && "movemiss"@ != "go"@ && "movemiss"@ != "stop"@ && "movemiss"@ != "ponderhit"@,
        "quit"@ != "reset"@ && "quit"@ != "position"@ && "quit"@ != "makemove"@ && "quit"@ != "go"@
            && "quit"@ != "stop"@ && "quit"@ != "ponderhit"@ && "quit"@ != "movemiss"@,
{
    reveal_strlit("reset");
    reveal_strlit("position");
    reveal_strlit("makemove");
    reveal_strlit("go");
    reveal_strlit("stop");
    reveal_strlit("ponderhit");
    reveal_strlit("movemiss");
    reveal_strlit("quit");
    assert("position"@[0] == 'p' && "makemove"@[0] == 'm' && "movemiss"@[1] == 'o');
    assert("reset"@[0] == 'r' && "go"@[0] == 'g' && "ponderhit"@[0] == 'p');
    assert("ponderhit"@[2] == 'n' && "position"@[2] == 's');
    assert("makemove"@[1] == 'a' && "movemiss"@[0] == 'm' && "stop"@[0] == 's' && "quit"@[0] == 'q');
}

/// The name of a move that can be played means that move.
pub proof fn lemma_name_plays_the_move(s: AceState, m: i16)
    requires
        is_ace_move(m),
        s.playable(m),
        s.hist.len() < MAX_GAME_LENGTH,
    ensures
        word_move(s, move_chars(to_board(m))) == Some(m),
{
    lemma_move_round_trip(to_board(m), m);
    lemma_name_means(to_board(m));
}

/// After a ponderhit the pondered move is played: the session is where `makemove`
/// with its name would have led, at the position after the move, with the name at
/// the end of its list and nothing left to ponder on.
pub proof fn lemma_ponderhit_plays_the_move(
    st: SessionState,
    list: Seq<Seq<char>>,
    times: Seq<Option<Span>>,
)
    requires
        st.ponder != ACE_NO_MOVE,
        can_go_on(st.s, st.ponder),
    ensures
        ({
            let name = move_chars(to_board(st.ponder));
            let hit = st.step(true, "ponderhit"@, list, times).0;
            &&& hit == st.step(true, "makemove"@, seq![name], times).0
            &&& hit.s == st.s.after(st.ponder)
            &&& hit.applied == st.applied.push(name)
            &&& hit.ponder == ACE_NO_MOVE
        }),
{
    lemma_commands_differ();
    lemma_name_plays_the_move(st.s, st.ponder);
    assert(seq![move_chars(to_board(st.ponder))][0] == move_chars(to_board(st.ponder)));
}

/// A ponderhit with nothing pondered on leaves the session as it is.
pub proof fn lemma_ponderhit_without_move(
    st: SessionState,
    list: Seq<Seq<char>>,
    times: Seq<Option<Span>>,
)
    requires
        st.ponder == ACE_NO_MOVE,
    ensures
        st.step(true, "ponderhit"@, list, times).0 == st,
{
    lemma_commands_differ();
}

/// `go infinite` with a move ponders on it without playing it, and a ponderhit
/// then leaves session and engine at the same position: the engine played the
/// move when it began to ponder.
pub proof fn lemma_session_and_engine_ponder_alike<
    N: Fn(NetInput) -> i32,
    D: Fn(i32, u32) -> i32,
>(
    net: N,
    decay: D,
    st: SessionState,
    d: Daemon,
    name: Seq<char>,
    reading: Option<u128>,
    e: Daemon,
    a: Answer,
    list: Seq<Seq<char>>,
    times: Seq<Option<Span>>,
)
    requires
        d.search.g@ == st.s,
        !d.pondering,
        st.s.winner_spec() < 0,
        name.len() > 0,
        word_move(st.s, name) is Some,
        obeyed(
            net,
            decay,
            d,
            Cmd::GoInfinite(word_move(st.s, name)->0),
            reading,
            e,
            a,
        ),
    ensures
        ({
            let m = word_move(st.s, name)->0;
            let (on, action) = st.step(true, "go"@, seq!["infinite"@, name], times);
            let hit = on.step(true, "ponderhit"@, list, times).0;
            &&& action == Action::Ponder(m)
            &&& on == (SessionState { ponder: m, ..st })
            &&& hit.s == e.search.g@
            &&& hit.s == st.s.after(m)
        }),
{
    lemma_commands_differ();
    let m = word_move(st.s, name)->0;
    let list2 = seq!["infinite"@, name];
    assert(list2[0] == "infinite"@ && list2[1] == name && list2.len() == 2);
    lemma_word_is_move(st.s, name);
    lemma_ponderhit_plays_the_move(SessionState { ponder: m, ..st }, list, times);
}

/// The move of a name is one that can be played.
proof fn lemma_word_is_move(s: AceState, name: Seq<char>)
    requires
        word_move(s, name) is Some,
    ensures
        is_ace_move(word_move(s, name)->0),
        s.playable(word_move(s, name)->0),
        s.hist.len() < MAX_GAME_LENGTH,
        word_move(s, name)->0 != ACE_NO_MOVE,
{
    let mv = crate::position::board::Board::algebraic_move(vstd::utf8::encode_utf8(name))->0;
    lemma_move_round_trip(mv, to_ace(mv));
}

/// A movemiss plays the move that it names, as `makemove` does, and the engine
/// that gets the session's game searches that position.
pub proof fn lemma_movemiss_plays_the_move<N: Fn(NetInput) -> i32, D: Fn(i32, u32) -> i32>(
    net: N,
    decay: D,
    st: SessionState,
    d: Daemon,
    list: Seq<Seq<char>>,
    times: Seq<Option<Span>>,
    game: AceGame,
    time_ms: u64,
    reading: Option<u128>,
    e: Daemon,
    a: Answer,
)
    requires
        list.len() > 0,
        st.s.winner_spec() < 0,
        word_move(st.s, list[0]) is Some,
        game@ == st.step(true, "movemiss"@, list, times).0.s,
        obeyed(net, decay, d, Cmd::MoveMiss { new_game: game, time_ms }, reading, e, a),
    ensures
        ({
            let miss = st.step(true, "movemiss"@, list, times).0;
            &&& miss == st.step(true, "makemove"@, list, times).0
            &&& miss.s == st.s.after(word_move(st.s, list[0])->0)
            &&& miss.applied == st.applied.push(list[0])
            &&& e.search.g@ == miss.s
            &&& !e.pondering
        }),
{
    lemma_commands_differ();
}

/// `makemove` plays the move that it names, and the list grows by the name.
pub proof fn lemma_makemove_plays_the_move(
    st: SessionState,
    ponders: bool,
    list: Seq<Seq<char>>,
    times: Seq<Option<Span>>,
)
    requires
        list.len() > 0,
        st.s.winner_spec() < 0,
        word_move(st.s, list[0]) is Some,
    ensures
        ({
            let (t, a) = st.step(ponders, "makemove"@, list, times);
            &&& a == Action::Ready
            &&& t.s == st.s.after(word_move(st.s, list[0])->0)
            &&& t.applied == st.applied.push(list[0])
            &&& t.ponder == ACE_NO_MOVE
            &&& t.s.turn == 1 - st.s.turn
        }),
{
    lemma_commands_differ();
}

/// `makemove` leads where `position` with one more name leads.
pub proof fn lemma_makemove_is_one_more_name(
    st: SessionState,
    ponders: bool,
    name: Seq<char>,
    times: Seq<Option<Span>>,
)
    requires
        st.in_sync(),
        st.s.winner_spec() < 0,
        word_move(st.s, name) is Some,
        st.applied.len() < usize::MAX,
    ensures
        st.step(ponders, "makemove"@, seq![name], times).0 == st.step(
            ponders,
            "position"@,
            st.applied.push(name),
            times,
        ).0,
        st.step(ponders, "position"@, st.applied.push(name), times).1 == Action::ReadyCount(
            (st.applied.len() + 1) as usize,
        ),
{
    lemma_commands_differ();
    let m = word_move(st.s, name)->0;
    let more = st.applied.push(name);
    let n = st.applied.len() as int;
    assert(seq![name][0] == name);
    lemma_one_more(st, name, m);
    lemma_same_names(st.applied, more, n);
    assert(more.subrange(0, n) =~= st.applied);
    if st.extended_by(more) {
        assert(replayed(st.s, more, n, n) == Replay::At(st.s));
        assert(more[n] == name);
        assert(replayed(st.s, more, n, n + 1) == Replay::At(st.s.after(m)));
    } else {
        assert(st.applied.is_prefix_of(more));
        assert(n == 0);
    }
}

/// Where `position` leads does not depend on what was played before: it is where
/// the names lead from the start, and the list is theirs.
pub proof fn lemma_position_forgets(
    st: SessionState,
    ponders: bool,
    list: Seq<Seq<char>>,
    times: Seq<Option<Span>>,
)
    requires
        st.in_sync(),
        list.len() <= usize::MAX,
        st.step(ponders, "position"@, list, times).1 is ReadyCount,
    ensures
        ({
            let (t, a) = st.step(ponders, "position"@, list, times);
            &&& a == Action::ReadyCount(list.len() as usize)
            &&& t.applied == list
            &&& t.ponder == ACE_NO_MOVE
            &&& replayed(start_state(), list, 0, list.len() as int) == Replay::At(t.s)
        }),
{
    lemma_commands_differ();
    if st.extended_by(list) {
        let k = st.applied.len() as int;
        assert forall|i: int| 0 <= i < k implies #[trigger] st.applied[i] == list[i] by {
            assert(list.subrange(0, k)[i] == st.applied[i]);
        }
        lemma_same_names(st.applied, list, k);
        lemma_replay_in_parts(start_state(), list, k, list.len() as int, st.s);
    }
}

/// `reset` leads to the start, whatever was before.
pub proof fn lemma_reset_starts_over(
    st: SessionState,
    ponders: bool,
    list: Seq<Seq<char>>,
    times: Seq<Option<Span>>,
)
    ensures
        ({
            let (t, a) = st.step(ponders, "reset"@, list, times);
            &&& t == (SessionState {
                s: start_state(),
                applied: Seq::empty(),
                ponder: ACE_NO_MOVE,
            })
            &&& a == Action::Ready
            &&& t.in_sync()
        }),
{
}

/// Commands that ask the engine or are refused play no move.
pub proof fn lemma_asking_plays_nothing(
    st: SessionState,
    ponders: bool,
    command: Seq<char>,
    list: Seq<Seq<char>>,
    times: Seq<Option<Span>>,
)
    requires
        ({
            let a = st.step(ponders, command, list, times).1;
            a is Think || a is Ponder || a is Stop || a is Quit || (command != "position"@ && (a
                is Fault || a is Unplayable))
        }),
    ensures
        st.step(ponders, command, list, times).0.s == st.s,
        st.step(ponders, command, list, times).0.applied == st.applied,
{
}

/// A finished game takes no search and no move: `go` and `makemove` with a name
/// are refused exactly where the game is over, and change nothing.
pub proof fn lemma_finished_game_is_refused(
    st: SessionState,
    ponders: bool,
    list: Seq<Seq<char>>,
    times: Seq<Option<Span>>,
)
    ensures
        st.step(ponders, "go"@, list, times).1 == Action::Fault(Fault::Over) <==> st.s.winner_spec()
            >= 0,
        list.len() > 0 ==> (st.step(ponders, "makemove"@, list, times).1 == Action::Fault(
            Fault::Over,
        ) <==> st.s.winner_spec() >= 0),
        st.s.winner_spec() >= 0 ==> st.step(ponders, "go"@, list, times).0 == st && st.step(
            ponders,
            "makemove"@,
            list,
            times,
        ).0 == st,
{
    lemma_commands_differ();
}

/// Times: `go` takes its first word in seconds, or four seconds; `ponderhit` its
/// first and `movemiss` its second in milliseconds, or five seconds.
pub proof fn lemma_times_of_commands(
    st: SessionState,
    list: Seq<Seq<char>>,
    times: Seq<Option<Span>>,
)
    requires
        st.s.winner_spec() < 0,
        list.len() > 0 ==> list[0] != "infinite"@,
    ensures
        st.step(true, "go"@, list, times).1 == Action::Think(
            if times.len() > 0 && times[0] is Some {
                times[0]->0.of_seconds
            } else {
                4000
            },
        ),
        st.step(true, "ponderhit"@, list, times).1 == Action::PonderHit(
            if times.len() > 0 && times[0] is Some {
                times[0]->0.of_millis
            } else {
                5000
            },
        ),
        list.len() > 0 && word_move(st.s, list[0]) is Some ==> st.step(
            true,
            "movemiss"@,
            list,
            times,
        ).1 == Action::MoveMiss(
            if times.len() > 1 && times[1] is Some {
                times[1]->0.of_millis
            } else {
                5000
            },
        ),
{
    lemma_commands_differ();
}

/// The line that tells a move ends with its name: read back, it is the move.
pub proof fn lemma_bestmove_reads_back(s: AceState, m: i16)
    requires
        is_ace_move(m),
        s.playable(m),
        s.hist.len() < MAX_GAME_LENGTH,
    ensures
        bestmove_text(m).len() > 9,
        word_move(s, bestmove_text(m).subrange(9, bestmove_text(m).len() as int)) == Some(m),
        bestmove_text(m).subrange(0, 9) == "bestmove "@,
        bestmove_text(ACE_NO_MOVE) == "bestmove (none)"@,
{
    reveal_strlit("bestmove ");
    let name = move_chars(to_board(m));
    lemma_name_plays_the_move(s, m);
    let text = "bestmove "@ + name;
    assert(text.subrange(9, text.len() as int) =~= name);
    assert(text.subrange(0, 9) =~= "bestmove "@);
    lemma_move_round_trip(to_board(m), m);
    assert(name.len() > 0);
}

} // verus!
