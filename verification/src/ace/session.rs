//! The line protocol of a game: which command does what to the game, and what
//! the engine is asked.

use vstd::prelude::*;

use crate::ace::convert::{is_ace_move, lemma_move_round_trip, to_board};
use crate::ace::game::{AceGame, AceState, ACE_NO_MOVE};
use crate::ace::replay::{
    can_play, lemma_replay_in_parts, names, open_game, play_open, read_move, replay_onto, replayed,
    start_game, start_state, word_move, Outcome, Replay, MAX_GAME_LENGTH,
};
use crate::util::notation::{ace_to_algebraic, lemma_name_means, move_chars};
use crate::util::text::{decimal, push_decimal, push_text, same_text};

verus! {

/// Time for a search that is given none, in milliseconds.
pub const DEFAULT_GO_MS: u64 = 4000;

/// Time after pondering that is given none, in milliseconds.
pub const DEFAULT_HIT_MS: u64 = 5000;

/// A word that is a number, as a time in milliseconds: the number taken as
/// seconds, and taken as milliseconds. No time is shorter than one.
#[derive(Debug, Clone, Copy, PartialEq, Eq, Structural)]
pub struct Span {
    pub of_seconds: u64,
    pub of_millis: u64,
}

/// What a command counts its time in: `go` in seconds, `ponderhit` and
/// `movemiss` in milliseconds.
#[derive(Debug, Clone, Copy, PartialEq, Eq, Structural)]
pub enum Unit {
    Seconds,
    Millis,
}

/// Why a command is refused.
#[derive(Debug, Clone, Copy, PartialEq, Eq, Structural)]
pub enum Fault {
    /// The game was over before the move of this index.
    Past(usize),
    /// No move was given.
    NoMove,
    /// No move was given to `movemiss`.
    NoMiss,
    /// The game is over.
    Over,
    /// There is no such command.
    Unknown,
}

/// What follows from a command.
#[derive(Debug, Clone, Copy, PartialEq, Eq, Structural)]
pub enum Action {
    /// The engine gets the game; `ready` is the answer.
    Ready,
    /// The same, with the number of moves.
    ReadyCount(usize),
    Fault(Fault),
    /// The engine searches for this many milliseconds.
    Think(u64),
    /// The engine ponders after this move.
    Ponder(i16),
    /// The engine stops pondering.
    Stop,
    /// The pondered move was played; the engine searches.
    PonderHit(u64),
    /// Another move was played; the engine gets the game and searches.
    MoveMiss(u64),
    Quit,
    /// The name of this index means no move that can be played.
    Unplayable(usize),
}

/// A game under the protocol.
pub struct Session {
    pub game: AceGame,
    /// The names of the moves.
    pub applied: Vec<String>,
    /// The move the engine ponders on, if any.
    pub ponder: i16,
    /// Whether the engine can ponder.
    pub ponders: bool,
}

/// What the protocol speaks about.
#[verifier::ext_equal]
pub struct SessionState {
    pub s: AceState,
    pub applied: Seq<Seq<char>>,
    pub ponder: i16,
}

impl SessionState {
    /// The state with another game and no pondering.
    pub open spec fn at(self, s: AceState, applied: Seq<Seq<char>>) -> SessionState {
        SessionState { s, applied, ponder: ACE_NO_MOVE }
    }

    /// A list of names goes on from the moves played.
    pub open spec fn extended_by(self, list: Seq<Seq<char>>) -> bool {
        self.applied.len() > 0 && self.applied.is_prefix_of(list)
    }

    /// `position`: what is new is played; a list that does not go on from the
    /// moves played is played from the start.
    pub open spec fn position(self, list: Seq<Seq<char>>) -> (SessionState, Action) {
        let k = if self.extended_by(list) {
            self.applied.len() as int
        } else {
            0
        };
        let base = if self.extended_by(list) {
            self.s
        } else {
            start_state()
        };
        let kept = |i: int| -> SessionState {
            if self.extended_by(list) {
                let t = replayed(base, list, k, i)->At_0;
                SessionState { s: t, ponder: still(t, self.ponder), ..self }
            } else {
                self
            }
        };
        match replayed(base, list, k, list.len() as int) {
            Replay::At(t) => (self.at(t, list), Action::ReadyCount(list.len() as usize)),
            Replay::Past(i) => (kept(i), Action::Fault(Fault::Past(i as usize))),
            Replay::Unplayable(i) => (kept(i), Action::Unplayable(i as usize)),
        }
    }

    /// `makemove`.
    pub open spec fn makemove(self, list: Seq<Seq<char>>) -> (SessionState, Action) {
        if list.len() == 0 {
            (self, Action::Fault(Fault::NoMove))
        } else if self.s.winner_spec() >= 0 {
            (self, Action::Fault(Fault::Over))
        } else {
            match word_move(self.s, list[0]) {
                Some(m) => (
                    self.at(self.s.after(m), self.applied.push(list[0])),
                    Action::Ready,
                ),
                None => (self, Action::Unplayable(0)),
            }
        }
    }

    /// `go`.
    pub open spec fn go(self, ponders: bool, list: Seq<Seq<char>>, times: Seq<Option<Span>>) -> (
        SessionState,
        Action,
    ) {
        if self.s.winner_spec() >= 0 {
            (self, Action::Fault(Fault::Over))
        } else if ponders && list.len() > 0 && list[0] == "infinite"@ {
            if list.len() > 1 && list[1].len() > 0 {
                match word_move(self.s, list[1]) {
                    Some(m) => (SessionState { ponder: m, ..self }, Action::Ponder(m)),
                    None => (self, Action::Unplayable(1)),
                }
            } else {
                (SessionState { ponder: ACE_NO_MOVE, ..self }, Action::Ponder(ACE_NO_MOVE))
            }
        } else {
            (self, Action::Think(time_of(times, 0, Unit::Seconds, DEFAULT_GO_MS)))
        }
    }

    /// `ponderhit`: the pondered move, if any, is played.
    pub open spec fn ponderhit(self, times: Seq<Option<Span>>) -> (SessionState, Action) {
        let t = time_of(times, 0, Unit::Millis, DEFAULT_HIT_MS);
        if self.ponder == ACE_NO_MOVE {
            (self, Action::PonderHit(t))
        } else if self.s.winner_spec() >= 0 {
            (SessionState { ponder: ACE_NO_MOVE, ..self }, Action::PonderHit(t))
        } else {
            (
                self.at(
                    self.s.after(self.ponder),
                    self.applied.push(move_chars(to_board(self.ponder))),
                ),
                Action::PonderHit(t),
            )
        }
    }

    /// `movemiss`: another move is played.
    pub open spec fn movemiss(self, list: Seq<Seq<char>>, times: Seq<Option<Span>>) -> (
        SessionState,
        Action,
    ) {
        let t = time_of(times, 1, Unit::Millis, DEFAULT_HIT_MS);
        if list.len() == 0 {
            (self, Action::Fault(Fault::NoMiss))
        } else if self.s.winner_spec() >= 0 {
            (SessionState { ponder: ACE_NO_MOVE, ..self }, Action::MoveMiss(t))
        } else {
            match word_move(self.s, list[0]) {
                Some(m) => (
                    self.at(self.s.after(m), self.applied.push(list[0])),
                    Action::MoveMiss(t),
                ),
                None => (self, Action::Unplayable(0)),
            }
        }
    }

    /// What a command with its words does, and what follows. The times are the
    /// words read as durations, where they are such.
    pub open spec fn step(
        self,
        ponders: bool,
        command: Seq<char>,
        list: Seq<Seq<char>>,
        times: Seq<Option<Span>>,
    ) -> (SessionState, Action) {
        if command == "reset"@ {
            (self.at(start_state(), Seq::empty()), Action::Ready)
        } else if command == "position"@ {
            self.position(list)
        } else if command == "makemove"@ {
            self.makemove(list)
        } else if command == "go"@ {
            self.go(ponders, list, times)
        } else if command == "stop"@ && ponders {
            (self, Action::Stop)
        } else if command == "ponderhit"@ && ponders {
            self.ponderhit(times)
        } else if command == "movemiss"@ && ponders {
            self.movemiss(list, times)
        } else if command == "quit"@ {
            (self, Action::Quit)
        } else {
            (self, Action::Fault(Fault::Unknown))
        }
    }

    /// The game is the one that the names lead to.
    pub open spec fn in_sync(self) -> bool {
        replayed(start_state(), self.applied, 0, self.applied.len() as int) == Replay::At(self.s)
    }
}

/// A pondered move, if it can still be played.
pub open spec fn still(s: AceState, ponder: i16) -> i16 {
    if ponder != ACE_NO_MOVE && s.playable(ponder) && s.hist.len() < MAX_GAME_LENGTH {
        ponder
    } else {
        ACE_NO_MOVE
    }
}

/// The time of a word, if it is there and is one.
pub open spec fn time_of(times: Seq<Option<Span>>, i: int, unit: Unit, default: u64) -> u64 {
    if i < times.len() {
        match times[i] {
            Some(t) => match unit {
                Unit::Seconds => t.of_seconds,
                Unit::Millis => t.of_millis,
            },
            None => default,
        }
    } else {
        default
    }
}

fn time_at(times: &Vec<Option<Span>>, i: usize, unit: Unit, default: u64) -> (r: u64)
    ensures
        r == time_of(times@, i as int, unit, default),
{
    if i < times.len() {
        match times[i] {
            Some(t) => match unit {
                Unit::Seconds => t.of_seconds,
                Unit::Millis => t.of_millis,
            },
            None => default,
        }
    } else {
        default
    }
}

impl Session {
    pub open spec fn state(self) -> SessionState {
        SessionState { s: self.game@, applied: names(self.applied@), ponder: self.ponder }
    }

    /// The game can go on, and the pondered move can be played.
    pub open spec fn wf(self) -> bool {
        &&& open_game(self.game)
        &&& self.ponder == ACE_NO_MOVE || (is_ace_move(self.ponder) && self.game@.playable(
            self.ponder,
        ) && self.game@.hist.len() < MAX_GAME_LENGTH)
    }

    /// A new game.
    pub fn new(ponders: bool) -> (r: Self)
        ensures
            r.wf(),
            r.ponders == ponders,
            r.state() == (SessionState {
                s: start_state(),
                applied: Seq::empty(),
                ponder: ACE_NO_MOVE,
            }),
    {
        let r: Session = Session {
            game: start_game(),
            applied: Vec::new(),
            ponder: ACE_NO_MOVE,
            ponders,
        };
        assert(names(r.applied@) =~= Seq::<Seq<char>>::empty());
        r
    }

    /// Whether a list goes on from the moves played.
    fn extends(&self, list: &Vec<String>) -> (r: bool)
        ensures
            r == self.state().extended_by(names(list@)),
            r ==> self.applied@.len() <= list@.len(),
    {
        let n: usize = self.applied.len();
        if n == 0 || list.len() < n {
            return false;
        }
        let mut i: usize = 0;
        while i < n
            invariant
                i <= n <= list@.len(),
                n == self.applied@.len(),
                forall|j: int| 0 <= j < i ==> (#[trigger] self.applied@[j])@ == list@[j]@,
            decreases n - i,
        {
            if self.applied[i] != list[i] {
                proof {
                    assert(names(self.applied@)[i as int] != names(list@)[i as int]);
                    if names(self.applied@).is_prefix_of(names(list@)) {
                        assert(names(list@).subrange(0, n as int)[i as int] == names(
                            self.applied@,
                        )[i as int]);
                    }
                }
                return false;
            }
            i += 1;
        }
        proof {
            assert(names(list@).subrange(0, n as int) =~= names(self.applied@)) by {
                assert forall|j: int| 0 <= j < n implies names(list@)[j] == #[trigger] names(
                    self.applied@,
                )[j] by {
                    assert(self.applied@[j]@ == list@[j]@);
                }
            }
        }
        true
    }

    /// Takes over a list of names.
    fn take_over(&mut self, list: &Vec<String>)
        ensures
            final(self).game == old(self).game,
            final(self).ponders == old(self).ponders,
            final(self).ponder == ACE_NO_MOVE,
            names(final(self).applied@) == names(list@),
    {
        let mut all: Vec<String> = Vec::new();
        let mut i: usize = 0;
        while i < list.len()
            invariant
                i <= list@.len(),
                all@.len() == i,
                forall|j: int| 0 <= j < i ==> #[trigger] all@[j] == list@[j],
            decreases list@.len() - i,
        {
            all.push(list[i].clone());
            i += 1;
        }
        assert(names(all@) =~= names(list@));
        self.applied = all;
        self.ponder = ACE_NO_MOVE;
    }

    /// Keeps a pondered move that can still be played.
    fn restore(&mut self, ponder: i16)
        requires
            open_game(old(self).game),
            ponder == ACE_NO_MOVE || is_ace_move(ponder),
        ensures
            final(self).wf(),
            final(self).ponder == still(old(self).game@, ponder),
            final(self).game == old(self).game,
            final(self).applied == old(self).applied,
            final(self).ponders == old(self).ponders,
    {
        if ponder != ACE_NO_MOVE && self.game.hist_len() < MAX_GAME_LENGTH && can_play(
            &self.game,
            ponder,
        ) {
            self.ponder = ponder;
        } else {
            self.ponder = ACE_NO_MOVE;
        }
    }

    fn position(&mut self, list: &Vec<String>) -> (a: Action)
        requires
            old(self).wf(),
        ensures
            final(self).wf(),
            final(self).ponders == old(self).ponders,
            (final(self).state(), a) == old(self).state().position(names(list@)),
    {
        let ghost st = self.state();
        assert(names(list@).len() == list@.len());
        if self.extends(list) {
            let from: usize = self.applied.len();
            assert(from == st.applied.len());
            let ponder: i16 = self.ponder;
            self.ponder = ACE_NO_MOVE;
            let out: Outcome = replay_onto(&mut self.game, list, from);
            match out {
                Outcome::Done => {
                    self.take_over(list);
                    Action::ReadyCount(list.len())
                },
                Outcome::Past(i) => {
                    self.restore(ponder);
                    Action::Fault(Fault::Past(i))
                },
                Outcome::Unplayable(i) => {
                    self.restore(ponder);
                    Action::Unplayable(i)
                },
            }
        } else {
            let mut g: AceGame = start_game();
            let out: Outcome = replay_onto(&mut g, list, 0);
            match out {
                Outcome::Done => {
                    self.game = g;
                    self.take_over(list);
                    Action::ReadyCount(list.len())
                },
                Outcome::Past(i) => Action::Fault(Fault::Past(i)),
                Outcome::Unplayable(i) => Action::Unplayable(i),
            }
        }
    }
}

impl Session {
    /// Plays a named move.
    fn play_word(&mut self, m: i16, name: String)
        requires
            old(self).wf(),
            old(self).game@.playable(m),
            old(self).game@.hist.len() < MAX_GAME_LENGTH,
        ensures
            final(self).wf(),
            final(self).ponders == old(self).ponders,
            final(self).state() == old(self).state().at(
                old(self).game@.after(m),
                old(self).state().applied.push(name@),
            ),
    {
        let ghost before = self.applied@;
        play_open(&mut self.game, m);
        self.applied.push(name);
        self.ponder = ACE_NO_MOVE;
        assert(names(self.applied@) =~= names(before).push(name@));
    }

    fn makemove(&mut self, list: &Vec<String>) -> (a: Action)
        requires
            old(self).wf(),
        ensures
            final(self).wf(),
            final(self).ponders == old(self).ponders,
            (final(self).state(), a) == old(self).state().makemove(names(list@)),
    {
        assert(names(list@).len() == list@.len());
        if list.len() == 0 {
            return Action::Fault(Fault::NoMove);
        }
        if self.game.winner() >= 0 {
            return Action::Fault(Fault::Over);
        }
        match read_move(&self.game, list[0].as_str()) {
            None => Action::Unplayable(0),
            Some(m) => {
                self.play_word(m, list[0].clone());
                Action::Ready
            },
        }
    }

    fn go(&mut self, list: &Vec<String>, times: &Vec<Option<Span>>) -> (a: Action)
        requires
            old(self).wf(),
        ensures
            final(self).wf(),
            final(self).ponders == old(self).ponders,
            (final(self).state(), a) == old(self).state().go(
                old(self).ponders,
                names(list@),
                times@,
            ),
    {
        assert(names(list@).len() == list@.len());
        if self.game.winner() >= 0 {
            return Action::Fault(Fault::Over);
        }
        if self.ponders && list.len() > 0 && same_text(list[0].as_str(), "infinite") {
            if list.len() > 1 && list[1].as_str().unicode_len() > 0 {
                match read_move(&self.game, list[1].as_str()) {
                    None => Action::Unplayable(1),
                    Some(m) => {
                        self.ponder = m;
                        Action::Ponder(m)
                    },
                }
            } else {
                self.ponder = ACE_NO_MOVE;
                Action::Ponder(ACE_NO_MOVE)
            }
        } else {
            Action::Think(time_at(times, 0, Unit::Seconds, DEFAULT_GO_MS))
        }
    }

    fn ponderhit(&mut self, times: &Vec<Option<Span>>) -> (a: Action)
        requires
            old(self).wf(),
        ensures
            final(self).wf(),
            final(self).ponders == old(self).ponders,
            (final(self).state(), a) == old(self).state().ponderhit(times@),
    {
        let t: u64 = time_at(times, 0, Unit::Millis, DEFAULT_HIT_MS);
        if self.ponder != ACE_NO_MOVE {
            if self.game.winner() < 0 {
                let m: i16 = self.ponder;
                self.play_word(m, ace_to_algebraic(m));
            } else {
                self.ponder = ACE_NO_MOVE;
            }
        }
        Action::PonderHit(t)
    }

    fn movemiss(&mut self, list: &Vec<String>, times: &Vec<Option<Span>>) -> (a: Action)
        requires
            old(self).wf(),
        ensures
            final(self).wf(),
            final(self).ponders == old(self).ponders,
            (final(self).state(), a) == old(self).state().movemiss(names(list@), times@),
    {
        assert(names(list@).len() == list@.len());
        if list.len() == 0 {
            return Action::Fault(Fault::NoMiss);
        }
        let t: u64 = time_at(times, 1, Unit::Millis, DEFAULT_HIT_MS);
        if self.game.winner() >= 0 {
            self.ponder = ACE_NO_MOVE;
            return Action::MoveMiss(t);
        }
        match read_move(&self.game, list[0].as_str()) {
            None => Action::Unplayable(0),
            Some(m) => {
                self.play_word(m, list[0].clone());
                Action::MoveMiss(t)
            },
        }
    }

    /// Does what a command says and tells what follows. `times` are the words
    /// read as durations, where they are such.
    pub fn handle(&mut self, command: &str, list: &Vec<String>, times: &Vec<Option<Span>>) -> (a:
        Action)
        requires
            old(self).wf(),
        ensures
            final(self).wf(),
            final(self).ponders == old(self).ponders,
            (final(self).state(), a) == old(self).state().step(
                old(self).ponders,
                command@,
                names(list@),
                times@,
            ),
    {
        if same_text(command, "reset") {
            self.game = start_game();
            self.applied = Vec::new();
            self.ponder = ACE_NO_MOVE;
            assert(names(self.applied@) =~= Seq::<Seq<char>>::empty());
            Action::Ready
        } else if same_text(command, "position") {
            self.position(list)
        } else if same_text(command, "makemove") {
            self.makemove(list)
        } else if same_text(command, "go") {
            self.go(list, times)
        } else if self.ponders && same_text(command, "stop") {
            Action::Stop
        } else if self.ponders && same_text(command, "ponderhit") {
            self.ponderhit(times)
        } else if self.ponders && same_text(command, "movemiss") {
            self.movemiss(list, times)
        } else if same_text(command, "quit") {
            Action::Quit
        } else {
            Action::Fault(Fault::Unknown)
        }
    }
}

/// The line that answers a command at once, without its end.
pub open spec fn reply_text(a: Action, list: Seq<Seq<char>>) -> Option<Seq<char>> {
    match a {
        Action::Ready => Some("ready"@),
        Action::ReadyCount(n) => Some("ready "@ + decimal(n as nat)),
        Action::Fault(f) => Some(
            "error "@ + (match f {
                Fault::Past(i) => "move "@ + list[i as int] + " past terminal position"@,
                Fault::NoMove => "makemove requires a move"@,
                Fault::NoMiss => "movemiss requires MOVE TIME_MS"@,
                Fault::Over => "terminal position"@,
                Fault::Unknown => "unknown command"@,
            }),
        ),
        _ => None,
    }
}

/// The line that answers a command at once.
pub fn reply(a: Action, list: &Vec<String>) -> (r: Option<String>)
    requires
        a matches Action::Fault(Fault::Past(i)) ==> i < list@.len(),
    ensures
        match r {
            Some(t) => reply_text(a, names(list@)) == Some(t@),
            None => reply_text(a, names(list@)) is None,
        },
{
    let mut s: String = String::new();
    match a {
        Action::Ready => {
            push_text(&mut s, "ready");
            assert(s@ =~= "ready"@);
            Some(s)
        },
        Action::ReadyCount(n) => {
            push_text(&mut s, "ready ");
            push_decimal(&mut s, n as u64);
            assert(s@ =~= "ready "@ + decimal(n as nat));
            Some(s)
        },
        Action::Fault(f) => {
            push_text(&mut s, "error ");
            match f {
                Fault::Past(i) => {
                    push_text(&mut s, "move ");
                    push_text(&mut s, list[i].as_str());
                    push_text(&mut s, " past terminal position");
                },
                Fault::NoMove => push_text(&mut s, "makemove requires a move"),
                Fault::NoMiss => push_text(&mut s, "movemiss requires MOVE TIME_MS"),
                Fault::Over => push_text(&mut s, "terminal position"),
                Fault::Unknown => push_text(&mut s, "unknown command"),
            }
            assert(s@ =~= reply_text(a, names(list@))->0);
            Some(s)
        },
        _ => None,
    }
}

/// The line that tells the move of a search.
pub open spec fn bestmove_text(m: i16) -> Seq<char> {
    if m == ACE_NO_MOVE {
        "bestmove (none)"@
    } else {
        "bestmove "@ + move_chars(to_board(m))
    }
}

/// The line that tells the move of a search.
pub fn bestmove(m: i16) -> (r: String)
    requires
        m == ACE_NO_MOVE || is_ace_move(m),
    ensures
        r@ == bestmove_text(m),
{
    let mut s: String = String::new();
    if m == ACE_NO_MOVE {
        push_text(&mut s, "bestmove (none)");
    } else {
        push_text(&mut s, "bestmove ");
        push_text(&mut s, ace_to_algebraic(m).as_str());
    }
    assert(s@ =~= bestmove_text(m));
    s
}

/// A name of one more move.
pub proof fn lemma_one_more(st: SessionState, name: Seq<char>, m: i16)
    requires
        st.in_sync(),
        st.s.winner_spec() < 0,
        word_move(st.s, name) == Some(m),
    ensures
        st.at(st.s.after(m), st.applied.push(name)).in_sync(),
{
    let more = st.applied.push(name);
    let n = st.applied.len() as int;
    lemma_same_names(st.applied, more, n);
}

/// A replay depends on the names it reads alone.
pub proof fn lemma_same_names(a: Seq<Seq<char>>, b: Seq<Seq<char>>, n: int)
    requires
        0 <= n <= a.len(),
        n <= b.len(),
        forall|i: int| 0 <= i < n ==> #[trigger] a[i] == b[i],
    ensures
        replayed(start_state(), a, 0, n) == replayed(start_state(), b, 0, n),
    decreases n,
{
    if n > 0 {
        lemma_same_names(a, b, n - 1);
        assert(a[n - 1] == b[n - 1]);
    }
}

/// A session that is in sync stays so over every command that is not refused.
pub proof fn lemma_session_in_sync(
    st: SessionState,
    ponders: bool,
    command: Seq<char>,
    list: Seq<Seq<char>>,
    times: Seq<Option<Span>>,
)
    requires
        st.in_sync(),
        st.ponder == ACE_NO_MOVE || (is_ace_move(st.ponder) && st.s.playable(st.ponder)
            && st.s.hist.len() < MAX_GAME_LENGTH),
        !(st.step(ponders, command, list, times).1 is Fault),
        !(st.step(ponders, command, list, times).1 is Unplayable),
    ensures
        st.step(ponders, command, list, times).0.in_sync(),
{
    if command == "reset"@ {
    } else if command == "position"@ {
        if st.extended_by(list) {
            let k = st.applied.len() as int;
            assert forall|i: int| 0 <= i < k implies #[trigger] st.applied[i] == list[i] by {
                assert(list.subrange(0, k)[i] == st.applied[i]);
            }
            lemma_same_names(st.applied, list, k);
            lemma_replay_in_parts(start_state(), list, k, list.len() as int, st.s);
        }
    } else if command == "makemove"@ {
        if st.s.winner_spec() < 0 && list.len() > 0 && word_move(st.s, list[0]) is Some {
            lemma_one_more(st, list[0], word_move(st.s, list[0])->0);
        }
    } else if command == "go"@ {
    } else if command == "stop"@ && ponders {
    } else if command == "ponderhit"@ && ponders {
        if st.ponder != ACE_NO_MOVE && st.s.winner_spec() < 0 {
            let name = move_chars(to_board(st.ponder));
            lemma_move_round_trip(to_board(st.ponder), st.ponder);
            lemma_name_means(to_board(st.ponder));
            lemma_one_more(st, name, st.ponder);
        }
    } else if command == "movemiss"@ && ponders {
        if st.s.winner_spec() < 0 && list.len() > 0 && word_move(st.s, list[0]) is Some {
            lemma_one_more(st, list[0], word_move(st.s, list[0])->0);
        }
    }
}

} // verus!
