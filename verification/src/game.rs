//! The game: an ordered move history with turn derivation, the
//! whole-history repetition ("ko") check, and termination detection.

use vstd::prelude::*;
use crate::board::{Board, IllegalMove, Move, Position, Stone, empty_view, put_spec};

verus! {

/// The player whose turn it is after `n` moves: Black opens, colours
/// then alternate, and a pass counts as a turn.
pub open spec fn player_of(n: int) -> Stone {
    if n % 2 == 0 {
        Stone::Black
    } else {
        Stone::White
    }
}

/// The grid recorded by the last history entry, or the empty grid for
/// an empty history.
pub open spec fn cur_board_view(h: Seq<(Move, Board)>) -> Seq<Option<Stone>> {
    if h.len() == 0 {
        empty_view()
    } else {
        h.last().1@
    }
}

/// The game is over: at least two moves were played and the two most
/// recent are both passes.
pub open spec fn finished(h: Seq<(Move, Board)>) -> bool {
    h.len() >= 2 && h[h.len() - 1].0 is Pass && h[h.len() - 2].0 is Pass
}

/// What a move does to the game.  A pass always succeeds and repeats
/// the current grid.  A placement is resolved by `put_spec` with the
/// current player's colour; a grid that repeats any grid already in the
/// history is then rejected as `Ko` (a whole-history check, stronger
/// than the traditional immediate-ko rule).
pub open spec fn move_result(h: Seq<(Move, Board)>, m: Move) -> Result<
    Seq<Option<Stone>>,
    IllegalMove,
> {
    match m {
        Move::Pass => Result::Ok(cur_board_view(h)),
        Move::Placement(pos) => match put_spec(cur_board_view(h), pos, player_of(h.len() as int)) {
            Result::Ok(w) => if exists|i: int| 0 <= i < h.len() && (#[trigger] h[i].1)@ == w {
                Result::Err(IllegalMove::Ko)
            } else {
                Result::Ok(w)
            },
            Result::Err(e) => Result::Err(e),
        },
    }
}

/// The ko rule, stated of `move_result`: a placement whose resulting
/// grid exactly repeats a grid already recorded in the history is
/// rejected as `Ko`, and the same placement is accepted once no
/// recorded grid equals its result.
pub proof fn lemma_ko_rule(h: Seq<(Move, Board)>, pos: Position, w: Seq<Option<Stone>>)
    requires
        put_spec(cur_board_view(h), pos, player_of(h.len() as int)) == Result::<
            Seq<Option<Stone>>,
            IllegalMove,
        >::Ok(w),
    ensures
        (exists|i: int| 0 <= i < h.len() && (#[trigger] h[i].1)@ == w) ==> move_result(
            h,
            Move::Placement(pos),
        ) == Result::<Seq<Option<Stone>>, IllegalMove>::Err(IllegalMove::Ko),
        !(exists|i: int| 0 <= i < h.len() && (#[trigger] h[i].1)@ == w) ==> move_result(
            h,
            Move::Placement(pos),
        ) == Result::<Seq<Option<Stone>>, IllegalMove>::Ok(w),
{
}

/// Every entry of the history `h` records exactly what its move
/// produced: the move was legal for the history before it, and the
/// recorded board is the grid `move_result` gives for it.
#[verifier::opaque]
pub open spec fn legal_history(h: Seq<(Move, Board)>) -> bool {
    forall|i: int|
        0 <= i < h.len() ==> move_result(h.take(i), (#[trigger] h[i]).0) == Result::<
            Seq<Option<Stone>>,
            IllegalMove,
        >::Ok(h[i].1@)
}

/// A sequential game: the ordered history of (move, resulting board)
/// pairs, plus two capture counters.  The counters are kept for the
/// record but deliberately stay at zero: `Board::put` does not report a
/// capture count back to its caller, and no scoring formula is
/// invented here.  `make_move` is likewise not blocked once the game
/// has finished; stopping play then is the caller's choice.
pub struct Game {
    history: Vec<(Move, Board)>,
    white_captured: u16,
    black_captured: u16,
}

impl View for Game {
    type V = Seq<(Move, Board)>;

    closed spec fn view(&self) -> Seq<(Move, Board)> {
        self.history@
    }
}

impl Game {
    /// Every recorded board holds a full grid, and the whole history is
    /// a chain of legal successors: each recorded board is exactly what
    /// the recorded move produced from the history before it.
    pub open spec fn wf(&self) -> bool {
        &&& forall|i: int| 0 <= i < self@.len() ==> (#[trigger] self@[i].1).wf()
        &&& legal_history(self@)
    }

    /// A fresh game: empty history, zero captures.
    pub fn new() -> (g: Game)
        ensures
            g.wf(),
            g@.len() == 0,
    {
        let g = Game { history: Vec::new(), white_captured: 0, black_captured: 0 };
        proof {
            reveal(legal_history);
        }
        g
    }

    /// The board after the last move, or the empty board when no move
    /// was played yet.
    pub fn current_board(&self) -> (b: Board)
        requires
            self.wf(),
        ensures
            b.wf(),
            b@ == cur_board_view(self@),
    {
        let n = self.history.len();
        if n == 0 {
            Board::empty()
        } else {
            proof {
                assert(self@[n - 1].1.wf());
            }
            self.history[n - 1].1.duplicate()
        }
    }

    /// Black when the history length is even, White when it is odd,
    /// independent of the kinds of moves played.
    pub fn current_player(&self) -> (s: Stone)
        ensures
            s == player_of(self@.len() as int),
    {
        if self.history.len() % 2 == 0 {
            Stone::Black
        } else {
            Stone::White
        }
    }

    /// The game ends when the two most recent moves are both passes.
    pub fn has_finished(&self) -> (r: bool)
        ensures
            r == finished(self@),
    {
        let n = self.history.len();
        if n < 2 {
            return false;
        }
        let last_pass = matches!(self.history[n - 1].0, Move::Pass);
        let prev_pass = matches!(self.history[n - 2].0, Move::Pass);
        last_pass && prev_pass
    }

    /// Apply a move, as `move_result` describes.  On success the move
    /// and its resulting board are appended to the history; on failure
    /// the error is returned and the game is byte-for-byte unchanged.
    #[verifier::loop_isolation(false)]
    pub fn make_move(&mut self, m: Move) -> (r: Result<(), IllegalMove>)
        requires
            old(self).wf(),
        ensures
            final(self).wf(),
            match move_result(old(self)@, m) {
                Result::Ok(w) => {
                    &&& r is Ok
                    &&& final(self)@.len() == old(self)@.len() + 1
                    &&& (forall|i: int|
                        0 <= i < old(self)@.len() ==> final(self)@[i] == old(self)@[i])
                    &&& final(self)@.last().0 == m
                    &&& final(self)@.last().1@ == w
                },
                Result::Err(e) => r == Result::<(), IllegalMove>::Err(e) && final(self)@ == old(
                    self,
                )@,
            },
    {
        let ghost h0 = self@;
        let cur = self.current_board();
        match m {
            Move::Pass => {
                self.history.push((m, cur));
                proof {
                    lemma_legal_history_push(h0, m, self@.last().1);
                }
                Result::Ok(())
            },
            Move::Placement(pos) => {
                let player = self.current_player();
                match cur.put(pos, player) {
                    Result::Err(e) => Result::Err(e),
                    Result::Ok(nb) => {
                        let n = self.history.len();
                        let mut i: usize = 0;
                        while i < n
                            invariant
                                i <= n,
                                forall|j: int| 0 <= j < i ==> (#[trigger] self@[j].1)@ != nb@,
                            decreases n - i,
                        {
                            if self.history[i].1.equals(&nb) {
                                return Result::Err(IllegalMove::Ko);
                            }
                            i = i + 1;
                        }
                        self.history.push((m, nb));
                        proof {
                            lemma_legal_history_push(h0, m, self@.last().1);
                        }
                        Result::Ok(())
                    },
                }
            },
        }
    }
}

proof fn lemma_legal_history_push(h: Seq<(Move, Board)>, m: Move, b: Board)
    requires
        legal_history(h),
        move_result(h, m) == Result::<Seq<Option<Stone>>, IllegalMove>::Ok(b@),
    ensures
        legal_history(h.push((m, b))),
{
    reveal(legal_history);
    let h2 = h.push((m, b));
    assert forall|i: int| 0 <= i < h2.len() implies move_result(
        h2.take(i),
        (#[trigger] h2[i]).0,
    ) == Result::<Seq<Option<Stone>>, IllegalMove>::Ok(h2[i].1@) by {
        if i < h.len() {
            assert(h2.take(i) =~= h.take(i));
            assert(h2[i] == h[i]);
        } else {
            assert(h2.take(i) =~= h);
        }
    }
}

} // verus!
