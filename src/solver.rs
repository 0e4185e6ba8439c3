//! What every strategy for the game offers.
use vstd::prelude::*;
use crate::board::{is_uniform, replay, Board};
use crate::color::Color;

verus! {

/// A list of moves, to be played in order.
pub type Solution = Vec<Color>;

/// Something that plays the game from an initial board.
pub trait Solver {
    /// Plays the game on `b`. `Ok` holds moves that drench the board; `Err`
    /// holds the moves tried before giving up.
    fn solve(&self, b: Board) -> (r: Result<Solution, Solution>)
        requires
            b.wf(),
        ensures
            r matches Ok(s) ==> is_uniform(replay(b.side(), b.tags(), s@)),
    ;

    /// Whether the strategy shows every step of the game by itself.
    fn prints_output(&self) -> bool {
        false
    }
}

/// Plays `moves` on `b` and keeps them if they drench the board.
pub fn check_solution(b: Board, moves: Solution) -> (r: Result<Solution, Solution>)
    requires
        b.wf(),
        forall|k: int| 0 <= k < moves.len() ==> (#[trigger] moves@[k]).is_valid(),
    ensures
        r matches Ok(s) ==> s@ == moves@,
        r matches Err(s) ==> s@ == moves@,
        r is Ok <==> is_uniform(replay(b.side(), b.tags(), moves@)),
{
    let ghost side = b.side();
    let ghost tags0 = b.tags();
    let mut board = b;
    let mut k: usize = 0;
    while k < moves.len()
        invariant
            board.wf(),
            board.side() == side,
            k <= moves.len(),
            forall|j: int| 0 <= j < moves.len() ==> (#[trigger] moves@[j]).is_valid(),
            board.tags() == replay(side, tags0, moves@.take(k as int)),
        decreases moves.len() - k,
    {
        board.drench(moves[k]);
        proof {
            let m = moves@.take(k + 1);
            assert(m.drop_last() =~= moves@.take(k as int));
        }
        k = k + 1;
    }
    assert(moves@.take(moves.len() as int) =~= moves@);
    if board.is_drenched() {
        Ok(moves)
    } else {
        Err(moves)
    }
}

} // verus!
