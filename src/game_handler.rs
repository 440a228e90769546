use rand::Rng;
use vstd::prelude::*;

use crate::error::FreeCellError;
use crate::game::{spec_deal, Game, GameView};
use crate::journey_handler::{spec_on_won, JourneyHandler};
use crate::journey_repository::PersistJourney;
use crate::moves::{apply, automove, spec_apply, spec_automove, Move};

verus! {

/// The one deal in `1..=64000` known to have no solution.
pub const UNSOLVABLE_GAME: u16 = 11982;

/// The game after automove has run until it finds nothing more to move, or
/// after `n` automoves.
pub open spec fn saturate_n(g: GameView, n: nat) -> GameView
    decreases n,
{
    if n == 0 {
        g
    } else {
        match spec_automove(g) {
            None => g,
            Some(h) => saturate_n(h, (n - 1) as nat),
        }
    }
}

/// The game after automove has run until it finds nothing more to move: on a
/// valid game that takes at most 52 automoves.
pub open spec fn spec_saturate(g: GameView) -> GameView {
    saturate_n(g, 52)
}

/// The deal that a draw `d` from `1..64000` stands for: the draws are spread
/// one to one over `1..=64000` without the unsolvable deal.
pub open spec fn spec_deal_for_draw(d: u16) -> u16 {
    if d >= UNSOLVABLE_GAME {
        (d + 1) as u16
    } else {
        d
    }
}

/// Relies on `rand::rng` and `Rng::random_range`: a number drawn from
/// `low..high`, which must not be empty.
#[verifier::external_body]
fn random_in_range(low: u16, high: u16) -> (r: u16)
    requires
        low < high,
    ensures
        low <= r < high,
{
    rand::rng().random_range(low..high)
}

/// Returns the deal that a draw from `1..64000` stands for.
pub fn deal_for_draw(draw: u16) -> (r: u16)
    requires
        1 <= draw < 64000,
    ensures
        r == spec_deal_for_draw(draw),
        1 <= r <= 64000,
        r != UNSOLVABLE_GAME,
{
    if draw >= UNSOLVABLE_GAME {
        draw + 1
    } else {
        draw
    }
}

/// Holds the game being played, its history for undo, and the journey.
pub struct GameHandler<T: PersistJourney> {
    game: Option<Game>,
    journey_handler: JourneyHandler<T>,
    history: Vec<Game>,
}

impl<T: PersistJourney> GameHandler<T> {
    /// The game being played, as a value.
    pub closed spec fn game_view(&self) -> Option<GameView> {
        match self.game {
            Some(g) => Some(g@),
            None => None,
        }
    }

    /// The games before each accepted move, oldest first.
    pub closed spec fn history_view(&self) -> Seq<GameView> {
        self.history@.map_values(|g: Game| g@)
    }

    /// The journey as `(next, skipped)`.
    pub closed spec fn journey_view(&self) -> (u16, Seq<u16>) {
        self.journey_handler.view()
    }

    /// The game being played and every game in the history satisfy the invariants.
    pub closed spec fn wf(&self) -> bool {
        &&& (self.game is Some ==> self.game->Some_0@.wf())
        &&& forall|i: int| 0 <= i < self.history@.len() ==> (#[trigger] self.history@[i])@.wf()
    }

    /// Creates a handler with no game, no history, and the given journey.
    pub fn new(journey_handler: JourneyHandler<T>) -> (r: GameHandler<T>)
        ensures
            r.wf(),
            r.game_view() is None,
            r.history_view().len() == 0,
            r.journey_view() == journey_handler.view(),
    {
        GameHandler { game: None, journey_handler, history: Vec::new() }
    }

    /// Returns the game being played, if any.
    pub fn game(&self) -> (r: &Option<Game>)
        ensures
            r is Some <==> self.game_view() is Some,
            r is Some ==> r->Some_0@ == self.game_view()->Some_0,
    {
        &self.game
    }

    /// Returns the journey.
    pub fn journey_handler(&self) -> (r: &JourneyHandler<T>)
        ensures
            r.view() == self.journey_view(),
    {
        &self.journey_handler
    }

    /// Skips the next deal of the journey.
    pub fn skip_next_game(&mut self)
        requires
            old(self).wf(),
        ensures
            final(self).wf(),
            final(self).game_view() == old(self).game_view(),
            final(self).history_view() == old(self).history_view(),
            final(self).journey_view() == match crate::journey_handler::spec_skip(
                old(self).journey_view().0,
                old(self).journey_view().1,
            ) {
                Some(j) => j,
                None => old(self).journey_view(),
            },
    {
        self.journey_handler.skip_next_game();
    }

    /// Replaces the game and its history with the starting position of deal `id`.
    pub fn game_from_id(&mut self, id: u16)
        ensures
            final(self).wf(),
            final(self).game_view() == Some(spec_deal(id)),
            final(self).history_view().len() == 0,
            final(self).journey_view() == old(self).journey_view(),
    {
        self.game = Some(Game::from_id(id));
        self.history.clear();
        proof {
            assert(self.history_view() =~= Seq::<GameView>::empty());
        }
    }

    /// Replaces the game and its history with a random deal from `1..=64000`,
    /// never the unsolvable one.
    pub fn random_game(&mut self)
        ensures
            final(self).wf(),
            final(self).history_view().len() == 0,
            final(self).journey_view() == old(self).journey_view(),
            exists|id: u16|
                1 <= id <= 64000 && id != UNSOLVABLE_GAME && #[trigger] final(self).game_view() == Some(
                    spec_deal(id),
                ),
    {
        let draw = random_in_range(1, 64000);
        let id = deal_for_draw(draw);
        self.game_from_id(id);
    }

    /// Makes a move on the game: fails with `NoActiveGame` without a game, with
    /// `AlreadyWon` on a won game, and with `MoveRejected` where the rules reject
    /// the move, changing nothing. Otherwise the game before the move joins the
    /// history, automove runs until it finds nothing more, and a game that is now
    /// won is reported to the journey.
    pub fn make_move(&mut self, mv: Move) -> (r: Result<(), FreeCellError>)
        requires
            old(self).wf(),
        ensures
            final(self).wf(),
            match old(self).game_view() {
                None => r == Err::<(), FreeCellError>(FreeCellError::NoActiveGame),
                Some(g) => if g.is_won() {
                    r == Err::<(), FreeCellError>(FreeCellError::AlreadyWon)
                } else {
                    match spec_apply(g, mv) {
                        None => r == Err::<(), FreeCellError>(FreeCellError::MoveRejected),
                        Some(h) => {
                            &&& r is Ok
                            &&& final(self).game_view() == Some(spec_saturate(h))
                            &&& final(self).history_view() == old(self).history_view().push(g)
                            &&& final(self).journey_view() == if spec_saturate(h).is_won() {
                                match spec_on_won(old(self).journey_view().0, old(self).journey_view().1, h.id) {
                                    Some(j) => j,
                                    None => old(self).journey_view(),
                                }
                            } else {
                                old(self).journey_view()
                            }
                        },
                    }
                },
            },
            r is Err ==> final(self).game_view() == old(self).game_view()
                && final(self).history_view() == old(self).history_view()
                && final(self).journey_view() == old(self).journey_view(),
    {
        let current = match &self.game {
            None => return Err(FreeCellError::NoActiveGame),
            Some(g) => g,
        };
        if current.is_won() {
            return Err(FreeCellError::AlreadyWon);
        }
        let mut new_state = match apply(current, mv) {
            Ok(g) => g,
            Err(_) => return Err(FreeCellError::MoveRejected),
        };
        let ghost h = new_state@;
        let ghost g = current@;
        let mut done = false;
        while !done
            invariant
                new_state@.wf(),
                h.wf(),
                h.foundation_total() <= new_state@.foundation_total() <= 52,
                spec_saturate(h) == saturate_n(
                    new_state@,
                    (52 - (new_state@.foundation_total() - h.foundation_total())) as nat,
                ),
                done ==> spec_automove(new_state@) is None,
                new_state@.id == h.id,
            decreases 52 - new_state@.foundation_total() + if done {
                0int
            } else {
                1int
            },
        {
            match automove(&new_state) {
                Some(automoved) => {
                    proof {
                        lemma_foundation_total_bound(automoved@);
                    }
                    new_state = automoved;
                },
                None => {
                    done = true;
                },
            }
        }
        proof {
            lemma_foundation_total_bound(h);
            let f = (52 - (new_state@.foundation_total() - h.foundation_total())) as nat;
            assert(saturate_n(new_state@, f) == new_state@);
        }
        let previous = match self.game.take() {
            Some(p) => p,
            None => return Err(FreeCellError::NoActiveGame),
        };
        self.history.push(previous);
        let won = new_state.is_won();
        let id = new_state.id;
        self.game = Some(new_state);
        if won {
            self.journey_handler.receive_notification_game_won(id);
        }
        proof {
            assert(self.history_view() =~= old(self).history_view().push(g));
        }
        Ok(())
    }

    /// Goes back to the game before the last accepted move. Fails with
    /// `EmptyHistory` when there is none, and with `AlreadyWon` on a won game.
    pub fn revert(&mut self) -> (r: Result<(), FreeCellError>)
        requires
            old(self).wf(),
        ensures
            final(self).wf(),
            final(self).journey_view() == old(self).journey_view(),
            old(self).history_view().len() == 0 ==> r == Err::<(), FreeCellError>(FreeCellError::EmptyHistory),
            old(self).history_view().len() > 0 && old(self).game_view() is Some
                && old(self).game_view()->Some_0.is_won() ==> r == Err::<(), FreeCellError>(FreeCellError::AlreadyWon),
            old(self).history_view().len() > 0 && !(old(self).game_view() is Some
                && old(self).game_view()->Some_0.is_won()) ==> {
                &&& r is Ok
                &&& final(self).game_view() == Some(old(self).history_view().last())
                &&& final(self).history_view() == old(self).history_view().drop_last()
            },
            r is Err ==> final(self).game_view() == old(self).game_view()
                && final(self).history_view() == old(self).history_view(),
    {
        if self.history.len() == 0 {
            return Err(FreeCellError::EmptyHistory);
        }
        if let Some(g) = &self.game {
            if g.is_won() {
                return Err(FreeCellError::AlreadyWon);
            }
        }
        match self.history.pop() {
            Some(previous) => {
                self.game = Some(previous);
            },
            None => {},
        }
        proof {
            assert(self.history_view() =~= old(self).history_view().drop_last());
        }
        Ok(())
    }
}

/// On a valid game at most 52 cards lie on the foundations.
proof fn lemma_foundation_total_bound(g: GameView)
    requires
        g.wf(),
    ensures
        g.foundation_total() <= 52,
{
    assert(crate::game::foundation_ok(0, g.foundations[0]));
    assert(crate::game::foundation_ok(1, g.foundations[1]));
    assert(crate::game::foundation_ok(2, g.foundations[2]));
    assert(crate::game::foundation_ok(3, g.foundations[3]));
}

} // verus!
