use vstd::prelude::*;

use crate::card::{Card, Rank, Suit};
use crate::error::FreeCellError;
use crate::game::{
    cells_cards, foundation_card, foundation_ok, foundation_suit, lemma_cells_update, lemma_piles_update,
    piles_cards, spec_foundation_index, Game, GameView,
};

verus! {

/// Where cards are taken from or put to.
#[derive(Clone, Copy, Debug, PartialEq, Eq, Structural)]
pub enum Location {
    /// The cell with the given 0-based index.
    Cell { i: usize },
    /// The foundation of the moved card's suit.
    Foundation,
    /// The column with the given 0-based index.
    Column { i: usize },
}

/// A move from one location to another.
#[derive(Clone, Copy, Debug, PartialEq, Eq, Structural)]
pub struct Move {
    /// Where the card or cards are taken from.
    pub from: Location,
    /// Where the card or cards are put.
    pub to: Location,
}

/// The tableau rule: `lower` may lie on `upper` when `upper` is not an ace, the
/// colours differ, and `upper` ranks exactly one above `lower`.
pub open spec fn spec_fits(upper: Card, lower: Card) -> bool {
    &&& upper.rank != Rank::Ace
    &&& upper.suit.spec_is_red() != lower.suit.spec_is_red()
    &&& upper.rank.spec_value() == lower.rank.spec_value() + 1
}

/// The foundations after `card` is put on the foundation of its suit, if the
/// foundation rule allows it: an ace on an empty foundation, any other card on
/// the card one rank below it.
pub open spec fn spec_push_foundation(g: GameView, card: Card) -> Option<Seq<Seq<Card>>> {
    let k = spec_foundation_index(card.suit);
    let f = g.foundations[k];
    if (f.len() == 0 && card.rank == Rank::Ace) || (f.len() > 0 && card.rank != Rank::Ace
        && f.last().rank.spec_value() == card.rank.spec_value() - 1) {
        Some(g.foundations.update(k, f.push(card)))
    } else {
        None
    }
}

/// The checks on where a move starts: a cell that holds a card, or a column that
/// is not empty; never a foundation.
pub open spec fn spec_from_ok(g: GameView, loc: Location) -> bool {
    match loc {
        Location::Cell { i } => i < 4 && g.cells[i as int] is Some,
        Location::Foundation => false,
        Location::Column { i } => i < 8 && g.columns[i as int].len() > 0,
    }
}

/// The checks on where a move ends: an empty cell, a foundation, or a column.
pub open spec fn spec_to_ok(g: GameView, loc: Location) -> bool {
    match loc {
        Location::Cell { i } => i < 4 && g.cells[i as int] is None,
        Location::Foundation => true,
        Location::Column { i } => i < 8,
    }
}

/// Cell to cell: the card changes cells.
pub open spec fn spec_cell_cell(g: GameView, f: int, t: int) -> Option<GameView> {
    Some(GameView { cells: g.cells.update(t, g.cells[f]).update(f, None), ..g })
}

/// Cell to foundation.
pub open spec fn spec_cell_foundation(g: GameView, f: int) -> Option<GameView> {
    match spec_push_foundation(g, g.cells[f]->Some_0) {
        Some(fs) => Some(GameView { cells: g.cells.update(f, None), foundations: fs, ..g }),
        None => None,
    }
}

/// Cell to column: onto an empty column, or onto a top card that it fits.
pub open spec fn spec_cell_column(g: GameView, f: int, t: int) -> Option<GameView> {
    let card = g.cells[f]->Some_0;
    let col = g.columns[t];
    if col.len() > 0 && !spec_fits(col.last(), card) {
        None
    } else {
        Some(GameView { cells: g.cells.update(f, None), columns: g.columns.update(t, col.push(card)), ..g })
    }
}

/// Column to cell: the top card goes to the cell.
pub open spec fn spec_column_cell(g: GameView, f: int, t: int) -> Option<GameView> {
    let col = g.columns[f];
    Some(GameView {
        cells: g.cells.update(t, Some(col.last())),
        columns: g.columns.update(f, col.drop_last()),
        ..g
    })
}

/// Column to foundation: the top card goes to its foundation.
pub open spec fn spec_column_foundation(g: GameView, f: int) -> Option<GameView> {
    let col = g.columns[f];
    match spec_push_foundation(g, col.last()) {
        Some(fs) => Some(GameView { columns: g.columns.update(f, col.drop_last()), foundations: fs, ..g }),
        None => None,
    }
}

/// The number of empty columns.
pub open spec fn count_empty_columns(cols: Seq<Seq<Card>>) -> nat
    decreases cols.len(),
{
    if cols.len() == 0 {
        0
    } else {
        count_empty_columns(cols.drop_last()) + if cols.last().len() == 0 {
            1nat
        } else {
            0nat
        }
    }
}

/// The number of empty cells.
pub open spec fn count_free_cells(cells: Seq<Option<Card>>) -> nat
    decreases cells.len(),
{
    if cells.len() == 0 {
        0
    } else {
        count_free_cells(cells.drop_last()) + if cells.last() is None {
            1nat
        } else {
            0nat
        }
    }
}

/// Two to the power `n`.
pub open spec fn pow2(n: nat) -> nat
    decreases n,
{
    if n == 0 {
        1
    } else {
        2 * pow2((n - 1) as nat)
    }
}

/// The largest number of cards that a move onto column `t` may carry:
/// `min(13, (free cells + 1) * 2^(empty columns other than t))`.
pub open spec fn spec_max_move(g: GameView, t: int) -> nat {
    let e = count_empty_columns(g.columns) - if g.columns[t].len() == 0 {
        1int
    } else {
        0int
    };
    let m = (count_free_cells(g.cells) + 1) * pow2(e as nat);
    if m < 13 {
        m
    } else {
        13
    }
}

/// The length of the run on top of `col`, counting on from `k` cards that are
/// known to form one: it grows while the next card below fits the run's lowest card.
pub open spec fn run_len_from(col: Seq<Card>, k: nat) -> nat
    decreases col.len() - k,
{
    if k < col.len() && spec_fits(col[col.len() - k - 1], col[col.len() - k]) {
        run_len_from(col, k + 1)
    } else {
        k
    }
}

/// The length of the longest run on top of a non-empty column: a suffix in
/// which each card fits the card below it.
pub open spec fn spec_run_len(col: Seq<Card>) -> nat {
    run_len_from(col, 1)
}

/// The largest `k <= n` such that the `k`-th card from the top of `col` fits
/// on `top`, or 0 if there is none.
pub open spec fn spec_fit_size(col: Seq<Card>, top: Card, n: nat) -> nat
    decreases n,
{
    if n == 0 {
        0
    } else if spec_fits(top, col[col.len() - n]) {
        n
    } else {
        spec_fit_size(col, top, (n - 1) as nat)
    }
}

/// The number of cards that a move from column `f` to column `t` carries.
pub open spec fn spec_move_size(g: GameView, f: int, t: int) -> nat {
    let col = g.columns[f];
    let run = spec_run_len(col);
    let max = spec_max_move(g, t);
    let cand = if run < max {
        run
    } else {
        max
    };
    if g.columns[t].len() == 0 {
        cand
    } else {
        spec_fit_size(col, g.columns[t].last(), cand)
    }
}

/// Column to column: the top `spec_move_size` cards move together, in order.
pub open spec fn spec_column_column(g: GameView, f: int, t: int) -> Option<GameView> {
    let k = spec_move_size(g, f, t);
    let col = g.columns[f];
    let n = col.len() as int;
    if f == t || k == 0 {
        None
    } else {
        Some(
            GameView {
                columns: g.columns.update(f, col.take(n - k)).update(t, g.columns[t] + col.skip(n - k)),
                ..g
            },
        )
    }
}

/// The game after move `m`, or `None` where the rules reject it.
pub open spec fn spec_apply(g: GameView, m: Move) -> Option<GameView> {
    if !spec_from_ok(g, m.from) || !spec_to_ok(g, m.to) {
        None
    } else {
        match (m.from, m.to) {
            (Location::Cell { i: f }, Location::Cell { i: t }) => spec_cell_cell(g, f as int, t as int),
            (Location::Cell { i: f }, Location::Foundation) => spec_cell_foundation(g, f as int),
            (Location::Cell { i: f }, Location::Column { i: t }) => spec_cell_column(g, f as int, t as int),
            (Location::Column { i: f }, Location::Cell { i: t }) => spec_column_cell(g, f as int, t as int),
            (Location::Column { i: f }, Location::Foundation) => spec_column_foundation(g, f as int),
            (Location::Column { i: f }, Location::Column { i: t }) => spec_column_column(
                g,
                f as int,
                t as int,
            ),
            _ => None,
        }
    }
}

/// `r` is what `s` describes: the game `s` holds, or a rejection.
pub open spec fn outcome(r: Result<Game, FreeCellError>, s: Option<GameView>) -> bool {
    match s {
        Some(v) => r is Ok && r->Ok_0@ == v,
        None => r == Err::<Game, FreeCellError>(FreeCellError::MoveRejected),
    }
}

fn copy_game(g: &Game) -> (r: Game)
    ensures
        r@ == g@,
{
    let r = Game { id: g.id, cells: g.cells, foundations: g.foundations.clone(), columns: g.columns.clone() };
    assert(r@.foundations =~= g@.foundations);
    assert(r@.columns =~= g@.columns);
    r
}

/// Returns the index of the foundation that holds the suit.
fn find_foundation_for(suit: Suit) -> (r: usize)
    ensures
        r == spec_foundation_index(suit),
        r < 4,
{
    match suit {
        Suit::Clubs => 0,
        Suit::Spades => 1,
        Suit::Hearts => 2,
        Suit::Diamonds => 3,
    }
}

/// Returns whether `lower` may lie on `upper` in a column.
fn fit_together(upper: &Card, lower: &Card) -> (r: bool)
    ensures
        r == spec_fits(*upper, *lower),
{
    if upper.rank == Rank::Ace {
        return false;
    }
    if lower.is_red() == upper.is_red() {
        return false;
    }
    upper.rank.value() == lower.rank.value() + 1
}

/// Puts `card` on its foundation, where the foundation rule allows it.
fn move_card_to_foundation(game: &mut Game, card: Card) -> (r: Result<(), FreeCellError>)
    ensures
        match spec_push_foundation(old(game)@, card) {
            Some(fs) => r is Ok && final(game)@ == (GameView { foundations: fs, ..old(game)@ }),
            None => r is Err && final(game)@ == old(game)@,
        },
{
    let k = find_foundation_for(card.suit);
    let len = game.foundations[k].len();
    let allowed = if len == 0 {
        card.rank == Rank::Ace
    } else {
        card.rank != Rank::Ace && card.rank.value() == game.foundations[k][len - 1].rank.value() + 1
    };
    if !allowed {
        return Err(FreeCellError::MoveRejected);
    }
    let ghost before = game@;
    game.foundations[k].push(card);
    assert(game@.foundations =~= before.foundations.update(k as int, before.foundations[k as int].push(card)));
    Ok(())
}

// `from` and `to` are cell indices.
fn move_cell_cell(game: &Game, from: usize, to: usize) -> (r: Result<Game, FreeCellError>)
    requires
        from < 4,
        to < 4,
    ensures
        outcome(r, spec_cell_cell(game@, from as int, to as int)),
{
    let mut game = copy_game(game);
    game.cells[to] = game.cells[from];
    game.cells[from] = None;
    Ok(game)
}

// `from` is a cell index.
fn move_cell_foundation(game: &Game, from: usize) -> (r: Result<Game, FreeCellError>)
    requires
        from < 4,
        game.cells[from as int] is Some,
    ensures
        outcome(r, spec_cell_foundation(game@, from as int)),
{
    let card = match game.cells[from] {
        Some(card) => card,
        None => return Err(FreeCellError::MoveRejected),
    };
    let mut game = copy_game(game);
    match move_card_to_foundation(&mut game, card) {
        Ok(()) => {
            game.cells[from] = None;
            Ok(game)
        },
        Err(_) => Err(FreeCellError::MoveRejected),
    }
}

// `from` is a cell index, `to` a column index.
fn move_cell_column(game: &Game, from: usize, to: usize) -> (r: Result<Game, FreeCellError>)
    requires
        from < 4,
        to < 8,
        game.cells[from as int] is Some,
    ensures
        outcome(r, spec_cell_column(game@, from as int, to as int)),
{
    let lower = match game.cells[from] {
        Some(card) => card,
        None => return Err(FreeCellError::MoveRejected),
    };
    let len = game.columns[to].len();
    if len > 0 {
        let upper = game.columns[to][len - 1];
        if !fit_together(&upper, &lower) {
            return Err(FreeCellError::MoveRejected);
        }
    }
    let mut game = copy_game(game);
    let ghost before = game@;
    game.columns[to].push(lower);
    game.cells[from] = None;
    assert(game@.columns =~= before.columns.update(to as int, before.columns[to as int].push(lower)));
    Ok(game)
}

// `from` is a column index, `to` a cell index.
fn move_column_cell(game: &Game, from: usize, to: usize) -> (r: Result<Game, FreeCellError>)
    requires
        from < 8,
        to < 4,
        game.columns[from as int]@.len() > 0,
    ensures
        outcome(r, spec_column_cell(game@, from as int, to as int)),
{
    let mut game = copy_game(game);
    let ghost before = game@;
    let card = match game.columns[from].pop() {
        Some(card) => card,
        None => return Err(FreeCellError::MoveRejected),
    };
    game.cells[to] = Some(card);
    assert(game@.columns =~= before.columns.update(from as int, before.columns[from as int].drop_last()));
    Ok(game)
}

// `from` is a column index.
fn move_column_foundation(game: &Game, from: usize) -> (r: Result<Game, FreeCellError>)
    requires
        from < 8,
        game.columns[from as int]@.len() > 0,
    ensures
        outcome(r, spec_column_foundation(game@, from as int)),
{
    let mut game = copy_game(game);
    let ghost before = game@;
    let card = match game.columns[from].pop() {
        Some(card) => card,
        None => return Err(FreeCellError::MoveRejected),
    };
    assert(game@.columns =~= before.columns.update(from as int, before.columns[from as int].drop_last()));
    match move_card_to_foundation(&mut game, card) {
        Ok(()) => Ok(game),
        Err(_) => Err(FreeCellError::MoveRejected),
    }
}

proof fn lemma_count_empty_columns(cols: Seq<Seq<Card>>, t: int)
    requires
        0 <= t < cols.len(),
    ensures
        count_empty_columns(cols) <= cols.len(),
        cols[t].len() == 0 ==> count_empty_columns(cols) >= 1,
        cols[t].len() > 0 ==> count_empty_columns(cols) < cols.len(),
    decreases cols.len(),
{
    let d = cols.drop_last();
    if cols.len() > 1 {
        if t < cols.len() - 1 {
            lemma_count_empty_columns(d, t);
            assert(d[t] == cols[t]);
        } else {
            lemma_count_empty_columns(d, 0);
        }
    } else {
        assert(count_empty_columns(d) == 0);
    }
}

proof fn lemma_pow2_bound(n: nat)
    requires
        n <= 8,
    ensures
        1 <= pow2(n) <= 256,
        n < 8 ==> pow2(n) <= 128,
{
    assert(pow2(0) == 1);
    assert(pow2(1) == 2);
    assert(pow2(2) == 4);
    assert(pow2(3) == 8);
    assert(pow2(4) == 16);
    assert(pow2(5) == 32);
    assert(pow2(6) == 64);
    assert(pow2(7) == 128);
    assert(pow2(8) == 256);
}

proof fn lemma_run_len_bounds(col: Seq<Card>, k: nat)
    requires
        k <= col.len(),
    ensures
        k <= run_len_from(col, k) <= col.len(),
    decreases col.len() - k,
{
    if k < col.len() && spec_fits(col[col.len() - k - 1], col[col.len() - k]) {
        lemma_run_len_bounds(col, k + 1);
    }
}

proof fn lemma_fit_size_bound(col: Seq<Card>, top: Card, n: nat)
    ensures
        spec_fit_size(col, top, n) <= n,
    decreases n,
{
    if n > 0 {
        lemma_fit_size_bound(col, top, (n - 1) as nat);
    }
}

// `from` and `to` are column indices.
fn move_column_column(game: &Game, from: usize, to: usize) -> (r: Result<Game, FreeCellError>)
    requires
        from < 8,
        to < 8,
        game.columns[from as int]@.len() > 0,
    ensures
        outcome(r, spec_column_column(game@, from as int, to as int)),
{
    if from == to {
        return Err(FreeCellError::MoveRejected);
    }
    let ghost g = game@;
    let mut empty_column_count: usize = 0;
    let mut i: usize = 0;
    while i < 8
        invariant
            i <= 8,
            g == game@,
            from < 8,
            to < 8,
            empty_column_count == count_empty_columns(g.columns.take(i as int)),
            empty_column_count <= i,
        decreases 8 - i,
    {
        assert(g.columns.take(i + 1).drop_last() == g.columns.take(i as int));
        if game.columns[i].is_empty() {
            empty_column_count = empty_column_count + 1;
        }
        i = i + 1;
    }
    assert(g.columns.take(8) == g.columns);
    proof {
        lemma_count_empty_columns(g.columns, to as int);
        lemma_count_empty_columns(g.columns, from as int);
    }
    if game.columns[to].is_empty() {
        empty_column_count = empty_column_count - 1;
    }
    let mut empty_cell_count: usize = 0;
    let mut i: usize = 0;
    while i < 4
        invariant
            i <= 4,
            g == game@,
            from < 8,
            to < 8,
            empty_cell_count == count_free_cells(g.cells.take(i as int)),
            empty_cell_count <= i,
        decreases 4 - i,
    {
        assert(g.cells.take(i + 1).drop_last() == g.cells.take(i as int));
        if game.cells[i].is_none() {
            empty_cell_count = empty_cell_count + 1;
        }
        i = i + 1;
    }
    assert(g.cells.take(4) == g.cells);
    let mut max_move_size: usize = empty_cell_count + 1;
    let mut j: usize = 0;
    assert(pow2(0) == 1);
    assert(empty_column_count < 8);
    assert(empty_cell_count <= 4);
    while j < empty_column_count
        invariant
            j <= empty_column_count,
            empty_column_count < 8,
            empty_cell_count <= 4,
            max_move_size == (empty_cell_count + 1) * pow2(j as nat),
        decreases empty_column_count - j,
    {
        proof {
            lemma_pow2_bound(j as nat);
            lemma_pow2_bound((j + 1) as nat);
        }
        assert(max_move_size <= 5 * 128) by (nonlinear_arith)
            requires
                max_move_size == (empty_cell_count + 1) * pow2(j as nat),
                empty_cell_count <= 4,
                pow2(j as nat) <= 128,
        ;
        max_move_size = max_move_size * 2;
        assert(max_move_size == (empty_cell_count + 1) * pow2((j + 1) as nat)) by (nonlinear_arith)
            requires
                max_move_size == 2 * ((empty_cell_count + 1) * pow2(j as nat)),
                pow2((j + 1) as nat) == 2 * pow2(j as nat),
        ;
        j = j + 1;
    }
    if max_move_size > 13 {
        max_move_size = 13;
    }
    assert(max_move_size == spec_max_move(g, to as int));
    let from_count = game.columns[from].len();
    let mut run: usize = 1;
    while run < from_count && fit_together(
        &game.columns[from][from_count - run - 1],
        &game.columns[from][from_count - run],
    )
        invariant
            1 <= run <= from_count,
            from_count == g.columns[from as int].len(),
            from_count == game.columns[from as int]@.len(),
            g == game@,
            from < 8,
            to < 8,
            run_len_from(g.columns[from as int], run as nat) == spec_run_len(g.columns[from as int]),
        decreases from_count - run,
    {
        run = run + 1;
    }
    assert(run_len_from(g.columns[from as int], run as nat) == run);
    if run < max_move_size {
        max_move_size = run;
    }
    let ghost cand = max_move_size;
    let to_count = game.columns[to].len();
    if to_count > 0 {
        let to_card = game.columns[to][to_count - 1];
        while max_move_size > 0 && !fit_together(
            &to_card,
            &game.columns[from][from_count - max_move_size],
        )
            invariant
                max_move_size <= cand,
                cand <= from_count,
                from_count == g.columns[from as int].len(),
                from_count == game.columns[from as int]@.len(),
                g == game@,
                from < 8,
                to < 8,
                to_card == g.columns[to as int].last(),
                spec_fit_size(g.columns[from as int], to_card, max_move_size as nat) == spec_fit_size(
                    g.columns[from as int],
                    to_card,
                    cand as nat,
                ),
            decreases max_move_size,
        {
            max_move_size = max_move_size - 1;
        }
        assert(spec_fit_size(g.columns[from as int], to_card, max_move_size as nat) == max_move_size);
    }
    assert(max_move_size == spec_move_size(g, from as int, to as int));
    if max_move_size == 0 {
        return Err(FreeCellError::MoveRejected);
    }
    let keep = from_count - max_move_size;
    let mut new_to = game.columns[to].clone();
    let mut i: usize = keep;
    while i < from_count
        invariant
            keep <= i <= from_count,
            from_count == g.columns[from as int].len(),
            from_count == game.columns[from as int]@.len(),
            g == game@,
            from < 8,
            to < 8,
            new_to@ == g.columns[to as int] + g.columns[from as int].subrange(keep as int, i as int),
        decreases from_count - i,
    {
        new_to.push(game.columns[from][i]);
        i = i + 1;
        assert(new_to@ == g.columns[to as int] + g.columns[from as int].subrange(keep as int, i as int));
    }
    let mut new_from = game.columns[from].clone();
    new_from.truncate(keep);
    let mut game = copy_game(game);
    game.columns[from] = new_from;
    game.columns[to] = new_to;
    assert(game@.columns =~= g.columns.update(from as int, g.columns[from as int].take(keep as int)).update(
        to as int,
        g.columns[to as int] + g.columns[from as int].skip(keep as int),
    ));
    Ok(game)
}

/// Applies move `m` to `game`. The game itself is never changed: the result is
/// the new game, or `MoveRejected` where the rules do not allow the move.
pub fn apply(game: &Game, mv: Move) -> (r: Result<Game, FreeCellError>)
    ensures
        outcome(r, spec_apply(game@, mv)),
        game@.wf() && r is Ok ==> r->Ok_0@.wf(),
{
    match mv.from {
        Location::Cell { i: from } => {
            if from > 3 || game.cells[from].is_none() {
                return Err(FreeCellError::MoveRejected);
            }
        },
        Location::Foundation => {
            return Err(FreeCellError::MoveRejected);
        },
        Location::Column { i: from } => {
            if from > 7 || game.columns[from].is_empty() {
                return Err(FreeCellError::MoveRejected);
            }
        },
    }
    match mv.to {
        Location::Cell { i: to } => {
            if to > 3 || game.cells[to].is_some() {
                return Err(FreeCellError::MoveRejected);
            }
        },
        Location::Foundation => {},
        Location::Column { i: to } => {
            if to > 7 {
                return Err(FreeCellError::MoveRejected);
            }
        },
    }
    let r = match mv.from {
        Location::Cell { i: from } => match mv.to {
            Location::Cell { i: to } => move_cell_cell(game, from, to),
            Location::Foundation => move_cell_foundation(game, from),
            Location::Column { i: to } => move_cell_column(game, from, to),
        },
        Location::Foundation => Err(FreeCellError::MoveRejected),
        Location::Column { i: from } => match mv.to {
            Location::Cell { i: to } => move_column_cell(game, from, to),
            Location::Foundation => move_column_foundation(game, from),
            Location::Column { i: to } => move_column_column(game, from, to),
        },
    };
    proof {
        if game@.wf() && r is Ok {
            lemma_apply_wf(game@, mv);
        }
    }
    r
}

proof fn lemma_rank_value(r: Rank)
    ensures
        Rank::spec_from_value(r.spec_value()) == r,
        0 <= r.spec_value() < 13,
{
}

proof fn lemma_rank_from_value(v: int)
    requires
        0 <= v < 13,
    ensures
        Rank::spec_from_value(v).spec_value() == v,
{
}

proof fn lemma_foundation_suit(s: Suit)
    ensures
        foundation_suit(spec_foundation_index(s)) == s,
        0 <= spec_foundation_index(s) < 4,
{
}

/// Putting a card on its foundation keeps the foundations well built and adds
/// exactly that card.
proof fn lemma_push_foundation(g: GameView, card: Card)
    requires
        g.foundations.len() == 4,
        g.foundations_ok(),
        spec_push_foundation(g, card) is Some,
    ensures
        forall|k: int| 0 <= k < 4 ==> foundation_ok(k, #[trigger] spec_push_foundation(g, card)->Some_0[k]),
        spec_push_foundation(g, card)->Some_0.len() == 4,
        forall|c: Card|
            #[trigger] piles_cards(spec_push_foundation(g, card)->Some_0).count(c) == piles_cards(
                g.foundations,
            ).count(c) + if c == card {
                1int
            } else {
                0int
            },
{
    broadcast use {vstd::seq_lib::group_to_multiset_ensures, vstd::multiset::group_multiset_properties};

    let k = spec_foundation_index(card.suit);
    let f = g.foundations[k];
    let fs = spec_push_foundation(g, card)->Some_0;
    lemma_foundation_suit(card.suit);
    lemma_rank_value(card.rank);
    assert(foundation_ok(k, f));
    if f.len() > 0 {
        assert(f[f.len() - 1] == foundation_card(k, f.len() - 1));
        lemma_rank_from_value(f.len() - 1);
    }
    assert(card.rank.spec_value() == f.len());
    assert(card == foundation_card(k, f.len() as int));
    assert(foundation_ok(k, f.push(card)));
    assert forall|j: int| 0 <= j < 4 implies foundation_ok(j, #[trigger] fs[j]) by {
        if j != k {
            assert(fs[j] == g.foundations[j]);
        }
    }
    lemma_piles_update(g.foundations, k, f.push(card));
}

/// A move that the rules accept keeps every invariant of the game: the full deck
/// exactly once, and well-built foundations.
pub proof fn lemma_apply_wf(g: GameView, m: Move)
    requires
        g.wf(),
        spec_apply(g, m) is Some,
    ensures
        spec_apply(g, m)->Some_0.wf(),
{
    match (m.from, m.to) {
        (Location::Cell { i: f }, Location::Cell { i: t }) => lemma_cell_cell_wf(g, f as int, t as int),
        (Location::Cell { i: f }, Location::Foundation) => lemma_cell_foundation_wf(g, f as int),
        (Location::Cell { i: f }, Location::Column { i: t }) => lemma_cell_column_wf(
            g,
            f as int,
            t as int,
        ),
        (Location::Column { i: f }, Location::Cell { i: t }) => lemma_column_cell_wf(
            g,
            f as int,
            t as int,
        ),
        (Location::Column { i: f }, Location::Foundation) => lemma_column_foundation_wf(g, f as int),
        (Location::Column { i: f }, Location::Column { i: t }) => lemma_column_column_wf(
            g,
            f as int,
            t as int,
        ),
        _ => {},
    }
}

proof fn lemma_cell_cell_wf(g: GameView, f: int, t: int)
    requires
        g.wf(),
        0 <= f < 4,
        0 <= t < 4,
        g.cells[f] is Some,
        g.cells[t] is None,
    ensures
        spec_cell_cell(g, f, t)->Some_0.wf(),
{
    let h = spec_cell_cell(g, f, t)->Some_0;
    let c1 = g.cells.update(t, g.cells[f]);
    lemma_cells_update(g.cells, t, g.cells[f]);
    lemma_cells_update(c1, f, None);
    assert(h.cells == c1.update(f, None));
    assert forall|c: Card| #[trigger] h.cards().count(c) == g.cards().count(c) by {
        assert(c1[f] == g.cells[f]);
    }
}

proof fn lemma_cell_foundation_wf(g: GameView, f: int)
    requires
        g.wf(),
        0 <= f < 4,
        g.cells[f] is Some,
        spec_cell_foundation(g, f) is Some,
    ensures
        spec_cell_foundation(g, f)->Some_0.wf(),
{
    let h = spec_cell_foundation(g, f)->Some_0;
    let card = g.cells[f]->Some_0;
    lemma_push_foundation(g, card);
    lemma_cells_update(g.cells, f, None);
    assert forall|c: Card| #[trigger] h.cards().count(c) == g.cards().count(c) by {}
}

proof fn lemma_cell_column_wf(g: GameView, f: int, t: int)
    requires
        g.wf(),
        0 <= f < 4,
        0 <= t < 8,
        g.cells[f] is Some,
        spec_cell_column(g, f, t) is Some,
    ensures
        spec_cell_column(g, f, t)->Some_0.wf(),
{
    broadcast use {vstd::seq_lib::group_to_multiset_ensures, vstd::multiset::group_multiset_properties};

    let h = spec_cell_column(g, f, t)->Some_0;
    let card = g.cells[f]->Some_0;
    lemma_cells_update(g.cells, f, None);
    lemma_piles_update(g.columns, t, g.columns[t].push(card));
    assert forall|c: Card| #[trigger] h.cards().count(c) == g.cards().count(c) by {}
}

proof fn lemma_column_cell_wf(g: GameView, f: int, t: int)
    requires
        g.wf(),
        0 <= f < 8,
        0 <= t < 4,
        g.columns[f].len() > 0,
        g.cells[t] is None,
    ensures
        spec_column_cell(g, f, t)->Some_0.wf(),
{
    broadcast use {vstd::seq_lib::group_to_multiset_ensures, vstd::multiset::group_multiset_properties};

    let h = spec_column_cell(g, f, t)->Some_0;
    let col = g.columns[f];
    assert(col == col.drop_last().push(col.last()));
    lemma_cells_update(g.cells, t, Some(col.last()));
    lemma_piles_update(g.columns, f, col.drop_last());
    assert forall|c: Card| #[trigger] h.cards().count(c) == g.cards().count(c) by {}
}

proof fn lemma_column_foundation_wf(g: GameView, f: int)
    requires
        g.wf(),
        0 <= f < 8,
        g.columns[f].len() > 0,
        spec_column_foundation(g, f) is Some,
    ensures
        spec_column_foundation(g, f)->Some_0.wf(),
{
    broadcast use {vstd::seq_lib::group_to_multiset_ensures, vstd::multiset::group_multiset_properties};

    let h = spec_column_foundation(g, f)->Some_0;
    let col = g.columns[f];
    assert(col == col.drop_last().push(col.last()));
    lemma_push_foundation(g, col.last());
    lemma_piles_update(g.columns, f, col.drop_last());
    assert forall|c: Card| #[trigger] h.cards().count(c) == g.cards().count(c) by {}
}

proof fn lemma_column_column_wf(g: GameView, f: int, t: int)
    requires
        g.wf(),
        0 <= f < 8,
        0 <= t < 8,
        g.columns[f].len() > 0,
        spec_column_column(g, f, t) is Some,
    ensures
        spec_column_column(g, f, t)->Some_0.wf(),
{
    let h = spec_column_column(g, f, t)->Some_0;
    let a = g.columns[f];
    let b = g.columns[t];
    let k = spec_move_size(g, f, t);
    let n = a.len() as int;
    lemma_supermove_size(g, f, t);
    let c1 = g.columns.update(f, a.take(n - k));
    assert(a == a.take(n - k) + a.skip(n - k));
    vstd::seq_lib::lemma_multiset_commutative(a.take(n - k), a.skip(n - k));
    vstd::seq_lib::lemma_multiset_commutative(b, a.skip(n - k));
    lemma_piles_update(g.columns, f, a.take(n - k));
    lemma_piles_update(c1, t, b + a.skip(n - k));
    assert(c1[t] == b);
    assert forall|c: Card| #[trigger] h.cards().count(c) == g.cards().count(c) by {}
}

/// A move between columns carries at least one card and no more than the
/// column holds, nor more than the capacity that free cells and empty columns give.
pub proof fn lemma_supermove_size(g: GameView, f: int, t: int)
    requires
        g.columns.len() == 8,
        0 <= f < 8,
        0 <= t < 8,
        g.columns[f].len() > 0,
    ensures
        spec_move_size(g, f, t) <= g.columns[f].len(),
        spec_move_size(g, f, t) <= spec_max_move(g, t),
        spec_move_size(g, f, t) <= spec_run_len(g.columns[f]),
{
    let col = g.columns[f];
    lemma_run_len_bounds(col, 1);
    let run = spec_run_len(col);
    let max = spec_max_move(g, t);
    let cand = if run < max {
        run
    } else {
        max
    };
    lemma_fit_size_bound(col, g.columns[t].last(), cand);
}

/// The rank value of the top card of a foundation, or -1 when it is empty.
pub open spec fn top_rank(f: Seq<Card>) -> int {
    if f.len() == 0 {
        -1
    } else {
        f.last().rank.spec_value()
    }
}

/// The foundation of the other suit of the same colour as foundation `k`.
pub open spec fn partner_index(k: int) -> int {
    if k == 0 {
        1
    } else if k == 1 {
        0
    } else if k == 2 {
        3
    } else {
        2
    }
}

/// The lower of the top ranks of the two foundations of the colour opposite to
/// foundation `k`'s (each -1 when empty).
pub open spec fn opposite_min_rank(g: GameView, k: int) -> int {
    let (a, b) = if k < 2 {
        (top_rank(g.foundations[2]), top_rank(g.foundations[3]))
    } else {
        (top_rank(g.foundations[0]), top_rank(g.foundations[1]))
    };
    if a < b {
        a
    } else {
        b
    }
}

/// The automove guard: an ace always goes up; another card goes up when it is
/// next on its foundation and no card that could still want to lie on it in a
/// column is left. With `own` the rank of its foundation's top, `same` that of
/// the other foundation of its colour and `other` the lower of the two of the
/// other colour: `own - other <= 1` and (`own <= other` or `other - same <= 1`).
pub open spec fn spec_qualifies(g: GameView, card: Card) -> bool {
    let k = spec_foundation_index(card.suit);
    let own = g.foundations[k];
    if card.rank == Rank::Ace {
        true
    } else if own.len() == 0 || own.last().rank.spec_value() != card.rank.spec_value() - 1 {
        false
    } else {
        let own_rank = own.last().rank.spec_value();
        let same = top_rank(g.foundations[partner_index(k)]);
        let other = opposite_min_rank(g, k);
        own_rank - other < 2 && (own_rank <= other || other - same < 2)
    }
}

/// A card that automove sends up: it passes the guard and its foundation takes it.
pub open spec fn spec_auto_card(g: GameView, card: Card) -> bool {
    spec_qualifies(g, card) && spec_push_foundation(g, card) is Some
}

/// Whether position `j` holds a card that automove sends up: columns 0 to 7
/// are positions 0 to 7 (their top cards), cells 0 to 3 are positions 8 to 11.
pub open spec fn spec_position_auto(g: GameView, j: int) -> bool {
    if j < 8 {
        g.columns[j].len() > 0 && spec_auto_card(g, g.columns[j].last())
    } else {
        g.cells[j - 8] is Some && spec_auto_card(g, g.cells[j - 8]->Some_0)
    }
}

/// The automove from the first position at or after `i` whose card goes up.
pub open spec fn automove_scan(g: GameView, i: nat) -> Option<GameView>
    decreases 12 - i,
{
    if i >= 12 {
        None
    } else if spec_position_auto(g, i as int) {
        if i < 8 {
            spec_column_foundation(g, i as int)
        } else {
            spec_cell_foundation(g, i - 8)
        }
    } else {
        automove_scan(g, i + 1)
    }
}

/// One automove: the first column top (columns in order), else the first cell
/// card (cells in order), that goes up; `None` when no card does.
pub open spec fn spec_automove(g: GameView) -> Option<GameView> {
    automove_scan(g, 0)
}

/// Returns whether `card` passes the automove guard.
fn check(game: &Game, card: Card) -> (r: bool)
    ensures
        r == spec_qualifies(game@, card),
{
    if card.rank == Rank::Ace {
        return true;
    }
    let k = find_foundation_for(card.suit);
    let own_len = game.foundations[k].len();
    if own_len == 0 || game.foundations[k][own_len - 1].rank.value() as i16 != card.rank.value() as i16 - 1 {
        return false;
    }
    let own_rank = game.foundations[k][own_len - 1].rank.value() as i16;
    let partner: usize = if k == 0 {
        1
    } else if k == 1 {
        0
    } else if k == 2 {
        3
    } else {
        2
    };
    let same = foundation_top_rank(&game.foundations[partner]);
    let (a, b) = if k < 2 {
        (foundation_top_rank(&game.foundations[2]), foundation_top_rank(&game.foundations[3]))
    } else {
        (foundation_top_rank(&game.foundations[0]), foundation_top_rank(&game.foundations[1]))
    };
    let other = if a < b {
        a
    } else {
        b
    };
    own_rank - other < 2 && (own_rank <= other || other - same < 2)
}

/// Returns the rank value of the top card of a foundation, or -1 when it is empty.
fn foundation_top_rank(f: &Vec<Card>) -> (r: i16)
    ensures
        r == top_rank(f@),
        -1 <= r < 13,
{
    let n = f.len();
    if n == 0 {
        -1
    } else {
        f[n - 1].rank.value() as i16
    }
}

/// Performs one automove: the first column top (columns in order), else the
/// first cell card (cells in order), that may go up to its foundation and is no
/// longer useful in the columns. Returns `None` when no card qualifies.
pub fn automove(game: &Game) -> (r: Option<Game>)
    ensures
        match spec_automove(game@) {
            Some(v) => r is Some && r->Some_0@ == v,
            None => r is None,
        },
        game@.wf() && r is Some ==> r->Some_0@.wf(),
        game@.wf() && r is Some ==> r->Some_0@.foundation_total() == game@.foundation_total() + 1,
        r is Some ==> r->Some_0@.id == game@.id,
{
    let mut i: usize = 0;
    while i < 8
        invariant
            i <= 8,
            automove_scan(game@, 0) == automove_scan(game@, i as nat),
        decreases 8 - i,
    {
        let len = game.columns[i].len();
        if len > 0 {
            let card = game.columns[i][len - 1];
            if check(game, card) {
                if let Ok(next) = move_column_foundation(game, i) {
                    proof {
                        lemma_scan_keeps_id(game@, 0);
                        lemma_automove_step(game@, i as int);
                    }
                    return Some(next);
                }
            }
        }
        i = i + 1;
    }
    let mut i: usize = 0;
    while i < 4
        invariant
            i <= 4,
            automove_scan(game@, 0) == automove_scan(game@, (i + 8) as nat),
        decreases 4 - i,
    {
        if let Some(card) = game.cells[i] {
            if check(game, card) {
                if let Ok(next) = move_cell_foundation(game, i) {
                    proof {
                        lemma_scan_keeps_id(game@, 0);
                        lemma_automove_step(game@, (i + 8) as int);
                    }
                    return Some(next);
                }
            }
        }
        i = i + 1;
    }
    None
}

proof fn lemma_scan_keeps_id(g: GameView, i: nat)
    ensures
        automove_scan(g, i) is Some ==> automove_scan(g, i)->Some_0.id == g.id,
    decreases 12 - i,
{
    if i < 12 && !spec_position_auto(g, i as int) {
        lemma_scan_keeps_id(g, i + 1);
    }
}

/// An automove from position `j` is the move from there to the foundation: it
/// keeps the invariants and adds one card to the foundations.
proof fn lemma_automove_step(g: GameView, j: int)
    requires
        0 <= j < 12,
        g.cells.len() == 4,
        g.columns.len() == 8,
        g.foundations.len() == 4,
        spec_position_auto(g, j),
    ensures
        ({
            let m = if j < 8 {
                Move { from: Location::Column { i: j as usize }, to: Location::Foundation }
            } else {
                Move { from: Location::Cell { i: (j - 8) as usize }, to: Location::Foundation }
            };
            &&& spec_apply(g, m) is Some
            &&& spec_apply(g, m) == if j < 8 {
                spec_column_foundation(g, j)
            } else {
                spec_cell_foundation(g, j - 8)
            }
            &&& g.wf() ==> spec_apply(g, m)->Some_0.wf()
            &&& spec_apply(g, m)->Some_0.foundation_total() == g.foundation_total() + 1
        }),
{
    let m = if j < 8 {
        Move { from: Location::Column { i: j as usize }, to: Location::Foundation }
    } else {
        Move { from: Location::Cell { i: (j - 8) as usize }, to: Location::Foundation }
    };
    if g.wf() {
        lemma_apply_wf(g, m);
    }
    let card = if j < 8 {
        g.columns[j].last()
    } else {
        g.cells[j - 8]->Some_0
    };
    lemma_foundation_suit(card.suit);
}

/// An accepted move between two columns transfers no more cards than
/// `min(13, (free cells + 1) * 2^(empty columns other than the target))`.
pub proof fn lemma_supermove_capacity(g: GameView, f: usize, t: usize)
    requires
        g.columns.len() == 8,
        spec_apply(g, Move { from: Location::Column { i: f }, to: Location::Column { i: t } }) is Some,
    ensures
        ({
            let h = spec_apply(g, Move { from: Location::Column { i: f }, to: Location::Column { i: t } })->Some_0;
            &&& g.columns[f as int].len() - h.columns[f as int].len() == h.columns[t as int].len()
                - g.columns[t as int].len()
            &&& 1 <= h.columns[t as int].len() - g.columns[t as int].len() <= spec_max_move(g, t as int)
            &&& spec_max_move(g, t as int) <= 13
        }),
{
    lemma_supermove_size(g, f as int, t as int);
}

/// Whether `c` lies open to automove in `g`: on top of a column or in a cell.
pub open spec fn spec_exposed(g: GameView, c: Card) -> bool {
    (exists|j: int| 0 <= j < 8 && g.columns[j].len() > 0 && #[trigger] g.columns[j].last() == c)
        || (exists|j: int| 0 <= j < 4 && #[trigger] g.cells[j] == Some(c))
}

proof fn lemma_scan_none(g: GameView, i: nat)
    requires
        i <= 12,
    ensures
        automove_scan(g, i) is None <==> forall|j: int| i <= j < 12 ==> !#[trigger] spec_position_auto(g, j),
    decreases 12 - i,
{
    if i < 12 {
        lemma_scan_none(g, i + 1);
        if spec_position_auto(g, i as int) {
            let card = if i < 8 {
                g.columns[i as int].last()
            } else {
                g.cells[i - 8]->Some_0
            };
            assert(spec_push_foundation(g, card) is Some);
        }
    }
}

/// At a fixed point automove stays put under any rearrangement of the open cards:
/// if automove does nothing on `g`, it does nothing on a game `h` with the same
/// foundations whose open cards (column tops and cell cards) are all open in `g`,
/// such as `g` with its columns or its cells in another order.
pub proof fn lemma_automove_fixed_point(g: GameView, h: GameView)
    requires
        g.cells.len() == 4,
        g.columns.len() == 8,
        h.cells.len() == 4,
        h.columns.len() == 8,
        h.foundations == g.foundations,
        forall|c: Card| #[trigger] spec_exposed(h, c) ==> spec_exposed(g, c),
        spec_automove(g) is None,
    ensures
        spec_automove(h) is None,
{
    lemma_scan_none(g, 0);
    lemma_scan_none(h, 0);
    assert forall|j: int| 0 <= j < 12 implies !#[trigger] spec_position_auto(h, j) by {
        if spec_position_auto(h, j) {
            let card = if j < 8 {
                h.columns[j].last()
            } else {
                h.cells[j - 8]->Some_0
            };
            assert(spec_exposed(h, card));
            assert(spec_exposed(g, card));
            assert(spec_auto_card(g, card));
            if exists|k: int| 0 <= k < 8 && g.columns[k].len() > 0 && #[trigger] g.columns[k].last() == card {
                let k = choose|k: int| 0 <= k < 8 && g.columns[k].len() > 0 && #[trigger] g.columns[k].last() == card;
                assert(spec_position_auto(g, k));
            } else {
                let k = choose|k: int| 0 <= k < 4 && #[trigger] g.cells[k] == Some(card);
                assert(spec_position_auto(g, k + 8));
            }
        }
    }
}

/// On a valid game the automove guard alone decides: an open card that passes
/// it is always taken by its foundation (an ace's foundation is then empty,
/// since each card is in the game once).
pub proof fn lemma_qualified_card_goes_up(g: GameView, j: int)
    requires
        g.wf(),
        0 <= j < 12,
        j < 8 ==> g.columns[j].len() > 0,
        j >= 8 ==> g.cells[j - 8] is Some,
        spec_qualifies(
            g,
            if j < 8 {
                g.columns[j].last()
            } else {
                g.cells[j - 8]->Some_0
            },
        ),
    ensures
        spec_position_auto(g, j),
{
    let card = if j < 8 {
        g.columns[j].last()
    } else {
        g.cells[j - 8]->Some_0
    };
    let k = spec_foundation_index(card.suit);
    lemma_foundation_suit(card.suit);
    if card.rank == Rank::Ace && g.foundations[k].len() > 0 {
        assert(foundation_ok(k, g.foundations[k]));
        assert(g.foundations[k][0] == foundation_card(k, 0));
        assert(g.foundations[k][0] == card);
        crate::game::lemma_pile_holds(g.foundations, k, 0);
        if j < 8 {
            crate::game::lemma_pile_holds(g.columns, j, g.columns[j].len() - 1);
        } else {
            crate::game::lemma_cell_holds(g.cells, j - 8, card);
        }
        assert(g.cards().count(card) >= 2);
    }
}

proof fn lemma_run_len_from_is_run(col: Seq<Card>, k: nat)
    requires
        1 <= k <= col.len(),
        forall|i: int| col.len() - k <= i < col.len() - 1 ==> spec_fits(#[trigger] col[i], col[i + 1]),
    ensures
        k <= run_len_from(col, k) <= col.len(),
        forall|i: int|
            col.len() - run_len_from(col, k) <= i < col.len() - 1 ==> spec_fits(#[trigger] col[i], col[i + 1]),
        run_len_from(col, k) < col.len() ==> !spec_fits(
            col[col.len() - run_len_from(col, k) - 1],
            col[col.len() - run_len_from(col, k)],
        ),
    decreases col.len() - k,
{
    if k < col.len() && spec_fits(col[col.len() - k - 1], col[col.len() - k]) {
        lemma_run_len_from_is_run(col, k + 1);
    }
}

/// The run on top of a non-empty column is the longest suffix in which each
/// card fits the card below it: every pair inside it fits, and the pair just
/// below it, if any, does not.
pub proof fn lemma_run_len_is_longest_run(col: Seq<Card>)
    requires
        col.len() > 0,
    ensures
        1 <= spec_run_len(col) <= col.len(),
        forall|i: int|
            col.len() - spec_run_len(col) <= i < col.len() - 1 ==> spec_fits(#[trigger] col[i], col[i + 1]),
        spec_run_len(col) < col.len() ==> !spec_fits(
            col[col.len() - spec_run_len(col) - 1],
            col[col.len() - spec_run_len(col)],
        ),
{
    lemma_run_len_from_is_run(col, 1);
}

/// The number of cards that land on a non-empty column is the largest `k` up to
/// the bound whose `k`-th card from the top fits on the target's top card.
pub proof fn lemma_fit_size_is_largest(col: Seq<Card>, top: Card, n: nat)
    requires
        n <= col.len(),
    ensures
        spec_fit_size(col, top, n) <= n,
        spec_fit_size(col, top, n) > 0 ==> spec_fits(top, col[col.len() - spec_fit_size(col, top, n)]),
        forall|k: int|
            spec_fit_size(col, top, n) < k <= n ==> !spec_fits(top, #[trigger] col[col.len() - k]),
    decreases n,
{
    if n > 0 && !spec_fits(top, col[col.len() - n]) {
        lemma_fit_size_is_largest(col, top, (n - 1) as nat);
    }
}

} // verus!
