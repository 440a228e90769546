use vstd::multiset::Multiset;
use vstd::prelude::*;

use crate::card::{Card, Rank, Suit, lemma_card_id};
use crate::prng::{Prng, spec_next_state, spec_output};

verus! {


/// A game as a mathematical value.
pub struct GameView {
    pub id: u16,
    pub cells: Seq<Option<Card>>,
    pub foundations: Seq<Seq<Card>>,
    pub columns: Seq<Seq<Card>>,
}

/// A FreeCell game: its deal id, four cells, four foundations and eight columns.
#[derive(Clone, Debug)]
pub struct Game {
    /// The id of the deal.
    pub id: u16,
    /// The cells, each empty or holding one card.
    pub cells: [Option<Card>; 4],
    /// The foundations, in the order clubs, spades, hearts, diamonds; the last card is the top.
    pub foundations: [Vec<Card>; 4],
    /// The columns; the last card of each is its top.
    pub columns: [Vec<Card>; 8],
}

impl View for Game {
    type V = GameView;

    open spec fn view(&self) -> GameView {
        GameView {
            id: self.id,
            cells: self.cells@,
            foundations: Seq::new(4, |i: int| self.foundations[i]@),
            columns: Seq::new(8, |i: int| self.columns[i]@),
        }
    }
}

/// The cards held in a sequence of cells.
pub open spec fn cells_cards(cells: Seq<Option<Card>>) -> Multiset<Card>
    decreases cells.len(),
{
    if cells.len() == 0 {
        Multiset::empty()
    } else {
        let rest = cells_cards(cells.drop_last());
        match cells.last() {
            Some(c) => rest.insert(c),
            None => rest,
        }
    }
}

/// The cards held in a sequence of piles.
pub open spec fn piles_cards(piles: Seq<Seq<Card>>) -> Multiset<Card>
    decreases piles.len(),
{
    if piles.len() == 0 {
        Multiset::empty()
    } else {
        piles_cards(piles.drop_last()).add(piles.last().to_multiset())
    }
}

/// The suit that foundation `k` holds: clubs, spades, hearts, diamonds in that order.
pub open spec fn foundation_suit(k: int) -> Suit {
    if k == 0 {
        Suit::Clubs
    } else if k == 1 {
        Suit::Spades
    } else if k == 2 {
        Suit::Hearts
    } else {
        Suit::Diamonds
    }
}

/// The index of the foundation that holds the suit `s`.
pub open spec fn spec_foundation_index(s: Suit) -> int {
    match s {
        Suit::Clubs => 0,
        Suit::Spades => 1,
        Suit::Hearts => 2,
        Suit::Diamonds => 3,
    }
}

/// The card of foundation `k`'s suit whose rank has the value `j`.
pub open spec fn foundation_card(k: int, j: int) -> Card {
    Card { suit: foundation_suit(k), rank: Rank::spec_from_value(j) }
}

/// Foundation `k` holds cards of its own suit only, ranked from the ace upwards
/// without a gap.
pub open spec fn foundation_ok(k: int, f: Seq<Card>) -> bool {
    &&& f.len() <= 13
    &&& forall|j: int| 0 <= j < f.len() ==> #[trigger] f[j] == foundation_card(k, j)
}

impl GameView {
    /// All cards of the game, in cells, on foundations and in columns.
    pub open spec fn cards(self) -> Multiset<Card> {
        cells_cards(self.cells).add(piles_cards(self.foundations)).add(
            piles_cards(self.columns),
        )
    }

    /// Every one of the 52 cards is in the game exactly once.
    pub open spec fn holds_full_deck(self) -> bool {
        forall|c: Card| #[trigger] self.cards().count(c) == 1
    }

    /// Each foundation holds its own suit, from the ace upwards.
    pub open spec fn foundations_ok(self) -> bool {
        forall|k: int| 0 <= k < 4 ==> foundation_ok(k, #[trigger] self.foundations[k])
    }

    /// The invariants of a game: four cells, four foundations, eight columns,
    /// the full deck exactly once, and well-built foundations.
    pub open spec fn wf(self) -> bool {
        &&& self.cells.len() == 4
        &&& self.foundations.len() == 4
        &&& self.columns.len() == 8
        &&& self.holds_full_deck()
        &&& self.foundations_ok()
    }

    /// The number of cards on the foundations.
    pub open spec fn foundation_total(self) -> nat {
        self.foundations[0].len() + self.foundations[1].len() + self.foundations[2].len()
            + self.foundations[3].len()
    }

    /// A game is won when all 52 cards are on the foundations.
    pub open spec fn is_won(self) -> bool {
        self.foundation_total() == 52
    }
}

/// Replacing pile `i` by `x` takes the cards of pile `i` out and puts those of `x` in.
pub proof fn lemma_piles_update(p: Seq<Seq<Card>>, i: int, x: Seq<Card>)
    requires
        0 <= i < p.len(),
    ensures
        forall|c: Card|
            #[trigger] piles_cards(p.update(i, x)).count(c) + p[i].to_multiset().count(c)
                == piles_cards(p).count(c) + x.to_multiset().count(c),
    decreases p.len(),
{
    broadcast use {vstd::seq_lib::group_to_multiset_ensures, vstd::multiset::group_multiset_properties};

    let q = p.update(i, x);
    assert(q.drop_last() == if i == p.len() - 1 {
        p.drop_last()
    } else {
        p.drop_last().update(i, x)
    });
    if i < p.len() - 1 {
        lemma_piles_update(p.drop_last(), i, x);
        assert(q.last() == p.last());
    } else {
        assert(q.last() == x);
    }
    assert forall|c: Card|
        #[trigger] piles_cards(q).count(c) + p[i].to_multiset().count(c) == piles_cards(p).count(
            c,
        ) + x.to_multiset().count(c) by {
        assert(piles_cards(q).count(c) == piles_cards(q.drop_last()).count(c)
            + q.last().to_multiset().count(c));
        assert(piles_cards(p).count(c) == piles_cards(p.drop_last()).count(c)
            + p.last().to_multiset().count(c));
    }
}

/// Replacing cell `i` by `o` takes the card of cell `i` out and puts that of `o` in.
pub proof fn lemma_cells_update(cs: Seq<Option<Card>>, i: int, o: Option<Card>)
    requires
        0 <= i < cs.len(),
    ensures
        forall|c: Card|
            #[trigger] cells_cards(cs.update(i, o)).count(c) + (if cs[i] == Some(c) {
                1int
            } else {
                0int
            }) == cells_cards(cs).count(c) + (if o == Some(c) {
                1int
            } else {
                0int
            }),
    decreases cs.len(),
{
    broadcast use {vstd::seq_lib::group_to_multiset_ensures, vstd::multiset::group_multiset_properties};

    let q = cs.update(i, o);
    assert(q.drop_last() == if i == cs.len() - 1 {
        cs.drop_last()
    } else {
        cs.drop_last().update(i, o)
    });
    if i < cs.len() - 1 {
        lemma_cells_update(cs.drop_last(), i, o);
        assert(q.last() == cs.last());
    } else {
        assert(q.last() == o);
    }
    assert forall|c: Card|
        #[trigger] cells_cards(q).count(c) + (if cs[i] == Some(c) {
            1int
        } else {
            0int
        }) == cells_cards(cs).count(c) + (if o == Some(c) {
            1int
        } else {
            0int
        }) by {
        assert(cells_cards(q) == match q.last() {
            Some(d) => cells_cards(q.drop_last()).insert(d),
            None => cells_cards(q.drop_last()),
        });
        assert(cells_cards(cs) == match cs.last() {
            Some(d) => cells_cards(cs.drop_last()).insert(d),
            None => cells_cards(cs.drop_last()),
        });
    }
}

/// A card in one of the cells is among the cells' cards.
pub proof fn lemma_cell_holds(cs: Seq<Option<Card>>, j: int, c: Card)
    requires
        0 <= j < cs.len(),
        cs[j] == Some(c),
    ensures
        cells_cards(cs).count(c) >= 1,
{
    lemma_cells_update(cs, j, None);
    assert(cells_cards(cs.update(j, None)).count(c) + 1 == cells_cards(cs).count(c));
}

/// A card in one of the piles is among the piles' cards.
pub proof fn lemma_pile_holds(ps: Seq<Seq<Card>>, k: int, i: int)
    requires
        0 <= k < ps.len(),
        0 <= i < ps[k].len(),
    ensures
        piles_cards(ps).count(ps[k][i]) >= 1,
{
    broadcast use {vstd::seq_lib::group_to_multiset_ensures, vstd::multiset::group_multiset_properties};

    lemma_piles_update(ps, k, Seq::empty());
    assert(ps[k].contains(ps[k][i]));
    assert(Seq::<Card>::empty().to_multiset().count(ps[k][i]) == 0);
    assert(piles_cards(ps.update(k, Seq::empty())).count(ps[k][i]) + ps[k].to_multiset().count(ps[k][i])
        == piles_cards(ps).count(ps[k][i]) + Seq::<Card>::empty().to_multiset().count(ps[k][i]));
}

/// Piles that are all empty hold no card.
pub proof fn lemma_piles_empty(p: Seq<Seq<Card>>)
    requires
        forall|i: int| 0 <= i < p.len() ==> #[trigger] p[i].len() == 0,
    ensures
        piles_cards(p) =~= Multiset::empty(),
    decreases p.len(),
{
    broadcast use {vstd::seq_lib::group_to_multiset_ensures, vstd::multiset::group_multiset_properties};

    if p.len() > 0 {
        lemma_piles_empty(p.drop_last());
        assert(p.last() =~= Seq::empty());
        vstd::multiset::lemma_multiset_empty_len(p.last().to_multiset());
    }
}

/// Cells that are all empty hold no card.
pub proof fn lemma_cells_empty(cs: Seq<Option<Card>>)
    requires
        forall|i: int| 0 <= i < cs.len() ==> #[trigger] cs[i] is None,
    ensures
        cells_cards(cs) =~= Multiset::empty(),
    decreases cs.len(),
{
    broadcast use {vstd::seq_lib::group_to_multiset_ensures, vstd::multiset::group_multiset_properties};

    if cs.len() > 0 {
        lemma_cells_empty(cs.drop_last());
    }
}

/// Where a deal stands after some cards were dealt: the generator's state, the
/// cards not yet dealt, and the columns so far.
pub struct DealState {
    pub state: u32,
    pub deck: Seq<Card>,
    pub columns: Seq<Seq<Card>>,
}

/// The deck before the deal: all 52 cards in id order.
pub open spec fn initial_deck() -> Seq<Card> {
    Seq::new(52, |i: int| Card::spec_from_id(i))
}

/// Deals the `k`-th card (counting from 0): draw a position in the deck, swap it
/// with the last card, take the last card off and put it on column `k mod 8`.
pub open spec fn deal_step(d: DealState, k: nat) -> DealState {
    let s = spec_next_state(d.state);
    let n = d.deck.len() as int;
    let idx = spec_output(s) as int % n;
    DealState {
        state: s,
        deck: d.deck.update(idx, d.deck[n - 1]).take(n - 1),
        columns: d.columns.update(k as int % 8, d.columns[k as int % 8].push(d.deck[idx])),
    }
}

/// The deal of game `id` after `k` cards were dealt; the generator starts in state `id`.
pub open spec fn deal_after(id: u16, k: nat) -> DealState
    decreases k,
{
    if k == 0 {
        DealState {
            state: id as u32,
            deck: initial_deck(),
            columns: Seq::new(8, |i: int| Seq::<Card>::empty()),
        }
    } else {
        deal_step(deal_after(id, (k - 1) as nat), (k - 1) as nat)
    }
}

/// The starting position of game `id`: all cards dealt to the columns, cells and
/// foundations empty.
pub open spec fn spec_deal(id: u16) -> GameView {
    GameView {
        id,
        cells: seq![None, None, None, None],
        foundations: Seq::new(4, |i: int| Seq::<Card>::empty()),
        columns: deal_after(id, 52).columns,
    }
}

/// The cards of the initial deck are the 52 cards, each once.
proof fn lemma_initial_deck()
    ensures
        forall|c: Card| #[trigger] initial_deck().to_multiset().count(c) == 1,
{
    broadcast use {vstd::seq_lib::group_to_multiset_ensures, vstd::multiset::group_multiset_properties};

    let d = initial_deck();
    assert forall|i: int, j: int| 0 <= i < 52 && 0 <= j < 52 && i != j implies d[i] != d[j] by {
        vstd::arithmetic::div_mod::lemma_fundamental_div_mod(i, 4);
        vstd::arithmetic::div_mod::lemma_fundamental_div_mod(j, 4);
        assert(d[i].spec_id() == i);
        assert(d[j].spec_id() == j);
    }
    assert(d.no_duplicates());
    d.lemma_multiset_has_no_duplicates();
    assert forall|c: Card| #[trigger] d.to_multiset().count(c) == 1 by {
        lemma_card_id(c);
        assert(d[c.spec_id()] == c);
        assert(d.contains(c));
    }
}

/// Drawing the card at `idx` (swap with the last, then take the last off) leaves
/// the deck without that card.
proof fn lemma_draw(deck: Seq<Card>, idx: int)
    requires
        0 <= idx < deck.len(),
    ensures
        forall|c: Card|
            #[trigger] deck.update(idx, deck[deck.len() - 1]).take(deck.len() - 1).to_multiset().count(c)
                + (if deck[idx] == c {
                1int
            } else {
                0int
            }) == deck.to_multiset().count(c),
{
    broadcast use {vstd::seq_lib::group_to_multiset_ensures, vstd::multiset::group_multiset_properties};

    let n = deck.len() - 1;
    let u = deck.update(idx, deck[n]);
    assert(u.take(n) == u.remove(n));
    assert(u[n] == deck[n]);
}

/// One more card dealt keeps the deck and the columns together the full deck.
proof fn lemma_deal_step(id: u16, k: nat)
    requires
        k < 52,
        deal_after(id, k).deck.len() == 52 - k,
        deal_after(id, k).columns.len() == 8,
        forall|c: Card|
            #[trigger] deal_after(id, k).deck.to_multiset().count(c) + piles_cards(
                deal_after(id, k).columns,
            ).count(c) == 1,
    ensures
        deal_after(id, k + 1).deck.len() == 52 - (k + 1),
        deal_after(id, k + 1).columns.len() == 8,
        forall|c: Card|
            #[trigger] deal_after(id, k + 1).deck.to_multiset().count(c) + piles_cards(
                deal_after(id, k + 1).columns,
            ).count(c) == 1,
{
    broadcast use {vstd::seq_lib::group_to_multiset_ensures, vstd::multiset::group_multiset_properties};

    let before = deal_after(id, k);
    let after = deal_after(id, k + 1);
    let n = before.deck.len() as int;
    let idx = spec_output(spec_next_state(before.state)) as int % n;
    assert(after == deal_step(before, k));
    lemma_draw(before.deck, idx);
    lemma_piles_update(before.columns, k as int % 8, before.columns[k as int % 8].push(before.deck[idx]));
}

/// Builds the deck before the deal.
fn initial_deck_vec() -> (r: Vec<Card>)
    ensures
        r@ == initial_deck(),
{
    let mut deck: Vec<Card> = Vec::new();
    let mut i: u8 = 0;
    while i < 52
        invariant
            i <= 52,
            deck@ == initial_deck().take(i as int),
        decreases 52 - i,
    {
        let card = match Card::from_id(i) {
            Ok(card) => card,
            Err(_) => Card::new(Rank::Ace, Suit::Clubs),
        };
        deck.push(card);
        i = i + 1;
        assert(deck@ == initial_deck().take(i as int));
    }
    assert(deck@ == initial_deck());
    deck
}

/// After `k` cards were dealt, the deck and the columns together hold the full deck.
proof fn lemma_deal_counts(id: u16, k: nat)
    requires
        k <= 52,
    ensures
        deal_after(id, k).deck.len() == 52 - k,
        deal_after(id, k).columns.len() == 8,
        forall|c: Card|
            #[trigger] deal_after(id, k).deck.to_multiset().count(c) + piles_cards(
                deal_after(id, k).columns,
            ).count(c) == 1,
    decreases k,
{
    if k == 0 {
        lemma_initial_deck();
        lemma_piles_empty(deal_after(id, 0).columns);
    } else {
        lemma_deal_counts(id, (k - 1) as nat);
        lemma_deal_step(id, (k - 1) as nat);
    }
}

/// A finished deal holds the full deck in its columns and nothing elsewhere.
proof fn lemma_deal_wf(id: u16)
    ensures
        deal_after(id, 52).columns.len() == 8,
        spec_deal(id).wf(),
{
    broadcast use {vstd::seq_lib::group_to_multiset_ensures, vstd::multiset::group_multiset_properties};

    lemma_deal_counts(id, 52);
    let g = spec_deal(id);
    lemma_cells_empty(g.cells);
    lemma_piles_empty(g.foundations);
    assert(g.cards() =~= piles_cards(g.columns));
    assert(deal_after(id, 52).deck.to_multiset() =~= Multiset::empty());
}

impl Game {
    /// Creates the starting position of game `id` with the generator and shuffle of
    /// the classic numbered deals.
    pub fn from_id(id: u16) -> (r: Game)
        ensures
            r@ == spec_deal(id),
            r@.wf(),
    {
        let mut prng = Prng { state: id as u32 };
        let mut game = Game {
            id,
            cells: [None, None, None, None],
            foundations: [Vec::new(), Vec::new(), Vec::new(), Vec::new()],
            columns: [
                Vec::new(),
                Vec::new(),
                Vec::new(),
                Vec::new(),
                Vec::new(),
                Vec::new(),
                Vec::new(),
                Vec::new(),
            ],
        };
        let mut deck = initial_deck_vec();
        let mut column_index: usize = 0;
        let ghost mut k: nat = 0;
        proof {
            lemma_deal_counts(id, 0);
            assert(game@.columns =~= deal_after(id, 0).columns);
        }
        while !deck.is_empty()
            invariant
                k <= 52,
                deck@.len() == 52 - k,
                deal_after(id, k).deck.len() == 52 - k,
                column_index == k % 8,
                prng.state == deal_after(id, k).state,
                deck@ == deal_after(id, k).deck,
                deal_after(id, k).columns.len() == 8,
                game@.columns == deal_after(id, k).columns,
                game.id == id,
                game.cells@ == seq![None::<Card>, None, None, None],
                forall|j: int| 0 <= j < 4 ==> #[trigger] game.foundations[j]@.len() == 0,
            decreases deck@.len(),
        {
            let drawn = prng.get_next();
            let deck_index = drawn as usize % deck.len();
            let last_deck_index = deck.len() - 1;
            let card = deck[deck_index];
            let last_card = deck[last_deck_index];
            deck.set(deck_index, last_card);
            deck.pop();
            let ghost cols_before = game@.columns;
            game.columns[column_index].push(card);
            proof {
                assert(game@.columns =~= cols_before.update(
                    column_index as int,
                    cols_before[column_index as int].push(card),
                ));
                lemma_deal_counts(id, k + 1);
                k = k + 1;
            }
            column_index = (column_index + 1) % 8;
        }
        proof {
            lemma_deal_wf(id);
            assert(game@.columns =~= deal_after(id, 52).columns);
            assert forall|j: int| 0 <= j < 4 implies #[trigger] game@.foundations[j] == spec_deal(
                id,
            ).foundations[j] by {
                assert(game.foundations[j]@.len() == 0);
                assert(game@.foundations[j] =~= Seq::<Card>::empty());
            }
            assert(game@.foundations =~= spec_deal(id).foundations);
        }
        game
    }

    /// Returns whether the game is won: all 52 cards are on the foundations.
    pub fn is_won(&self) -> (r: bool)
        ensures
            r == self@.is_won(),
    {
        let a = self.foundations[0].len();
        let b = self.foundations[1].len();
        let c = self.foundations[2].len();
        let d = self.foundations[3].len();
        a <= 52 && b <= 52 && c <= 52 && d <= 52 && a + b + c + d == 52
    }
}

/// Returns whether two piles hold the same cards in the same order.
fn same_pile(a: &Vec<Card>, b: &Vec<Card>) -> (r: bool)
    ensures
        r == (a@ == b@),
{
    if a.len() != b.len() {
        return false;
    }
    let mut i: usize = 0;
    while i < a.len()
        invariant
            i <= a@.len(),
            a@.len() == b@.len(),
            forall|j: int| 0 <= j < i ==> a@[j] == b@[j],
        decreases a@.len() - i,
    {
        if a[i] != b[i] {
            return false;
        }
        i = i + 1;
    }
    assert(a@ =~= b@);
    true
}

impl PartialEq for Game {
    fn eq(&self, other: &Game) -> (r: bool)
        ensures
            r == (self@ == other@),
    {
        let mut same = self.id == other.id;
        let mut i: usize = 0;
        while i < 4
            invariant
                i <= 4,
                same == (self.id == other.id && forall|j: int| 0 <= j < i ==> self.cells[j] == other.cells[j]),
            decreases 4 - i,
        {
            same = same && self.cells[i] == other.cells[i];
            i = i + 1;
        }
        let mut i: usize = 0;
        while i < 4
            invariant
                i <= 4,
                same == (self.id == other.id && (forall|j: int| 0 <= j < 4 ==> self.cells[j] == other.cells[j])
                    && forall|j: int| 0 <= j < i ==> self.foundations[j]@ == other.foundations[j]@),
            decreases 4 - i,
        {
            same = same && same_pile(&self.foundations[i], &other.foundations[i]);
            i = i + 1;
        }
        let mut i: usize = 0;
        while i < 8
            invariant
                i <= 8,
                same == (self.id == other.id && (forall|j: int| 0 <= j < 4 ==> self.cells[j] == other.cells[j])
                    && (forall|j: int| 0 <= j < 4 ==> self.foundations[j]@ == other.foundations[j]@)
                    && forall|j: int| 0 <= j < i ==> self.columns[j]@ == other.columns[j]@),
            decreases 8 - i,
        {
            same = same && same_pile(&self.columns[i], &other.columns[i]);
            i = i + 1;
        }
        proof {
            if same {
                assert(self@.cells =~= other@.cells);
                assert(self@.foundations =~= other@.foundations);
                assert(self@.columns =~= other@.columns);
            } else if self@ == other@ {
                assert forall|j: int| 0 <= j < 4 implies self.cells[j] == other.cells[j] by {
                    assert(self@.cells[j] == other@.cells[j]);
                }
                assert forall|j: int| 0 <= j < 4 implies self.foundations[j]@ == other.foundations[j]@ by {
                    assert(self@.foundations[j] == other@.foundations[j]);
                }
                assert forall|j: int| 0 <= j < 8 implies self.columns[j]@ == other.columns[j]@ by {
                    assert(self@.columns[j] == other@.columns[j]);
                }
            }
        }
        same
    }
}

impl vstd::std_specs::cmp::PartialEqSpecImpl for Game {
    open spec fn obeys_eq_spec() -> bool {
        true
    }

    open spec fn eq_spec(&self, other: &Game) -> bool {
        self@ == other@
    }
}

} // verus!
