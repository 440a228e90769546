use vstd::prelude::*;
use vstd::set::Set;
use vstd::string::*;

use crate::card::{lemma_card_id, lemma_card_id_injective, Card, Rank, Suit};
use crate::error::FreeCellError;
use crate::game::{
    foundation_card, foundation_ok, foundation_suit, lemma_cells_empty, lemma_cells_update, lemma_piles_empty,
    lemma_piles_update, Game, GameView,
};

verus! {

/// The pieces of `s` between newlines: one more than there are newlines.
pub open spec fn split_newlines(s: Seq<char>) -> Seq<Seq<char>>
    decreases s.len(),
{
    if s.len() == 0 {
        seq![Seq::empty()]
    } else {
        let p = split_newlines(s.drop_last());
        if s.last() == '\n' {
            p.push(Seq::empty())
        } else {
            p.update(p.len() - 1, p.last().push(s.last()))
        }
    }
}

/// A line without the carriage return that may end it.
pub open spec fn strip_cr(l: Seq<char>) -> Seq<char> {
    if l.len() > 0 && l.last() == '\r' {
        l.drop_last()
    } else {
        l
    }
}

/// The lines of `s` as `str::lines` gives them: split at `\n`, a `\r` before the
/// `\n` removed, and no empty last line after a final newline.
pub open spec fn spec_lines(s: Seq<char>) -> Seq<Seq<char>> {
    let p = split_newlines(s);
    let body = Seq::new((p.len() - 1) as nat, |i: int| strip_cr(p[i]));
    if p.last().len() == 0 {
        body
    } else {
        body.push(p.last())
    }
}

/// White space as `char::is_whitespace` has it (the Unicode `White_Space` property).
pub open spec fn is_white_space(c: char) -> bool {
    let u = c as u32;
    (0x09 <= u <= 0x0D) || u == 0x20 || u == 0x85 || u == 0xA0 || u == 0x1680 || (0x2000 <= u
        <= 0x200A) || u == 0x2028 || u == 0x2029 || u == 0x202F || u == 0x205F || u == 0x3000
}

/// `s` without its leading white space.
pub open spec fn trim_start(s: Seq<char>) -> Seq<char>
    decreases s.len(),
{
    if s.len() > 0 && is_white_space(s[0]) {
        trim_start(s.drop_first())
    } else {
        s
    }
}

/// `s` without its trailing white space.
pub open spec fn trim_end(s: Seq<char>) -> Seq<char>
    decreases s.len(),
{
    if s.len() > 0 && is_white_space(s.last()) {
        trim_end(s.drop_last())
    } else {
        s
    }
}

/// The value of an ASCII decimal digit.
pub open spec fn digit_value(c: char) -> int {
    (c as u32) - 0x30
}

/// Whether `c` is an ASCII decimal digit.
pub open spec fn is_digit(c: char) -> bool {
    0x30 <= (c as u32) <= 0x39
}

/// The number that a sequence of decimal digits spells.
pub open spec fn digits_value(s: Seq<char>) -> nat
    decreases s.len(),
{
    if s.len() == 0 {
        0
    } else {
        (digits_value(s.drop_last()) * 10 + digit_value(s.last())) as nat
    }
}

/// What `str::parse::<u16>` gives: an optional `+`, then one or more decimal
/// digits whose value fits in 16 bits.
pub open spec fn spec_parse_u16(s: Seq<char>) -> Option<u16> {
    let t = unsigned_part(s);
    if t.len() > 0 && all_digits(t) && digits_value(t) <= 65535 {
        Some(digits_value(t) as u16)
    } else {
        None
    }
}

/// `s` without the `+` that may lead it.
pub open spec fn unsigned_part(s: Seq<char>) -> Seq<char> {
    if s.len() > 0 && s[0] == '+' {
        s.drop_first()
    } else {
        s
    }
}

/// Whether every character of `t` is a decimal digit.
pub open spec fn all_digits(t: Seq<char>) -> bool {
    forall|i: int| 0 <= i < t.len() ==> is_digit(#[trigger] t[i])
}

/// The characters of the title line after its first `#`, leaving out every `#`;
/// the flag says whether a `#` was met.
pub open spec fn title_scan(l: Seq<char>) -> (bool, Seq<char>)
    decreases l.len(),
{
    if l.len() == 0 {
        (false, Seq::empty())
    } else {
        let (seen, acc) = title_scan(l.drop_last());
        if l.last() == '#' {
            (true, acc)
        } else if seen {
            (true, acc.push(l.last()))
        } else {
            (false, acc)
        }
    }
}

/// The game id that the title line gives.
pub open spec fn spec_title_id(l: Seq<char>) -> Option<u16> {
    spec_parse_u16(trim_start(trim_end(title_scan(l).1)))
}

/// What a parse has gathered so far.
pub struct ParseState {
    pub cells: Seq<Option<Card>>,
    pub foundations: Seq<Seq<Card>>,
    pub columns: Seq<Seq<Card>>,
    /// The cards met so far.
    pub seen: Set<Card>,
    /// The characters of a card not yet complete.
    pub helper: Seq<char>,
    /// Whether the `||` between cells and foundations is still ahead.
    pub on_cells: bool,
}

/// Where a parse starts: everything empty.
pub open spec fn initial_state() -> ParseState {
    ParseState {
        cells: seq![None, None, None, None],
        foundations: Seq::new(4, |i: int| Seq::<Card>::empty()),
        columns: Seq::new(8, |i: int| Seq::<Card>::empty()),
        seen: Set::empty(),
        helper: Seq::empty(),
        on_cells: true,
    }
}

/// The gathered characters make a card's worth: two characters, or one that
/// takes more than one byte.
pub open spec fn helper_full(h: Seq<char>) -> bool {
    h.len() >= 2 || (h.len() == 1 && (h[0] as u32) >= 0x80)
}

/// The cards of foundation `k` up to rank value `r`.
pub open spec fn foundation_upto(k: int, r: int) -> Seq<Card> {
    Seq::new((r + 1) as nat, |j: int| foundation_card(k, j))
}

/// The cards of foundation `k` up to rank value `r`, as a set.
pub open spec fn upto_set(k: int, r: int) -> Set<Card> {
    Set::new(|c: Card| c.suit == foundation_suit(k) && c.rank.spec_value() <= r)
}

/// Whether one of the cards of foundation `k` up to rank value `r` was met already.
pub open spec fn overlaps(seen: Set<Card>, k: int, r: int) -> bool {
    exists|j: int| 0 <= j <= r && seen.contains(#[trigger] foundation_card(k, j))
}

/// Reads the character `ch` at position `i` of the cells and foundations line.
/// A card in the cells part goes to cell `(i - 1) / 4`; a foundation's top card
/// at `(i - 19) / 4` stands for all its cards from the ace up. A repeated card, a
/// cell or foundation given twice, a position off the board, or a top card of
/// the wrong suit is an error.
pub open spec fn cells_step(st: ParseState, i: int, ch: char) -> Option<ParseState> {
    if ch == ' ' {
        Some(st)
    } else if ch == '|' {
        Some(ParseState { on_cells: false, ..st })
    } else {
        let h = st.helper.push(ch);
        if !helper_full(h) {
            Some(ParseState { helper: h, ..st })
        } else {
            let card = Card::spec_parse(h);
            let cleared = ParseState { helper: Seq::empty(), ..st };
            if st.on_cells {
                let idx = (i - 1) / 4;
                if i < 1 || idx > 3 || st.cells[idx] is Some {
                    None
                } else {
                    match card {
                        Some(c) => if st.seen.contains(c) {
                            None
                        } else {
                            Some(
                                ParseState {
                                    cells: st.cells.update(idx, Some(c)),
                                    seen: st.seen.insert(c),
                                    ..cleared
                                },
                            )
                        },
                        None => Some(cleared),
                    }
                }
            } else {
                match card {
                    None => Some(cleared),
                    Some(c) => {
                        let k = (i - 19) / 4;
                        let r = c.rank.spec_value();
                        if i < 19 || k > 3 || foundation_suit(k) != c.suit || st.foundations[k].len()
                            > 0 || overlaps(st.seen, k, r) {
                            None
                        } else {
                            Some(
                                ParseState {
                                    foundations: st.foundations.update(k, foundation_upto(k, r)),
                                    seen: st.seen.union(upto_set(k, r)),
                                    ..cleared
                                },
                            )
                        }
                    },
                }
            }
        }
    }
}

/// Reads the character `ch` at position `i` of a line of the columns block: a
/// card goes on column `(i - 2) / 4`. An unknown or repeated card, or a
/// position off the board, is an error.
pub open spec fn column_step(st: ParseState, i: int, ch: char) -> Option<ParseState> {
    if ch == ' ' {
        Some(st)
    } else {
        let h = st.helper.push(ch);
        if !helper_full(h) {
            Some(ParseState { helper: h, ..st })
        } else {
            match Card::spec_parse(h) {
                None => None,
                Some(c) => {
                    let idx = (i - 2) / 4;
                    if i < 2 || idx > 7 || st.seen.contains(c) {
                        None
                    } else {
                        Some(
                            ParseState {
                                columns: st.columns.update(idx, st.columns[idx].push(c)),
                                seen: st.seen.insert(c),
                                helper: Seq::empty(),
                                ..st
                            },
                        )
                    }
                },
            }
        }
    }
}

/// The state after the first `n` characters of the cells and foundations line.
pub open spec fn scan_cells(l: Seq<char>, n: int, st: ParseState) -> Option<ParseState>
    decreases n,
{
    if n <= 0 {
        Some(st)
    } else {
        match scan_cells(l, n - 1, st) {
            None => None,
            Some(s) => cells_step(s, n - 1, l[n - 1]),
        }
    }
}

/// The state after the first `n` characters of a line of the columns block.
pub open spec fn scan_row(l: Seq<char>, n: int, st: ParseState) -> Option<ParseState>
    decreases n,
{
    if n <= 0 {
        Some(st)
    } else {
        match scan_row(l, n - 1, st) {
            None => None,
            Some(s) => column_step(s, n - 1, l[n - 1]),
        }
    }
}

/// The state after the first `m` lines of the columns block.
pub open spec fn scan_rows(ls: Seq<Seq<char>>, m: int, st: ParseState) -> Option<ParseState>
    decreases m,
{
    if m <= 0 {
        Some(st)
    } else {
        match scan_rows(ls, m - 1, st) {
            None => None,
            Some(s) => scan_row(ls[m - 1], ls[m - 1].len() as int, s),
        }
    }
}

/// The game that a text gives: at least five lines; the id after `#` on the
/// first; cells and foundations on the third; columns from the fifth on; and
/// every one of the 52 cards met.
pub open spec fn spec_parse_game(s: Seq<char>) -> Option<GameView> {
    let ls = spec_lines(s);
    if ls.len() < 5 {
        None
    } else {
        match spec_title_id(ls[0]) {
            None => None,
            Some(id) => match scan_cells(ls[2], ls[2].len() as int, initial_state()) {
                None => None,
                Some(st) => {
                    let rest = ls.skip(4);
                    match scan_rows(rest, rest.len() as int, st) {
                        None => None,
                        Some(fin) => if forall|c: Card| #[trigger] fin.seen.contains(c) {
                            Some(
                                GameView {
                                    id,
                                    cells: fin.cells,
                                    foundations: fin.foundations,
                                    columns: fin.columns,
                                },
                            )
                        } else {
                            None
                        },
                    }
                },
            },
        }
    }
}

/// The state of a parse, as the parser holds it.
struct Scan {
    cells: [Option<Card>; 4],
    foundations: [Vec<Card>; 4],
    columns: [Vec<Card>; 8],
    /// Indexed by card id.
    seen: Vec<bool>,
    helper: Vec<char>,
    on_cells: bool,
}

impl View for Scan {
    type V = ParseState;

    closed spec fn view(&self) -> ParseState {
        ParseState {
            cells: self.cells@,
            foundations: Seq::new(4, |i: int| self.foundations[i]@),
            columns: Seq::new(8, |i: int| self.columns[i]@),
            seen: Set::new(|c: Card| self.seen@[c.spec_id()]),
            helper: self.helper@,
            on_cells: self.on_cells,
        }
    }
}

impl Scan {
    closed spec fn inv(&self) -> bool {
        self.seen@.len() == 52
    }

    fn new() -> (r: Scan)
        ensures
            r.inv(),
            r@ == initial_state(),
    {
        let mut seen: Vec<bool> = Vec::new();
        let mut i: usize = 0;
        while i < 52
            invariant
                i <= 52,
                seen@.len() == i,
                forall|j: int| 0 <= j < i ==> !#[trigger] seen@[j],
            decreases 52 - i,
        {
            seen.push(false);
            i = i + 1;
        }
        let r = Scan {
            cells: [None, None, None, None],
            foundations: [Vec::new(), Vec::new(), Vec::new(), Vec::new()],
            columns: [
                Vec::new(),
                Vec::new(),
                Vec::new(),
                Vec::new(),
                Vec::new(),
                Vec::new(),
                Vec::new(),
                Vec::new(),
            ],
            seen,
            helper: Vec::new(),
            on_cells: true,
        };
        proof {
            assert forall|c: Card| !#[trigger] r@.seen.contains(c) by {
                lemma_card_id(c);
            }
            assert(r@.seen =~= Set::empty());
            assert(r@.foundations =~= initial_state().foundations);
            assert(r@.columns =~= initial_state().columns);
        }
        r
    }

    fn is_seen(&self, c: Card) -> (r: bool)
        requires
            self.inv(),
        ensures
            r == self@.seen.contains(c),
    {
        self.seen[c.id() as usize]
    }

    fn mark_seen(&mut self, c: Card)
        requires
            old(self).inv(),
        ensures
            final(self).inv(),
            final(self)@ == (ParseState { seen: old(self)@.seen.insert(c), ..old(self)@ }),
    {
        let ghost before = self@;
        self.seen.set(c.id() as usize, true);
        proof {
            assert forall|d: Card| #[trigger] self@.seen.contains(d) == before.seen.insert(c).contains(d) by {
                lemma_card_id(d);
                lemma_card_id_injective(c, d);
            }
            assert(self@.seen =~= before.seen.insert(c));
            assert(self@.foundations =~= before.foundations);
            assert(self@.columns =~= before.columns);
        }
    }

    fn clear_helper(&mut self)
        ensures
            final(self).inv() == old(self).inv(),
            final(self)@ == (ParseState { helper: Seq::empty(), ..old(self)@ }),
    {
        self.helper = Vec::new();
        proof {
            assert(self@.foundations =~= old(self)@.foundations);
            assert(self@.columns =~= old(self)@.columns);
        }
    }

    /// Takes `ch` into the helper; returns whether the helper now holds a card's
    /// worth of characters, and the card that they stand for.
    fn take_char(&mut self, ch: char) -> (r: (bool, Option<Card>))
        ensures
            final(self).inv() == old(self).inv(),
            final(self)@ == (ParseState { helper: old(self)@.helper.push(ch), ..old(self)@ }),
            r.0 == helper_full(old(self)@.helper.push(ch)),
            r.1 == Card::spec_parse(old(self)@.helper.push(ch)),
    {
        self.helper.push(ch);
        proof {
            assert(self@.foundations =~= old(self)@.foundations);
            assert(self@.columns =~= old(self)@.columns);
        }
        let n = self.helper.len();
        let full = n >= 2 || (n == 1 && self.helper[0] as u32 >= 0x80);
        let card = if n == 2 {
            Card::parse_pair(self.helper[0], self.helper[1])
        } else {
            None
        };
        (full, card)
    }
}

/// Returns the suit of foundation `k`.
fn suit_of_foundation(k: usize) -> (r: Suit)
    ensures
        r == foundation_suit(k as int),
{
    if k == 0 {
        Suit::Clubs
    } else if k == 1 {
        Suit::Spades
    } else if k == 2 {
        Suit::Hearts
    } else {
        Suit::Diamonds
    }
}

/// Returns the card of foundation `k` with rank value `j`.
fn card_of_foundation(k: usize, j: u8) -> (r: Card)
    requires
        j < 13,
    ensures
        r == foundation_card(k as int, j as int),
{
    let rank = match Rank::try_from(j) {
        Some(rank) => rank,
        None => Rank::Ace,
    };
    proof {
        assert(Rank::spec_from_value(j as int).spec_value() == j);
    }
    Card::new(rank, suit_of_foundation(k))
}

/// Puts all cards of foundation `k` up to the card `c` on the foundation, unless
/// the foundation is taken or one of those cards was met already.
fn fill_foundation(st: &mut Scan, k: usize, c: Card) -> (ok: bool)
    requires
        old(st).inv(),
        k < 4,
        c.suit == foundation_suit(k as int),
    ensures
        final(st).inv(),
        ok == !(old(st)@.foundations[k as int].len() > 0 || overlaps(
            old(st)@.seen,
            k as int,
            c.rank.spec_value(),
        )),
        ok ==> final(st)@ == (ParseState {
            foundations: old(st)@.foundations.update(k as int, foundation_upto(k as int, c.rank.spec_value())),
            seen: old(st)@.seen.union(upto_set(k as int, c.rank.spec_value())),
            ..old(st)@
        }),
{
    let ghost before = st@;
    let r = c.rank.value();
    if st.foundations[k].len() > 0 {
        return false;
    }
    let mut j: u8 = 0;
    while j <= r
        invariant
            j <= r + 1,
            r < 13,
            r == c.rank.spec_value(),
            k < 4,
            st.inv(),
            st@ == before,
            forall|jj: int| 0 <= jj < j ==> !before.seen.contains(#[trigger] foundation_card(k as int, jj)),
        decreases r + 1 - j,
    {
        if st.is_seen(card_of_foundation(k, j)) {
            assert(overlaps(before.seen, k as int, r as int)) by {
                assert(before.seen.contains(foundation_card(k as int, j as int)));
            }
            return false;
        }
        j = j + 1;
    }
    assert(!overlaps(before.seen, k as int, r as int));
    let mut pile: Vec<Card> = Vec::new();
    let mut j: u8 = 0;
    assert(before.seen.union(upto_set(k as int, -1)) =~= before.seen);
    assert(pile@ =~= foundation_upto(k as int, -1));
    while j <= r
        invariant
            j <= r + 1,
            r < 13,
            r == c.rank.spec_value(),
            k < 4,
            st.inv(),
            st@ == (ParseState { seen: before.seen.union(upto_set(k as int, j - 1)), ..before }),
            pile@ == foundation_upto(k as int, j - 1),
        decreases r + 1 - j,
    {
        let card = card_of_foundation(k, j);
        st.mark_seen(card);
        pile.push(card);
        proof {
            assert(pile@ =~= foundation_upto(k as int, j as int));
            assert forall|d: Card| #[trigger] upto_set(k as int, j as int).contains(d)
                == upto_set(k as int, j - 1).insert(card).contains(d) by {
                if d.suit == foundation_suit(k as int) && d.rank.spec_value() == j {
                    assert(Rank::spec_from_value(d.rank.spec_value()) == d.rank);
                }
            }
            assert(upto_set(k as int, j as int) =~= upto_set(k as int, j - 1).insert(card));
            assert(before.seen.union(upto_set(k as int, j as int)) =~= before.seen.union(
                upto_set(k as int, j - 1),
            ).insert(card));
        }
        j = j + 1;
    }
    let ghost mid = st@;
    st.foundations[k] = pile;
    proof {
        assert(st@.foundations =~= mid.foundations.update(k as int, pile@));
        assert(st@.columns =~= mid.columns);
    }
    true
}

/// Reads character `ch` at position `i` of the cells and foundations line.
fn cells_step_exec(st: &mut Scan, i: usize, ch: char) -> (ok: bool)
    requires
        old(st).inv(),
    ensures
        final(st).inv(),
        ok == cells_step(old(st)@, i as int, ch) is Some,
        ok ==> final(st)@ == cells_step(old(st)@, i as int, ch)->Some_0,
{
    if ch == ' ' {
        return true;
    }
    if ch == '|' {
        st.on_cells = false;
        proof {
            assert(st@.foundations =~= old(st)@.foundations);
            assert(st@.columns =~= old(st)@.columns);
        }
        return true;
    }
    let (full, card) = st.take_char(ch);
    if !full {
        return true;
    }
    st.clear_helper();
    if st.on_cells {
        if i < 1 || (i - 1) / 4 > 3 {
            return false;
        }
        let idx = (i - 1) / 4;
        if st.cells[idx].is_some() {
            return false;
        }
        match card {
            Some(c) => {
                if st.is_seen(c) {
                    return false;
                }
                st.mark_seen(c);
                let ghost mid = st@;
                st.cells[idx] = Some(c);
                proof {
                    assert(st@.foundations =~= mid.foundations);
                    assert(st@.columns =~= mid.columns);
                }
                true
            },
            None => true,
        }
    } else {
        match card {
            None => true,
            Some(c) => {
                if i < 19 || (i - 19) / 4 > 3 {
                    return false;
                }
                let k = (i - 19) / 4;
                if suit_of_foundation(k) != c.suit {
                    return false;
                }
                fill_foundation(st, k, c)
            },
        }
    }
}

/// Reads character `ch` at position `i` of a line of the columns block.
fn column_step_exec(st: &mut Scan, i: usize, ch: char) -> (ok: bool)
    requires
        old(st).inv(),
    ensures
        final(st).inv(),
        ok == column_step(old(st)@, i as int, ch) is Some,
        ok ==> final(st)@ == column_step(old(st)@, i as int, ch)->Some_0,
{
    if ch == ' ' {
        return true;
    }
    let (full, card) = st.take_char(ch);
    if !full {
        return true;
    }
    match card {
        None => false,
        Some(c) => {
            if i < 2 || (i - 2) / 4 > 7 || st.is_seen(c) {
                return false;
            }
            let idx = (i - 2) / 4;
            st.clear_helper();
            st.mark_seen(c);
            let ghost mid = st@;
            st.columns[idx].push(c);
            proof {
                assert(st@.foundations =~= mid.foundations);
                assert(st@.columns =~= mid.columns.update(idx as int, mid.columns[idx as int].push(c)));
            }
            true
        },
    }
}

/// Returns the characters of `s`.
fn chars_of(s: &str) -> (r: Vec<char>)
    ensures
        r@ == s@,
{
    let n = s.unicode_len();
    let mut r: Vec<char> = Vec::new();
    let mut i: usize = 0;
    while i < n
        invariant
            i <= n,
            n == s@.len(),
            r@ == s@.take(i as int),
        decreases n - i,
    {
        r.push(s.get_char(i));
        i = i + 1;
        assert(r@ == s@.take(i as int));
    }
    assert(r@ == s@);
    r
}

/// Returns the lines of `s` as `str::lines` gives them.
fn lines_of(s: &Vec<char>) -> (r: Vec<Vec<char>>)
    ensures
        r@.len() == spec_lines(s@).len(),
        forall|i: int| 0 <= i < r@.len() ==> #[trigger] r@[i]@ == spec_lines(s@)[i],
{
    let mut pieces: Vec<Vec<char>> = Vec::new();
    let mut current: Vec<char> = Vec::new();
    let ghost mut gp: Seq<Seq<char>> = Seq::empty();
    let n = s.len();
    let mut i: usize = 0;
    while i < n
        invariant
            i <= n,
            n == s@.len(),
            pieces@.len() == gp.len(),
            forall|j: int| 0 <= j < gp.len() ==> #[trigger] pieces@[j]@ == gp[j],
            split_newlines(s@.take(i as int)) == gp.push(current@),
        decreases n - i,
    {
        let ghost before = s@.take(i as int);
        assert(s@.take(i + 1).drop_last() == before);
        if s[i] == '\n' {
            let done = current;
            current = Vec::new();
            proof {
                gp = gp.push(done@);
            }
            pieces.push(done);
            assert(split_newlines(s@.take(i + 1)) == gp.push(current@));
        } else {
            current.push(s[i]);
            assert(split_newlines(s@.take(i + 1)) =~= gp.push(current@));
        }
        i = i + 1;
    }
    assert(s@.take(n as int) == s@);
    let ghost p = split_newlines(s@);
    let mut r: Vec<Vec<char>> = Vec::new();
    let mut j: usize = 0;
    while j < pieces.len()
        invariant
            j <= pieces@.len(),
            pieces@.len() == gp.len(),
            forall|k: int| 0 <= k < gp.len() ==> #[trigger] pieces@[k]@ == gp[k],
            p == gp.push(current@),
            r@.len() == j,
            forall|k: int| 0 <= k < j ==> #[trigger] r@[k]@ == strip_cr(p[k]),
        decreases pieces@.len() - j,
    {
        let mut line = pieces[j].clone();
        let m = line.len();
        if m > 0 && line[m - 1] == '\r' {
            line.pop();
        }
        assert(line@ == strip_cr(p[j as int]));
        r.push(line);
        j = j + 1;
    }
    if current.len() > 0 {
        r.push(current);
    }
    proof {
        let body = Seq::new((p.len() - 1) as nat, |i: int| strip_cr(p[i]));
        assert(spec_lines(s@) == if p.last().len() == 0 {
            body
        } else {
            body.push(p.last())
        });
    }
    r
}

/// Returns whether `c` is white space.
fn white_space(c: char) -> (r: bool)
    ensures
        r == is_white_space(c),
{
    let u = c as u32;
    (0x09 <= u && u <= 0x0D) || u == 0x20 || u == 0x85 || u == 0xA0 || u == 0x1680 || (0x2000 <= u
        && u <= 0x200A) || u == 0x2028 || u == 0x2029 || u == 0x202F || u == 0x205F || u == 0x3000
}

proof fn lemma_trim_end_take(s: Seq<char>, e: int)
    requires
        0 < e <= s.len(),
        is_white_space(s[e - 1]),
    ensures
        trim_end(s.take(e)) == trim_end(s.take(e - 1)),
{
    assert(s.take(e).drop_last() == s.take(e - 1));
}

proof fn lemma_trim_start_skip(s: Seq<char>, b: int)
    requires
        0 <= b < s.len(),
        is_white_space(s[b]),
    ensures
        trim_start(s.skip(b)) == trim_start(s.skip(b + 1)),
{
    assert(s.skip(b).drop_first() == s.skip(b + 1));
}

proof fn lemma_digits_prefix(t: Seq<char>, i: int)
    requires
        0 <= i <= t.len(),
        forall|k: int| 0 <= k < t.len() ==> is_digit(#[trigger] t[k]),
    ensures
        digits_value(t.take(i)) <= digits_value(t),
    decreases t.len() - i,
{
    if i < t.len() {
        lemma_digits_prefix(t, i + 1);
        assert(t.take(i + 1).drop_last() == t.take(i));
    } else {
        assert(t.take(i) == t);
    }
}

/// Parses an optional `+` and decimal digits into a 16-bit number, as
/// `str::parse::<u16>` does.
fn parse_u16(s: &Vec<char>, start: usize, end: usize) -> (r: Option<u16>)
    requires
        start <= end <= s@.len(),
    ensures
        r == spec_parse_u16(s@.subrange(start as int, end as int)),
{
    let ghost whole = s@.subrange(start as int, end as int);
    let mut b = start;
    if b < end && s[b] == '+' {
        b = b + 1;
    }
    let ghost t = s@.subrange(b as int, end as int);
    assert(t == if whole.len() > 0 && whole[0] == '+' {
        whole.drop_first()
    } else {
        whole
    });
    if b == end {
        return None;
    }
    let mut value: u32 = 0;
    let mut i = b;
    while i < end
        invariant
            b <= i <= end,
            end <= s@.len(),
            t == s@.subrange(b as int, end as int),
            whole == s@.subrange(start as int, end as int),
            t == if whole.len() > 0 && whole[0] == '+' {
                whole.drop_first()
            } else {
                whole
            },
            forall|k: int| 0 <= k < i - b ==> is_digit(#[trigger] t[k]),
            value == digits_value(t.take(i - b)),
            value <= 65535,
        decreases end - i,
    {
        let c = s[i];
        let u = c as u32;
        if u < 0x30 || u > 0x39 {
            assert(t[i - b] == c);
            assert(!is_digit(t[i - b]));
            assert(!(forall|k: int| 0 <= k < t.len() ==> is_digit(#[trigger] t[k])));
            return None;
        }
        assert(t[i - b] == c);
        assert(t.take(i - b + 1).drop_last() == t.take(i - b));
        value = value * 10 + (u - 0x30);
        if value > 65535 {
            proof {
                if forall|k: int| 0 <= k < t.len() ==> is_digit(#[trigger] t[k]) {
                    lemma_digits_prefix(t, i - b + 1);
                    assert(digits_value(t) > 65535);
                }
            }
            return None;
        }
        i = i + 1;
    }
    assert(t.take(end - b) == t);
    assert(forall|k: int| 0 <= k < t.len() ==> is_digit(#[trigger] t[k]));
    Some(value as u16)
}

/// Returns the game id that the title line gives.
fn title_id(l: &Vec<char>) -> (r: Option<u16>)
    ensures
        r == spec_title_id(l@),
{
    let mut seen = false;
    let mut acc: Vec<char> = Vec::new();
    let mut i: usize = 0;
    while i < l.len()
        invariant
            i <= l@.len(),
            title_scan(l@.take(i as int)) == (seen, acc@),
        decreases l@.len() - i,
    {
        assert(l@.take(i + 1).drop_last() == l@.take(i as int));
        let c = l[i];
        if c == '#' {
            seen = true;
        } else if seen {
            acc.push(c);
        }
        i = i + 1;
    }
    assert(l@.take(l@.len() as int) == l@);
    let mut e = acc.len();
    assert(acc@.take(e as int) == acc@);
    while e > 0 && white_space(acc[e - 1])
        invariant
            e <= acc@.len(),
            trim_end(acc@) == trim_end(acc@.take(e as int)),
        decreases e,
    {
        proof {
            lemma_trim_end_take(acc@, e as int);
        }
        e = e - 1;
    }
    assert(trim_end(acc@.take(e as int)) == acc@.take(e as int));
    let ghost te = acc@.take(e as int);
    let mut b: usize = 0;
    assert(te.skip(0) == te);
    while b < e && white_space(acc[b])
        invariant
            b <= e,
            e <= acc@.len(),
            te == acc@.take(e as int),
            trim_start(te) == trim_start(te.skip(b as int)),
        decreases e - b,
    {
        proof {
            lemma_trim_start_skip(te, b as int);
        }
        b = b + 1;
    }
    assert(trim_start(te) == te.skip(b as int));
    assert(te.skip(b as int) == acc@.subrange(b as int, e as int));
    parse_u16(&acc, b, e)
}

/// Reads the whole cells and foundations line.
fn scan_cells_exec(st: &mut Scan, l: &Vec<char>) -> (ok: bool)
    requires
        old(st).inv(),
    ensures
        final(st).inv(),
        ok == scan_cells(l@, l@.len() as int, old(st)@) is Some,
        ok ==> final(st)@ == scan_cells(l@, l@.len() as int, old(st)@)->Some_0,
{
    let ghost start = st@;
    let mut i: usize = 0;
    while i < l.len()
        invariant
            i <= l@.len(),
            st.inv(),
            start == old(st)@,
            scan_cells(l@, i as int, start) == Some(st@),
        decreases l@.len() - i,
    {
        if !cells_step_exec(st, i, l[i]) {
            proof {
                assert(scan_cells(l@, i + 1, start) is None);
                lemma_scan_cells_stays_none(l@, i + 1, l@.len() as int, start);
            }
            return false;
        }
        i = i + 1;
    }
    true
}

proof fn lemma_scan_cells_stays_none(l: Seq<char>, n: int, m: int, st: ParseState)
    requires
        n <= m,
        scan_cells(l, n, st) is None,
    ensures
        scan_cells(l, m, st) is None,
    decreases m - n,
{
    if n < m {
        lemma_scan_cells_stays_none(l, n, m - 1, st);
    }
}

proof fn lemma_scan_row_stays_none(l: Seq<char>, n: int, m: int, st: ParseState)
    requires
        n <= m,
        scan_row(l, n, st) is None,
    ensures
        scan_row(l, m, st) is None,
    decreases m - n,
{
    if n < m {
        lemma_scan_row_stays_none(l, n, m - 1, st);
    }
}

proof fn lemma_scan_rows_stays_none(ls: Seq<Seq<char>>, n: int, m: int, st: ParseState)
    requires
        n <= m,
        scan_rows(ls, n, st) is None,
    ensures
        scan_rows(ls, m, st) is None,
    decreases m - n,
{
    if n < m {
        lemma_scan_rows_stays_none(ls, n, m - 1, st);
    }
}

/// Reads one whole line of the columns block.
fn scan_row_exec(st: &mut Scan, l: &Vec<char>) -> (ok: bool)
    requires
        old(st).inv(),
    ensures
        final(st).inv(),
        ok == scan_row(l@, l@.len() as int, old(st)@) is Some,
        ok ==> final(st)@ == scan_row(l@, l@.len() as int, old(st)@)->Some_0,
{
    let ghost start = st@;
    let mut i: usize = 0;
    while i < l.len()
        invariant
            i <= l@.len(),
            st.inv(),
            start == old(st)@,
            scan_row(l@, i as int, start) == Some(st@),
        decreases l@.len() - i,
    {
        if !column_step_exec(st, i, l[i]) {
            proof {
                assert(scan_row(l@, i + 1, start) is None);
                lemma_scan_row_stays_none(l@, i + 1, l@.len() as int, start);
            }
            return false;
        }
        i = i + 1;
    }
    true
}

impl Game {
    /// Parses the canonical text of a game, as `to_string` writes it. Fails with
    /// `InvalidGameText` on a damaged layout, an unknown or repeated card, or a
    /// missing card.
    pub fn try_from(value: &str) -> (r: Result<Game, FreeCellError>)
        ensures
            r is Ok <==> spec_parse_game(value@) is Some,
            r is Ok ==> r->Ok_0@ == spec_parse_game(value@)->Some_0,
            r is Err ==> r->Err_0 == FreeCellError::InvalidGameText,
            r is Ok ==> r->Ok_0@.wf(),
    {
        let chars = chars_of(value);
        let lines = lines_of(&chars);
        let ghost ls = spec_lines(value@);
        if lines.len() < 5 {
            return Err(FreeCellError::InvalidGameText);
        }
        let id = match title_id(&lines[0]) {
            Some(id) => id,
            None => return Err(FreeCellError::InvalidGameText),
        };
        let mut st = Scan::new();
        if !scan_cells_exec(&mut st, &lines[2]) {
            return Err(FreeCellError::InvalidGameText);
        }
        let ghost after_cells = st@;
        assert(lines@[2]@ == ls[2]);
        assert(lines@[0]@ == ls[0]);
        let ghost rest = ls.skip(4);
        let mut m: usize = 4;
        while m < lines.len()
            invariant
                4 <= m <= lines@.len(),
                lines@.len() == ls.len(),
                forall|i: int| 0 <= i < lines@.len() ==> #[trigger] lines@[i]@ == ls[i],
                rest == ls.skip(4),
                ls == spec_lines(value@),
                ls.len() >= 5,
                spec_title_id(ls[0]) == Some(id),
                scan_cells(ls[2], ls[2].len() as int, initial_state()) == Some(after_cells),
                st.inv(),
                scan_rows(rest, m - 4, after_cells) == Some(st@),
            decreases lines@.len() - m,
        {
            assert(rest[m - 4] == lines@[m as int]@);
            if !scan_row_exec(&mut st, &lines[m]) {
                proof {
                    assert(scan_rows(rest, m - 3, after_cells) is None);
                    lemma_scan_rows_stays_none(rest, m - 3, rest.len() as int, after_cells);
                }
                return Err(FreeCellError::InvalidGameText);
            }
            m = m + 1;
        }
        assert(rest.len() == m - 4);
        assert(scan_cells(ls[2], ls[2].len() as int, initial_state()) == Some(after_cells));
        assert(scan_rows(rest, rest.len() as int, after_cells) == Some(st@));
        let mut k: usize = 0;
        while k < 52
            invariant
                k <= 52,
                st.inv(),
                forall|j: int| 0 <= j < k ==> #[trigger] st.seen@[j],
                rest == ls.skip(4),
                ls == spec_lines(value@),
                ls.len() >= 5,
                spec_title_id(ls[0]) == Some(id),
                scan_cells(ls[2], ls[2].len() as int, initial_state()) == Some(after_cells),
                scan_rows(rest, rest.len() as int, after_cells) == Some(st@),
            decreases 52 - k,
        {
            if !st.seen[k] {
                proof {
                    let c = Card::spec_from_id(k as int);
                    lemma_card_id(c);
                    assert(c.spec_id() == k) by {
                        vstd::arithmetic::div_mod::lemma_fundamental_div_mod(k as int, 4);
                    }
                    assert(!st@.seen.contains(c));
                }
                return Err(FreeCellError::InvalidGameText);
            }
            k = k + 1;
        }
        proof {
            assert forall|c: Card| #[trigger] st@.seen.contains(c) by {
                lemma_card_id(c);
            }
        }
        let game = Game { id, cells: st.cells, foundations: st.foundations, columns: st.columns };
        proof {
            assert(game@.foundations =~= st@.foundations);
            assert(game@.columns =~= st@.columns);
            lemma_parse_wf(value@);
        }
        Ok(game)
    }
}

/// The cards that a parse state has placed.
pub open spec fn placed(st: ParseState) -> vstd::multiset::Multiset<Card> {
    (GameView { id: 0, cells: st.cells, foundations: st.foundations, columns: st.columns }).cards()
}

/// What a parse keeps true: the board's shape, well-built foundations, and each
/// card placed exactly once if met and not at all otherwise.
pub open spec fn state_ok(st: ParseState) -> bool {
    &&& st.cells.len() == 4
    &&& st.foundations.len() == 4
    &&& st.columns.len() == 8
    &&& forall|k: int| 0 <= k < 4 ==> foundation_ok(k, #[trigger] st.foundations[k])
    &&& forall|c: Card| #[trigger] placed(st).count(c) == if st.seen.contains(c) {
        1int
    } else {
        0int
    }
}

pub(crate) proof fn lemma_initial_ok()
    ensures
        state_ok(initial_state()),
{
    let st = initial_state();
    lemma_cells_empty(st.cells);
    lemma_piles_empty(st.foundations);
    lemma_piles_empty(st.columns);
    assert forall|k: int| 0 <= k < 4 implies foundation_ok(k, #[trigger] st.foundations[k]) by {}
}

proof fn lemma_upto_count(k: int, r: int)
    requires
        0 <= r < 13,
    ensures
        foundation_ok(k, foundation_upto(k, r)),
        forall|d: Card|
            #[trigger] foundation_upto(k, r).to_multiset().count(d) == if upto_set(k, r).contains(d) {
                1int
            } else {
                0int
            },
{
    broadcast use {vstd::seq_lib::group_to_multiset_ensures, vstd::multiset::group_multiset_properties};

    let f = foundation_upto(k, r);
    assert forall|i: int, j: int| 0 <= i < f.len() && 0 <= j < f.len() && i != j implies f[i] != f[j] by {
        assert(Rank::spec_from_value(i).spec_value() == i);
        assert(Rank::spec_from_value(j).spec_value() == j);
    }
    assert(f.no_duplicates());
    f.lemma_multiset_has_no_duplicates();
    assert forall|d: Card| #[trigger] f.to_multiset().count(d) == if upto_set(k, r).contains(d) {
        1int
    } else {
        0int
    } by {
        if upto_set(k, r).contains(d) {
            let j = d.rank.spec_value();
            assert(Rank::spec_from_value(j) == d.rank);
            assert(f[j] == d);
            assert(f.contains(d));
        } else {
            if f.contains(d) {
                let j = choose|j: int| 0 <= j < f.len() && f[j] == d;
                assert(Rank::spec_from_value(j).spec_value() == j);
            }
        }
    }
}

pub(crate) proof fn lemma_cells_step_ok(st: ParseState, i: int, ch: char)
    requires
        state_ok(st),
        cells_step(st, i, ch) is Some,
    ensures
        state_ok(cells_step(st, i, ch)->Some_0),
{
    broadcast use {vstd::seq_lib::group_to_multiset_ensures, vstd::multiset::group_multiset_properties};

    let n = cells_step(st, i, ch)->Some_0;
    if ch == ' ' || ch == '|' || !helper_full(st.helper.push(ch)) {
        assert(placed(n) == placed(st));
        assert(n.seen == st.seen);
        assert(n.foundations == st.foundations);
    } else {
        let card = Card::spec_parse(st.helper.push(ch));
        if st.on_cells {
            let idx = (i - 1) / 4;
            assert(n.foundations == st.foundations);
            assert(n.columns == st.columns);
            if card is None {
                assert(placed(n) == placed(st));
                assert(n.seen == st.seen);
            }
            if let Some(c) = card {
                assert(n.cells == st.cells.update(idx, Some(c)));
                lemma_cells_update(st.cells, idx, Some(c));
                assert forall|d: Card| #[trigger] placed(n).count(d) == if n.seen.contains(d) {
                    1int
                } else {
                    0int
                } by {
                    assert(placed(st).count(d) == if st.seen.contains(d) {
                        1int
                    } else {
                        0int
                    });
                }
            }
        } else if card is None {
            assert(placed(n) == placed(st));
            assert(n.seen == st.seen);
            assert(n.foundations == st.foundations);
        } else if let Some(c) = card {
            let k = (i - 19) / 4;
            let r = c.rank.spec_value();
            lemma_upto_count(k, r);
            lemma_piles_update(st.foundations, k, foundation_upto(k, r));
            assert(st.foundations[k] =~= Seq::empty());
            assert forall|d: Card| #[trigger] placed(n).count(d) == if n.seen.contains(d) {
                1int
            } else {
                0int
            } by {
                assert(placed(st).count(d) == if st.seen.contains(d) {
                    1int
                } else {
                    0int
                });
                if upto_set(k, r).contains(d) {
                    assert(Rank::spec_from_value(d.rank.spec_value()) == d.rank);
                    assert(foundation_card(k, d.rank.spec_value()) == d);
                    assert(!st.seen.contains(d));
                }
            }
            assert forall|j: int| 0 <= j < 4 implies foundation_ok(j, #[trigger] n.foundations[j]) by {
                if j != k {
                    assert(n.foundations[j] == st.foundations[j]);
                }
            }
        }
    }
}

pub(crate) proof fn lemma_column_step_ok(st: ParseState, i: int, ch: char)
    requires
        state_ok(st),
        column_step(st, i, ch) is Some,
    ensures
        state_ok(column_step(st, i, ch)->Some_0),
{
    broadcast use {vstd::seq_lib::group_to_multiset_ensures, vstd::multiset::group_multiset_properties};

    let n = column_step(st, i, ch)->Some_0;
    if ch == ' ' || !helper_full(st.helper.push(ch)) {
        assert(placed(n) == placed(st));
        assert(n.seen == st.seen);
        assert(n.foundations == st.foundations);
    } else {
        let c = Card::spec_parse(st.helper.push(ch))->Some_0;
        let idx = (i - 2) / 4;
        lemma_piles_update(st.columns, idx, st.columns[idx].push(c));
        assert(n.columns == st.columns.update(idx, st.columns[idx].push(c)));
        assert(n.cells == st.cells);
        assert(n.foundations == st.foundations);
        assert(!st.seen.contains(c));
        assert forall|d: Card| #[trigger] placed(n).count(d) == if n.seen.contains(d) {
            1int
        } else {
            0int
        } by {
            assert(placed(st).count(d) == if st.seen.contains(d) {
                1int
            } else {
                0int
            });
            assert(st.columns[idx].push(c).to_multiset().count(d) == st.columns[idx].to_multiset().count(d)
                + if c == d {
                1int
            } else {
                0int
            });
        }
        assert(n.columns.len() == 8);
        assert(forall|k: int| 0 <= k < 4 ==> foundation_ok(k, #[trigger] n.foundations[k]));
    }
}

proof fn lemma_scan_cells_ok(l: Seq<char>, n: int, st: ParseState)
    requires
        state_ok(st),
        scan_cells(l, n, st) is Some,
    ensures
        state_ok(scan_cells(l, n, st)->Some_0),
    decreases n,
{
    if n > 0 {
        lemma_scan_cells_ok(l, n - 1, st);
        lemma_cells_step_ok(scan_cells(l, n - 1, st)->Some_0, n - 1, l[n - 1]);
    }
}

proof fn lemma_scan_row_ok(l: Seq<char>, n: int, st: ParseState)
    requires
        state_ok(st),
        scan_row(l, n, st) is Some,
    ensures
        state_ok(scan_row(l, n, st)->Some_0),
    decreases n,
{
    if n > 0 {
        lemma_scan_row_ok(l, n - 1, st);
        lemma_column_step_ok(scan_row(l, n - 1, st)->Some_0, n - 1, l[n - 1]);
    }
}

proof fn lemma_scan_rows_ok(ls: Seq<Seq<char>>, m: int, st: ParseState)
    requires
        state_ok(st),
        scan_rows(ls, m, st) is Some,
    ensures
        state_ok(scan_rows(ls, m, st)->Some_0),
    decreases m,
{
    if m > 0 {
        lemma_scan_rows_ok(ls, m - 1, st);
        let s = scan_rows(ls, m - 1, st)->Some_0;
        lemma_scan_row_ok(ls[m - 1], ls[m - 1].len() as int, s);
    }
}

/// Every game that parsing gives satisfies the invariants: the full deck
/// exactly once, and well-built foundations.
pub proof fn lemma_parse_wf(s: Seq<char>)
    requires
        spec_parse_game(s) is Some,
    ensures
        spec_parse_game(s)->Some_0.wf(),
{
    let ls = spec_lines(s);
    lemma_initial_ok();
    lemma_scan_cells_ok(ls[2], ls[2].len() as int, initial_state());
    let st = scan_cells(ls[2], ls[2].len() as int, initial_state())->Some_0;
    let rest = ls.skip(4);
    lemma_scan_rows_ok(rest, rest.len() as int, st);
    let fin = scan_rows(rest, rest.len() as int, st)->Some_0;
    let g = spec_parse_game(s)->Some_0;
    assert(g.cards() == placed(fin));
}

} // verus!
