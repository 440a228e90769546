use vstd::prelude::*;

use crate::card::{lemma_card_text_round_trip, Card, Rank};
use crate::game::{
    cells_cards, foundation_card, foundation_ok, foundation_suit, lemma_cell_holds, lemma_pile_holds,
    piles_cards, GameView,
};
use crate::parse::{
    all_digits, cells_step, column_step, digit_value, digits_value, foundation_upto, helper_full,
    initial_state, is_digit, is_white_space, lemma_cells_step_ok, lemma_column_step_ok, lemma_initial_ok,
    scan_cells, scan_row, scan_rows, spec_lines, spec_parse_game, spec_parse_u16, spec_title_id,
    split_newlines, state_ok, strip_cr, title_scan, trim_end, trim_start, unsigned_part, ParseState,
};
use crate::text::{
    cells_line, column_slot, digit_char, pile_top, row_line, row_slots, rows, slot, spaces, spec_decimal,
    spec_render, title_line,
};

verus! {

/// The lines `ls`, each followed by a newline.
pub open spec fn join_lines(ls: Seq<Seq<char>>) -> Seq<char>
    decreases ls.len(),
{
    if ls.len() == 0 {
        Seq::empty()
    } else {
        join_lines(ls.drop_last()) + ls.last() + seq!['\n']
    }
}

/// `l` holds no newline.
pub open spec fn no_newline(l: Seq<char>) -> bool {
    forall|i: int| 0 <= i < l.len() ==> l[i] != '\n'
}

/// The line of dashes under the cells and foundations.
pub open spec fn dash_line() -> Seq<char> {
    Seq::new(33, |i: int| '-') + seq![' ']
}

/// The lines of the canonical text of `g`.
pub open spec fn rendered_lines(g: GameView) -> Seq<Seq<char>> {
    seq![title_line(g.id), Seq::empty(), cells_line(g), dash_line()] + Seq::new(
        19,
        |i: int| row_line(g, i),
    )
}

proof fn lemma_split_len(s: Seq<char>)
    ensures
        split_newlines(s).len() >= 1,
    decreases s.len(),
{
    if s.len() > 0 {
        lemma_split_len(s.drop_last());
    }
}

proof fn lemma_split_append_line(s: Seq<char>, l: Seq<char>)
    requires
        no_newline(l),
    ensures
        split_newlines(s + l) == split_newlines(s).update(
            split_newlines(s).len() - 1,
            split_newlines(s).last() + l,
        ),
    decreases l.len(),
{
    lemma_split_len(s);
    if l.len() == 0 {
        assert(s + l == s);
        assert(split_newlines(s).last() + l == split_newlines(s).last());
        assert(split_newlines(s).update(split_newlines(s).len() - 1, split_newlines(s).last())
            =~= split_newlines(s));
    } else {
        let l2 = l.drop_last();
        lemma_split_append_line(s, l2);
        assert((s + l).drop_last() == s + l2);
        assert((s + l).last() == l.last());
        assert(split_newlines(s).last() + l == (split_newlines(s).last() + l2).push(l.last()));
        assert(split_newlines(s + l) =~= split_newlines(s).update(
            split_newlines(s).len() - 1,
            split_newlines(s).last() + l,
        ));
    }
}

proof fn lemma_split_join(ls: Seq<Seq<char>>)
    requires
        forall|i: int| 0 <= i < ls.len() ==> no_newline(#[trigger] ls[i]),
    ensures
        split_newlines(join_lines(ls)) == ls.push(Seq::empty()),
    decreases ls.len(),
{
    if ls.len() == 0 {
        assert(split_newlines(Seq::<char>::empty()) == seq![Seq::<char>::empty()]);
        assert(ls.push(Seq::empty()) =~= seq![Seq::<char>::empty()]);
    } else {
        let front = ls.drop_last();
        assert forall|i: int| 0 <= i < front.len() implies no_newline(#[trigger] front[i]) by {
            assert(front[i] == ls[i]);
        }
        lemma_split_join(front);
        let j = join_lines(front);
        assert(no_newline(ls[ls.len() - 1]));
        lemma_split_append_line(j, ls.last());
        let t = j + ls.last();
        assert(join_lines(ls) == t + seq!['\n']);
        assert((t + seq!['\n']).drop_last() == t);
        assert(split_newlines(join_lines(ls)) == split_newlines(t).push(Seq::empty()));
        assert(Seq::<char>::empty() + ls.last() == ls.last());
        assert(split_newlines(t) =~= ls);
        assert(split_newlines(join_lines(ls)) =~= ls.push(Seq::empty()));
    }
}

/// Joining lines that hold no newline and do not end in a carriage return, then
/// splitting the text into lines, gives the lines back.
pub proof fn lemma_lines_of_join(ls: Seq<Seq<char>>)
    requires
        forall|i: int| 0 <= i < ls.len() ==> no_newline(#[trigger] ls[i]),
        forall|i: int| 0 <= i < ls.len() ==> strip_cr(#[trigger] ls[i]) == ls[i],
    ensures
        spec_lines(join_lines(ls)) == ls,
{
    lemma_split_join(ls);
    let p = split_newlines(join_lines(ls));
    let body = Seq::new((p.len() - 1) as nat, |i: int| strip_cr(p[i]));
    assert(body =~= ls);
}

proof fn lemma_join_rows(g: GameView, n: int)
    requires
        0 <= n <= 19,
    ensures
        join_lines(rendered_lines(g).take(4 + n)) == join_lines(rendered_lines(g).take(4)) + rows(g, n),
    decreases n,
{
    let ls = rendered_lines(g);
    if n == 0 {
        assert(rows(g, 0) =~= Seq::<char>::empty());
        assert(join_lines(ls.take(4)) + rows(g, 0) =~= join_lines(ls.take(4)));
    } else {
        lemma_join_rows(g, n - 1);
        assert(ls.take(4 + n).drop_last() == ls.take(4 + n - 1));
        assert(ls.take(4 + n).last() == row_line(g, n - 1));
        assert(join_lines(ls.take(4 + n)) =~= join_lines(ls.take(4)) + rows(g, n));
    }
}

/// The canonical text is its lines, each followed by a newline.
proof fn lemma_render_is_join(g: GameView)
    ensures
        spec_render(g) == join_lines(rendered_lines(g)),
{
    let ls = rendered_lines(g);
    lemma_join_rows(g, 19);
    assert(ls.take(23) == ls);
    let f = ls.take(4);
    let nl = seq!['\n'];
    assert(f.take(1).drop_last() =~= Seq::<Seq<char>>::empty());
    assert(join_lines(Seq::<Seq<char>>::empty()) == Seq::<char>::empty());
    assert(ls[0] == title_line(g.id));
    assert(ls[1] == Seq::<char>::empty());
    assert(ls[2] == cells_line(g));
    assert(ls[3] == dash_line());
    assert(f.take(1).last() == title_line(g.id));
    assert(join_lines(f.take(1)) == Seq::<char>::empty() + title_line(g.id) + nl);
    assert(f.take(2).drop_last() == f.take(1));
    assert(join_lines(f.take(2)) == join_lines(f.take(1)) + Seq::<char>::empty() + nl);
    assert(f.take(3).drop_last() == f.take(2));
    assert(join_lines(f.take(3)) == join_lines(f.take(2)) + cells_line(g) + nl);
    assert(f.drop_last() == f.take(3));
    assert(join_lines(f) == join_lines(f.take(3)) + dash_line() + nl);
    assert(join_lines(f) =~= title_line(g.id) + "\n\n"@ + cells_line(g) + "\n"@ + Seq::new(
        33,
        |i: int| '-',
    ) + " \n"@) by {
        reveal_strlit("\n\n");
        reveal_strlit("\n");
        reveal_strlit(" \n");
    }
    assert(spec_render(g) =~= join_lines(ls));
}

/// `l` holds no `#`.
pub open spec fn no_hash(l: Seq<char>) -> bool {
    forall|i: int| 0 <= i < l.len() ==> l[i] != '#'
}

proof fn lemma_title_scan_no_hash(s: Seq<char>)
    requires
        no_hash(s),
    ensures
        title_scan(s) == (false, Seq::<char>::empty()),
    decreases s.len(),
{
    if s.len() > 0 {
        lemma_title_scan_no_hash(s.drop_last());
    }
}

proof fn lemma_title_scan_after_hash(s: Seq<char>, t: Seq<char>)
    requires
        title_scan(s).0,
        no_hash(t),
    ensures
        title_scan(s + t) == (true, title_scan(s).1 + t),
    decreases t.len(),
{
    if t.len() == 0 {
        assert(s + t == s);
        assert(title_scan(s).1 + t == title_scan(s).1);
    } else {
        lemma_title_scan_after_hash(s, t.drop_last());
        assert((s + t).drop_last() == s + t.drop_last());
        assert((s + t).last() == t.last());
        assert(title_scan(s).1 + t == (title_scan(s).1 + t.drop_last()).push(t.last()));
    }
}

proof fn lemma_digit_char(k: int)
    requires
        0 <= k < 10,
    ensures
        is_digit(digit_char(k)),
        digit_value(digit_char(k)) == k,
        !is_white_space(digit_char(k)),
        digit_char(k) != '+',
        digit_char(k) != '#',
        digit_char(k) != '\n',
{
    if k == 0 {
        assert('0' as u32 == 0x30);
    } else if k == 1 {
        assert('1' as u32 == 0x31);
    } else if k == 2 {
        assert('2' as u32 == 0x32);
    } else if k == 3 {
        assert('3' as u32 == 0x33);
    } else if k == 4 {
        assert('4' as u32 == 0x34);
    } else if k == 5 {
        assert('5' as u32 == 0x35);
    } else if k == 6 {
        assert('6' as u32 == 0x36);
    } else if k == 7 {
        assert('7' as u32 == 0x37);
    } else if k == 8 {
        assert('8' as u32 == 0x38);
    } else {
        assert('9' as u32 == 0x39);
    }
}

proof fn lemma_decimal_digits(n: nat)
    ensures
        spec_decimal(n).len() >= 1,
        all_digits(spec_decimal(n)),
        digits_value(spec_decimal(n)) == n,
        spec_decimal(n)[0] != '+',
        !is_white_space(spec_decimal(n)[0]),
        !is_white_space(spec_decimal(n).last()),
        no_hash(spec_decimal(n)),
        no_newline(spec_decimal(n)),
    decreases n,
{
    let d = spec_decimal(n);
    if n < 10 {
        lemma_digit_char(n as int);
        assert(d.drop_last() =~= Seq::<char>::empty());
        assert(digits_value(d.drop_last()) == 0);
    } else {
        vstd::arithmetic::div_mod::lemma_fundamental_div_mod(n as int, 10);
        lemma_decimal_digits(n / 10);
        let p = spec_decimal(n / 10);
        assert(d.drop_last() == p);
        lemma_digit_char((n % 10) as int);
        assert(d[0] == p[0]);
        assert forall|i: int| 0 <= i < d.len() implies is_digit(#[trigger] d[i]) by {
            if i < p.len() {
                assert(d[i] == p[i]);
            }
        }
    }
}

proof fn lemma_title_prefix(k: nat)
    ensures
        no_hash("RustLibreCell"@ + spaces(14) + spaces(k)),
        no_newline("RustLibreCell"@ + spaces(14) + spaces(k)),
{
    reveal_strlit("RustLibreCell");
}

/// The title line gives back the game id.
proof fn lemma_title_round_trip(id: u16)
    ensures
        spec_title_id(title_line(id)) == Some(id),
        no_newline(title_line(id)),
        strip_cr(title_line(id)) == title_line(id),
{
    let d = spec_decimal(id as nat);
    lemma_decimal_digits(id as nat);
    let pre = "RustLibreCell"@ + spaces(14) + spaces((5 - d.len()) as nat);
    lemma_title_prefix((5 - d.len()) as nat);
    lemma_title_scan_no_hash(pre);
    let ph = pre + seq!['#'];
    assert(ph.drop_last() == pre);
    assert(title_scan(ph) == (true, Seq::<char>::empty()));
    let t = d + seq![' '];
    assert(no_hash(t));
    lemma_title_scan_after_hash(ph, t);
    assert(title_line(id) == ph + t);
    assert(Seq::<char>::empty() + t == t);
    assert(t.drop_last() == d);
    assert(trim_end(t) == trim_end(d));
    assert(trim_end(d) == d);
    assert(trim_start(d) == d);
    assert(unsigned_part(d) == d);
    assert(spec_parse_u16(d) == Some(id));
    assert(no_newline(title_line(id)));
}

/// The board that a parse state has placed so far.
pub open spec fn placed_board(st: crate::parse::ParseState) -> GameView {
    GameView { id: 0, cells: st.cells, foundations: st.foundations, columns: st.columns }
}

/// `a` and `b` share out the cards of `x`, place by place.
pub open spec fn splits(a: GameView, b: GameView, x: GameView) -> bool {
    &&& a.cells.len() == 4 && b.cells.len() == 4 && x.cells.len() == 4
    &&& a.foundations.len() == 4 && b.foundations.len() == 4 && x.foundations.len() == 4
    &&& a.columns.len() == 8 && b.columns.len() == 8 && x.columns.len() == 8
    &&& forall|i: int|
        0 <= i < 4 ==> ((a.cells[i] == x.cells[i] && b.cells[i] is None) || (a.cells[i] is None
            && b.cells[i] == x.cells[i]))
    &&& forall|i: int| 0 <= i < 4 ==> #[trigger] x.foundations[i] == a.foundations[i] + b.foundations[i]
    &&& forall|i: int| 0 <= i < 8 ==> #[trigger] x.columns[i] == a.columns[i] + b.columns[i]
}

proof fn lemma_cells_partition(a: Seq<Option<Card>>, b: Seq<Option<Card>>, x: Seq<Option<Card>>)
    requires
        a.len() == x.len(),
        b.len() == x.len(),
        forall|i: int|
            0 <= i < x.len() ==> ((a[i] == x[i] && b[i] is None) || (a[i] is None && b[i] == x[i])),
    ensures
        forall|c: Card| #[trigger] cells_cards(a).count(c) + cells_cards(b).count(c) == cells_cards(x).count(c),
    decreases x.len(),
{
    if x.len() > 0 {
        lemma_cells_partition(a.drop_last(), b.drop_last(), x.drop_last());
        assert forall|c: Card| #[trigger] cells_cards(a).count(c) + cells_cards(b).count(c)
            == cells_cards(x).count(c) by {
            assert(cells_cards(a.drop_last()).count(c) + cells_cards(b.drop_last()).count(c)
                == cells_cards(x.drop_last()).count(c));
        }
    } else {
        assert forall|c: Card| #[trigger] cells_cards(a).count(c) + cells_cards(b).count(c)
            == cells_cards(x).count(c) by {}
    }
}

proof fn lemma_piles_partition(a: Seq<Seq<Card>>, b: Seq<Seq<Card>>, x: Seq<Seq<Card>>)
    requires
        a.len() == x.len(),
        b.len() == x.len(),
        forall|i: int| 0 <= i < x.len() ==> #[trigger] x[i] == a[i] + b[i],
    ensures
        forall|c: Card| #[trigger] piles_cards(a).count(c) + piles_cards(b).count(c) == piles_cards(x).count(c),
    decreases x.len(),
{
    broadcast use {vstd::seq_lib::group_to_multiset_ensures, vstd::multiset::group_multiset_properties};

    if x.len() > 0 {
        lemma_piles_partition(a.drop_last(), b.drop_last(), x.drop_last());
        vstd::seq_lib::lemma_multiset_commutative(a.last(), b.last());
        assert(x.last() == a.last() + b.last());
        assert forall|c: Card| #[trigger] piles_cards(a).count(c) + piles_cards(b).count(c)
            == piles_cards(x).count(c) by {
            assert(piles_cards(a.drop_last()).count(c) + piles_cards(b.drop_last()).count(c)
                == piles_cards(x.drop_last()).count(c));
        }
    } else {
        assert forall|c: Card| #[trigger] piles_cards(a).count(c) + piles_cards(b).count(c)
            == piles_cards(x).count(c) by {}
    }
}

proof fn lemma_board_partition(a: GameView, b: GameView, x: GameView)
    requires
        splits(a, b, x),
    ensures
        forall|c: Card| #[trigger] a.cards().count(c) + b.cards().count(c) == x.cards().count(c),
{
    lemma_cells_partition(a.cells, b.cells, x.cells);
    lemma_piles_partition(a.foundations, b.foundations, x.foundations);
    lemma_piles_partition(a.columns, b.columns, x.columns);
    assert forall|c: Card| #[trigger] a.cards().count(c) + b.cards().count(c) == x.cards().count(c) by {
        assert(cells_cards(a.cells).count(c) + cells_cards(b.cells).count(c) == cells_cards(x.cells).count(c));
        assert(piles_cards(a.foundations).count(c) + piles_cards(b.foundations).count(c)
            == piles_cards(x.foundations).count(c));
        assert(piles_cards(a.columns).count(c) + piles_cards(b.columns).count(c) == piles_cards(
            x.columns,
        ).count(c));
    }
}

/// A card still to be placed has not been met: on a valid game each card is
/// there once, and what is placed and what is left share the cards out.
proof fn lemma_unseen(st: crate::parse::ParseState, rest: GameView, g: GameView, c: Card)
    requires
        crate::parse::state_ok(st),
        g.wf(),
        splits(placed_board(st), rest, g),
        rest.cards().count(c) >= 1,
    ensures
        !st.seen.contains(c),
{
    lemma_board_partition(placed_board(st), rest, g);
    assert(placed_board(st).cards().count(c) + rest.cards().count(c) == g.cards().count(c));
    assert(g.cards().count(c) == 1);
    assert(crate::parse::placed(st) == placed_board(st).cards());
}

proof fn lemma_rank_char(r: Rank)
    ensures
        (r.spec_char() as u32) < 0x80,
        r.spec_char() != ' ',
        r.spec_char() != '|',
        r.spec_char() != '\n',
        r.spec_char() != '\r',
{
    match r {
        Rank::Ace => assert('A' as u32 == 0x41),
        Rank::Two => assert('2' as u32 == 0x32),
        Rank::Three => assert('3' as u32 == 0x33),
        Rank::Four => assert('4' as u32 == 0x34),
        Rank::Five => assert('5' as u32 == 0x35),
        Rank::Six => assert('6' as u32 == 0x36),
        Rank::Seven => assert('7' as u32 == 0x37),
        Rank::Eight => assert('8' as u32 == 0x38),
        Rank::Nine => assert('9' as u32 == 0x39),
        Rank::Ten => assert('T' as u32 == 0x54),
        Rank::Jack => assert('J' as u32 == 0x4A),
        Rank::Queen => assert('Q' as u32 == 0x51),
        Rank::King => assert('K' as u32 == 0x4B),
    }
}

/// The characters of a slot: a space, a first character of one byte, a second
/// character, a space; the two middle characters read back as the slot's card.
proof fn lemma_slot_chars(o: Option<Card>)
    ensures
        slot(o).len() == 4,
        slot(o)[0] == ' ',
        slot(o)[3] == ' ',
        (slot(o)[1] as u32) < 0x80,
        slot(o)[1] != ' ',
        slot(o)[1] != '|',
        slot(o)[2] != ' ',
        slot(o)[2] != '|',
        Card::spec_parse(seq![slot(o)[1], slot(o)[2]]) == o,
        no_newline(slot(o)),
{
    match o {
        Some(c) => {
            lemma_rank_char(c.rank);
            lemma_card_text_round_trip(c);
            assert(seq![slot(o)[1], slot(o)[2]] == c.spec_text());
        },
        None => {
            reveal_strlit(" .. ");
            assert('.' as u32 == 0x2E);
        },
    }
}

/// Reading a slot at `p` of the cells and foundations line comes down to the
/// step on its second card character.
proof fn lemma_cells_slot(l: Seq<char>, p: int, st0: ParseState, st: ParseState, o: Option<Card>)
    requires
        0 <= p,
        p + 4 <= l.len(),
        scan_cells(l, p, st0) == Some(st),
        st.helper.len() == 0,
        l.subrange(p, p + 4) == slot(o),
    ensures
        scan_cells(l, p + 4, st0) == cells_step(
            ParseState { helper: seq![slot(o)[1]], ..st },
            p + 2,
            slot(o)[2],
        ),
{
    lemma_slot_chars(o);
    let t = slot(o);
    assert(l[p] == t[0]);
    assert(l[p + 1] == t[1]);
    assert(l[p + 2] == t[2]);
    assert(l[p + 3] == t[3]);
    assert(scan_cells(l, p + 1, st0) == Some(st));
    assert(st.helper.push(t[1]) == seq![t[1]]);
    assert(!helper_full(seq![t[1]]));
    let mid = ParseState { helper: seq![t[1]], ..st };
    assert(scan_cells(l, p + 2, st0) == Some(mid));
    assert(seq![t[1]].push(t[2]) == seq![t[1], t[2]]);
    assert(scan_cells(l, p + 3, st0) == cells_step(mid, p + 2, t[2]));
}

/// Reading a slot at `p` of a row comes down to the step on its second card
/// character; four spaces change nothing.
proof fn lemma_row_slot(l: Seq<char>, p: int, st0: ParseState, st: ParseState, col: Seq<Card>, r: int)
    requires
        0 <= p,
        p + 4 <= l.len(),
        scan_row(l, p, st0) == Some(st),
        st.helper.len() == 0,
        l.subrange(p, p + 4) == column_slot(col, r),
    ensures
        r < col.len() ==> scan_row(l, p + 4, st0) == column_step(
            ParseState { helper: seq![slot(Some(col[r]))[1]], ..st },
            p + 2,
            slot(Some(col[r]))[2],
        ),
        r >= col.len() ==> scan_row(l, p + 4, st0) == Some(st),
{
    if r < col.len() {
        let o = Some(col[r]);
        lemma_slot_chars(o);
        let t = slot(o);
        assert(l[p] == t[0]);
        assert(l[p + 1] == t[1]);
        assert(l[p + 2] == t[2]);
        assert(l[p + 3] == t[3]);
        assert(scan_row(l, p + 1, st0) == Some(st));
        assert(st.helper.push(t[1]) == seq![t[1]]);
        assert(!helper_full(seq![t[1]]));
        let mid = ParseState { helper: seq![t[1]], ..st };
        assert(scan_row(l, p + 2, st0) == Some(mid));
        assert(seq![t[1]].push(t[2]) == seq![t[1], t[2]]);
        assert(scan_row(l, p + 3, st0) == column_step(mid, p + 2, t[2]));
    } else {
        let t = column_slot(col, r);
        assert(t == spaces(4));
        assert(t[0] == ' ' && t[1] == ' ' && t[2] == ' ' && t[3] == ' ');
        assert(l[p] == t[0]);
        assert(l[p + 1] == t[1]);
        assert(l[p + 2] == t[2]);
        assert(l[p + 3] == t[3]);
        assert(l[p] == ' ');
        assert(l[p + 1] == ' ');
        assert(l[p + 2] == ' ');
        assert(l[p + 3] == ' ');
    }
}

proof fn lemma_cells_line_layout(g: GameView)
    requires
        g.cells.len() == 4,
        g.foundations.len() == 4,
    ensures
        cells_line(g).len() == 34,
        forall|j: int| 0 <= j < 4 ==> #[trigger] cells_line(g).subrange(4 * j, 4 * j + 4) == slot(g.cells[j]),
        cells_line(g)[16] == '|',
        cells_line(g)[17] == '|',
        forall|j: int|
            0 <= j < 4 ==> #[trigger] cells_line(g).subrange(18 + 4 * j, 22 + 4 * j) == slot(
                pile_top(g.foundations[j]),
            ),
{
    reveal_strlit("||");
    let a0 = slot(g.cells[0]);
    let a1 = slot(g.cells[1]);
    let a2 = slot(g.cells[2]);
    let a3 = slot(g.cells[3]);
    let b0 = slot(pile_top(g.foundations[0]));
    let b1 = slot(pile_top(g.foundations[1]));
    let b2 = slot(pile_top(g.foundations[2]));
    let b3 = slot(pile_top(g.foundations[3]));
    lemma_slot_chars(g.cells[0]);
    lemma_slot_chars(g.cells[1]);
    lemma_slot_chars(g.cells[2]);
    lemma_slot_chars(g.cells[3]);
    lemma_slot_chars(pile_top(g.foundations[0]));
    lemma_slot_chars(pile_top(g.foundations[1]));
    lemma_slot_chars(pile_top(g.foundations[2]));
    lemma_slot_chars(pile_top(g.foundations[3]));
    let l = cells_line(g);
    assert(l == a0 + a1 + a2 + a3 + "||"@ + b0 + b1 + b2 + b3);
    assert(l.subrange(0, 4) =~= a0);
    assert(l.subrange(4, 8) =~= a1);
    assert(l.subrange(8, 12) =~= a2);
    assert(l.subrange(12, 16) =~= a3);
    assert(l.subrange(18, 22) =~= b0);
    assert(l.subrange(22, 26) =~= b1);
    assert(l.subrange(26, 30) =~= b2);
    assert(l.subrange(30, 34) =~= b3);
    assert forall|j: int| 0 <= j < 4 implies #[trigger] l.subrange(4 * j, 4 * j + 4) == slot(g.cells[j]) by {
        if j == 0 {
        } else if j == 1 {
        } else if j == 2 {
        } else {
        }
    }
    assert forall|j: int| 0 <= j < 4 implies #[trigger] l.subrange(18 + 4 * j, 22 + 4 * j) == slot(
        pile_top(g.foundations[j]),
    ) by {
        if j == 0 {
        } else if j == 1 {
        } else if j == 2 {
        } else {
        }
    }
}

proof fn lemma_row_slots_layout(g: GameView, r: int, n: int)
    requires
        0 <= n <= 8,
        g.columns.len() == 8,
    ensures
        row_slots(g, r, n).len() == 4 * n,
        forall|k: int|
            0 <= k < n ==> #[trigger] row_slots(g, r, n).subrange(4 * k, 4 * k + 4) == column_slot(
                g.columns[k],
                r,
            ),
    decreases n,
{
    if n > 0 {
        lemma_row_slots_layout(g, r, n - 1);
        let prev = row_slots(g, r, n - 1);
        let last = column_slot(g.columns[n - 1], r);
        if r < g.columns[n - 1].len() {
            lemma_slot_chars(Some(g.columns[n - 1][r]));
        }
        assert(last.len() == 4);
        assert forall|k: int| 0 <= k < n implies #[trigger] row_slots(g, r, n).subrange(4 * k, 4 * k + 4)
            == column_slot(g.columns[k], r) by {
            if k < n - 1 {
                assert(row_slots(g, r, n).subrange(4 * k, 4 * k + 4) =~= prev.subrange(4 * k, 4 * k + 4));
            } else {
                assert(row_slots(g, r, n).subrange(4 * k, 4 * k + 4) =~= last);
            }
        }
    }
}

proof fn lemma_row_line_layout(g: GameView, r: int)
    requires
        g.columns.len() == 8,
    ensures
        row_line(g, r).len() == 34,
        row_line(g, r)[0] == ' ',
        row_line(g, r)[33] == ' ',
        forall|k: int|
            0 <= k < 8 ==> #[trigger] row_line(g, r).subrange(1 + 4 * k, 5 + 4 * k) == column_slot(
                g.columns[k],
                r,
            ),
{
    lemma_row_slots_layout(g, r, 8);
    let rs = row_slots(g, r, 8);
    assert forall|k: int| 0 <= k < 8 implies #[trigger] row_line(g, r).subrange(1 + 4 * k, 5 + 4 * k)
        == column_slot(g.columns[k], r) by {
        assert(row_line(g, r).subrange(1 + 4 * k, 5 + 4 * k) =~= rs.subrange(4 * k, 4 * k + 4));
    }
}

/// The first `j` cells of `g`, the others empty.
pub open spec fn cells_upto(g: GameView, j: int) -> Seq<Option<Card>> {
    Seq::new(4, |i: int| if i < j { g.cells[i] } else { None })
}

/// The cells of `g` from `j` on, the others empty.
pub open spec fn cells_from(g: GameView, j: int) -> Seq<Option<Card>> {
    Seq::new(4, |i: int| if i < j { None } else { g.cells[i] })
}

/// The first `j` of `n` piles, the others empty.
pub open spec fn piles_upto(ps: Seq<Seq<Card>>, j: int, n: nat) -> Seq<Seq<Card>> {
    Seq::new(n, |i: int| if i < j { ps[i] } else { Seq::empty() })
}

/// The piles from `j` on of `n`, the others empty.
pub open spec fn piles_from(ps: Seq<Seq<Card>>, j: int, n: nat) -> Seq<Seq<Card>> {
    Seq::new(n, |i: int| if i < j { Seq::empty() } else { ps[i] })
}

/// `n` empty piles.
pub open spec fn empties(n: nat) -> Seq<Seq<Card>> {
    Seq::new(n, |i: int| Seq::<Card>::empty())
}

proof fn lemma_cards_holds(b: GameView, c: Card)
    requires
        cells_cards(b.cells).count(c) >= 1 || piles_cards(b.foundations).count(c) >= 1 || piles_cards(
            b.columns,
        ).count(c) >= 1,
    ensures
        b.cards().count(c) >= 1,
{
}

/// The step on the second character of a cell slot.
proof fn lemma_cell_card_step(mid: ParseState, i: int, y: char, j: int, o: Option<Card>)
    requires
        y != ' ',
        y != '|',
        helper_full(mid.helper.push(y)),
        Card::spec_parse(mid.helper.push(y)) == o,
        mid.on_cells,
        i >= 1,
        (i - 1) / 4 == j,
        0 <= j < 4,
        mid.cells.len() == 4,
        mid.cells[j] is None,
        o is Some ==> !mid.seen.contains(o->Some_0),
    ensures
        cells_step(mid, i, y) == Some(
            ParseState {
                cells: mid.cells.update(j, o),
                seen: match o {
                    Some(c) => mid.seen.insert(c),
                    None => mid.seen,
                },
                helper: Seq::empty(),
                ..mid
            },
        ),
{
    if o is None {
        assert(mid.cells.update(j, o) =~= mid.cells);
    }
}

/// The step on the second character of a foundation slot holding a top card.
proof fn lemma_foundation_card_step(mid: ParseState, i: int, y: char, j: int, c: Card)
    requires
        y != ' ',
        y != '|',
        helper_full(mid.helper.push(y)),
        Card::spec_parse(mid.helper.push(y)) == Some(c),
        !mid.on_cells,
        i >= 19,
        (i - 19) / 4 == j,
        0 <= j < 4,
        mid.foundations.len() == 4,
        mid.foundations[j].len() == 0,
        foundation_suit(j) == c.suit,
        !crate::parse::overlaps(mid.seen, j, c.rank.spec_value()),
    ensures
        cells_step(mid, i, y) == Some(
            ParseState {
                foundations: mid.foundations.update(j, foundation_upto(j, c.rank.spec_value())),
                seen: mid.seen.union(crate::parse::upto_set(j, c.rank.spec_value())),
                helper: Seq::empty(),
                ..mid
            },
        ),
{
}

/// A card of cell `j` is not met before its slot is read.
proof fn lemma_cell_unseen(g: GameView, j: int, st: ParseState, c: Card)
    requires
        g.wf(),
        0 <= j < 4,
        g.cells[j] == Some(c),
        state_ok(st),
        st.cells == cells_upto(g, j),
        st.foundations == empties(4),
        st.columns == empties(8),
    ensures
        !st.seen.contains(c),
{
    let rest = GameView { id: 0, cells: cells_from(g, j), foundations: g.foundations, columns: g.columns };
    assert forall|i: int| 0 <= i < 4 implies #[trigger] g.foundations[i] == placed_board(st).foundations[i]
        + rest.foundations[i] by {
        assert(Seq::<Card>::empty() + g.foundations[i] == g.foundations[i]);
    }
    assert forall|i: int| 0 <= i < 8 implies #[trigger] g.columns[i] == placed_board(st).columns[i]
        + rest.columns[i] by {
        assert(Seq::<Card>::empty() + g.columns[i] == g.columns[i]);
    }
    assert(splits(placed_board(st), rest, g));
    lemma_cell_holds(rest.cells, j, c);
    lemma_cards_holds(rest, c);
    lemma_unseen(st, rest, g, c);
}

/// No card of foundation `j` is met before its slot is read.
proof fn lemma_foundation_unseen(g: GameView, j: int, st: ParseState)
    requires
        g.wf(),
        0 <= j < 4,
        state_ok(st),
        st.cells == g.cells,
        st.foundations == piles_upto(g.foundations, j, 4),
        st.columns == empties(8),
    ensures
        forall|jj: int|
            0 <= jj < g.foundations[j].len() ==> !st.seen.contains(#[trigger] g.foundations[j][jj]),
{
    let rest = GameView {
        id: 0,
        cells: seq![None, None, None, None],
        foundations: piles_from(g.foundations, j, 4),
        columns: g.columns,
    };
    assert forall|i: int| 0 <= i < 4 implies #[trigger] g.foundations[i] == placed_board(st).foundations[i]
        + rest.foundations[i] by {
        if i < j {
            assert(g.foundations[i] + Seq::<Card>::empty() == g.foundations[i]);
        } else {
            assert(Seq::<Card>::empty() + g.foundations[i] == g.foundations[i]);
        }
    }
    assert forall|i: int| 0 <= i < 8 implies #[trigger] g.columns[i] == placed_board(st).columns[i]
        + rest.columns[i] by {
        assert(Seq::<Card>::empty() + g.columns[i] == g.columns[i]);
    }
    assert(splits(placed_board(st), rest, g));
    assert forall|jj: int| 0 <= jj < g.foundations[j].len() implies !st.seen.contains(
        #[trigger] g.foundations[j][jj],
    ) by {
        lemma_pile_holds(rest.foundations, j, jj);
        lemma_cards_holds(rest, g.foundations[j][jj]);
        lemma_unseen(st, rest, g, g.foundations[j][jj]);
    }
}

proof fn lemma_cell_step(g: GameView, j: int, st: ParseState)
    requires
        g.wf(),
        0 <= j < 4,
        scan_cells(cells_line(g), 4 * j, initial_state()) == Some(st),
        state_ok(st),
        st.cells == cells_upto(g, j),
        st.foundations == empties(4),
        st.columns == empties(8),
        st.helper.len() == 0,
        st.on_cells,
    ensures
        ({
            let r = scan_cells(cells_line(g), 4 * j + 4, initial_state());
            &&& r is Some
            &&& r->Some_0.cells == cells_upto(g, j + 1)
            &&& r->Some_0.foundations == empties(4)
            &&& r->Some_0.columns == empties(8)
            &&& r->Some_0.helper.len() == 0
            &&& r->Some_0.on_cells
            &&& state_ok(r->Some_0)
        }),
{
    let l = cells_line(g);
    lemma_cells_line_layout(g);
    let o = g.cells[j];
    lemma_cells_slot(l, 4 * j, initial_state(), st, o);
    lemma_slot_chars(o);
    let t = slot(o);
    let mid = ParseState { helper: seq![t[1]], ..st };
    assert(mid.helper.push(t[2]) == seq![t[1], t[2]]);
    assert(crate::parse::placed(mid) == crate::parse::placed(st));
    if let Some(c) = o {
        lemma_cell_unseen(g, j, st, c);
    }
    lemma_cell_card_step(mid, 4 * j + 2, t[2], j, o);
    lemma_cells_step_ok(mid, 4 * j + 2, t[2]);
    assert(st.cells.update(j, o) =~= cells_upto(g, j + 1));
}

proof fn lemma_foundation_step(g: GameView, j: int, st: ParseState)
    requires
        g.wf(),
        0 <= j < 4,
        scan_cells(cells_line(g), 18 + 4 * j, initial_state()) == Some(st),
        state_ok(st),
        st.cells == g.cells,
        st.foundations == piles_upto(g.foundations, j, 4),
        st.columns == empties(8),
        st.helper.len() == 0,
        !st.on_cells,
    ensures
        ({
            let r = scan_cells(cells_line(g), 22 + 4 * j, initial_state());
            &&& r is Some
            &&& r->Some_0.cells == g.cells
            &&& r->Some_0.foundations == piles_upto(g.foundations, j + 1, 4)
            &&& r->Some_0.columns == empties(8)
            &&& r->Some_0.helper.len() == 0
            &&& !r->Some_0.on_cells
            &&& state_ok(r->Some_0)
        }),
{
    let l = cells_line(g);
    lemma_cells_line_layout(g);
    let f = g.foundations[j];
    let o = pile_top(f);
    lemma_cells_slot(l, 18 + 4 * j, initial_state(), st, o);
    lemma_slot_chars(o);
    let t = slot(o);
    let mid = ParseState { helper: seq![t[1]], ..st };
    assert(mid.helper.push(t[2]) == seq![t[1], t[2]]);
    assert(crate::parse::placed(mid) == crate::parse::placed(st));
    if let Some(c) = o {
        lemma_foundation_ready(g, j, st);
        lemma_foundation_card_step(mid, 18 + 4 * j + 2, t[2], j, c);
        lemma_cells_step_ok(mid, 18 + 4 * j + 2, t[2]);
        assert(st.foundations.update(j, foundation_upto(j, c.rank.spec_value())) =~= piles_upto(
            g.foundations,
            j + 1,
            4,
        ));
    } else {
        lemma_cells_step_ok(mid, 18 + 4 * j + 2, t[2]);
        assert(f =~= Seq::<Card>::empty());
        assert(st.foundations =~= piles_upto(g.foundations, j + 1, 4));
    }
}

/// Before foundation `j` is read, its place is free and none of its cards was met.
proof fn lemma_foundation_ready(g: GameView, j: int, st: ParseState)
    requires
        g.wf(),
        0 <= j < 4,
        g.foundations[j].len() > 0,
        state_ok(st),
        st.cells == g.cells,
        st.foundations == piles_upto(g.foundations, j, 4),
        st.columns == empties(8),
    ensures
        ({
            let f = g.foundations[j];
            let c = f.last();
            &&& st.foundations[j].len() == 0
            &&& foundation_suit(j) == c.suit
            &&& !crate::parse::overlaps(st.seen, j, c.rank.spec_value())
            &&& foundation_upto(j, c.rank.spec_value()) == f
        }),
{
    let f = g.foundations[j];
    lemma_foundation_top(g, j);
    lemma_foundation_unseen(g, j, st);
    let r = f.last().rank.spec_value();
    assert forall|jj: int| 0 <= jj <= r implies !st.seen.contains(#[trigger] foundation_card(j, jj)) by {
        assert(f[jj] == foundation_card(j, jj));
    }
}

/// The top card of a valid foundation stands for the whole foundation.
proof fn lemma_foundation_top(g: GameView, j: int)
    requires
        g.wf(),
        0 <= j < 4,
        g.foundations[j].len() > 0,
    ensures
        ({
            let f = g.foundations[j];
            let c = f.last();
            &&& c.rank.spec_value() == f.len() - 1
            &&& foundation_suit(j) == c.suit
            &&& foundation_upto(j, c.rank.spec_value()) == f
            &&& forall|jj: int| 0 <= jj < f.len() ==> #[trigger] f[jj] == foundation_card(j, jj)
        }),
{
    let f = g.foundations[j];
    assert(foundation_ok(j, f));
    assert(f[f.len() - 1] == foundation_card(j, f.len() - 1));
    assert(Rank::spec_from_value(f.len() - 1).spec_value() == f.len() - 1);
    assert(foundation_upto(j, f.len() - 1) =~= f);
}

/// Reading the cells and foundations line of a valid game places its cells and
/// foundations.
proof fn lemma_scan_cells_line(g: GameView)
    requires
        g.wf(),
    ensures
        ({
            let r = scan_cells(cells_line(g), cells_line(g).len() as int, initial_state());
            &&& r is Some
            &&& r->Some_0.cells == g.cells
            &&& r->Some_0.foundations == g.foundations
            &&& r->Some_0.columns == empties(8)
            &&& r->Some_0.helper.len() == 0
            &&& state_ok(r->Some_0)
        }),
{
    let l = cells_line(g);
    let st0 = initial_state();
    lemma_cells_line_layout(g);
    lemma_initial_ok();
    assert(scan_cells(l, 0, st0) == Some(st0));
    assert(st0.cells =~= cells_upto(g, 0));
    assert(st0.foundations =~= empties(4));
    assert(st0.columns =~= empties(8));
    lemma_cell_step(g, 0, st0);
    let s1 = scan_cells(l, 4, st0)->Some_0;
    lemma_cell_step(g, 1, s1);
    let s2 = scan_cells(l, 8, st0)->Some_0;
    lemma_cell_step(g, 2, s2);
    let s3 = scan_cells(l, 12, st0)->Some_0;
    lemma_cell_step(g, 3, s3);
    let s4 = scan_cells(l, 16, st0)->Some_0;
    assert(s4.cells =~= g.cells);
    let s5 = ParseState { on_cells: false, ..s4 };
    assert(scan_cells(l, 17, st0) == Some(s5));
    assert(scan_cells(l, 18, st0) == Some(s5));
    assert(crate::parse::placed(s5) == crate::parse::placed(s4));
    assert(s5.foundations =~= piles_upto(g.foundations, 0, 4));
    lemma_foundation_step(g, 0, s5);
    let f1 = scan_cells(l, 22, st0)->Some_0;
    lemma_foundation_step(g, 1, f1);
    let f2 = scan_cells(l, 26, st0)->Some_0;
    lemma_foundation_step(g, 2, f2);
    let f3 = scan_cells(l, 30, st0)->Some_0;
    lemma_foundation_step(g, 3, f3);
    let f4 = scan_cells(l, 34, st0)->Some_0;
    assert(f4.foundations =~= g.foundations);
}

/// The first `n` cards of a column, or all of them when it holds fewer.
pub open spec fn col_prefix(col: Seq<Card>, n: int) -> Seq<Card> {
    if n < col.len() {
        col.take(n)
    } else {
        col
    }
}

/// The cards of a column from depth `n` on.
pub open spec fn col_suffix(col: Seq<Card>, n: int) -> Seq<Card> {
    if n < col.len() {
        col.skip(n)
    } else {
        Seq::empty()
    }
}

/// The columns placed once rows before `r` and the first `k` slots of row `r`
/// were read.
pub open spec fn rows_cols(g: GameView, r: int, k: int) -> Seq<Seq<Card>> {
    Seq::new(
        8,
        |m: int|
            if m < k {
                col_prefix(g.columns[m], r + 1)
            } else {
                col_prefix(g.columns[m], r)
            },
    )
}

/// The columns still to read at the same point.
pub open spec fn rows_rest(g: GameView, r: int, k: int) -> Seq<Seq<Card>> {
    Seq::new(
        8,
        |m: int|
            if m < k {
                col_suffix(g.columns[m], r + 1)
            } else {
                col_suffix(g.columns[m], r)
            },
    )
}

/// The card at depth `r` of column `k` is not met before its slot is read.
proof fn lemma_column_unseen(g: GameView, r: int, k: int, st: ParseState)
    requires
        g.wf(),
        0 <= r < g.columns[k].len(),
        0 <= k < 8,
        state_ok(st),
        st.cells == g.cells,
        st.foundations == g.foundations,
        st.columns == rows_cols(g, r, k),
    ensures
        !st.seen.contains(g.columns[k][r]),
{
    let rest = GameView {
        id: 0,
        cells: seq![None, None, None, None],
        foundations: empties(4),
        columns: rows_rest(g, r, k),
    };
    assert forall|i: int| 0 <= i < 4 implies #[trigger] g.foundations[i] == placed_board(st).foundations[i]
        + rest.foundations[i] by {
        assert(g.foundations[i] + Seq::<Card>::empty() == g.foundations[i]);
    }
    assert forall|i: int| 0 <= i < 8 implies #[trigger] g.columns[i] == placed_board(st).columns[i]
        + rest.columns[i] by {
        let col = g.columns[i];
        if i < k {
            if r + 1 < col.len() {
                assert(col == col.take(r + 1) + col.skip(r + 1));
            } else {
                assert(col + Seq::<Card>::empty() == col);
            }
        } else {
            if r < col.len() {
                assert(col == col.take(r) + col.skip(r));
            } else {
                assert(col + Seq::<Card>::empty() == col);
            }
        }
    }
    assert(splits(placed_board(st), rest, g));
    assert(rest.columns[k][0] == g.columns[k][r]);
    lemma_pile_holds(rest.columns, k, 0);
    lemma_cards_holds(rest, g.columns[k][r]);
    lemma_unseen(st, rest, g, g.columns[k][r]);
}

/// The step on the second character of a card slot in a row.
proof fn lemma_column_card_step(mid: ParseState, i: int, y: char, k: int, c: Card)
    requires
        y != ' ',
        helper_full(mid.helper.push(y)),
        Card::spec_parse(mid.helper.push(y)) == Some(c),
        i >= 2,
        (i - 2) / 4 == k,
        0 <= k < 8,
        !mid.seen.contains(c),
    ensures
        column_step(mid, i, y) == Some(
            ParseState {
                columns: mid.columns.update(k, mid.columns[k].push(c)),
                seen: mid.seen.insert(c),
                helper: Seq::empty(),
                ..mid
            },
        ),
{
}

/// Reading the card slot of column `k - 1` in row `r` places its card.
proof fn lemma_row_card(g: GameView, r: int, k: int, sk: ParseState, l: Seq<char>, st: ParseState)
    requires
        g.wf(),
        0 <= r < g.columns[k - 1].len(),
        1 <= k <= 8,
        l == row_line(g, r),
        state_ok(sk),
        sk.cells == g.cells,
        sk.foundations == g.foundations,
        sk.columns == rows_cols(g, r, k - 1),
        sk.helper.len() == 0,
        scan_row(l, 1 + 4 * (k - 1) + 4, st) == column_step(
            ParseState { helper: seq![slot(Some(g.columns[k - 1][r]))[1]], ..sk },
            1 + 4 * (k - 1) + 2,
            slot(Some(g.columns[k - 1][r]))[2],
        ),
    ensures
        ({
            let x = scan_row(l, 1 + 4 * k, st);
            &&& x is Some
            &&& x->Some_0.cells == g.cells
            &&& x->Some_0.foundations == g.foundations
            &&& x->Some_0.columns == rows_cols(g, r, k)
            &&& x->Some_0.helper.len() == 0
            &&& state_ok(x->Some_0)
        }),
{
    let col = g.columns[k - 1];
    let c = col[r];
    lemma_slot_chars(Some(c));
    let t = slot(Some(c));
    let mid = ParseState { helper: seq![t[1]], ..sk };
    assert(mid.helper.push(t[2]) == seq![t[1], t[2]]);
    lemma_column_unseen(g, r, k - 1, sk);
    assert((1 + 4 * (k - 1) + 2 - 2) / 4 == k - 1);
    lemma_column_card_step(mid, 1 + 4 * (k - 1) + 2, t[2], k - 1, c);
    assert(crate::parse::placed(mid) == crate::parse::placed(sk));
    lemma_column_step_ok(mid, 1 + 4 * (k - 1) + 2, t[2]);
    assert(col.take(r).push(c) == col_prefix(col, r + 1));
    assert(sk.columns.update(k - 1, sk.columns[k - 1].push(c)) =~= rows_cols(g, r, k));
}

proof fn lemma_row_upto(g: GameView, r: int, k: int, st: ParseState)
    requires
        g.wf(),
        0 <= r,
        0 <= k <= 8,
        state_ok(st),
        st.cells == g.cells,
        st.foundations == g.foundations,
        st.columns == rows_cols(g, r, 0),
        st.helper.len() == 0,
    ensures
        ({
            let x = scan_row(row_line(g, r), 1 + 4 * k, st);
            &&& x is Some
            &&& x->Some_0.cells == g.cells
            &&& x->Some_0.foundations == g.foundations
            &&& x->Some_0.columns == rows_cols(g, r, k)
            &&& x->Some_0.helper.len() == 0
            &&& state_ok(x->Some_0)
        }),
    decreases k,
{
    let l = row_line(g, r);
    lemma_row_line_layout(g, r);
    if k == 0 {
        assert(scan_row(l, 0, st) == Some(st));
        assert(scan_row(l, 1, st) == column_step(st, 0, l[0]));
    } else {
        lemma_row_upto(g, r, k - 1, st);
        let sk = scan_row(l, 1 + 4 * (k - 1), st)->Some_0;
        let col = g.columns[k - 1];
        assert(l.subrange(1 + 4 * (k - 1), 5 + 4 * (k - 1)) == column_slot(col, r));
        assert(l.subrange(1 + 4 * (k - 1), 1 + 4 * (k - 1) + 4) == column_slot(col, r));
        lemma_row_slot(l, 1 + 4 * (k - 1), st, sk, col, r);
        if r < col.len() {
            lemma_row_card(g, r, k, sk, l, st);
        } else {
            assert(sk.columns =~= rows_cols(g, r, k));
        }
    }
}

proof fn lemma_scan_row_line(g: GameView, r: int, st: ParseState)
    requires
        g.wf(),
        0 <= r,
        state_ok(st),
        st.cells == g.cells,
        st.foundations == g.foundations,
        st.columns == rows_cols(g, r, 0),
        st.helper.len() == 0,
    ensures
        ({
            let x = scan_row(row_line(g, r), row_line(g, r).len() as int, st);
            &&& x is Some
            &&& x->Some_0.cells == g.cells
            &&& x->Some_0.foundations == g.foundations
            &&& x->Some_0.columns == rows_cols(g, r + 1, 0)
            &&& x->Some_0.helper.len() == 0
            &&& state_ok(x->Some_0)
        }),
{
    let l = row_line(g, r);
    lemma_row_line_layout(g, r);
    lemma_row_upto(g, r, 8, st);
    let s8 = scan_row(l, 33, st)->Some_0;
    assert(scan_row(l, 34, st) == column_step(s8, 33, l[33]));
    assert(rows_cols(g, r, 8) =~= rows_cols(g, r + 1, 0));
}

proof fn lemma_scan_rows(g: GameView, n: int, st: ParseState)
    requires
        g.wf(),
        0 <= n <= 19,
        state_ok(st),
        st.cells == g.cells,
        st.foundations == g.foundations,
        st.columns == rows_cols(g, 0, 0),
        st.helper.len() == 0,
    ensures
        ({
            let x = scan_rows(Seq::new(19, |i: int| row_line(g, i)), n, st);
            &&& x is Some
            &&& x->Some_0.cells == g.cells
            &&& x->Some_0.foundations == g.foundations
            &&& x->Some_0.columns == rows_cols(g, n, 0)
            &&& state_ok(x->Some_0)
            &&& x->Some_0.helper.len() == 0
        }),
    decreases n,
{
    if n > 0 {
        lemma_scan_rows(g, n - 1, st);
        let ls = Seq::new(19, |i: int| row_line(g, i));
        let prev = scan_rows(ls, n - 1, st)->Some_0;
        assert(ls[n - 1] == row_line(g, n - 1));
        lemma_scan_row_line(g, n - 1, prev);
    }
}

proof fn lemma_no_newline_concat(a: Seq<char>, b: Seq<char>)
    requires
        no_newline(a),
        no_newline(b),
    ensures
        no_newline(a + b),
{
    assert forall|i: int| 0 <= i < (a + b).len() implies (a + b)[i] != '\n' by {
        if i < a.len() {
            assert((a + b)[i] == a[i]);
        } else {
            assert((a + b)[i] == b[i - a.len()]);
        }
    }
}

proof fn lemma_row_slots_no_newline(g: GameView, r: int, n: int)
    ensures
        no_newline(row_slots(g, r, n)),
    decreases n,
{
    if n > 0 {
        lemma_row_slots_no_newline(g, r, n - 1);
        let col = g.columns[n - 1];
        if r < col.len() {
            lemma_slot_chars(Some(col[r]));
        }
        lemma_no_newline_concat(row_slots(g, r, n - 1), column_slot(col, r));
    }
}

/// Each line of the canonical text holds no newline and does not end in a
/// carriage return.
proof fn lemma_rendered_lines_ok(g: GameView)
    requires
        g.wf(),
    ensures
        forall|i: int| 0 <= i < rendered_lines(g).len() ==> no_newline(#[trigger] rendered_lines(g)[i]),
        forall|i: int|
            0 <= i < rendered_lines(g).len() ==> strip_cr(#[trigger] rendered_lines(g)[i])
                == rendered_lines(g)[i],
{
    let ls = rendered_lines(g);
    lemma_title_round_trip(g.id);
    lemma_cells_line_layout(g);
    reveal_strlit("||");
    let cl = cells_line(g);
    lemma_slot_chars(g.cells[0]);
    lemma_slot_chars(g.cells[1]);
    lemma_slot_chars(g.cells[2]);
    lemma_slot_chars(g.cells[3]);
    lemma_slot_chars(pile_top(g.foundations[0]));
    lemma_slot_chars(pile_top(g.foundations[1]));
    lemma_slot_chars(pile_top(g.foundations[2]));
    lemma_slot_chars(pile_top(g.foundations[3]));
    let a = slot(g.cells[0]) + slot(g.cells[1]);
    lemma_no_newline_concat(slot(g.cells[0]), slot(g.cells[1]));
    lemma_no_newline_concat(a, slot(g.cells[2]));
    let a = a + slot(g.cells[2]);
    lemma_no_newline_concat(a, slot(g.cells[3]));
    let a = a + slot(g.cells[3]);
    lemma_no_newline_concat(a, "||"@);
    let a = a + "||"@;
    lemma_no_newline_concat(a, slot(pile_top(g.foundations[0])));
    let a = a + slot(pile_top(g.foundations[0]));
    lemma_no_newline_concat(a, slot(pile_top(g.foundations[1])));
    let a = a + slot(pile_top(g.foundations[1]));
    lemma_no_newline_concat(a, slot(pile_top(g.foundations[2])));
    let a = a + slot(pile_top(g.foundations[2]));
    lemma_no_newline_concat(a, slot(pile_top(g.foundations[3])));
    assert(no_newline(cl));
    assert(cl.subrange(30, 34) == slot(pile_top(g.foundations[3])));
    assert(cl[33] == cl.subrange(30, 34)[3]);
    assert(strip_cr(cl) == cl);
    assert(no_newline(dash_line()));
    assert(strip_cr(dash_line()) == dash_line());
    assert forall|i: int| 0 <= i < 19 implies no_newline(#[trigger] row_line(g, i)) && strip_cr(row_line(g, i))
        == row_line(g, i) by {
        lemma_row_slots_no_newline(g, i, 8);
        lemma_no_newline_concat(seq![' '], row_slots(g, i, 8));
        lemma_no_newline_concat(seq![' '] + row_slots(g, i, 8), seq![' ']);
        lemma_row_line_layout(g, i);
    }
    assert forall|i: int| 0 <= i < ls.len() implies no_newline(#[trigger] ls[i]) && strip_cr(ls[i]) == ls[i] by {
        if i >= 4 {
            assert(ls[i] == row_line(g, i - 4));
        } else if i == 1 {
            assert(ls[1] == Seq::<char>::empty());
        }
    }
}

/// Parsing the canonical text of a valid game gives the game back, provided no
/// column is deeper than the 19 rows that the text shows.
pub proof fn lemma_render_parse_round_trip(g: GameView)
    requires
        g.wf(),
        forall|k: int| 0 <= k < 8 ==> #[trigger] g.columns[k].len() <= 19,
    ensures
        spec_parse_game(spec_render(g)) == Some(g),
{
    let ls = rendered_lines(g);
    lemma_render_is_join(g);
    lemma_rendered_lines_ok(g);
    lemma_lines_of_join(ls);
    assert(spec_lines(spec_render(g)) == ls);
    lemma_title_round_trip(g.id);
    assert(ls[0] == title_line(g.id));
    assert(ls[2] == cells_line(g));
    lemma_scan_cells_line(g);
    let st = scan_cells(ls[2], ls[2].len() as int, initial_state())->Some_0;
    let rest = ls.skip(4);
    let rows_lines = Seq::new(19, |i: int| row_line(g, i));
    assert(rest =~= rows_lines);
    assert forall|m: int| 0 <= m < 8 implies #[trigger] rows_cols(g, 0, 0)[m] == st.columns[m] by {
        let col = g.columns[m];
        if 0 < col.len() {
            assert(col.take(0) =~= Seq::<Card>::empty());
        } else {
            assert(col =~= Seq::<Card>::empty());
        }
    }
    assert(st.columns =~= rows_cols(g, 0, 0));
    lemma_scan_rows(g, 19, st);
    let fin = scan_rows(rows_lines, 19, st)->Some_0;
    assert(fin.columns =~= g.columns);
    assert(crate::parse::placed(fin) == g.cards());
    assert forall|c: Card| #[trigger] fin.seen.contains(c) by {
        assert(g.cards().count(c) == 1);
    }
    assert(spec_parse_game(spec_render(g)) == Some(
        GameView { id: g.id, cells: fin.cells, foundations: fin.foundations, columns: fin.columns },
    ));
}

} // verus!
