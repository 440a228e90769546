use vstd::prelude::*;
use vstd::string::*;

use crate::card::Card;
use crate::game::{Game, GameView};

verus! {

/// The character of decimal digit `d`.
pub open spec fn digit_char(d: int) -> char {
    if d == 0 {
        '0'
    } else if d == 1 {
        '1'
    } else if d == 2 {
        '2'
    } else if d == 3 {
        '3'
    } else if d == 4 {
        '4'
    } else if d == 5 {
        '5'
    } else if d == 6 {
        '6'
    } else if d == 7 {
        '7'
    } else if d == 8 {
        '8'
    } else {
        '9'
    }
}

/// The decimal digits of `n`, without leading zeros.
pub open spec fn spec_decimal(n: nat) -> Seq<char>
    decreases n,
{
    if n < 10 {
        seq![digit_char(n as int)]
    } else {
        spec_decimal(n / 10).push(digit_char((n % 10) as int))
    }
}

/// `n` spaces.
pub open spec fn spaces(n: nat) -> Seq<char> {
    Seq::new(n, |i: int| ' ')
}

/// The first line: the name padded to 27 columns, then `#` and the id
/// right-aligned in five columns, then one space.
pub open spec fn title_line(id: u16) -> Seq<char> {
    let d = spec_decimal(id as nat);
    "RustLibreCell"@ + spaces(14) + spaces((5 - d.len()) as nat) + seq!['#'] + d + seq![' ']
}

/// A slot of four characters: a card between two spaces, or ` .. ` when empty.
pub open spec fn slot(o: Option<Card>) -> Seq<char> {
    match o {
        Some(c) => seq![' '] + c.spec_text() + seq![' '],
        None => " .. "@,
    }
}

/// The top card of a pile, if any.
pub open spec fn pile_top(p: Seq<Card>) -> Option<Card> {
    if p.len() == 0 {
        None
    } else {
        Some(p.last())
    }
}

/// The third line: the four cells, `||`, and the tops of the four foundations.
pub open spec fn cells_line(g: GameView) -> Seq<char> {
    slot(g.cells[0]) + slot(g.cells[1]) + slot(g.cells[2]) + slot(g.cells[3]) + "||"@ + slot(
        pile_top(g.foundations[0]),
    ) + slot(pile_top(g.foundations[1])) + slot(pile_top(g.foundations[2])) + slot(
        pile_top(g.foundations[3]),
    )
}

/// The card at depth `i` of a column as a slot, or four spaces below its last card.
pub open spec fn column_slot(col: Seq<Card>, i: int) -> Seq<char> {
    if i < col.len() {
        slot(Some(col[i]))
    } else {
        spaces(4)
    }
}

/// The slots of the first `n` columns at depth `i`.
pub open spec fn row_slots(g: GameView, i: int, n: int) -> Seq<char>
    decreases n,
{
    if n <= 0 {
        Seq::empty()
    } else {
        row_slots(g, i, n - 1) + column_slot(g.columns[n - 1], i)
    }
}

/// Row `i` of the columns block: a space, the eight slots, a space.
pub open spec fn row_line(g: GameView, i: int) -> Seq<char> {
    seq![' '] + row_slots(g, i, 8) + seq![' ']
}

/// The first `n` rows of the columns block, each ended by a newline.
pub open spec fn rows(g: GameView, n: int) -> Seq<char>
    decreases n,
{
    if n <= 0 {
        Seq::empty()
    } else {
        rows(g, n - 1) + row_line(g, n - 1) + seq!['\n']
    }
}

/// The canonical text of a game: the title line, an empty line, the cells and
/// foundations line, a line of 33 dashes and a space, then 19 rows of columns.
pub open spec fn spec_render(g: GameView) -> Seq<char> {
    title_line(g.id) + "\n\n"@ + cells_line(g) + "\n"@ + Seq::new(33, |i: int| '-') + " \n"@ + rows(
        g,
        19,
    )
}

/// Returns the one-character text of decimal digit `d`.
fn digit_text(d: u16) -> (r: &'static str)
    requires
        d < 10,
    ensures
        r@ == seq![digit_char(d as int)],
{
    if d == 0 {
        proof { reveal_strlit("0"); }
        "0"
    } else if d == 1 {
        proof { reveal_strlit("1"); }
        "1"
    } else if d == 2 {
        proof { reveal_strlit("2"); }
        "2"
    } else if d == 3 {
        proof { reveal_strlit("3"); }
        "3"
    } else if d == 4 {
        proof { reveal_strlit("4"); }
        "4"
    } else if d == 5 {
        proof { reveal_strlit("5"); }
        "5"
    } else if d == 6 {
        proof { reveal_strlit("6"); }
        "6"
    } else if d == 7 {
        proof { reveal_strlit("7"); }
        "7"
    } else if d == 8 {
        proof { reveal_strlit("8"); }
        "8"
    } else {
        proof { reveal_strlit("9"); }
        "9"
    }
}

proof fn lemma_decimal_len(n: nat)
    ensures
        1 <= spec_decimal(n).len(),
        n < 100000 ==> spec_decimal(n).len() <= 5,
        n < 10000 ==> spec_decimal(n).len() <= 4,
        n < 1000 ==> spec_decimal(n).len() <= 3,
        n < 100 ==> spec_decimal(n).len() <= 2,
    decreases n,
{
    if n >= 10 {
        lemma_decimal_len(n / 10);
    }
}

/// Returns the decimal digits of `n`.
fn decimal(n: u16) -> (r: String)
    ensures
        r@ == spec_decimal(n as nat),
    decreases n,
{
    if n < 10 {
        String::from_str(digit_text(n))
    } else {
        let mut r = decimal(n / 10);
        r.append(digit_text(n % 10));
        r
    }
}

/// Appends a slot for `o` to `r`.
fn append_slot(r: &mut String, o: Option<Card>)
    ensures
        final(r)@ == old(r)@ + slot(o),
{
    match o {
        Some(c) => {
            r.append(" ");
            let t = c.to_string();
            r.append(t.as_str());
            r.append(" ");
            proof {
                reveal_strlit(" ");
                assert(final(r)@ =~= old(r)@ + slot(o));
            }
        },
        None => {
            r.append(" .. ");
        },
    }
}

/// Returns the top card of a pile, if any.
fn top_of(p: &Vec<Card>) -> (r: Option<Card>)
    ensures
        r == pile_top(p@),
{
    let n = p.len();
    if n == 0 {
        None
    } else {
        Some(p[n - 1])
    }
}

/// Appends the title line, with the empty line after it, to an empty text.
fn render_title(id: u16) -> (r: String)
    ensures
        r@ == title_line(id) + "\n\n"@,
{
    let mut result = String::from_str("RustLibreCell              ");
    let digits = decimal(id);
    proof {
        lemma_decimal_len(id as nat);
        reveal_strlit("RustLibreCell              ");
        reveal_strlit("RustLibreCell");
        assert("RustLibreCell              "@ =~= "RustLibreCell"@ + spaces(14));
    }
    let pad = 5 - digits.as_str().unicode_len();
    let mut i: usize = 0;
    while i < pad
        invariant
            i <= pad,
            result@ == "RustLibreCell"@ + spaces(14) + spaces(i as nat),
        decreases pad - i,
    {
        result.append(" ");
        proof {
            reveal_strlit(" ");
            assert(spaces((i + 1) as nat) =~= spaces(i as nat) + " "@);
        }
        i = i + 1;
    }
    result.append("#");
    result.append(digits.as_str());
    result.append(" \n\n");
    proof {
        reveal_strlit("#");
        reveal_strlit(" \n\n");
        reveal_strlit(" ");
        reveal_strlit("\n\n");
        assert(result@ =~= title_line(id) + "\n\n"@);
    }
    result
}

/// Appends the cells and foundations line and the dashed line to `result`.
fn render_cells(game: &Game, result: &mut String)
    ensures
        final(result)@ == old(result)@ + cells_line(game@) + "\n"@ + Seq::new(33, |i: int| '-') + " \n"@,
{
    let ghost start = result@;
    let ghost g = game@;
    let ghost pa = slot(g.cells[0]);
    let ghost pb = pa + slot(g.cells[1]);
    let ghost pc = pb + slot(g.cells[2]);
    let ghost pd = pc + slot(g.cells[3]);
    let ghost pe = pd + "||"@;
    let ghost pf = pe + slot(pile_top(g.foundations[0]));
    let ghost pg = pf + slot(pile_top(g.foundations[1]));
    let ghost ph = pg + slot(pile_top(g.foundations[2]));
    let ghost pi = ph + slot(pile_top(g.foundations[3]));
    append_slot(result, game.cells[0]);
    append_slot(result, game.cells[1]);
    proof { vstd::seq_lib::lemma_concat_associative(start, pa, slot(g.cells[1])); }
    append_slot(result, game.cells[2]);
    proof { vstd::seq_lib::lemma_concat_associative(start, pb, slot(g.cells[2])); }
    append_slot(result, game.cells[3]);
    proof { vstd::seq_lib::lemma_concat_associative(start, pc, slot(g.cells[3])); }
    result.append("||");
    proof { vstd::seq_lib::lemma_concat_associative(start, pd, "||"@); }
    append_slot(result, top_of(&game.foundations[0]));
    proof { vstd::seq_lib::lemma_concat_associative(start, pe, slot(pile_top(g.foundations[0]))); }
    append_slot(result, top_of(&game.foundations[1]));
    proof { vstd::seq_lib::lemma_concat_associative(start, pf, slot(pile_top(g.foundations[1]))); }
    append_slot(result, top_of(&game.foundations[2]));
    proof { vstd::seq_lib::lemma_concat_associative(start, pg, slot(pile_top(g.foundations[2]))); }
    append_slot(result, top_of(&game.foundations[3]));
    proof {
        vstd::seq_lib::lemma_concat_associative(start, ph, slot(pile_top(g.foundations[3])));
        assert(pi == cells_line(g));
        assert(result@ == start + cells_line(g));
    }
    result.append("\n--------------------------------- \n");
    proof {
        let dashes = Seq::new(33, |i: int| '-');
        reveal_strlit("\n--------------------------------- \n");
        reveal_strlit("\n");
        reveal_strlit(" \n");
        assert("\n--------------------------------- \n"@ =~= "\n"@ + dashes + " \n"@);
        let cl = start + cells_line(g);
        vstd::seq_lib::lemma_concat_associative(cl, "\n"@ + dashes, " \n"@);
        vstd::seq_lib::lemma_concat_associative(cl, "\n"@, dashes);
    }
}

/// Appends row `row` of the columns block, with its newline, to `result`.
fn render_row(game: &Game, result: &mut String, row: usize)
    ensures
        final(result)@ == old(result)@ + row_line(game@, row as int) + seq!['\n'],
{
    let ghost before = result@;
    result.append(" ");
    proof {
        reveal_strlit(" ");
        assert(row_slots(game@, row as int, 0) =~= Seq::<char>::empty());
        assert(result@ =~= before + seq![' '] + row_slots(game@, row as int, 0));
    }
    let mut c: usize = 0;
    while c < 8
        invariant
            c <= 8,
            result@ == before + seq![' '] + row_slots(game@, row as int, c as int),
        decreases 8 - c,
    {
        let n = game.columns[c].len();
        if row < n {
            append_slot(result, Some(game.columns[c][row]));
        } else {
            result.append("    ");
            proof {
                reveal_strlit("    ");
                assert("    "@ =~= spaces(4));
            }
        }
        proof {
            assert(result@ =~= before + seq![' '] + row_slots(game@, row as int, c + 1));
        }
        c = c + 1;
    }
    result.append(" \n");
    proof {
        reveal_strlit(" \n");
        assert(result@ =~= before + row_line(game@, row as int) + seq!['\n']);
    }
}

impl Game {
    /// Returns the canonical text of the game, which `try_from` parses back.
    pub fn to_string(&self) -> (r: String)
        ensures
            r@ == spec_render(self@),
    {
        let mut result = render_title(self.id);
        render_cells(self, &mut result);
        let ghost head = result@;
        assert(rows(self@, 0) =~= Seq::<char>::empty());
        let mut row: usize = 0;
        while row < 19
            invariant
                row <= 19,
                result@ == head + rows(self@, row as int),
            decreases 19 - row,
        {
            render_row(self, &mut result, row);
            assert(result@ =~= head + rows(self@, row + 1));
            row = row + 1;
        }
        assert(result@ =~= spec_render(self@));
        result
    }
}

} // verus!
