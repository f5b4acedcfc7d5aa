//! A game played by typed commands: `c x y` clicks a cell, `f x y` toggles
//! a flag.
use vstd::prelude::*;
use vstd::string::StrSliceExecFns;

use crate::game::new_board;
use crate::ms_board::gameplay::{no_safe_cell_hidden, click_outcome, flag_toggled, with_cells, RevealResult};
use crate::ms_board::generation::mines_generated;
use crate::ms_board::{Board, BoardModel};

verus! {

/// Where a game stands.
#[derive(Debug, Clone, Copy, PartialEq, Eq, Structural)]
pub enum GameStatus {
    Created,
    Playing,
    Won,
    Lost,
}

/// `c` is white space in the sense of Unicode's `White_Space` property.
pub open spec fn is_white_space(c: char) -> bool {
    let v = c as u32;
    ||| 0x9 <= v <= 0xd
    ||| v == 0x20
    ||| v == 0x85
    ||| v == 0xa0
    ||| v == 0x1680
    ||| 0x2000 <= v <= 0x200a
    ||| v == 0x2028
    ||| v == 0x2029
    ||| v == 0x202f
    ||| v == 0x205f
    ||| v == 0x3000
}

/// The words of `s`: its longest runs of characters that are not white space,
/// in order.
pub open spec fn words(s: Seq<char>) -> Seq<Seq<char>>
    decreases s.len(),
{
    if s.len() == 0 {
        seq![]
    } else {
        let rest = words(s.drop_last());
        let c = s.last();
        if is_white_space(c) {
            rest
        } else if s.len() >= 2 && !is_white_space(s[s.len() - 2]) {
            rest.update(rest.len() - 1, rest.last().push(c))
        } else {
            rest.push(seq![c])
        }
    }
}

/// The digits of a number, after a `+` sign if there is one.
pub open spec fn unsigned_digits(t: Seq<char>) -> Seq<char> {
    if t.len() > 0 && t[0] == '+' {
        t.drop_first()
    } else {
        t
    }
}

pub open spec fn is_digit(c: char) -> bool {
    '0' <= c <= '9'
}

/// The number that a run of decimal digits writes.
pub open spec fn decimal_value(d: Seq<char>) -> nat
    decreases d.len(),
{
    if d.len() == 0 {
        0
    } else {
        decimal_value(d.drop_last()) * 10 + (d.last() as nat - '0' as nat) as nat
    }
}

/// `t` read as a `usize`: an optional `+` and at least one decimal digit,
/// writing a number no larger than `usize::MAX`.
pub open spec fn parse_decimal(t: Seq<char>) -> Option<usize> {
    let d = unsigned_digits(t);
    if d.len() > 0 && (forall|i: int| 0 <= i < d.len() ==> is_digit(#[trigger] d[i])) && decimal_value(d) <= usize::MAX {
        Some(decimal_value(d) as usize)
    } else {
        None
    }
}

/// A command of three words: an action, given by the first character of the
/// first word, and two numbers.
pub open spec fn parse_command(s: Seq<char>) -> Option<(char, usize, usize)> {
    let w = words(s);
    if w.len() != 3 {
        None
    } else {
        match (parse_decimal(w[1]), parse_decimal(w[2])) {
            (Some(x), Some(y)) => Some((w[0][0], x, y)),
            _ => None,
        }
    }
}

/// Every word has at least one character.
pub proof fn lemma_words_nonempty(s: Seq<char>)
    ensures
        forall|k: int| 0 <= k < words(s).len() ==> #[trigger] words(s)[k].len() > 0,
        s.len() > 0 && !is_white_space(s.last()) ==> words(s).len() > 0,
    decreases s.len(),
{
    if s.len() > 0 {
        lemma_words_nonempty(s.drop_last());
        if s.len() >= 2 && !is_white_space(s[s.len() - 2]) {
            assert(s.drop_last().last() == s[s.len() - 2]);
        }
    }
}

/// A run of digits writes at least as much as any of its beginnings.
pub proof fn lemma_decimal_prefix(d: Seq<char>, k: int)
    requires
        0 <= k <= d.len(),
        forall|i: int| 0 <= i < d.len() ==> is_digit(#[trigger] d[i]),
    ensures
        decimal_value(d.take(k)) <= decimal_value(d),
    decreases d.len(),
{
    if k < d.len() {
        let e = d.drop_last();
        assert(e.take(k) =~= d.take(k));
        assert forall|i: int| 0 <= i < e.len() implies is_digit(#[trigger] e[i]) by {
            assert(e[i] == d[i]);
        }
        lemma_decimal_prefix(e, k);
        assert(d.take(d.len() as int) =~= d);
    } else {
        assert(d.take(k) =~= d);
    }
}

/// Whether `c` is white space, by Unicode's `White_Space` property.
pub fn white_space(c: char) -> (r: bool)
    ensures
        r == is_white_space(c),
{
    let v = c as u32;
    (0x9 <= v && v <= 0xd) || v == 0x20 || v == 0x85 || v == 0xa0 || v == 0x1680 || (0x2000 <= v && v <= 0x200a)
        || v == 0x2028 || v == 0x2029 || v == 0x202f || v == 0x205f || v == 0x3000
}

/// The words of `s`, split at white space.
pub fn split_words(s: &str) -> (r: Vec<Vec<char>>)
    ensures
        r@.len() == words(s@).len(),
        forall|k: int| 0 <= k < r@.len() ==> #[trigger] r@[k]@ == words(s@)[k],
{
    let n = s.unicode_len();
    let mut out: Vec<Vec<char>> = Vec::new();
    let mut prev_space = true;
    let mut i: usize = 0;
    while i < n
        invariant
            n == s@.len(),
            i <= n,
            prev_space == (i == 0 || is_white_space(s@[i - 1])),
            out@.len() == words(s@.take(i as int)).len(),
            forall|k: int| 0 <= k < out@.len() ==> #[trigger] out@[k]@ == words(s@.take(i as int))[k],
        decreases n - i,
    {
        let c = s.get_char(i);
        let ghost t = s@.take(i + 1);
        proof {
            assert(t.drop_last() =~= s@.take(i as int));
            assert(t.last() == c);
            if i >= 1 {
                assert(t[t.len() - 2] == s@[i - 1]);
            }
            lemma_words_nonempty(s@.take(i as int));
            if i >= 1 {
                assert(s@.take(i as int).last() == s@[i - 1]);
            }
        }
        if white_space(c) {
            prev_space = true;
        } else if prev_space {
            let mut word: Vec<char> = Vec::new();
            word.push(c);
            out.push(word);
            prev_space = false;
            proof {
                assert(word@ =~= seq![c]);
            }
        } else {
            let last = out.len() - 1;
            out[last].push(c);
            prev_space = false;
        }
        i = i + 1;
    }
    proof {
        assert(s@.take(n as int) =~= s@);
    }
    out
}

/// `t` read as a `usize`, or `None` when it is not one.
pub fn parse_decimal_word(t: &Vec<char>) -> (r: Option<usize>)
    ensures
        r == parse_decimal(t@),
{
    let start: usize = if t.len() > 0 && t[0] == '+' {
        1
    } else {
        0
    };
    let ghost d = unsigned_digits(t@);
    proof {
        assert(d =~= t@.subrange(start as int, t@.len() as int));
    }
    if start == t.len() {
        return None;
    }
    let mut v: usize = 0;
    let mut i: usize = start;
    while i < t.len()
        invariant
            d == unsigned_digits(t@),
            d.len() > 0,
            d == t@.subrange(start as int, t@.len() as int),
            start <= i <= t@.len(),
            forall|q: int| 0 <= q < i - start ==> is_digit(#[trigger] d[q]),
            v == decimal_value(d.take(i - start)),
        decreases t@.len() - i,
    {
        let c = t[i];
        if !('0' <= c && c <= '9') {
            proof {
                assert(d[i - start] == c);
                assert(!is_digit(d[i - start]));
            }
            return None;
        }
        let digit = (c as u32 - 48) as usize;
        proof {
            assert(d.take(i - start + 1).drop_last() =~= d.take(i - start));
            assert(d.take(i - start + 1).last() == c);
        }
        let grown = match v.checked_mul(10) {
            Some(m) => m.checked_add(digit),
            None => None,
        };
        match grown {
            Some(g) => {
                v = g;
            },
            None => {
                proof {
                    if forall|q: int| 0 <= q < d.len() ==> is_digit(#[trigger] d[q]) {
                        lemma_decimal_prefix(d, i - start + 1);
                    }
                }
                return None;
            },
        }
        proof {
            assert forall|q: int| 0 <= q < i + 1 - start implies is_digit(#[trigger] d[q]) by {
                if q == i - start {
                    assert(d[q] == c);
                }
            }
        }
        i = i + 1;
    }
    proof {
        assert(d.take(d.len() as int) =~= d);
    }
    Some(v)
}

/// The abstract value of a game.
pub struct TuiModel {
    pub board: BoardModel,
    pub status: GameStatus,
}

/// The game after a click on cell `idx` of board `b` in status `st`: hitting
/// a mine loses the game.
pub open spec fn click_from(b: BoardModel, st: GameStatus, idx: int) -> TuiModel {
    let (r, cells) = click_outcome(b, idx);
    TuiModel {
        board: with_cells(b, cells),
        status: if r == RevealResult::HitMine {
            GameStatus::Lost
        } else {
            st
        },
    }
}

/// The game after a click on cell `idx`; the first click lays the mines away
/// from it. Holds of every way the mines may fall.
pub open spec fn clicked(old: TuiModel, new: TuiModel, idx: int) -> bool {
    if old.status == GameStatus::Created {
        exists|b1: BoardModel| mines_generated(old.board, b1, idx) && new == #[trigger] click_from(b1, GameStatus::Playing, idx)
    } else {
        new == click_from(old.board, old.status, idx)
    }
}

/// The game after a check for a win.
pub open spec fn checked(m: TuiModel) -> TuiModel {
    TuiModel {
        board: m.board,
        status: if m.status == GameStatus::Playing && no_safe_cell_hidden(m.board) {
            GameStatus::Won
        } else {
            m.status
        },
    }
}

/// `new` is the game after action `a` on cell `idx`: `c` clicks it, `f`
/// toggles its flag, and any other action leaves the game as it is.
pub open spec fn acted(old: TuiModel, new: TuiModel, a: char, idx: int) -> bool {
    if a == 'c' {
        clicked(old, new, idx)
    } else if a == 'f' {
        new == TuiModel { board: flag_toggled(old.board, idx), status: old.status }
    } else {
        new == old
    }
}

/// What became of a line of input.
#[derive(Debug, Clone, Copy, PartialEq, Eq, Structural)]
pub enum LineOutcome {
    /// The line asks to quit.
    Quit,
    /// The line is not a command of three words with two numbers.
    Invalid,
    /// The command names no cell of the board.
    OffBoard,
    /// The action is neither a click nor a flag.
    UnknownAction(char),
    /// The command was carried out.
    Played,
}

pub struct TuiMinesweeperGame {
    board: Board,
    status: GameStatus,
}

impl View for TuiMinesweeperGame {
    type V = TuiModel;

    closed spec fn view(&self) -> TuiModel {
        TuiModel { board: self.board@, status: self.status }
    }
}

impl TuiMinesweeperGame {
    /// A game that has not started, on a new board.
    pub fn new(width: usize, height: usize, mines: usize) -> (g: Self)
        requires
            width > 0,
            height > 0,
            width * height <= usize::MAX,
            mines < width * height,
        ensures
            g@.board.wf(),
            g@.board == new_board(width as nat, height as nat, mines as nat),
            g@.status == GameStatus::Created,
    {
        let g = Self { board: Board::new(width, height, mines), status: GameStatus::Created };
        proof {
            assert(g@.board.cells =~= new_board(width as nat, height as nat, mines as nat).cells);
        }
        g
    }

    /// Whether the game is won or lost.
    pub fn is_over(&self) -> (r: bool)
        ensures
            r == (self@.status == GameStatus::Won || self@.status == GameStatus::Lost),
    {
        matches!(self.status, GameStatus::Won | GameStatus::Lost)
    }

    pub fn status(&self) -> (r: GameStatus)
        ensures
            r == self@.status,
    {
        self.status
    }

    /// The board the game is played on.
    pub fn board(&self) -> (r: &Board)
        ensures
            r@ == self@.board,
    {
        &self.board
    }

    /// Carries out action `c` (click) or `f` (flag) on cell `idx`, and
    /// tells whether the action was one of those two.
    ///
    /// The cell must lie on the board.
    pub fn handle_action(&mut self, action: char, idx: usize) -> (known: bool)
        requires
            old(self)@.board.wf(),
            action == 'c' || action == 'f' ==> idx < old(self)@.board.len(),
        ensures
            final(self)@.board.wf(),
            known == (action == 'c' || action == 'f'),
            action == 'c' ==> clicked(old(self)@, final(self)@, idx as int),
            action == 'f' ==> final(self)@ == (TuiModel {
                board: flag_toggled(old(self)@.board, idx as int),
                status: old(self)@.status,
            }),
            !known ==> final(self)@ == old(self)@,
    {
        match action {
            'c' => {
                self.handle_click(idx);
                true
            },
            'f' => {
                self.board.toggle_flag(idx);
                true
            },
            _ => false,
        }
    }

    /// Clicks cell `idx`; the first click lays the mines away from it.
    pub fn handle_click(&mut self, idx: usize)
        requires
            old(self)@.board.wf(),
            idx < old(self)@.board.len(),
        ensures
            final(self)@.board.wf(),
            clicked(old(self)@, final(self)@, idx as int),
    {
        if matches!(self.status, GameStatus::Created) {
            self.board.generate_mines(idx);
            self.status = GameStatus::Playing;
        }
        let ghost b1 = self.board@;
        let ghost st1 = self.status;
        if self.board.click_cell(idx) == RevealResult::HitMine {
            self.status = GameStatus::Lost;
        }
        proof {
            assert(self@ == click_from(b1, st1, idx as int));
        }
    }

    /// Reads a command of three words: an action and two numbers, the
    /// column and the row.
    pub fn parse_input(&self, input: &str) -> (r: Option<(char, usize, usize)>)
        ensures
            r == parse_command(input@),
    {
        let parts = split_words(input);
        if parts.len() != 3 {
            return None;
        }
        proof {
            lemma_words_nonempty(input@);
            assert(parts@[0]@.len() > 0);
        }
        let action = parts[0][0];
        let x = match parse_decimal_word(&parts[1]) {
            Some(x) => x,
            None => {
                return None;
            },
        };
        let y = match parse_decimal_word(&parts[2]) {
            Some(y) => y,
            None => {
                return None;
            },
        };
        Some((action, x, y))
    }

    /// Marks a game in play as won once no cell without a mine is left hidden.
    pub fn check_win(&mut self)
        ensures
            final(self)@.board == old(self)@.board,
            final(self)@.status == (if old(self)@.status == GameStatus::Playing && no_safe_cell_hidden(old(self)@.board) {
                GameStatus::Won
            } else {
                old(self)@.status
            }),
    {
        if matches!(self.status, GameStatus::Playing) && self.board.is_win_condition_met() {
            self.status = GameStatus::Won;
        }
    }

    /// Plays one line of input: `q` quits; a command of an action and the
    /// column and row of a cell is carried out, followed by a check for a
    /// win; anything else is invalid. A command for a cell off the board
    /// changes nothing.
    pub fn play_line(&mut self, input: &str) -> (r: LineOutcome)
        requires
            old(self)@.board.wf(),
        ensures
            final(self)@.board.wf(),
            input@ == seq!['q'] ==> r == LineOutcome::Quit && final(self)@ == old(self)@,
            input@ != seq!['q'] && parse_command(input@) is None ==> r == LineOutcome::Invalid && final(self)@ == old(self)@,
            input@ != seq!['q'] && parse_command(input@) is Some ==> ({
                let (a, x, y) = parse_command(input@)->0;
                let idx = y * old(self)@.board.width + x;
                let known = a == 'c' || a == 'f';
                if idx > usize::MAX || (known && idx >= old(self)@.board.len()) {
                    r == LineOutcome::OffBoard && final(self)@ == old(self)@
                } else {
                    &&& r == (if known { LineOutcome::Played } else { LineOutcome::UnknownAction(a) })
                    &&& exists|mid: TuiModel| acted(old(self)@, mid, a, idx) && final(self)@ == #[trigger] checked(mid)
                }
            }),
    {
        if input.unicode_len() == 1 && input.get_char(0) == 'q' {
            proof {
                assert(input@ =~= seq!['q']);
            }
            return LineOutcome::Quit;
        }
        proof {
            if input@ == seq!['q'] {
                assert(input@.len() == 1 && input@[0] == 'q');
            }
        }
        let (action, x, y) = match self.parse_input(input) {
            Some(command) => command,
            None => {
                return LineOutcome::Invalid;
            },
        };
        let width = self.board.get_width();
        let cells = width * self.board.get_height();
        proof {
            assert(0 <= y * width) by (nonlinear_arith);
        }
        let idx = match y.checked_mul(width) {
            Some(row_start) => match row_start.checked_add(x) {
                Some(i) => i,
                None => {
                    return LineOutcome::OffBoard;
                },
            },
            None => {
                proof {
                    assert(y * width + x >= y * width);
                }
                return LineOutcome::OffBoard;
            },
        };
        let known = action == 'c' || action == 'f';
        if known && idx >= cells {
            return LineOutcome::OffBoard;
        }
        let ghost m0 = self@;
        self.handle_action(action, idx);
        let ghost mid = self@;
        self.check_win();
        proof {
            assert(acted(m0, mid, action, idx as int));
            assert(self@ == checked(mid));
        }
        if known {
            LineOutcome::Played
        } else {
            LineOutcome::UnknownAction(action)
        }
    }
}

} // verus!
