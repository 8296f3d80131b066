//! The sliding-tile puzzle on a board of four by four cells. A board is
//! packed into 64 bits, four bits to a cell; the cell that holds 0 is the
//! open one.
use vstd::prelude::*;
use vstd::string::*;
use crate::action::Action;
use crate::state::State;
use crate::text::{
    numeral,
    padded_numeral,
    unsigned_number,
    append_numeral,
    append_padded_numeral,
    read_unsigned_text,
    lemma_numeral_round_trip,
};

verus! {

/// The board on which every piece is in its place.
pub const SOLVED_BOARD: u64 = 0xfedcba9876543210;

/// The piece in the cell of the given index.
pub open spec fn piece_at(board: u64, index: int) -> u8 {
    ((board >> ((4 * index) as u64)) & 0xf) as u8
}

/// The board that differs from `board` in that the cell of the given
/// index holds `piece`.
pub open spec fn with_piece(board: u64, index: int, piece: u8) -> u64 {
    (board & !(0xfu64 << ((4 * index) as u64))) | ((piece as u64) << ((4 * index) as u64))
}

/// The pieces of a board, cell by cell.
pub open spec fn cells(board: u64) -> Seq<u8> {
    Seq::new(16, |index: int| piece_at(board, index))
}

/// The index of the first cell from `from` on that holds `piece`; 0 where
/// none does.
pub open spec fn index_from(board: u64, piece: u8, from: int) -> int
    decreases 16 - from,
{
    if from < 0 || from >= 16 {
        0
    } else if piece_at(board, from) == piece {
        from
    } else {
        index_from(board, piece, from + 1)
    }
}

/// The index of the first cell that holds `piece`; 0 where none does.
pub open spec fn index_of(board: u64, piece: u8) -> int {
    index_from(board, piece, 0)
}

/// The board after `piece` has moved to the open cell: the cell where it
/// was is open, and the cell that was open holds it.
pub open spec fn moved(board: u64, piece: u8) -> u64 {
    let from = index_of(board, piece);
    let to = index_of(board, 0);
    with_piece(with_piece(board, from, 0), to, piece & 0xf)
}

/// Whether each of the pieces 0 to 15 is in one cell of the board.
pub open spec fn is_arrangement(board: u64) -> bool {
    &&& cells(board).no_duplicates()
    &&& forall|piece: u8| 0 <= piece < 16 ==> #[trigger] cells(board).contains(piece)
}

/// A cell holds a piece below 16.
pub proof fn lemma_piece_at(board: u64, index: int)
    requires
        0 <= index < 16,
    ensures
        piece_at(board, index) < 16,
        piece_at(board, index) == (board >> ((4 * index) as u64)) % 16,
        piece_at(board, index) == (board >> ((4 * index) as u64)) & 0xf,
{
    let shift = (4 * index) as u64;
    assert((board >> shift) & 0xf < 16 && (board >> shift) & 0xf == (board >> shift) % 16)
        by (bit_vector);
}

/// Putting a piece into a cell changes that cell and no other.
pub proof fn lemma_with_piece(board: u64, index: int, piece: u8, other: int)
    requires
        0 <= index < 16,
        0 <= other < 16,
        piece < 16,
    ensures
        piece_at(with_piece(board, index, piece), other) == if other == index {
            piece
        } else {
            piece_at(board, other)
        },
{
    let i = (4 * index) as u64;
    let j = (4 * other) as u64;
    let p = piece as u64;
    assert((((board & !(0xfu64 << i)) | (p << i)) >> j) & 0xf == if j == i {
        p
    } else {
        (board >> j) & 0xf
    }) by (bit_vector)
        requires
            i < 64,
            j < 64,
            i % 4 == 0,
            j % 4 == 0,
            p < 16,
    ;
}

/// The index of a piece is the index of the first cell that holds it.
pub proof fn lemma_index_from(board: u64, piece: u8, from: int)
    requires
        0 <= from <= 16,
    ensures
        ({
            let found = index_from(board, piece, from);
            if exists|i: int| from <= i < 16 && piece_at(board, i) == piece {
                &&& from <= found < 16
                &&& piece_at(board, found) == piece
                &&& forall|i: int| from <= i < found ==> piece_at(board, i) != piece
            } else {
                found == 0
            }
        }),
    decreases 16 - from,
{
    if from < 16 && piece_at(board, from) != piece {
        lemma_index_from(board, piece, from + 1);
    }
}

/// On a board that holds each piece once, a piece is in the cell that its
/// index names, and in no other.
pub proof fn lemma_index_of(board: u64, piece: u8)
    requires
        is_arrangement(board),
        piece < 16,
    ensures
        0 <= index_of(board, piece) < 16,
        piece_at(board, index_of(board, piece)) == piece,
        forall|i: int| 0 <= i < 16 && piece_at(board, i) == piece ==> i == index_of(board, piece),
{
    lemma_index_from(board, piece, 0);
    assert(cells(board).contains(piece));
    let at = choose|i: int| 0 <= i < 16 && cells(board)[i] == piece;
    assert(piece_at(board, at) == piece);
    let found = index_of(board, piece);
    assert forall|i: int| 0 <= i < 16 && piece_at(board, i) == piece implies i == found by {
        assert(cells(board)[i] == cells(board)[found]);
    }
}

/// Moving a piece exchanges it with the open cell, and the board still
/// holds each piece once.
pub proof fn lemma_moved(board: u64, piece: u8)
    requires
        is_arrangement(board),
        piece < 16,
    ensures
        is_arrangement(moved(board, piece)),
        cells(moved(board, piece)) == cells(board).update(index_of(board, piece), 0u8).update(
            index_of(board, 0),
            piece,
        ),
{
    let from = index_of(board, piece);
    let to = index_of(board, 0);
    lemma_index_of(board, piece);
    lemma_index_of(board, 0);
    let cleared = with_piece(board, from, 0);
    let after = moved(board, piece);
    assert(piece & 0xf == piece) by (bit_vector)
        requires
            piece < 16,
    ;
    let swapped = cells(board).update(from, 0u8).update(to, piece);
    assert forall|i: int| 0 <= i < 16 implies cells(after)[i] == swapped[i] by {
        lemma_with_piece(board, from, 0, i);
        lemma_with_piece(cleared, to, piece, i);
    }
    assert(cells(after) =~= swapped);
    assert(swapped.no_duplicates()) by {
        assert forall|i: int, j: int|
            0 <= i < 16 && 0 <= j < 16 && i != j implies swapped[i] != swapped[j] by {
            assert(cells(board)[i] != cells(board)[j]);
            assert(cells(board)[from] == piece);
            assert(cells(board)[to] == 0);
        }
    }
    assert forall|p: u8| 0 <= p < 16 implies #[trigger] swapped.contains(p) by {
        assert(cells(board).contains(p));
        let at = choose|i: int| 0 <= i < 16 && cells(board)[i] == p;
        if p == piece {
            assert(swapped[to] == p);
        } else if p == 0 {
            assert(swapped[from] == p);
        } else {
            assert(swapped[at] == p);
        }
    }
}

/// A board of the sliding-tile puzzle.
#[derive(Clone, Copy, PartialEq, Eq, Debug)]
pub struct FifteenPuzzle {
    pub board: u64,
}

/// The move of a piece into the open cell.
#[derive(Clone, Copy, PartialEq, Eq, Debug)]
pub struct FifteenPuzzleAction {
    pub piece: u8,
}

impl FifteenPuzzleAction {
    pub fn new(piece: u8) -> (action: FifteenPuzzleAction)
        ensures
            action.piece == piece,
    {
        FifteenPuzzleAction { piece }
    }
}

impl Action for FifteenPuzzleAction {
    open spec fn wf(&self) -> bool {
        true
    }

    open spec fn cost(&self) -> nat {
        1
    }

    /// The number of the piece in hexadecimal digits.
    open spec fn rendering(&self) -> Seq<char> {
        numeral(self.piece as int, 16)
    }

    /// Hexadecimal digits, after an optional plus sign, that spell a number
    /// of one byte.
    open spec fn parsed(text: Seq<char>) -> Option<Self> {
        match unsigned_number(text, 16, 255) {
            Some(piece) => Some(FifteenPuzzleAction { piece: piece as u8 }),
            None => None,
        }
    }

    proof fn lemma_round_trip(action: &Self) {
        lemma_numeral_round_trip(action.piece as int, 16, 255);
    }

    proof fn lemma_parsed_wf(text: Seq<char>) {
    }

    fn is_valid(&self) -> (valid: bool) {
        true
    }

    fn get_cost(&self) -> (c: u32) {
        1
    }

    fn to_string(&self) -> (s: String) {
        let mut s = String::new();
        append_numeral(&mut s, self.piece as u64, 16);
        assert(s@ =~= self.rendering());
        s
    }

    fn from_str(s: &str) -> (r: Result<Self, ()>) {
        match read_unsigned_text(s, 16, 255) {
            Some(piece) => Ok(FifteenPuzzleAction { piece: piece as u8 }),
            None => Err(()),
        }
    }

    fn duplicate(&self) -> (r: Self) {
        FifteenPuzzleAction { piece: self.piece }
    }

    fn equals(&self, other: &Self) -> (b: bool) {
        self.piece == other.piece
    }
}

impl FifteenPuzzle {
    pub fn new(board: u64) -> (state: FifteenPuzzle)
        ensures
            state.board == board,
    {
        FifteenPuzzle { board }
    }

    /// The puzzle with every piece in its place.
    pub fn default() -> (state: FifteenPuzzle)
        ensures
            state.board == SOLVED_BOARD,
            state.wf(),
            state.is_goal(),
    {
        FifteenPuzzle { board: Self::default_board() }
    }

    /// The board on which every piece is in its place.
    pub fn default_board() -> (board: u64)
        ensures
            board == SOLVED_BOARD,
            is_arrangement(board),
    {
        proof {
            lemma_solved_board();
        }
        SOLVED_BOARD
    }

    pub fn get_piece(&self, index: u8) -> (piece: u8)
        requires
            index < 16,
        ensures
            piece == piece_at(self.board, index as int),
            piece < 16,
    {
        proof {
            lemma_piece_at(self.board, index as int);
        }
        ((self.board >> ((index as u64) * 4)) % 16) as u8
    }

    /// The index of the first cell that holds `piece`; 0 where none does.
    pub fn find_piece_index(&self, piece: u8) -> (index: u8)
        ensures
            index == index_of(self.board, piece),
            index < 16,
    {
        let mut i: u8 = 0;
        while i < 16
            invariant
                i <= 16,
                index_of(self.board, piece) == index_from(self.board, piece, i as int),
            decreases 16 - i,
        {
            if self.get_piece(i) == piece {
                return i;
            }
            i += 1;
        }
        0
    }

    /// The board after `piece` has moved to the open cell.
    pub fn move_piece(&self, piece: u8) -> (board: u64)
        ensures
            board == moved(self.board, piece),
    {
        let piece_index = self.find_piece_index(piece) as u64;
        let open_index = self.find_piece_index(0) as u64;
        let cleared = self.board & !(0xfu64 << (4 * piece_index));
        let low = (piece & 0xf) as u64;
        proof {
            let shift: u64 = (4 * piece_index) as u64;
            assert(cleared | (0u64 << shift) == cleared) by (bit_vector);
        }
        (cleared & !(0xfu64 << (4 * open_index))) | (low << (4 * open_index))
    }
}

/// The action that moves the piece of the cell `at`, if there is such a
/// cell in that direction.
pub open spec fn neighbour(board: u64, present: bool, at: int) -> Seq<FifteenPuzzleAction> {
    if present {
        seq![FifteenPuzzleAction { piece: piece_at(board, at) }]
    } else {
        Seq::empty()
    }
}

/// How far a piece in the cell of the given index is from its place, by
/// rows and by columns; the open cell counts for nothing.
pub open spec fn distance(index: int, piece: u8) -> nat {
    if piece == 0 {
        0
    } else {
        let across = index % 4 - piece % 4;
        let down = index / 4 - piece / 4;
        ((if across < 0 {
            -across
        } else {
            across
        }) + (if down < 0 {
            -down
        } else {
            down
        })) as nat
    }
}

/// The summed distances of the pieces in the cells below the index `upto`.
pub open spec fn manhattan(board: u64, upto: int) -> nat
    decreases upto,
{
    if upto <= 0 {
        0
    } else {
        manhattan(board, upto - 1) + distance(upto - 1, piece_at(board, upto - 1))
    }
}

/// The character that shows a piece.
pub open spec fn piece_char(piece: int) -> char {
    seq!['0', '1', '2', '3', '4', '5', '6', '7', '8', '9', 'A', 'B', 'C', 'D', 'E', 'F'][piece]
}

/// How a cell is shown: blank where it is open, else its piece, and the
/// bar to its right.
pub open spec fn cell_picture(piece: u8) -> Seq<char> {
    if piece == 0 {
        seq![' ', ' ', ' ', '|']
    } else {
        seq![' ', piece_char(piece as int), ' ', '|']
    }
}

/// The first `count` cells of a row of the picture, from the cell of the
/// highest index down, after the bar to their left.
pub open spec fn row_picture(board: u64, row: int, count: int) -> Seq<char>
    decreases count,
{
    if count <= 0 {
        seq!['|']
    } else {
        row_picture(board, row, count - 1) + cell_picture(
            piece_at(board, 15 - (row * 4 + (count - 1))),
        )
    }
}

/// The line between the rows of the picture.
pub open spec fn border() -> Seq<char> {
    "+---+---+---+---+"@
}

/// The first `rows` rows of the picture, each between two lines.
pub open spec fn grid(board: u64, rows: int) -> Seq<char>
    decreases rows,
{
    if rows <= 0 {
        border()
    } else {
        grid(board, rows - 1) + seq!['\n'] + row_picture(board, rows - 1, 4) + seq!['\n']
            + border()
    }
}

/// The text that shows a piece.
pub(crate) fn piece_text(piece: u8) -> (text: &'static str)
    requires
        0 < piece < 16,
    ensures
        text@ == seq![piece_char(piece as int)],
{
    proof {
        reveal_strlit("1");
        reveal_strlit("2");
        reveal_strlit("3");
        reveal_strlit("4");
        reveal_strlit("5");
        reveal_strlit("6");
        reveal_strlit("7");
        reveal_strlit("8");
        reveal_strlit("9");
        reveal_strlit("A");
        reveal_strlit("B");
        reveal_strlit("C");
        reveal_strlit("D");
        reveal_strlit("E");
        reveal_strlit("F");
    }
    let text = match piece {
        1 => "1",
        2 => "2",
        3 => "3",
        4 => "4",
        5 => "5",
        6 => "6",
        7 => "7",
        8 => "8",
        9 => "9",
        10 => "A",
        11 => "B",
        12 => "C",
        13 => "D",
        14 => "E",
        _ => "F",
    };
    assert(text@ =~= seq![piece_char(piece as int)]);
    text
}

impl State for FifteenPuzzle {
    type Action = FifteenPuzzleAction;

    /// Each of the pieces 0 to 15 is in one cell.
    open spec fn wf(&self) -> bool {
        is_arrangement(self.board)
    }

    /// The moves of the pieces next to the open cell: the one in the cell
    /// of the next lower index, of the next higher index, of the index four
    /// lower and of the index four higher, as far as the board has them.
    open spec fn legal_actions(&self) -> Seq<FifteenPuzzleAction> {
        let open = index_of(self.board, 0);
        let place = 15 - open;
        neighbour(self.board, place % 4 < 3, open - 1) + neighbour(
            self.board,
            place % 4 > 0,
            open + 1,
        ) + neighbour(self.board, place / 4 < 3, open - 4) + neighbour(
            self.board,
            place / 4 > 0,
            open + 4,
        )
    }

    open spec fn successor(&self, action: &FifteenPuzzleAction) -> FifteenPuzzle {
        FifteenPuzzle { board: moved(self.board, action.piece) }
    }

    open spec fn is_goal(&self) -> bool {
        self.board == SOLVED_BOARD
    }

    /// The summed distances of the pieces from their places.
    open spec fn estimate(&self) -> nat {
        manhattan(self.board, 16)
    }

    /// The board as sixteen hexadecimal digits after `0x`.
    open spec fn rendering(&self) -> Seq<char> {
        seq!['0', 'x'] + padded_numeral(self.board as int, 16, 16)
    }

    /// Four rows of four cells, the cell of the highest index first.
    open spec fn picture(&self) -> Seq<char> {
        grid(self.board, 4)
    }

    proof fn lemma_legal_actions(state: &Self) {
        let board = state.board;
        let open = index_of(board, 0);
        let place = 15 - open;
        lemma_index_of(board, 0);
        let actions = state.legal_actions();
        assert forall|i: int| 0 <= i < actions.len() implies exists|at: int|
            0 <= at < 16 && at != open && (at == open - 1 || at == open + 1 || at == open - 4 || at
                == open + 4) && (#[trigger] actions[i]).piece == piece_at(board, at) by {
            let a = neighbour(board, place % 4 < 3, open - 1);
            let b = neighbour(board, place % 4 > 0, open + 1);
            let c = neighbour(board, place / 4 < 3, open - 4);
            let d = neighbour(board, place / 4 > 0, open + 4);
            if i < a.len() {
                assert(actions[i].piece == piece_at(board, open - 1));
            } else if i < a.len() + b.len() {
                assert(actions[i].piece == piece_at(board, open + 1));
            } else if i < a.len() + b.len() + c.len() {
                assert(actions[i].piece == piece_at(board, open - 4));
            } else {
                assert(actions[i].piece == piece_at(board, open + 4));
            }
        }
        assert forall|i: int, j: int|
            0 <= i < actions.len() && 0 <= j < actions.len() && i != j implies actions[i]
            != actions[j] by {
            let a = neighbour(board, place % 4 < 3, open - 1);
            let b = neighbour(board, place % 4 > 0, open + 1);
            let c = neighbour(board, place / 4 < 3, open - 4);
            let d = neighbour(board, place / 4 > 0, open + 4);
            let at = |k: int|
                if k < a.len() {
                    open - 1
                } else if k < a.len() + b.len() {
                    open + 1
                } else if k < a.len() + b.len() + c.len() {
                    open - 4
                } else {
                    open + 4
                };
            assert(actions[i].piece == piece_at(board, at(i)));
            assert(actions[j].piece == piece_at(board, at(j)));
            assert(at(i) != at(j));
            assert(cells(board)[at(i)] != cells(board)[at(j)]);
        }
        assert forall|action: FifteenPuzzleAction| #[trigger]
            actions.contains(action) implies action.wf() && state.successor(&action).wf() by {
            let i = choose|i: int| 0 <= i < actions.len() && actions[i] == action;
            let at = choose|at: int|
                0 <= at < 16 && at != open && (at == open - 1 || at == open + 1 || at == open - 4
                    || at == open + 4) && actions[i].piece == piece_at(board, at);
            lemma_piece_at(board, at);
            lemma_moved(board, action.piece);
        }
    }

    /// Whether each of the pieces 0 to 15 is in one cell of the board.
    fn is_valid(&self) -> (valid: bool) {
        let mut piece: u8 = 0;
        while piece < 16
            invariant
                piece <= 16,
                forall|p: u8| 0 <= p < piece ==> #[trigger] occurrences(self.board, p, 16) == 1,
            decreases 16 - piece,
        {
            let mut count: u8 = 0;
            let mut index: u8 = 0;
            while index < 16
                invariant
                    index <= 16,
                    count <= index,
                    count == occurrences(self.board, piece, index as int),
                decreases 16 - index,
            {
                if self.get_piece(index) == piece {
                    count += 1;
                }
                index += 1;
            }
            if count != 1 {
                proof {
                    if is_arrangement(self.board) {
                        lemma_occurrences(self.board, piece, 16);
                        lemma_index_of(self.board, piece);
                    }
                }
                return false;
            }
            piece += 1;
        }
        proof {
            assert forall|p: u8| 0 <= p < 16 implies #[trigger] cells(self.board).contains(p) by {
                lemma_occurrences(self.board, p, 16);
                let i = choose|i: int| 0 <= i < 16 && piece_at(self.board, i) == p;
                assert(cells(self.board)[i] == p);
            }
            assert forall|i: int, j: int| 0 <= i < 16 && 0 <= j < 16 && i != j implies cells(
                self.board,
            )[i] != cells(self.board)[j] by {
                lemma_piece_at(self.board, i);
                lemma_occurrences(self.board, piece_at(self.board, i), 16);
            }
        }
        true
    }

    fn display_pretty(&self) -> (s: String) {
        let mut s = String::from_str("+---+---+---+---+");
        let mut row: u8 = 0;
        while row < 4
            invariant
                row <= 4,
                s@ == grid(self.board, row as int),
            decreases 4 - row,
        {
            let ghost above = s@;
            s.append("\n|");
            proof {
                reveal_strlit("\n|");
                assert(s@ =~= above + seq!['\n'] + row_picture(self.board, row as int, 0));
            }
            let mut column: u8 = 0;
            while column < 4
                invariant
                    row < 4,
                    column <= 4,
                    s@ == above + seq!['\n'] + row_picture(self.board, row as int, column as int),
                decreases 4 - column,
            {
                let piece = self.get_piece(15 - (row * 4 + column));
                let ghost before = s@;
                if piece == 0 {
                    s.append("   |");
                    proof {
                        reveal_strlit("   |");
                        assert(s@ =~= before + cell_picture(piece));
                    }
                } else {
                    s.append(" ");
                    s.append(piece_text(piece));
                    s.append(" |");
                    proof {
                        reveal_strlit(" ");
                        reveal_strlit(" |");
                        assert(s@ =~= before + cell_picture(piece));
                    }
                }
                column += 1;
                assert(s@ =~= above + seq!['\n'] + row_picture(
                    self.board,
                    row as int,
                    column as int,
                ));
            }
            s.append("\n+---+---+---+---+");
            proof {
                reveal_strlit("\n+---+---+---+---+");
                reveal_strlit("+---+---+---+---+");
                assert(s@ =~= grid(self.board, row + 1));
            }
            row += 1;
        }
        s
    }

    fn list_actions(&self) -> (actions: Vec<FifteenPuzzleAction>) {
        proof {
            lemma_index_of(self.board, 0);
        }
        let open = self.find_piece_index(0);
        let open_index = 15 - open;
        let x = open_index % 4;
        let y = open_index / 4;
        let mut actions = Vec::new();
        if x < 3 {
            actions.push(FifteenPuzzleAction::new(self.get_piece(15 - (open_index + 1))));
        }
        if x > 0 {
            actions.push(FifteenPuzzleAction::new(self.get_piece(15 - (open_index - 1))));
        }
        if y < 3 {
            actions.push(FifteenPuzzleAction::new(self.get_piece(15 - (open_index + 4))));
        }
        if y > 0 {
            actions.push(FifteenPuzzleAction::new(self.get_piece(15 - (open_index - 4))));
        }
        assert(actions@ =~= self.legal_actions());
        actions
    }

    fn perform_action(&self, action: &FifteenPuzzleAction) -> (next: FifteenPuzzle) {
        proof {
            Self::lemma_legal_actions(self);
        }
        FifteenPuzzle::new(self.move_piece(action.piece))
    }

    fn is_goal_state(&self) -> (b: bool) {
        self.board == Self::default_board()
    }

    fn heuristic(&self) -> (h: u32) {
        let mut total: u32 = 0;
        let mut i: u8 = 0;
        while i < 16
            invariant
                i <= 16,
                total == manhattan(self.board, i as int),
                total <= 6 * i,
            decreases 16 - i,
        {
            let piece = self.get_piece(i);
            if piece != 0 {
                let x = i % 4;
                let y = i / 4;
                let goal_x = piece % 4;
                let goal_y = piece / 4;
                let across = if x < goal_x {
                    goal_x - x
                } else {
                    x - goal_x
                };
                let down = if y < goal_y {
                    goal_y - y
                } else {
                    y - goal_y
                };
                total = total + (across + down) as u32;
            }
            i += 1;
        }
        total
    }

    fn to_string(&self) -> (s: String) {
        proof {
            reveal_strlit("0x");
        }
        let mut s = String::from_str("0x");
        append_padded_numeral(&mut s, self.board, 16, 16);
        assert(s@ =~= self.rendering());
        s
    }

    fn duplicate(&self) -> (r: Self) {
        FifteenPuzzle { board: self.board }
    }

    fn equals(&self, other: &Self) -> (b: bool) {
        self.board == other.board
    }
}

/// On the solved board each cell holds the piece of its own number.
pub proof fn lemma_solved_board()
    ensures
        is_arrangement(SOLVED_BOARD),
        forall|index: int| 0 <= index < 16 ==> #[trigger] piece_at(SOLVED_BOARD, index) == index,
        forall|piece: u8| 0 <= piece < 16 ==> #[trigger] index_of(SOLVED_BOARD, piece) == piece,
{
    assert forall|index: int| 0 <= index < 16 implies #[trigger] piece_at(SOLVED_BOARD, index)
        == index by {
        let shift = (4 * index) as u64;
        assert((0xfedcba9876543210u64 >> shift) & 0xf == shift / 4) by (bit_vector)
            requires
                shift < 64,
                shift % 4 == 0,
        ;
    }
    assert forall|piece: u8| 0 <= piece < 16 implies #[trigger] cells(SOLVED_BOARD).contains(
        piece,
    ) by {
        assert(cells(SOLVED_BOARD)[piece as int] == piece);
    }
    assert forall|piece: u8| 0 <= piece < 16 implies #[trigger] index_of(SOLVED_BOARD, piece)
        == piece by {
        lemma_index_of(SOLVED_BOARD, piece);
    }
}

/// The number of the cells below the index `upto` that hold `piece`.
pub open spec fn occurrences(board: u64, piece: u8, upto: int) -> nat
    decreases upto,
{
    if upto <= 0 {
        0
    } else {
        occurrences(board, piece, upto - 1) + if piece_at(board, upto - 1) == piece {
            1nat
        } else {
            0nat
        }
    }
}

/// A piece that occurs is in some cell, and a piece that occurs once is
/// in no two cells.
pub proof fn lemma_occurrences(board: u64, piece: u8, upto: int)
    requires
        0 <= upto <= 16,
    ensures
        occurrences(board, piece, upto) == 0 <==> forall|i: int|
            0 <= i < upto ==> piece_at(board, i) != piece,
        occurrences(board, piece, upto) == 1 ==> forall|i: int, j: int|
            0 <= i < upto && 0 <= j < upto && piece_at(board, i) == piece && piece_at(board, j)
                == piece ==> i == j,
        (exists|i: int| 0 <= i < upto && piece_at(board, i) == piece) && (forall|i: int, j: int|
            0 <= i < upto && 0 <= j < upto && piece_at(board, i) == piece && piece_at(board, j)
                == piece ==> i == j) ==> occurrences(board, piece, upto) == 1,
    decreases upto,
{
    if upto > 0 {
        lemma_occurrences(board, piece, upto - 1);
        if piece_at(board, upto - 1) == piece {
            if occurrences(board, piece, upto - 1) != 0 {
                let i = choose|i: int| 0 <= i < upto - 1 && piece_at(board, i) == piece;
                assert(piece_at(board, i) == piece && piece_at(board, upto - 1) == piece);
            }
        } else {
            if exists|i: int| 0 <= i < upto && piece_at(board, i) == piece {
                let i = choose|i: int| 0 <= i < upto && piece_at(board, i) == piece;
                assert(0 <= i < upto - 1);
            }
        }
    }
}

} // verus!
