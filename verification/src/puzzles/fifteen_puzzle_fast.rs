//! The sliding-tile puzzle with a second board beside the first: where the
//! first says which piece is in a cell, the second says in which cell a
//! piece is, so that no cell has to be looked for.
use vstd::prelude::*;
use vstd::string::*;
use crate::action::Action;
use crate::state::State;
use crate::text::{padded_numeral, append_padded_numeral};
use crate::puzzles::fifteen_puzzle::{
    FifteenPuzzleAction,
    SOLVED_BOARD,
    piece_at,
    with_piece,
    cells,
    index_of,
    is_arrangement,
    moved,
    neighbour,
    cell_picture,
    border,
    piece_text,
    lemma_piece_at,
    lemma_with_piece,
    lemma_index_of,
    lemma_moved,
    lemma_solved_board,
};

verus! {

/// A board of the sliding-tile puzzle, by cells and by pieces.
#[derive(Clone, Copy, PartialEq, Eq, Debug)]
pub struct FifteenPuzzleFast {
    pub board_index: u64,
    pub board_pieces: u64,
}

/// The board that names, for each piece in a cell below the index `upto`,
/// the index of its cell. Where a piece is in more than one of these cells,
/// the bits of their indices are taken together.
pub open spec fn indexed(pieces: u64, upto: int) -> u64
    decreases upto,
{
    if upto <= 0 {
        0
    } else {
        indexed(pieces, upto - 1) | (((upto - 1) as u64) << ((4 * piece_at(pieces, upto - 1))
            as u64))
    }
}

/// The board by pieces after `piece` has moved to the open cell: the piece
/// is where the open cell was, and the open cell where the piece was.
pub open spec fn moved_index(index: u64, piece: u8) -> u64 {
    with_piece(with_piece(index, 0, piece_at(index, piece as int)), piece as int, piece_at(index, 0))
}

/// Whether the board by pieces names the cell of each piece.
pub open spec fn names_cells(index: u64, pieces: u64) -> bool {
    forall|piece: u8| 0 <= piece < 16 ==> #[trigger] piece_at(index, piece as int) == index_of(pieces, piece)
}

/// How far the piece in the cell of the given index is from its place, by
/// rows and by columns.
pub open spec fn offset(index: int, piece: int) -> nat {
    let across = piece % 4 - index % 4;
    let down = piece / 4 - index / 4;
    ((if across < 0 {
        -across
    } else {
        across
    }) + (if down < 0 {
        -down
    } else {
        down
    })) as nat
}

/// The summed distances of the pieces below `upto` from their places, the
/// open cell among them.
pub open spec fn manhattan_by_piece(index: u64, upto: int) -> nat
    decreases upto,
{
    if upto <= 0 {
        0
    } else {
        manhattan_by_piece(index, upto - 1) + offset(piece_at(index, upto - 1) as int, upto - 1)
    }
}

/// The first `count` cells of a row of the picture: the cells of the
/// indices `row`, `row + 4` and so on, after the bar to their left.
pub open spec fn column_row_picture(pieces: u64, row: int, count: int) -> Seq<char>
    decreases count,
{
    if count <= 0 {
        seq!['|']
    } else {
        column_row_picture(pieces, row, count - 1) + cell_picture(
            piece_at(pieces, row + 4 * (count - 1)),
        )
    }
}

/// The first `rows` rows of the picture, each between two lines.
pub open spec fn column_grid(pieces: u64, rows: int) -> Seq<char>
    decreases rows,
{
    if rows <= 0 {
        border()
    } else {
        column_grid(pieces, rows - 1) + seq!['\n'] + column_row_picture(pieces, rows - 1, 4)
            + seq!['\n'] + border()
    }
}

/// Writing an index into a cell that holds nothing changes that cell and
/// no other.
proof fn lemma_index_step(index: u64, place: int, piece: int, other: int)
    requires
        0 <= place < 16,
        0 <= piece < 16,
        0 <= other < 16,
    ensures
        piece_at(index | ((place as u64) << ((4 * piece) as u64)), other) == if other == piece {
            piece_at(index, other) | place as u8
        } else {
            piece_at(index, other)
        },
{
    let i = (4 * piece) as u64;
    let j = (4 * other) as u64;
    let v = place as u64;
    assert(((index | (v << i)) >> j) & 0xf == if j == i {
        ((index >> j) & 0xf) | v
    } else {
        (index >> j) & 0xf
    }) by (bit_vector)
        requires
            i < 64,
            j < 64,
            i % 4 == 0,
            j % 4 == 0,
            v < 16,
    ;
    let low = (index >> j) & 0xf;
    assert(low < 16 && (low | v) < 16 && ((low | v) as u8) == (low as u8) | (v as u8))
        by (bit_vector)
        requires
            low == (index >> j) & 0xf,
            v < 16,
    ;
}

/// The board by pieces of a board that holds each piece once names, for
/// each piece in a cell below `upto`, its cell, and 0 for each other.
proof fn lemma_indexed(pieces: u64, upto: int)
    requires
        is_arrangement(pieces),
        0 <= upto <= 16,
    ensures
        forall|piece: u8|
            0 <= piece < 16 ==> #[trigger] piece_at(indexed(pieces, upto), piece as int) == (if index_of(
                pieces,
                piece,
            ) < upto {
                index_of(pieces, piece) as u8
            } else {
                0u8
            }),
    decreases upto,
{
    if upto > 0 {
        lemma_indexed(pieces, upto - 1);
        let before = indexed(pieces, upto - 1);
        let here = piece_at(pieces, upto - 1);
        lemma_piece_at(pieces, upto - 1);
        lemma_index_of(pieces, here);
        assert(index_of(pieces, here) == upto - 1);
        assert(indexed(pieces, upto) == before | (((upto - 1) as u64) << ((4 * here) as u64)));
        assert forall|piece: u8| 0 <= piece < 16 implies #[trigger] piece_at(
            indexed(pieces, upto),
            piece as int,
        ) == (if index_of(pieces, piece) < upto {
            index_of(pieces, piece) as u8
        } else {
            0u8
        }) by {
            lemma_index_step(before, upto - 1, here as int, piece as int);
            lemma_index_of(pieces, piece);
            let place = (upto - 1) as u8;
            assert(0u8 | place == place) by (bit_vector);
            if piece == here {
                assert(piece_at(before, piece as int) == 0u8);
                assert(piece_at(indexed(pieces, upto), piece as int) == place);
            } else {
                assert(index_of(pieces, piece) != upto - 1);
                assert(piece_at(indexed(pieces, upto), piece as int) == piece_at(
                    before,
                    piece as int,
                ));
            }
        }
    } else {
        assert forall|piece: u8| 0 <= piece < 16 implies #[trigger] piece_at(
            indexed(pieces, upto),
            piece as int,
        ) == (if index_of(pieces, piece) < upto {
            index_of(pieces, piece) as u8
        } else {
            0u8
        }) by {
            let j = (4 * piece) as u64;
            assert((0u64 >> j) & 0xf == 0) by (bit_vector);
            lemma_index_of(pieces, piece);
        }
    }
}

/// Moving a piece on both boards keeps them in step: the board by cells
/// changes as that of the plain puzzle, and the board by pieces names the
/// new cells.
pub proof fn lemma_moved_index(index: u64, pieces: u64, piece: u8)
    requires
        is_arrangement(pieces),
        names_cells(index, pieces),
        piece < 16,
    ensures
        is_arrangement(moved(pieces, piece)),
        names_cells(moved_index(index, piece), moved(pieces, piece)),
{
    let from = index_of(pieces, piece);
    let to = index_of(pieces, 0);
    lemma_index_of(pieces, piece);
    lemma_index_of(pieces, 0);
    lemma_moved(pieces, piece);
    let after = moved(pieces, piece);
    let first = with_piece(index, 0, from as u8);
    assert(piece_at(index, piece as int) == from);
    assert(piece_at(index, 0) == to);
    assert forall|other: u8| 0 <= other < 16 implies #[trigger] piece_at(
        moved_index(index, piece),
        other as int,
    ) == index_of(after, other) by {
        lemma_with_piece(index, 0, from as u8, other as int);
        lemma_with_piece(first, piece as int, to as u8, other as int);
        lemma_index_of(pieces, other);
        lemma_index_of(after, other);
        let place = piece_at(moved_index(index, piece), other as int);
        assert(cells(after)[place as int] == other);
    }
}

impl FifteenPuzzleFast {
    pub fn new(board_index: u64, board_pieces: u64) -> (state: Self)
        ensures
            state.board_index == board_index,
            state.board_pieces == board_pieces,
    {
        FifteenPuzzleFast { board_index, board_pieces }
    }

    /// The puzzle with the given board by cells.
    pub fn from_pieces(board_pieces: u64) -> (state: Self)
        ensures
            state.board_pieces == board_pieces,
            state.board_index == indexed(board_pieces, 16),
            is_arrangement(board_pieces) ==> state.wf(),
    {
        let mut board_index: u64 = 0;
        let mut i: u64 = 0;
        while i < 16
            invariant
                i <= 16,
                board_index == indexed(board_pieces, i as int),
            decreases 16 - i,
        {
            proof {
                lemma_piece_at(board_pieces, i as int);
            }
            let piece = (board_pieces >> (i * 4)) & 0b1111;
            board_index = board_index | (i << (piece * 4));
            i += 1;
        }
        proof {
            if is_arrangement(board_pieces) {
                lemma_indexed(board_pieces, 16);
                assert forall|piece: u8| 0 <= piece < 16 implies #[trigger] piece_at(
                    board_index,
                    piece as int,
                ) == index_of(board_pieces, piece) by {
                    lemma_index_of(board_pieces, piece);
                }
            }
        }
        FifteenPuzzleFast { board_index, board_pieces }
    }

    /// The puzzle with every piece in its place.
    pub fn default() -> (state: Self)
        ensures
            state.board_index == SOLVED_BOARD,
            state.board_pieces == SOLVED_BOARD,
            state.wf(),
            state.is_goal(),
    {
        proof {
            lemma_solved_board();
        }
        FifteenPuzzleFast { board_index: Self::default_board(), board_pieces: Self::default_board() }
    }

    pub fn default_board() -> (board: u64)
        ensures
            board == SOLVED_BOARD,
    {
        SOLVED_BOARD
    }

    /// The puzzle after `piece` has moved to the open cell.
    pub fn move_piece(&self, piece: u8) -> (next: Self)
        requires
            piece < 16,
        ensures
            next.board_pieces == with_piece(
                with_piece(self.board_pieces, piece_at(self.board_index, piece as int) as int, 0),
                piece_at(self.board_index, 0) as int,
                piece,
            ),
            next.board_index == moved_index(self.board_index, piece),
    {
        proof {
            lemma_piece_at(self.board_index, piece as int);
            lemma_piece_at(self.board_index, 0);
            let index = self.board_index;
            assert(index >> 0 == index) by (bit_vector);
        }
        let wide = piece as u64;
        let piece_index = (self.board_index >> (wide * 4)) & 0b1111;
        let open_index = (self.board_index) & 0b1111;
        let new_board_pieces = self.board_pieces & !(0b1111 << (piece_index * 4)) & !(0b1111 << (
        open_index * 4)) | wide << (open_index * 4);
        let new_board_index = self.board_index & !(0b1111 << (wide * 4)) & !(0b1111) | open_index
            << (wide * 4) | piece_index;
        proof {
            let bp = self.board_pieces;
            let bi = self.board_index;
            let p4 = (4 * piece_index) as u64;
            let o4 = (4 * open_index) as u64;
            let w4 = (4 * wide) as u64;
            assert(((bp & !(0xfu64 << p4)) & !(0xfu64 << o4)) | (wide << o4) == ((((bp & !(0xfu64
                << p4)) | (0u64 << p4)) & !(0xfu64 << o4)) | (wide << o4))) by (bit_vector);
            assert((((bi & !(0xfu64 << w4)) & !0xfu64) | (open_index << w4)) | piece_index == ((((bi
                & !(0xfu64 << 0u64)) | (piece_index << 0u64)) & !(0xfu64 << w4)) | (open_index
                << w4))) by (bit_vector)
                requires
                    w4 < 64,
                    w4 % 4 == 0,
                    open_index < 16,
                    piece_index < 16,
                    w4 == 0 ==> piece_index == open_index,
            ;
        }
        FifteenPuzzleFast { board_index: new_board_index, board_pieces: new_board_pieces }
    }

}

impl State for FifteenPuzzleFast {
    type Action = FifteenPuzzleAction;

    /// Each of the pieces 0 to 15 is in one cell, and the board by pieces
    /// names the cell of each.
    open spec fn wf(&self) -> bool {
        is_arrangement(self.board_pieces) && names_cells(self.board_index, self.board_pieces)
    }

    /// The moves of the pieces next to the open cell: the one in the cell
    /// of the index four lower, of the index four higher, of the next lower
    /// index and of the next higher index, as far as the board has them.
    open spec fn legal_actions(&self) -> Seq<FifteenPuzzleAction> {
        let open = piece_at(self.board_index, 0) as int;
        neighbour(self.board_pieces, open > 3, open - 4) + neighbour(
            self.board_pieces,
            open < 12,
            open + 4,
        ) + neighbour(self.board_pieces, open % 4 > 0, open - 1) + neighbour(
            self.board_pieces,
            open % 4 < 3,
            open + 1,
        )
    }

    open spec fn successor(&self, action: &FifteenPuzzleAction) -> FifteenPuzzleFast {
        FifteenPuzzleFast {
            board_index: moved_index(self.board_index, action.piece),
            board_pieces: with_piece(
                with_piece(
                    self.board_pieces,
                    piece_at(self.board_index, action.piece as int) as int,
                    0,
                ),
                piece_at(self.board_index, 0) as int,
                action.piece,
            ),
        }
    }

    open spec fn is_goal(&self) -> bool {
        self.board_pieces == SOLVED_BOARD
    }

    /// The summed distances of the pieces from their places, the open cell
    /// among them.
    open spec fn estimate(&self) -> nat {
        manhattan_by_piece(self.board_index, 16)
    }

    /// The board by cells and the board by pieces, each as sixteen
    /// hexadecimal digits after `0x`, with a slash between them.
    open spec fn rendering(&self) -> Seq<char> {
        seq!['0', 'x'] + padded_numeral(self.board_pieces as int, 16, 16) + seq!['/', '0', 'x']
            + padded_numeral(self.board_index as int, 16, 16)
    }

    /// Four rows of four cells; a row holds the cells whose indices are
    /// four apart.
    open spec fn picture(&self) -> Seq<char> {
        column_grid(self.board_pieces, 4)
    }

    proof fn lemma_legal_actions(state: &Self) {
        let pieces = state.board_pieces;
        let open = piece_at(state.board_index, 0) as int;
        lemma_index_of(pieces, 0);
        assert(open == index_of(pieces, 0));
        let actions = state.legal_actions();
        let a = neighbour(pieces, open > 3, open - 4);
        let b = neighbour(pieces, open < 12, open + 4);
        let c = neighbour(pieces, open % 4 > 0, open - 1);
        let d = neighbour(pieces, open % 4 < 3, open + 1);
        let at = |k: int|
            if k < a.len() {
                open - 4
            } else if k < a.len() + b.len() {
                open + 4
            } else if k < a.len() + b.len() + c.len() {
                open - 1
            } else {
                open + 1
            };
        assert forall|i: int| 0 <= i < actions.len() implies 0 <= at(i) < 16 && (
        #[trigger] actions[i]).piece == piece_at(pieces, at(i)) by {
            if i < a.len() {
                assert(actions[i].piece == piece_at(pieces, open - 4));
            } else if i < a.len() + b.len() {
                assert(actions[i].piece == piece_at(pieces, open + 4));
            } else if i < a.len() + b.len() + c.len() {
                assert(actions[i].piece == piece_at(pieces, open - 1));
            } else {
                assert(actions[i].piece == piece_at(pieces, open + 1));
            }
        }
        assert forall|i: int, j: int|
            0 <= i < actions.len() && 0 <= j < actions.len() && i != j implies actions[i]
            != actions[j] by {
            assert(actions[i].piece == piece_at(pieces, at(i)));
            assert(actions[j].piece == piece_at(pieces, at(j)));
            assert(at(i) != at(j));
            assert(cells(pieces)[at(i)] != cells(pieces)[at(j)]);
        }
        assert forall|action: FifteenPuzzleAction| #[trigger]
            actions.contains(action) implies action.wf() && state.successor(&action).wf() by {
            let i = choose|i: int| 0 <= i < actions.len() && actions[i] == action;
            assert(actions[i].piece == piece_at(pieces, at(i)));
            lemma_piece_at(pieces, at(i));
            lemma_index_of(pieces, action.piece);
            lemma_moved_index(state.board_index, pieces, action.piece);
            let piece = action.piece;
            assert(piece & 0xf == piece) by (bit_vector)
                requires
                    piece < 16,
            ;
            assert(state.successor(&action).board_pieces == moved(pieces, piece));
        }
    }

    /// Whether each piece is in one cell and the board by pieces names the
    /// cell of each piece.
    fn is_valid(&self) -> (valid: bool) {
        let plain = crate::puzzles::fifteen_puzzle::FifteenPuzzle::new(self.board_pieces);
        if !plain.is_valid() {
            return false;
        }
        let mut piece: u8 = 0;
        while piece < 16
            invariant
                piece <= 16,
                plain.board == self.board_pieces,
                is_arrangement(self.board_pieces),
                forall|p: u8|
                    0 <= p < piece ==> #[trigger] piece_at(self.board_index, p as int) == index_of(
                        self.board_pieces,
                        p,
                    ),
            decreases 16 - piece,
        {
            proof {
                lemma_piece_at(self.board_index, piece as int);
            }
            let named = ((self.board_index >> ((piece as u64) * 4)) & 0b1111) as u8;
            if named != plain.find_piece_index(piece) {
                return false;
            }
            piece += 1;
        }
        true
    }
    fn display_pretty(&self) -> (s: String) {
        let mut s = String::from_str("+---+---+---+---+");
        let mut row: u64 = 0;
        while row < 4
            invariant
                row <= 4,
                s@ == column_grid(self.board_pieces, row as int),
            decreases 4 - row,
        {
            let ghost above = s@;
            s.append("\n|");
            proof {
                reveal_strlit("\n|");
                assert(s@ =~= above + seq!['\n'] + column_row_picture(
                    self.board_pieces,
                    row as int,
                    0,
                ));
            }
            let mut column: u64 = 0;
            while column < 4
                invariant
                    row < 4,
                    column <= 4,
                    s@ == above + seq!['\n'] + column_row_picture(
                        self.board_pieces,
                        row as int,
                        column as int,
                    ),
                decreases 4 - column,
            {
                proof {
                    lemma_piece_at(self.board_pieces, row + 4 * column);
                }
                let piece = ((self.board_pieces >> (row * 4 + column * 16)) & 0b1111) as u8;
                let ghost before = s@;
                if piece == 0 {
                    s.append("   |");
                    proof {
                        reveal_strlit("   |");
                        assert(s@ =~= before + cell_picture(piece));
                    }
                } else {
                    s.append(" ");
                    s.append(piece_text(piece));
                    s.append(" |");
                    proof {
                        reveal_strlit(" ");
                        reveal_strlit(" |");
                        assert(s@ =~= before + cell_picture(piece));
                    }
                }
                column += 1;
                assert(s@ =~= above + seq!['\n'] + column_row_picture(
                    self.board_pieces,
                    row as int,
                    column as int,
                ));
            }
            s.append("\n+---+---+---+---+");
            proof {
                reveal_strlit("\n+---+---+---+---+");
                reveal_strlit("+---+---+---+---+");
                assert(s@ =~= column_grid(self.board_pieces, row + 1));
            }
            row += 1;
        }
        s
    }

    fn list_actions(&self) -> (actions: Vec<FifteenPuzzleAction>) {
        proof {
            lemma_piece_at(self.board_index, 0);
            let index = self.board_index;
            assert(index >> 0 == index) by (bit_vector);
        }
        let mut actions = Vec::new();
        let open_index = (self.board_index) & 0b1111;
        if open_index > 3 {
            proof {
                lemma_piece_at(self.board_pieces, open_index - 4);
            }
            actions.push(
                FifteenPuzzleAction::new(
                    ((self.board_pieces >> ((open_index - 4) * 4)) & 0b1111) as u8,
                ),
            );
        }
        if open_index < 12 {
            proof {
                lemma_piece_at(self.board_pieces, open_index + 4);
            }
            actions.push(
                FifteenPuzzleAction::new(
                    ((self.board_pieces >> ((open_index + 4) * 4)) & 0b1111) as u8,
                ),
            );
        }
        if open_index % 4 > 0 {
            proof {
                lemma_piece_at(self.board_pieces, open_index - 1);
            }
            actions.push(
                FifteenPuzzleAction::new(
                    ((self.board_pieces >> ((open_index - 1) * 4)) & 0b1111) as u8,
                ),
            );
        }
        if open_index % 4 < 3 {
            proof {
                lemma_piece_at(self.board_pieces, open_index + 1);
            }
            actions.push(
                FifteenPuzzleAction::new(
                    ((self.board_pieces >> ((open_index + 1) * 4)) & 0b1111) as u8,
                ),
            );
        }
        assert(actions@ =~= self.legal_actions());
        proof {
            Self::lemma_legal_actions(self);
        }
        actions
    }

    fn heuristic(&self) -> (h: u32) {
        let mut manhattan: u32 = 0;
        let mut i: u8 = 0;
        while i < 16
            invariant
                i <= 16,
                manhattan == manhattan_by_piece(self.board_index, i as int),
                manhattan <= 6 * i,
            decreases 16 - i,
        {
            proof {
                lemma_piece_at(self.board_index, i as int);
            }
            let pos = ((self.board_index >> ((i as u64) * 4)) & 0b1111) as u8;
            let goal_x = i % 4;
            let goal_y = i / 4;
            let x = pos % 4;
            let y = pos / 4;
            let across = if goal_x < x {
                x - goal_x
            } else {
                goal_x - x
            };
            let down = if goal_y < y {
                y - goal_y
            } else {
                goal_y - y
            };
            manhattan = manhattan + (across + down) as u32;
            i += 1;
        }
        manhattan
    }

    fn is_goal_state(&self) -> (b: bool) {
        self.board_pieces == Self::default_board()
    }

    fn perform_action(&self, action: &FifteenPuzzleAction) -> (next: FifteenPuzzleFast) {
        proof {
            Self::lemma_legal_actions(self);
            lemma_legal_piece(self, action);
        }
        self.move_piece(action.piece)
    }

    fn to_string(&self) -> (s: String) {
        proof {
            reveal_strlit("0x");
            reveal_strlit("/0x");
        }
        let mut s = String::from_str("0x");
        append_padded_numeral(&mut s, self.board_pieces, 16, 16);
        s.append("/0x");
        append_padded_numeral(&mut s, self.board_index, 16, 16);
        assert(s@ =~= self.rendering());
        s
    }

    fn duplicate(&self) -> (r: Self) {
        FifteenPuzzleFast { board_index: self.board_index, board_pieces: self.board_pieces }
    }

    fn equals(&self, other: &Self) -> (b: bool) {
        self.board_index == other.board_index && self.board_pieces == other.board_pieces
    }
}

/// A legal action moves a piece of the board.
proof fn lemma_legal_piece(state: &FifteenPuzzleFast, action: &FifteenPuzzleAction)
    requires
        state.wf(),
        state.legal_actions().contains(*action),
    ensures
        action.piece < 16,
{
    let pieces = state.board_pieces;
    let open = piece_at(state.board_index, 0) as int;
    let actions = state.legal_actions();
    let i = choose|i: int| 0 <= i < actions.len() && actions[i] == *action;
    let a = neighbour(pieces, open > 3, open - 4);
    let b = neighbour(pieces, open < 12, open + 4);
    let c = neighbour(pieces, open % 4 > 0, open - 1);
    lemma_piece_at(state.board_index, 0);
    if i < a.len() {
        lemma_piece_at(pieces, open - 4);
        assert(actions[i].piece == piece_at(pieces, open - 4));
    } else if i < a.len() + b.len() {
        lemma_piece_at(pieces, open + 4);
        assert(actions[i].piece == piece_at(pieces, open + 4));
    } else if i < a.len() + b.len() + c.len() {
        lemma_piece_at(pieces, open - 1);
        assert(actions[i].piece == piece_at(pieces, open - 1));
    } else {
        lemma_piece_at(pieces, open + 1);
        assert(actions[i].piece == piece_at(pieces, open + 1));
    }
}

} // verus!
