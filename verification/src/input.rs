use crate::cell::Cell;
use crate::entity::Entity;
use crate::grid::{Grid, Gridbool};
use crate::error::Error;
use crate::node::{IRock, Node, NodeView, Params, ROCKS};
use crate::sqrid::{in_grid, Qa, Qr, HEIGHT, WIDTH};
use crate::text::{chars_of, digit, fields, is_digit, is_word, number, parse_number, split};
use vstd::prelude::*;

verus! {

/// Lines of text that were read and wait to be taken, first to last.
pub struct Lines {
    pub(crate) lines: Vec<String>,
    pub(crate) taken: usize,
}

impl Lines {
    /// No more lines are taken than there are.
    #[verifier::type_invariant]
    pub open(crate) spec fn wf(self) -> bool {
        self.taken <= self.lines@.len()
    }

    /// The lines that wait to be taken, each as its characters.
    pub open(crate) spec fn remaining(self) -> Seq<Seq<char>> {
        Seq::new((self.lines@.len() - self.taken) as nat, |i: int| self.lines@[self.taken + i]@)
    }

    /// The lines of `lines`, none of them taken yet.
    pub fn new(lines: Vec<String>) -> (r: Lines)
        ensures
            r.remaining().len() == lines@.len(),
            forall|i: int| 0 <= i < lines@.len() ==> r.remaining()[i] == (#[trigger] lines@[i])@,
    {
        Lines { lines, taken: 0 }
    }

    /// Takes the next line, if one is left.
    pub fn next(&mut self) -> (r: Option<String>)
        ensures
            old(self).remaining().len() == 0 ==> r is None && final(self).remaining() == old(
                self,
            ).remaining(),
            old(self).remaining().len() > 0 ==> r is Some && r->0@ == old(self).remaining()[0]
                && final(self).remaining() == old(self).remaining().drop_first(),
    {
        proof {
            use_type_invariant(&*self);
        }
        if self.taken < self.lines.len() {
            let line = self.lines[self.taken].clone();
            self.taken = self.taken + 1;
            assert(self.remaining() =~= old(self).remaining().drop_first());
            Some(line)
        } else {
            None
        }
    }
}

/// Takes the next line, or fails with `LineIteratorEnded` when none is left.
pub fn lineread(lineit: &mut Lines) -> (r: Result<String, Error>)
    ensures
        old(lineit).remaining().len() == 0 ==> r == Err::<String, Error>(
            Error::LineIteratorEnded,
        ) && final(lineit).remaining() == old(lineit).remaining(),
        old(lineit).remaining().len() > 0 ==> r is Ok && r->Ok_0@ == old(lineit).remaining()[0]
            && final(lineit).remaining() == old(lineit).remaining().drop_first(),
{
    match lineit.next() {
        Some(line) => Ok(line),
        None => Err(Error::LineIteratorEnded),
    }
}

/// Whether a cell token marks its cell as frozen: it starts with `-`.
pub open spec fn is_frozen_token(token: Seq<char>) -> bool {
    token.len() > 0 && token[0] == '-'
}

/// The tile a cell token names: after the `-` of a frozen cell, if there
/// is one, the code of the tile, 0 to 13, written without sign or
/// leading zero.
pub open spec fn cell_of(token: Seq<char>) -> Option<Cell> {
    let body = if is_frozen_token(token) {
        token.drop_first()
    } else {
        token
    };
    if body.len() == 1 && is_digit(body[0]) {
        Some(Cell::from_code(digit(body[0])))
    } else if body.len() == 2 && body[0] == '1' && '0' <= body[1] <= '3' {
        Some(Cell::from_code(10 + digit(body[1])))
    } else {
        None
    }
}

/// The direction a facing token stands for: `TOP` is said of what comes
/// in from the top and so moves south, `LEFT` of what moves east, and
/// `RIGHT` of what moves west.
pub open spec fn facing_of(token: Seq<char>) -> Option<Qr> {
    if token == seq!['T', 'O', 'P'] {
        Some(Qr::S)
    } else if token == seq!['L', 'E', 'F', 'T'] {
        Some(Qr::E)
    } else if token == seq!['R', 'I', 'G', 'H', 'T'] {
        Some(Qr::W)
    } else {
        None
    }
}

/// The entity a line describes: column, row and facing, separated by
/// single spaces. The first of these faults decides the error: a column
/// that is no number, a missing row, a row that is no number, a
/// coordinate outside the grid, a missing or unknown facing.
pub open spec fn entity_of(line: Seq<char>) -> Result<Entity, Error> {
    let f = fields(line);
    match number(f[0], u16::MAX as int) {
        None => Err(Error::ParseInt),
        Some(x) => if f.len() < 2 {
            Err(Error::InvalidInput)
        } else {
            match number(f[1], u16::MAX as int) {
                None => Err(Error::ParseInt),
                Some(y) => if !in_grid(x, y) {
                    Err(Error::OutOfRange)
                } else if f.len() < 3 {
                    Err(Error::InvalidInput)
                } else {
                    match facing_of(f[2]) {
                        None => Err(Error::InvalidInput),
                        Some(qr) => Ok(Entity { qa: Qa::at(x, y), qr }),
                    }
                },
            }
        },
    }
}

/// The dimensions a first line gives: width and height, separated by a
/// single space, each from 1 to 20.
pub open spec fn header_of(line: Seq<char>) -> Result<(int, int), Error> {
    let f = fields(line);
    match number(f[0], u16::MAX as int) {
        None => Err(Error::ParseInt),
        Some(w) => if f.len() < 2 {
            Err(Error::InvalidInput)
        } else {
            match number(f[1], u16::MAX as int) {
                None => Err(Error::ParseInt),
                Some(h) => if 1 <= w <= WIDTH && 1 <= h <= HEIGHT {
                    Ok((w, h))
                } else {
                    Err(Error::OutOfRange)
                },
            }
        },
    }
}

/// Reads `token` as a number that fits in 16 bits.
fn parse_u16(token: &Vec<char>) -> (r: Result<u16, Error>)
    ensures
        match number(token@, u16::MAX as int) {
            Some(n) => r == Ok::<u16, Error>(n as u16) && 0 <= n <= u16::MAX,
            None => r == Err::<u16, Error>(Error::ParseInt),
        },
{
    match parse_number(token, 65535) {
        Some(n) => Ok(n as u16),
        None => Err(Error::ParseInt),
    }
}

impl Cell {
    /// The tile with code `code`.
    fn with_code(code: u32) -> (r: Cell)
        ensures
            r == Cell::from_code(code as int),
    {
        match code {
            1 => Cell::Type1,
            2 => Cell::Type2,
            3 => Cell::Type3,
            4 => Cell::Type4,
            5 => Cell::Type5,
            6 => Cell::Type6,
            7 => Cell::Type7,
            8 => Cell::Type8,
            9 => Cell::Type9,
            10 => Cell::Type10,
            11 => Cell::Type11,
            12 => Cell::Type12,
            13 => Cell::Type13,
            _ => Cell::Type0,
        }
    }

    /// The tile that the characters of a cell token name.
    fn from_chars(token: &Vec<char>) -> (r: Result<Cell, Error>)
        ensures
            match cell_of(token@) {
                Some(cell) => r == Ok::<Cell, Error>(cell),
                None => r == Err::<Cell, Error>(Error::CellParseError),
            },
    {
        let start: usize = if token.len() > 0 && token[0] == '-' {
            1
        } else {
            0
        };
        let ghost body = if is_frozen_token(token@) {
            token@.drop_first()
        } else {
            token@
        };
        assert(body =~= token@.skip(start as int));
        let len = token.len() - start;
        if len == 1 {
            let c = token[start];
            if c >= '0' && c <= '9' {
                return Ok(Cell::with_code(c as u32 - '0' as u32));
            }
        } else if len == 2 {
            let c = token[start + 1];
            if token[start] == '1' && c >= '0' && c <= '3' {
                return Ok(Cell::with_code(10 + (c as u32 - '0' as u32)));
            }
        }
        Err(Error::CellParseError)
    }

    /// The tile that a cell token names, or `CellParseError` when it names none.
    pub fn from_str(s: &str) -> (r: Result<Cell, Error>)
        ensures
            match cell_of(s@) {
                Some(cell) => r == Ok::<Cell, Error>(cell),
                None => r == Err::<Cell, Error>(Error::CellParseError),
            },
    {
        let token = chars_of(s);
        Cell::from_chars(&token)
    }
}

/// The direction that a facing token stands for.
fn parse_facing(token: &Vec<char>) -> (r: Option<Qr>)
    ensures
        r == facing_of(token@),
{
    proof {
        reveal_strlit("TOP");
        reveal_strlit("LEFT");
        reveal_strlit("RIGHT");
        assert("TOP"@ =~= seq!['T', 'O', 'P']);
        assert("LEFT"@ =~= seq!['L', 'E', 'F', 'T']);
        assert("RIGHT"@ =~= seq!['R', 'I', 'G', 'H', 'T']);
    }
    if is_word(token, "TOP") {
        Some(Qr::S)
    } else if is_word(token, "LEFT") {
        Some(Qr::E)
    } else if is_word(token, "RIGHT") {
        Some(Qr::W)
    } else {
        None
    }
}

impl Entity {
    /// The entity that a line describes.
    pub fn from_str(s: &str) -> (r: Result<Entity, Error>)
        ensures
            r == entity_of(s@),
            r matches Ok(e) ==> e.qa.wf(),
    {
        let line = chars_of(s);
        let v = split(&line);
        let x = match parse_u16(&v[0]) {
            Ok(x) => x,
            Err(e) => {
                return Err(e);
            },
        };
        if v.len() < 2 {
            return Err(Error::InvalidInput);
        }
        let y = match parse_u16(&v[1]) {
            Ok(y) => y,
            Err(e) => {
                return Err(e);
            },
        };
        let qa = match Qa::new(x, y) {
            Ok(qa) => qa,
            Err(e) => {
                return Err(e);
            },
        };
        if v.len() < 3 {
            return Err(Error::InvalidInput);
        }
        match parse_facing(&v[2]) {
            Some(qr) => Ok(Entity { qa, qr }),
            None => Err(Error::InvalidInput),
        }
    }
}

/// Reads the dimensions from the first line of a puzzle.
pub fn input_header(line: &str) -> (r: Result<(u16, u16), Error>)
    ensures
        match header_of(line@) {
            Ok((w, h)) => r == Ok::<(u16, u16), Error>((w as u16, h as u16)),
            Err(e) => r == Err::<(u16, u16), Error>(e),
        },
{
    let chars = chars_of(line);
    let wh = split(&chars);
    let w = match parse_u16(&wh[0]) {
        Ok(w) => w,
        Err(e) => {
            return Err(e);
        },
    };
    if wh.len() < 2 {
        return Err(Error::InvalidInput);
    }
    let h = match parse_u16(&wh[1]) {
        Ok(h) => h,
        Err(e) => {
            return Err(e);
        },
    };
    if 1 <= w && w <= WIDTH && 1 <= h && h <= HEIGHT {
        Ok((w, h))
    } else {
        Err(Error::OutOfRange)
    }
}

/// Reads the number of obstacles from its line.
pub fn input_count(line: &str) -> (r: Result<usize, Error>)
    ensures
        match number(line@, usize::MAX as int) {
            Some(n) => r == Ok::<usize, Error>(n as usize) && 0 <= n <= usize::MAX,
            None => r == Err::<usize, Error>(Error::ParseInt),
        },
{
    let chars = chars_of(line);
    match parse_number(&chars, usize::MAX) {
        Some(n) => Ok(n),
        None => Err(Error::ParseInt),
    }
}

/// What the cells and marks of a grid are: the cells in row-major order
/// and the set of frozen coordinates.
pub struct Board {
    pub grid: Seq<Cell>,
    pub frozen: Set<Qa>,
}

/// What a puzzle description says.
pub struct Puzzle {
    pub width: int,
    pub height: int,
    pub exit: Qa,
    pub board: Board,
}

/// Why lines were refused, and how many of them were taken before that
/// was known.
pub struct Fault {
    pub error: Error,
    pub taken: int,
}

/// The board after the first `x` tokens of row `y` were put on it, left
/// to right: each token sets the cell of its column and, with a `-`
/// before the code, marks it as frozen. A token beyond the last column
/// is `OutOfRange`, one that names no tile a `CellParseError`; the first
/// fault decides.
pub open spec fn row_upto(board: Board, tokens: Seq<Seq<char>>, y: int, x: int) -> Result<
    Board,
    Error,
>
    decreases x,
{
    if x <= 0 {
        Ok(board)
    } else {
        match row_upto(board, tokens, y, x - 1) {
            Err(e) => Err(e),
            Ok(b) => if !in_grid(x - 1, y) {
                Err(Error::OutOfRange)
            } else {
                match cell_of(tokens[x - 1]) {
                    None => Err(Error::CellParseError),
                    Some(cell) => Ok(
                        Board {
                            grid: b.grid.update(Qa::at(x - 1, y).index(), cell),
                            frozen: if is_frozen_token(tokens[x - 1]) {
                                b.frozen.insert(Qa::at(x - 1, y))
                            } else {
                                b.frozen
                            },
                        },
                    ),
                }
            },
        }
    }
}

/// The board after the first `y` rows were put on it, top to bottom. A
/// row for which no line is left changes nothing. A row that is refused
/// is the last line taken.
pub open spec fn rows_upto(board: Board, rows: Seq<Seq<char>>, y: int) -> Result<Board, Fault>
    decreases y,
{
    if y <= 0 {
        Ok(board)
    } else {
        match rows_upto(board, rows, y - 1) {
            Err(f) => Err(f),
            Ok(b) => if y - 1 < rows.len() {
                match row_upto(b, fields(rows[y - 1]), y - 1, fields(rows[y - 1]).len() as int) {
                    Ok(b) => Ok(b),
                    Err(error) => Err(Fault { error, taken: y }),
                }
            } else {
                Ok(b)
            },
        }
    }
}

/// The puzzle that `lines` describe, put on `board`: a line with the
/// dimensions, a line of cell tokens for each row, and a line with the
/// column of the exit, which lies in the last row. Lines that are
/// missing make it `LineIteratorEnded`; the first fault decides.
pub open spec fn puzzle_of(lines: Seq<Seq<char>>, board: Board) -> Result<Puzzle, Fault> {
    if lines.len() == 0 {
        Err(Fault { error: Error::LineIteratorEnded, taken: 0 })
    } else {
        match header_of(lines[0]) {
            Err(error) => Err(Fault { error, taken: 1 }),
            Ok(wh) => match rows_upto(board, lines.drop_first(), wh.1) {
                Err(f) => Err(Fault { error: f.error, taken: 1 + f.taken }),
                Ok(b) => if lines.len() < wh.1 + 2 {
                    Err(Fault { error: Error::LineIteratorEnded, taken: lines.len() as int })
                } else {
                    match number(lines[wh.1 + 1], u16::MAX as int) {
                        None => Err(Fault { error: Error::ParseInt, taken: wh.1 + 2 }),
                        Some(x) => if !in_grid(x, wh.1 - 1) {
                            Err(Fault { error: Error::OutOfRange, taken: wh.1 + 2 })
                        } else {
                            Ok(
                                Puzzle {
                                    width: wh.0,
                                    height: wh.1,
                                    exit: Qa::at(x, wh.1 - 1),
                                    board: b,
                                },
                            )
                        },
                    }
                },
            },
        }
    }
}

/// A fault in a row stays the fault of the row however many tokens follow.
pub proof fn lemma_row_fault_stays(board: Board, tokens: Seq<Seq<char>>, y: int, x: int, n: int)
    requires
        x <= n,
        row_upto(board, tokens, y, x) is Err,
    ensures
        row_upto(board, tokens, y, n) == row_upto(board, tokens, y, x),
    decreases n - x,
{
    if x < n {
        lemma_row_fault_stays(board, tokens, y, x, n - 1);
    }
}

/// A fault in the rows stays the fault however many rows follow, and
/// rows for which no line is left change nothing.
pub proof fn lemma_rows_settled(board: Board, rows: Seq<Seq<char>>, y: int, n: int)
    requires
        0 <= y <= n,
        rows_upto(board, rows, y) is Err || y >= rows.len(),
    ensures
        rows_upto(board, rows, n) == rows_upto(board, rows, y),
    decreases n - y,
{
    if y < n {
        lemma_rows_settled(board, rows, y, n - 1);
    }
}

/// Puts the cell tokens of `line` on row `y` of `grid` and marks the frozen
/// ones in `frozen`.
fn load_row(grid: &mut Grid, frozen: &mut Gridbool, line: &str, y: u16) -> (r: Result<(), Error>)
    requires
        y < HEIGHT,
    ensures
        match row_upto(
            Board { grid: old(grid)@, frozen: old(frozen)@ },
            fields(line@),
            y as int,
            fields(line@).len() as int,
        ) {
            Ok(b) => r is Ok && final(grid)@ == b.grid && final(frozen)@ == b.frozen,
            Err(e) => r == Err::<(), Error>(e),
        },
{
    let chars = chars_of(line);
    let tokens = split(&chars);
    let ghost board = Board { grid: grid@, frozen: frozen@ };
    let ghost spec_tokens = fields(line@);
    let mut x: usize = 0;
    while x < tokens.len()
        invariant
            0 <= x <= tokens.len(),
            y < HEIGHT,
            board == (Board { grid: old(grid)@, frozen: old(frozen)@ }),
            spec_tokens == fields(line@),
            tokens@.len() == spec_tokens.len(),
            forall|i: int| 0 <= i < tokens@.len() ==> (#[trigger] tokens@[i])@ == spec_tokens[i],
            row_upto(board, spec_tokens, y as int, x as int) == Ok::<Board, Error>(
                Board { grid: grid@, frozen: frozen@ },
            ),
        decreases tokens.len() - x,
    {
        let token = &tokens[x];
        assert(token@ == spec_tokens[x as int]);
        proof {
            if row_upto(board, spec_tokens, y as int, x + 1) is Err {
                lemma_row_fault_stays(board, spec_tokens, y as int, x + 1, spec_tokens.len() as int);
            }
        }
        if x >= WIDTH as usize {
            return Err(Error::OutOfRange);
        }
        let qa = match Qa::new(x as u16, y) {
            Ok(qa) => qa,
            Err(e) => {
                return Err(e);
            },
        };
        let cell = match Cell::from_chars(token) {
            Ok(cell) => cell,
            Err(e) => {
                return Err(e);
            },
        };
        if token.len() > 0 && token[0] == '-' {
            frozen.set_t(&qa);
        }
        grid.set(&qa, cell);
        x += 1;
    }
    Ok(())
}

/// Reads a puzzle description: the dimensions, the rows of the grid and
/// the exit. The cells and marks that the rows name are put on what
/// `params` held; the grid of `node` becomes that of `params`. Where the
/// description is refused, `params` and `node` are left as they were,
/// and the line at which that was found is the last one taken.
pub fn input_first(lineit: &mut Lines, params: &mut Params, node: &mut Node) -> (r: Result<
    (),
    Error,
>)
    ensures
        match puzzle_of(
            old(lineit).remaining(),
            Board { grid: old(params).grid0@, frozen: old(params).frozen@ },
        ) {
            Ok(puzzle) => {
                &&& r is Ok
                &&& final(params).wf()
                &&& final(params).width == puzzle.width
                &&& final(params).height == puzzle.height
                &&& final(params).exit == puzzle.exit
                &&& final(params).frozen@ == puzzle.board.frozen
                &&& final(params).grid0@ == puzzle.board.grid
                &&& final(node)@ == (NodeView {
                    grid: puzzle.board.grid,
                    indy: old(node)@.indy,
                    rock: old(node)@.rock,
                })
                &&& final(lineit).remaining() == old(lineit).remaining().skip(puzzle.height + 2)
            },
            Err(fault) => {
                &&& r == Err::<(), Error>(fault.error)
                &&& *final(params) == *old(params)
                &&& *final(node) == *old(node)
                &&& final(lineit).remaining() == old(lineit).remaining().skip(fault.taken)
            },
        },
{
    let ghost lines = lineit.remaining();
    let ghost board = Board { grid: params.grid0@, frozen: params.frozen@ };
    let ghost rows = lines.drop_first();
    proof {
        assert(lines.skip(0) =~= lines);
        assert(lines.skip(1) =~= rows);
    }
    let line = match lineread(lineit) {
        Ok(line) => line,
        Err(e) => {
            return Err(e);
        },
    };
    let (width, height) = match input_header(line.as_str()) {
        Ok(wh) => wh,
        Err(e) => {
            return Err(e);
        },
    };
    let mut grid = params.grid0;
    let mut frozen = params.frozen;
    let mut y: u16 = 0;
    proof {
        assert(rows.skip(0) =~= rows);
    }
    while y < height
        invariant
            0 <= y <= height <= HEIGHT,
            lines.len() > 0,
            lines == old(lineit).remaining(),
            board == (Board { grid: old(params).grid0@, frozen: old(params).frozen@ }),
            rows == lines.drop_first(),
            y <= rows.len(),
            lineit.remaining() == rows.skip(y as int),
            rows_upto(board, rows, y as int) == Ok::<Board, Fault>(
                Board { grid: grid@, frozen: frozen@ },
            ),
            header_of(lines[0]) == Ok::<(int, int), Error>((width as int, height as int)),
            *params == *old(params),
            *node == *old(node),
        decreases height - y,
    {
        let line = match lineit.next() {
            Some(line) => line,
            None => {
                proof {
                    lemma_rows_settled(board, rows, y as int, height as int);
                    assert(rows.skip(y as int) =~= lines.skip(lines.len() as int));
                }
                return Err(Error::LineIteratorEnded);
            },
        };
        proof {
            assert(rows.skip(y as int).drop_first() =~= rows.skip(y + 1));
            assert(rows.skip(y + 1) =~= lines.skip(y + 2));
            assert(line@ == rows[y as int]);
        }
        match load_row(&mut grid, &mut frozen, line.as_str(), y) {
            Ok(()) => {},
            Err(e) => {
                proof {
                    lemma_rows_settled(board, rows, y + 1, height as int);
                }
                return Err(e);
            },
        }
        y += 1;
    }
    proof {
        assert(rows.skip(height as int) =~= lines.skip(height + 1));
        if lines.len() >= height + 2 {
            assert(lines.skip(height + 1).drop_first() =~= lines.skip(height + 2));
        } else {
            assert(lines.skip(height + 1) =~= lines.skip(lines.len() as int));
        }
    }
    let line = match lineread(lineit) {
        Ok(line) => line,
        Err(e) => {
            return Err(e);
        },
    };
    assert(line@ == lines[height + 1]);
    let chars = chars_of(line.as_str());
    let x = match parse_u16(&chars) {
        Ok(x) => x,
        Err(e) => {
            return Err(e);
        },
    };
    let exit = match Qa::new(x, height - 1) {
        Ok(qa) => qa,
        Err(e) => {
            return Err(e);
        },
    };
    params.width = width;
    params.height = height;
    params.exit = exit;
    params.frozen = frozen;
    params.grid0 = grid;
    node.grid = grid;
    Ok(())
}

/// The primary entity that the lines of a turn describe.
pub open spec fn indy_of(lines: Seq<Seq<char>>) -> Result<Entity, Fault> {
    if lines.len() == 0 {
        Err(Fault { error: Error::LineIteratorEnded, taken: 0 })
    } else {
        match entity_of(lines[0]) {
            Ok(indy) => Ok(indy),
            Err(error) => Err(Fault { error, taken: 1 }),
        }
    }
}

/// Reads the primary entity of a turn from its line. Where the line is
/// refused, `node` is left as it was.
pub fn input_ep1(lineit: &mut Lines, params: &Params, node: &mut Node) -> (r: Result<(), Error>)
    ensures
        match indy_of(old(lineit).remaining()) {
            Ok(indy) => {
                &&& r is Ok
                &&& final(node)@ == (NodeView {
                    grid: old(node)@.grid,
                    indy,
                    rock: old(node)@.rock,
                })
                &&& final(lineit).remaining() == old(lineit).remaining().skip(1)
            },
            Err(fault) => {
                &&& r == Err::<(), Error>(fault.error)
                &&& *final(node) == *old(node)
                &&& final(lineit).remaining() == old(lineit).remaining().skip(fault.taken)
            },
        },
{
    proof {
        assert(lineit.remaining().skip(0) =~= lineit.remaining());
        assert(lineit.remaining().skip(1) =~= lineit.remaining().drop_first());
    }
    let line = match lineread(lineit) {
        Ok(line) => line,
        Err(e) => {
            return Err(e);
        },
    };
    node.indy = match Entity::from_str(line.as_str()) {
        Ok(indy) => indy,
        Err(e) => {
            return Err(e);
        },
    };
    Ok(())
}

/// The number of obstacles that are read when `n` are announced: no more
/// than there are slots.
pub open spec fn rocks_read(n: int) -> int {
    if n < ROCKS {
        n
    } else {
        ROCKS as int
    }
}

/// The first `k` obstacle slots as `lines` fill them when `n` obstacles
/// are announced: each of the first `n` slots takes the entity of the
/// next line, the others are empty. A line that is missing is
/// `LineIteratorEnded`; the first fault decides.
pub open spec fn rocks_upto(lines: Seq<Seq<char>>, n: int, k: int) -> Result<
    Seq<Option<Entity>>,
    Fault,
>
    decreases k,
{
    if k <= 0 {
        Ok(Seq::empty())
    } else {
        match rocks_upto(lines, n, k - 1) {
            Err(f) => Err(f),
            Ok(slots) => if k - 1 < n {
                if k - 1 >= lines.len() {
                    Err(Fault { error: Error::LineIteratorEnded, taken: k - 1 })
                } else {
                    match entity_of(lines[k - 1]) {
                        Err(error) => Err(Fault { error, taken: k }),
                        Ok(rock) => Ok(slots.push(Some(rock))),
                    }
                }
            } else {
                Ok(slots.push(None))
            },
        }
    }
}

/// What the lines of a turn describe: the primary entity, then the
/// number of obstacles, then one line for each obstacle. Of more
/// obstacles than there are slots, those beyond the last slot are not read.
pub open spec fn turn_of(lines: Seq<Seq<char>>) -> Result<(Entity, Seq<Option<Entity>>), Fault> {
    match indy_of(lines) {
        Err(f) => Err(f),
        Ok(indy) => if lines.len() < 2 {
            Err(Fault { error: Error::LineIteratorEnded, taken: 1 })
        } else {
            match number(lines[1], usize::MAX as int) {
                None => Err(Fault { error: Error::ParseInt, taken: 2 }),
                Some(n) => match rocks_upto(lines.skip(2), n, ROCKS as int) {
                    Err(f) => Err(Fault { error: f.error, taken: 2 + f.taken }),
                    Ok(slots) => Ok((indy, slots)),
                },
            }
        },
    }
}

/// A fault among the obstacles stays the fault however many slots follow.
pub proof fn lemma_rocks_fault_stays(lines: Seq<Seq<char>>, n: int, k: int, m: int)
    requires
        k <= m,
        rocks_upto(lines, n, k) is Err,
    ensures
        rocks_upto(lines, n, m) == rocks_upto(lines, n, k),
    decreases m - k,
{
    if k < m {
        lemma_rocks_fault_stays(lines, n, k, m - 1);
    }
}

/// The obstacle slots that were read hold as many slots as there are,
/// the announced obstacles first.
pub proof fn lemma_rocks_shape(lines: Seq<Seq<char>>, n: int, k: int)
    requires
        0 <= k,
    ensures
        rocks_upto(lines, n, k) matches Ok(slots) ==> slots.len() == k && forall|i: int|
            0 <= i < k ==> ((#[trigger] slots[i]) is Some <==> i < n),
    decreases k,
{
    if k > 0 {
        lemma_rocks_shape(lines, n, k - 1);
    }
}

/// Reads a turn: the primary entity, the number of obstacles and the
/// obstacles. Where the turn is refused, `node` is left as it was, and
/// the line at which that was found is the last one taken.
pub fn input_ep2(lineit: &mut Lines, params: &Params, node: &mut Node) -> (r: Result<(), Error>)
    ensures
        match turn_of(old(lineit).remaining()) {
            Ok(turn) => {
                &&& r is Ok
                &&& final(node)@ == (NodeView {
                    grid: old(node)@.grid,
                    indy: turn.0,
                    rock: turn.1,
                })
                &&& number(old(lineit).remaining()[1], usize::MAX as int) matches Some(n)
                &&& final(lineit).remaining() == old(lineit).remaining().skip(2 + rocks_read(n))
            },
            Err(fault) => {
                &&& r == Err::<(), Error>(fault.error)
                &&& *final(node) == *old(node)
                &&& final(lineit).remaining() == old(lineit).remaining().skip(fault.taken)
            },
        },
{
    let ghost lines = lineit.remaining();
    let mut next = *node;
    match input_ep1(lineit, params, &mut next) {
        Ok(()) => {},
        Err(e) => {
            return Err(e);
        },
    }
    proof {
        assert(lines.skip(1).skip(0) =~= lines.skip(1));
        if lines.len() >= 2 {
            assert(lines.skip(1).drop_first() =~= lines.skip(2));
        }
    }
    let line = match lineread(lineit) {
        Ok(line) => line,
        Err(e) => {
            return Err(e);
        },
    };
    assert(line@ == lines[1]);
    let num_rocks = match input_count(line.as_str()) {
        Ok(n) => n,
        Err(e) => {
            return Err(e);
        },
    };
    let ghost rock_lines = lines.skip(2);
    let ghost indy = next.indy;
    let ghost taken: int = 0;
    proof {
        assert(lineit.remaining() =~= rock_lines.skip(0));
        assert(next@.rock.take(0) =~= Seq::<Option<Entity>>::empty());
    }
    let mut it = IRock::iter();
    loop
        invariant
            it.done() <= ROCKS,
            lines == old(lineit).remaining(),
            lines.len() >= 2,
            indy_of(lines) == Ok::<Entity, Fault>(indy),
            number(lines[1], usize::MAX as int) == Some(num_rocks as int),
            rock_lines == lines.skip(2),
            next@.grid == old(node)@.grid,
            next@.indy == indy,
            next@.rock.len() == ROCKS,
            *node == *old(node),
            taken == (if it.done() < num_rocks {
                it.done()
            } else {
                num_rocks as int
            }),
            taken <= rock_lines.len(),
            lineit.remaining() == rock_lines.skip(taken),
            rocks_upto(rock_lines, num_rocks as int, it.done()) == Ok::<
                Seq<Option<Entity>>,
                Fault,
            >(next@.rock.take(it.done())),
        ensures
            it.done() == ROCKS,
        decreases ROCKS - it.done(),
    {
        let ghost k = it.done();
        match it.next() {
            Some(irock) => {
                proof {
                    if rocks_upto(rock_lines, num_rocks as int, k + 1) is Err {
                        lemma_rocks_fault_stays(rock_lines, num_rocks as int, k + 1, ROCKS as int);
                    }
                    assert(rock_lines.skip(taken) =~= lines.skip(2 + taken));
                }
                if irock.to_usize() < num_rocks {
                    let rock_str = match lineread(lineit) {
                        Ok(line) => line,
                        Err(e) => {
                            return Err(e);
                        },
                    };
                    proof {
                        assert(rock_str@ == rock_lines[k]);
                        assert(rock_lines.skip(k).drop_first() =~= rock_lines.skip(k + 1));
                        assert(rock_lines.skip(k + 1) =~= lines.skip(2 + k + 1));
                    }
                    let rock = match Entity::from_str(rock_str.as_str()) {
                        Ok(rock) => rock,
                        Err(e) => {
                            return Err(e);
                        },
                    };
                    let ghost before = next@.rock;
                    next.rock.set(irock, Some(rock));
                    proof {
                        taken = taken + 1;
                        assert(next@.rock.take(k + 1) =~= before.take(k).push(Some(rock)));
                    }
                } else {
                    let ghost before = next@.rock;
                    next.rock.set(irock, None);
                    proof {
                        assert(next@.rock.take(k + 1) =~= before.take(k).push(None));
                    }
                }
            },
            None => {
                break ;
            },
        }
    }
    proof {
        assert(next@.rock.take(ROCKS as int) =~= next@.rock);
        assert(lineit.remaining() =~= lines.skip(2 + taken));
    }
    *node = next;
    Ok(())
}

} // verus!
