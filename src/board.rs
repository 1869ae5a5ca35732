use vstd::prelude::*;
use vstd::string::StringExecFns;

use crate::grid::complete;
use crate::value::Value;

verus! {

/// An 81-cell Sudoku grid in row-major order; each cell is empty (`None`)
/// or holds one value.
#[derive(Clone, Debug, PartialEq, Eq)]
pub struct Board {
    squares: Vec<Option<Value>>,
}

/// Board text held a number of significant characters other than 81.
#[derive(Clone, Copy, Debug, PartialEq, Eq, Structural)]
pub struct SizeError {
    /// How many cells the text described.
    pub found: usize,
}

impl View for Board {
    type V = Seq<Option<Value>>;

    closed spec fn view(&self) -> Seq<Option<Value>> {
        self.squares@
    }
}

/// The cell that a character of board text stands for: `_` an empty cell,
/// `1` to `9` a filled one; any other character stands for none.
pub open spec fn square_of(c: char) -> Option<Option<Value>> {
    if c == '_' {
        Some(None)
    } else if '1' <= c <= '9' {
        Some(Value::spec_from_digit((c as u8 - '0' as u8) as u8))
    } else {
        None
    }
}

/// The cells that board text describes, in order.
pub open spec fn scan(t: Seq<char>) -> Seq<Option<Value>>
    decreases t.len(),
{
    if t.len() == 0 {
        Seq::empty()
    } else {
        match square_of(t.last()) {
            Some(x) => scan(t.drop_last()).push(x),
            None => scan(t.drop_last()),
        }
    }
}

/// The two characters shown for a cell: its symbol and a space.
pub open spec fn symbol_text(x: Option<Value>) -> Seq<char> {
    match x {
        None => seq!['_', ' '],
        Some(v) => seq![(v.spec_digit() + '0' as u8) as char, ' '],
    }
}

/// What follows the cell at index `i`: a line break at the end of a row,
/// two spaces between blocks of a row, and an empty line after every third
/// row.
pub open spec fn gap_text(i: int) -> Seq<char> {
    let line: Seq<char> = if i % 9 == 8 {
        seq!['\n']
    } else if i % 3 == 2 {
        seq![' ', ' ']
    } else {
        Seq::empty()
    };
    if i % 27 == 26 {
        line.push('\n')
    } else {
        line
    }
}

/// The text of the first `n` cells.
pub open spec fn cells_text(b: Seq<Option<Value>>, n: int) -> Seq<char>
    decreases n,
{
    if n <= 0 {
        Seq::empty()
    } else {
        cells_text(b, n - 1) + symbol_text(b[n - 1]) + gap_text(n - 1)
    }
}

/// The grid as text: a line break, then nine lines of cells with the
/// blocks set apart.
pub open spec fn board_text(b: Seq<Option<Value>>) -> Seq<char> {
    seq!['\n'] + cells_text(b, b.len() as int)
}

fn symbol_str(x: Option<Value>) -> (r: &'static str)
    ensures
        r@ == symbol_text(x),
{
    match x {
        None => {
            proof {
                reveal_strlit("_ ");
            }
            "_ "
        },
        Some(Value::N1) => {
            proof {
                reveal_strlit("1 ");
            }
            "1 "
        },
        Some(Value::N2) => {
            proof {
                reveal_strlit("2 ");
            }
            "2 "
        },
        Some(Value::N3) => {
            proof {
                reveal_strlit("3 ");
            }
            "3 "
        },
        Some(Value::N4) => {
            proof {
                reveal_strlit("4 ");
            }
            "4 "
        },
        Some(Value::N5) => {
            proof {
                reveal_strlit("5 ");
            }
            "5 "
        },
        Some(Value::N6) => {
            proof {
                reveal_strlit("6 ");
            }
            "6 "
        },
        Some(Value::N7) => {
            proof {
                reveal_strlit("7 ");
            }
            "7 "
        },
        Some(Value::N8) => {
            proof {
                reveal_strlit("8 ");
            }
            "8 "
        },
        Some(Value::N9) => {
            proof {
                reveal_strlit("9 ");
            }
            "9 "
        },
    }
}

fn square_of_char(c: char) -> (r: Option<Option<Value>>)
    ensures
        r == square_of(c),
{
    if c == '_' {
        Some(None)
    } else if '1' <= c && c <= '9' {
        Some(Value::from_digit((c as u8) - ('0' as u8)))
    } else {
        None
    }
}

fn gap_str(i: usize) -> (r: &'static str)
    ensures
        r@ == gap_text(i as int),
{
    if i % 27 == 26 {
        proof {
            reveal_strlit("\n\n");
            assert(seq!['\n'].push('\n') =~= seq!['\n', '\n']);
        }
        "\n\n"
    } else if i % 9 == 8 {
        proof {
            reveal_strlit("\n");
        }
        "\n"
    } else if i % 3 == 2 {
        proof {
            reveal_strlit("  ");
        }
        "  "
    } else {
        proof {
            reveal_strlit("");
        }
        ""
    }
}

impl Board {
    /// The board holds exactly 81 cells.
    pub open spec fn wf(&self) -> bool {
        self@.len() == 81
    }

    /// Creates a board from its 81 cells in row-major order.
    pub fn new(squares: Vec<Option<Value>>) -> (r: Board)
        requires
            squares@.len() == 81,
        ensures
            r@ == squares@,
            r.wf(),
    {
        Board { squares }
    }

    /// The cell at linear index `i`.
    pub fn get(&self, i: usize) -> (r: Option<Value>)
        requires
            i < self@.len(),
        ensures
            r == self@[i as int],
    {
        self.squares[i]
    }

    /// Whether no cell is empty.
    pub fn is_complete(&self) -> (r: bool)
        ensures
            r == complete(self@),
    {
        let mut i: usize = 0;
        while i < self.squares.len()
            invariant
                i <= self@.len(),
                forall|p: int| 0 <= p < i ==> (#[trigger] self@[p]) is Some,
            decreases self@.len() - i,
        {
            if self.squares[i].is_none() {
                return false;
            }
            i = i + 1;
        }
        true
    }

    /// A copy of the board.
    pub fn duplicate(&self) -> (r: Board)
        ensures
            r@ == self@,
    {
        let mut squares: Vec<Option<Value>> = Vec::new();
        for i in 0..self.squares.len()
            invariant
                squares@ == self@.take(i as int),
        {
            squares.push(self.squares[i]);
            assert(squares@ =~= self@.take(i + 1));
        }
        assert(squares@ =~= self@);
        Board { squares }
    }

    /// A copy of the board with the cell at `position` set to `value`.
    pub fn with_value(&self, position: usize, value: Value) -> (r: Board)
        requires
            position < self@.len(),
        ensures
            r@ == self@.update(position as int, Some(value)),
    {
        let mut r = self.duplicate();
        r.squares[position] = Some(value);
        r
    }

    /// The grid as text: each cell as its digit or `_` followed by a space,
    /// two more spaces between blocks of a row, a line break after each
    /// row and an empty line after every third row, all after a leading
    /// line break.
    pub fn render(&self) -> (r: String)
        ensures
            r@ == board_text(self@),
    {
        let mut text = String::new();
        proof {
            reveal_strlit("\n");
        }
        text.append("\n");
        for i in 0..self.squares.len()
            invariant
                text@ == seq!['\n'] + cells_text(self@, i as int),
        {
            text.append(symbol_str(self.squares[i]));
            text.append(gap_str(i));
            assert(text@ =~= seq!['\n'] + cells_text(self@, i + 1));
        }
        text
    }

    /// Reads a board from text: `_` is an empty cell, `1` to `9` a filled
    /// one, and every other character is skipped. The text must describe
    /// exactly 81 cells.
    pub fn parse(text: &str) -> (r: Result<Board, SizeError>)
        ensures
            scan(text@).len() == 81 ==> (r matches Ok(b) && b@ == scan(text@)),
            scan(text@).len() != 81 ==> r == Err::<Board, SizeError>(
                SizeError { found: scan(text@).len() as usize },
            ),
    {
        let mut squares: Vec<Option<Value>> = Vec::new();
        for c in it: text.chars()
            invariant
                it.seq() == text@,
                squares@ == scan(text@.take(it.index() as int)),
        {
            let ghost done = text@.take(it.index() as int);
            let square = square_of_char(c);
            proof {
                assert(text@.take(it.index() + 1).drop_last() =~= done);
            }
            match square {
                Some(x) => squares.push(x),
                None => {},
            }
        }
        proof {
            assert(text@.take(text@.len() as int) =~= text@);
        }
        if squares.len() == 81 {
            Ok(Board { squares })
        } else {
            Err(SizeError { found: squares.len() })
        }
    }
}

} // verus!
