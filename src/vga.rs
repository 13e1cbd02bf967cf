//! The VGA text console as a model: an 80 x 25 grid of characters with a
//! cursor that wraps at the end of a line and scrolls at the bottom. The
//! caller copies the grid to the text buffer at 0xb8000.
use vstd::prelude::*;

verus! {

pub const BUFFER_HEIGHT: usize = 25;
pub const BUFFER_WIDTH: usize = 80;

pub enum Color {
    Black,
    Blue,
    Green,
    Cyan,
    Red,
    Magenta,
    Brown,
    LightGray,
    DarkGray,
    LightBlue,
    LightGreen,
    LightCyan,
    LightRed,
    Pink,
    Yellow,
    White,
}

/// The 4-bit VGA code of a color.
pub open spec fn color_code(c: Color) -> u8 {
    match c {
        Color::Black => 0,
        Color::Blue => 1,
        Color::Green => 2,
        Color::Cyan => 3,
        Color::Red => 4,
        Color::Magenta => 5,
        Color::Brown => 6,
        Color::LightGray => 7,
        Color::DarkGray => 8,
        Color::LightBlue => 9,
        Color::LightGreen => 10,
        Color::LightCyan => 11,
        Color::LightRed => 12,
        Color::Pink => 13,
        Color::Yellow => 14,
        Color::White => 15,
    }
}

impl Color {
    pub fn code(&self) -> (r: u8)
        ensures
            r == color_code(*self),
            r < 16,
    {
        match self {
            Color::Black => 0,
            Color::Blue => 1,
            Color::Green => 2,
            Color::Cyan => 3,
            Color::Red => 4,
            Color::Magenta => 5,
            Color::Brown => 6,
            Color::LightGray => 7,
            Color::DarkGray => 8,
            Color::LightBlue => 9,
            Color::LightGreen => 10,
            Color::LightCyan => 11,
            Color::LightRed => 12,
            Color::Pink => 13,
            Color::Yellow => 14,
            Color::White => 15,
        }
    }
}

/// Attribute byte: background in the high nibble, foreground in the low.
pub fn color_code_new(foreground: Color, background: Color) -> (r: u8)
    ensures
        r == color_code(background) * 16 + color_code(foreground),
{
    let f = foreground.code();
    let b = background.code();
    b * 16 + f
}

/// One cell: a character and its attribute byte.
#[derive(Clone, Copy, Debug, PartialEq, Eq, Structural)]
pub struct ScreenChar {
    pub ascii_character: u8,
    pub color_code: u8,
}

pub open spec fn blank() -> ScreenChar {
    ScreenChar { ascii_character: 0, color_code: 0 }
}

/// The grid moved up one line, a blank line entering at the bottom.
pub open spec fn scrolled(cells: Seq<ScreenChar>) -> Seq<ScreenChar> {
    Seq::new(
        2000,
        |i: int|
            if i < 1920 {
                cells[i + 80]
            } else {
                blank()
            },
    )
}

/// The screen after a line break: cells, row, column.
pub open spec fn after_newline(cells: Seq<ScreenChar>, row: int) -> (Seq<ScreenChar>, int, int) {
    if row + 1 == 25 {
        (scrolled(cells), 24, 0)
    } else {
        (cells, row + 1, 0)
    }
}

/// The screen after `c` is written at the cursor.
pub open spec fn after_putchar(cells: Seq<ScreenChar>, row: int, col: int, c: char) -> (Seq<ScreenChar>, int, int) {
    if c == '\n' {
        after_newline(cells, row)
    } else {
        let written = cells.update(row * 80 + col, ScreenChar { ascii_character: c as u8, color_code: 15 });
        if col + 1 == 80 {
            after_newline(written, row)
        } else {
            (written, row, col + 1)
        }
    }
}

pub struct VgaWriter {
    row: usize,
    col: usize,
    buf: Vec<ScreenChar>,
}

impl VgaWriter {
    pub closed spec fn cells(self) -> Seq<ScreenChar> {
        self.buf@
    }

    pub closed spec fn cursor(self) -> (int, int) {
        (self.row as int, self.col as int)
    }

    /// The cursor is on the grid.
    pub closed spec fn wf(self) -> bool {
        self.buf@.len() == 2000 && self.row < 25 && self.col < 80
    }

    /// A blank screen with the cursor at the top left.
    pub fn new() -> (r: VgaWriter)
        ensures
            r.wf(),
            r.cursor() == (0int, 0int),
            r.cells() == Seq::new(2000, |i: int| blank()),
    {
        let mut buf: Vec<ScreenChar> = Vec::new();
        let mut k: usize = 0;
        while k < BUFFER_HEIGHT * BUFFER_WIDTH
            invariant
                k <= 2000,
                buf@.len() == k,
                forall|j: int| 0 <= j < k ==> buf@[j] == blank(),
            decreases 2000 - k,
        {
            buf.push(ScreenChar { ascii_character: 0, color_code: 0 });
            k += 1;
        }
        let r = VgaWriter { row: 0, col: 0, buf };
        assert(r.cells() =~= Seq::new(2000, |i: int| blank()));
        r
    }

    /// Blanks every cell; the cursor stays.
    pub fn clear(&mut self)
        requires
            old(self).wf(),
        ensures
            final(self).wf(),
            final(self).cursor() == old(self).cursor(),
            final(self).cells() == Seq::new(2000, |i: int| blank()),
    {
        let mut k: usize = 0;
        while k < BUFFER_HEIGHT * BUFFER_WIDTH
            invariant
                k <= 2000,
                self.buf@.len() == 2000,
                self.row == old(self).row,
                self.col == old(self).col,
                forall|j: int| 0 <= j < k ==> self.buf@[j] == blank(),
            decreases 2000 - k,
        {
            self.buf.set(k, ScreenChar { ascii_character: 0, color_code: 0 });
            k += 1;
        }
        assert(self.cells() =~= Seq::new(2000, |i: int| blank()));
    }

    /// The cell at `row`, `col`.
    pub fn char_at(&self, row: usize, col: usize) -> (r: ScreenChar)
        requires
            self.wf(),
            row < 25,
            col < 80,
        ensures
            r == self.cells()[row * 80 + col],
    {
        self.buf[row * BUFFER_WIDTH + col]
    }

    /// Writes `c` at the cursor, white on black, and moves on; a line feed
    /// only breaks the line.
    pub fn putchar(&mut self, c: char)
        requires
            old(self).wf(),
        ensures
            final(self).wf(),
            (final(self).cells(), final(self).cursor().0, final(self).cursor().1) == after_putchar(
                old(self).cells(),
                old(self).cursor().0,
                old(self).cursor().1,
                c,
            ),
    {
        if c == '\n' {
            self.newline();
        } else {
            let color = color_code_new(Color::White, Color::Black);
            let idx = self.row * BUFFER_WIDTH + self.col;
            self.buf.set(idx, ScreenChar { ascii_character: c as u8, color_code: color });
            self.next();
        }
    }

    fn next(&mut self)
        requires
            old(self).wf(),
        ensures
            final(self).wf(),
            (final(self).cells(), final(self).cursor().0, final(self).cursor().1) == if old(self).col + 1 == 80 {
                after_newline(old(self).cells(), old(self).row as int)
            } else {
                (old(self).cells(), old(self).row as int, old(self).col + 1)
            },
    {
        self.col += 1;
        if self.col == BUFFER_WIDTH {
            self.newline();
        }
    }

    fn newline(&mut self)
        requires
            old(self).buf@.len() == 2000,
            old(self).row < 25,
        ensures
            final(self).wf(),
            (final(self).cells(), final(self).cursor().0, final(self).cursor().1) == after_newline(
                old(self).cells(),
                old(self).row as int,
            ),
    {
        self.row += 1;
        self.col = 0;
        if self.row == BUFFER_HEIGHT {
            self.scroll();
        }
    }

    fn scroll(&mut self)
        requires
            old(self).buf@.len() == 2000,
            old(self).row == 25,
        ensures
            final(self).buf@ == scrolled(old(self).buf@),
            final(self).row == 24,
            final(self).col == old(self).col,
    {
        self.row -= 1;
        let mut i: usize = 0;
        while i < (BUFFER_HEIGHT - 1) * BUFFER_WIDTH
            invariant
                i <= 1920,
                self.buf@.len() == 2000,
                self.row == 24,
                self.col == old(self).col,
                forall|j: int| 0 <= j < i ==> self.buf@[j] == old(self).buf@[j + 80],
                forall|j: int| i <= j < 2000 ==> self.buf@[j] == old(self).buf@[j],
            decreases 1920 - i,
        {
            let moved = self.buf[i + BUFFER_WIDTH];
            self.buf.set(i, moved);
            i += 1;
        }
        let mut col: usize = 0;
        while col < BUFFER_WIDTH
            invariant
                col <= 80,
                self.buf@.len() == 2000,
                self.row == 24,
                self.col == old(self).col,
                forall|j: int| 0 <= j < 1920 ==> self.buf@[j] == old(self).buf@[j + 80],
                forall|j: int| 1920 <= j < 1920 + col ==> self.buf@[j] == blank(),
            decreases 80 - col,
        {
            self.buf.set((BUFFER_HEIGHT - 1) * BUFFER_WIDTH + col, ScreenChar { ascii_character: 0, color_code: 0 });
            col += 1;
        }
        assert(self.buf@ =~= scrolled(old(self).buf@));
    }
}

} // verus!
