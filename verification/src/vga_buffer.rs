use vstd::prelude::*;
use vstd::string::StringSliceAdditionalSpecFns;

verus! {

/// The sixteen colours of the text mode.
#[derive(Debug, Clone, Copy, PartialEq, Eq, Structural)]
pub enum Color {
    Black,
    Blue,
    Green,
    Cyan,
    Red,
    Magenta,
    Brown,
    LightGray,
    DarkGray,
    LightBlue,
    LightGreen,
    LightCyan,
    LightRed,
    Pink,
    Yellow,
    White,
}

impl Color {
    /// The number of the colour: its place in the palette.
    pub open spec fn code_spec(self) -> u8 {
        match self {
            Color::Black => 0,
            Color::Blue => 1,
            Color::Green => 2,
            Color::Cyan => 3,
            Color::Red => 4,
            Color::Magenta => 5,
            Color::Brown => 6,
            Color::LightGray => 7,
            Color::DarkGray => 8,
            Color::LightBlue => 9,
            Color::LightGreen => 10,
            Color::LightCyan => 11,
            Color::LightRed => 12,
            Color::Pink => 13,
            Color::Yellow => 14,
            Color::White => 15,
        }
    }

    pub fn code(self) -> (code: u8)
        ensures
            code == self.code_spec(),
            code < 16,
    {
        match self {
            Color::Black => 0,
            Color::Blue => 1,
            Color::Green => 2,
            Color::Cyan => 3,
            Color::Red => 4,
            Color::Magenta => 5,
            Color::Brown => 6,
            Color::LightGray => 7,
            Color::DarkGray => 8,
            Color::LightBlue => 9,
            Color::LightGreen => 10,
            Color::LightCyan => 11,
            Color::LightRed => 12,
            Color::Pink => 13,
            Color::Yellow => 14,
            Color::White => 15,
        }
    }
}

/// The attribute byte of a character cell: the background colour in the high
/// four bits, the foreground colour in the low four.
#[derive(Debug, Clone, Copy, PartialEq, Eq, Structural)]
pub struct ColorCode(u8);

impl View for ColorCode {
    type V = u8;

    closed spec fn view(&self) -> u8 {
        self.0
    }
}

impl ColorCode {
    pub fn new(foreground: Color, background: Color) -> (code: ColorCode)
        ensures
            code@ == background.code_spec() * 16 + foreground.code_spec(),
    {
        let high: u8 = background.code();
        let low: u8 = foreground.code();
        assert((high << 4 | low) == high * 16 + low) by (bit_vector)
            requires
                high < 16,
                low < 16,
        ;
        ColorCode(high << 4 | low)
    }

    /// The attribute byte.
    pub fn as_u8(self) -> (byte: u8)
        ensures
            byte == self@,
    {
        self.0
    }
}

/// One cell of the screen: a character and its colours.
#[derive(Debug, Clone, Copy, PartialEq, Eq, Structural)]
pub struct ScreenChar {
    pub ascii_character: u8,
    pub color_code: ColorCode,
}

/// The number of rows of the screen.
pub const BUFFER_HEIGHT: usize = 25;

/// The number of columns of the screen.
pub const BUFFER_WIDTH: usize = 80;

/// The cells of the screen, row after row.
pub struct Buffer {
    chars: Vec<ScreenChar>,
}

impl View for Buffer {
    type V = Seq<ScreenChar>;

    closed spec fn view(&self) -> Seq<ScreenChar> {
        self.chars@
    }
}

impl Buffer {
    /// A screen in which every cell holds `fill`.
    pub fn new(fill: ScreenChar) -> (buffer: Self)
        ensures
            buffer@ == Seq::new((BUFFER_HEIGHT * BUFFER_WIDTH) as nat, |i: int| fill),
    {
        let mut chars: Vec<ScreenChar> = Vec::new();
        let mut i: usize = 0;
        while i < BUFFER_HEIGHT * BUFFER_WIDTH
            invariant
                i <= BUFFER_HEIGHT * BUFFER_WIDTH,
                chars@ == Seq::new(i as nat, |i: int| fill),
            decreases BUFFER_HEIGHT * BUFFER_WIDTH - i,
        {
            chars.push(fill);
            i = i + 1;
            assert(chars@ =~= Seq::new(i as nat, |i: int| fill));
        }
        Buffer { chars }
    }

    /// The cell in row `row` and column `col`.
    pub fn char_at(&self, row: usize, col: usize) -> (cell: ScreenChar)
        requires
            self@.len() == BUFFER_HEIGHT * BUFFER_WIDTH,
            row < BUFFER_HEIGHT,
            col < BUFFER_WIDTH,
        ensures
            cell == self@[row * BUFFER_WIDTH + col],
    {
        self.chars[row * BUFFER_WIDTH + col]
    }
}

/// What a writer holds: the cell that it writes next, the colours that it
/// writes with, and the cells of the screen, row after row.
pub struct ScreenView {
    pub row_pos: int,
    pub column_pos: int,
    pub color_code: ColorCode,
    pub cells: Seq<ScreenChar>,
}

impl ScreenView {
    /// The position is on the screen, or just behind the end of a row, and
    /// the screen has all its cells.
    pub open spec fn wf(self) -> bool {
        &&& 0 <= self.row_pos < BUFFER_HEIGHT
        &&& 0 <= self.column_pos <= BUFFER_WIDTH
        &&& self.cells.len() == BUFFER_HEIGHT * BUFFER_WIDTH
    }

    /// The cell in row `row` and column `col`.
    pub open spec fn at(self, row: int, col: int) -> ScreenChar {
        self.cells[row * BUFFER_WIDTH + col]
    }
}

/// A space in the colours `color_code`.
pub open spec fn blank(color_code: ColorCode) -> ScreenChar {
    ScreenChar { ascii_character: 0x20, color_code }
}

/// The screen after a line break: the position moves to the start of the
/// next row. On the last row the rows move up by one instead, the first row
/// is lost, and the last row is blank.
pub open spec fn newline_spec(s: ScreenView) -> ScreenView {
    if s.row_pos + 1 < BUFFER_HEIGHT {
        ScreenView {
            row_pos: s.row_pos + 1,
            column_pos: 0,
            color_code: s.color_code,
            cells: s.cells,
        }
    } else {
        ScreenView {
            row_pos: s.row_pos,
            column_pos: 0,
            color_code: s.color_code,
            cells: s.cells.skip(BUFFER_WIDTH as int) + Seq::new(
                BUFFER_WIDTH as nat,
                |i: int| blank(s.color_code),
            ),
        }
    }
}

/// The screen after one byte was written: a line feed breaks the line; any
/// other byte goes into the cell at the position, after a line break if the
/// row was full, and the position moves on by one column.
pub open spec fn write_byte_spec(s: ScreenView, byte: u8) -> ScreenView {
    if byte == 0x0a {
        newline_spec(s)
    } else {
        let t = if s.column_pos >= BUFFER_WIDTH {
            newline_spec(s)
        } else {
            s
        };
        ScreenView {
            row_pos: t.row_pos,
            column_pos: t.column_pos + 1,
            color_code: t.color_code,
            cells: t.cells.update(
                t.row_pos * BUFFER_WIDTH + t.column_pos,
                ScreenChar { ascii_character: byte, color_code: t.color_code },
            ),
        }
    }
}

/// The byte that is written for `byte`: itself if it is printable or a line
/// feed, else the block `0xfe`.
pub open spec fn shown(byte: u8) -> u8 {
    if (0x20 <= byte <= 0x7e) || byte == 0x0a {
        byte
    } else {
        0xfe
    }
}

/// The screen after the bytes were written, each as it is shown.
pub open spec fn write_bytes_spec(s: ScreenView, bytes: Seq<u8>) -> ScreenView
    decreases bytes.len(),
{
    if bytes.len() == 0 {
        s
    } else {
        write_byte_spec(write_bytes_spec(s, bytes.drop_last()), shown(bytes.last()))
    }
}

/// Writing keeps the position on the screen and the screen complete.
pub proof fn lemma_write_byte_wf(s: ScreenView, byte: u8)
    requires
        s.wf(),
    ensures
        newline_spec(s).wf(),
        write_byte_spec(s, byte).wf(),
{
}

/// A line break on the last row moves every row up by one and leaves the last
/// row blank.
pub proof fn lemma_scroll_moves_rows_up(s: ScreenView, row: int, col: int)
    requires
        s.wf(),
        s.row_pos == BUFFER_HEIGHT - 1,
        0 <= row < BUFFER_HEIGHT,
        0 <= col < BUFFER_WIDTH,
    ensures
        newline_spec(s).at(row, col) == (if row < BUFFER_HEIGHT - 1 {
            s.at(row + 1, col)
        } else {
            blank(s.color_code)
        }),
{
}

/// A byte that is written into a row with room left shows in the cell at the
/// position, in the writer's colours, and no other cell changes.
pub proof fn lemma_write_byte_shows(s: ScreenView, byte: u8, row: int, col: int)
    requires
        s.wf(),
        byte != 0x0a,
        s.column_pos < BUFFER_WIDTH,
        0 <= row < BUFFER_HEIGHT,
        0 <= col < BUFFER_WIDTH,
    ensures
        write_byte_spec(s, byte).at(row, col) == (if row == s.row_pos && col == s.column_pos {
            ScreenChar { ascii_character: byte, color_code: s.color_code }
        } else {
            s.at(row, col)
        }),
        write_byte_spec(s, byte).row_pos == s.row_pos,
        write_byte_spec(s, byte).column_pos == s.column_pos + 1,
{
}

/// A writer of text onto the screen.
pub struct Writer {
    pub row_pos: usize,
    pub column_pos: usize,
    pub color_code: ColorCode,
    buffer: Buffer,
}

impl View for Writer {
    type V = ScreenView;

    closed spec fn view(&self) -> ScreenView {
        ScreenView {
            row_pos: self.row_pos as int,
            column_pos: self.column_pos as int,
            color_code: self.color_code,
            cells: self.buffer@,
        }
    }
}

impl Writer {
    pub open spec fn wf(&self) -> bool {
        self@.wf()
    }

    /// A writer at the top left of `buffer`.
    pub fn new(color_code: ColorCode, buffer: Buffer) -> (writer: Self)
        requires
            buffer@.len() == BUFFER_HEIGHT * BUFFER_WIDTH,
        ensures
            writer.wf(),
            writer@ == (ScreenView { row_pos: 0, column_pos: 0, color_code, cells: buffer@ }),
    {
        Writer { row_pos: 0, column_pos: 0, color_code, buffer }
    }

    /// The screen as it stands.
    pub fn buffer(&self) -> (buffer: &Buffer)
        ensures
            buffer@ == self@.cells,
    {
        &self.buffer
    }

    pub fn write_byte(&mut self, byte: u8)
        requires
            old(self).wf(),
        ensures
            final(self).wf(),
            final(self)@ == write_byte_spec(old(self)@, byte),
    {
        if byte == 0x0a {
            self.newline();
        } else {
            if self.column_pos >= BUFFER_WIDTH {
                self.newline();
            }
            let row = self.row_pos;
            let col = self.column_pos;
            let color_code = self.color_code;

            self.buffer.chars.set(
                row * BUFFER_WIDTH + col,
                ScreenChar { ascii_character: byte, color_code },
            );
            self.column_pos += 1;
        }
    }

    fn newline(&mut self)
        requires
            old(self).wf(),
        ensures
            final(self).wf(),
            final(self)@ == newline_spec(old(self)@),
    {
        self.column_pos = 0;
        if self.row_pos + 1 < BUFFER_HEIGHT {
            self.row_pos = self.row_pos + 1;
        } else {
            let ghost before = self.buffer@;
            let kept: usize = (BUFFER_HEIGHT - 1) * BUFFER_WIDTH;
            let mut i: usize = 0;
            while i < kept
                invariant
                    i <= kept,
                    kept == (BUFFER_HEIGHT - 1) * BUFFER_WIDTH,
                    self.buffer@.len() == before.len(),
                    before.len() == BUFFER_HEIGHT * BUFFER_WIDTH,
                    self.row_pos == old(self).row_pos,
                    self.column_pos == 0,
                    self.color_code == old(self).color_code,
                    forall|k: int| 0 <= k < i ==> self.buffer@[k] == before[k + BUFFER_WIDTH],
                    forall|k: int| i <= k < before.len() ==> self.buffer@[k] == before[k],
                decreases kept - i,
            {
                let cell = self.buffer.chars[i + BUFFER_WIDTH];
                self.buffer.chars.set(i, cell);
                i = i + 1;
            }
            let fill = ScreenChar { ascii_character: 0x20, color_code: self.color_code };
            let mut col: usize = 0;
            while col < BUFFER_WIDTH
                invariant
                    col <= BUFFER_WIDTH,
                    kept == (BUFFER_HEIGHT - 1) * BUFFER_WIDTH,
                    self.buffer@.len() == before.len(),
                    before.len() == BUFFER_HEIGHT * BUFFER_WIDTH,
                    self.row_pos == old(self).row_pos,
                    self.column_pos == 0,
                    self.color_code == old(self).color_code,
                    fill == blank(self.color_code),
                    forall|k: int| 0 <= k < kept ==> self.buffer@[k] == before[k + BUFFER_WIDTH],
                    forall|k: int| kept <= k < kept + col ==> self.buffer@[k] == fill,
                decreases BUFFER_WIDTH - col,
            {
                self.buffer.chars.set(kept + col, fill);
                col = col + 1;
            }
            assert(self.buffer@ =~= before.skip(BUFFER_WIDTH as int) + Seq::new(
                BUFFER_WIDTH as nat,
                |i: int| blank(self.color_code),
            ));
        }
    }

    /// Writes the bytes of `s`, each as it is shown.
    pub fn write_string(&mut self, s: &str)
        requires
            old(self).wf(),
        ensures
            final(self).wf(),
            final(self)@ == write_bytes_spec(old(self)@, s.spec_bytes()),
    {
        let bytes = s.as_bytes();
        let mut i: usize = 0;
        while i < bytes.len()
            invariant
                i <= bytes.len(),
                bytes@ == s.spec_bytes(),
                self.wf(),
                self@ == write_bytes_spec(old(self)@, bytes@.take(i as int)),
            decreases bytes.len() - i,
        {
            let byte = bytes[i];
            assert(bytes@.take(i + 1).drop_last() =~= bytes@.take(i as int));
            if (0x20 <= byte && byte <= 0x7e) || byte == 0x0a {
                self.write_byte(byte);
            } else {
                self.write_byte(0xfe);
            }
            i = i + 1;
        }
        assert(bytes@.take(i as int) =~= bytes@);
    }
}

} // verus!
