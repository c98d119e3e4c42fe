use kernel_core::vga_buffer::Buffer;
use kernel_core::vga_buffer::Color;
use kernel_core::vga_buffer::ColorCode;
use kernel_core::vga_buffer::ScreenChar;
use kernel_core::vga_buffer::Writer;
use kernel_core::vga_buffer::BUFFER_HEIGHT;
use kernel_core::vga_buffer::BUFFER_WIDTH;

fn cell(byte: u8, color_code: ColorCode) -> ScreenChar {
    ScreenChar { ascii_character: byte, color_code }
}

fn writer() -> (Writer, ColorCode) {
    let color = ColorCode::new(Color::Yellow, Color::Black);
    (Writer::new(color, Buffer::new(cell(b'.', color))), color)
}

#[test]
fn color_codes() {
    assert_eq!(Color::Black.code(), 0);
    assert_eq!(Color::LightGray.code(), 7);
    assert_eq!(Color::Yellow.code(), 14);
    assert_eq!(Color::White.code(), 15);
}

#[test]
fn color_code_packs_background_and_foreground() {
    assert_eq!(ColorCode::new(Color::Yellow, Color::Black).as_u8(), 0x0e);
    assert_eq!(ColorCode::new(Color::Black, Color::White).as_u8(), 0xf0);
    assert_eq!(ColorCode::new(Color::Red, Color::Blue).as_u8(), 0x14);
    assert_eq!(ColorCode::new(Color::White, Color::White).as_u8(), 0xff);
    assert_eq!(
        ColorCode::new(Color::Green, Color::Cyan),
        ColorCode::new(Color::Green, Color::Cyan)
    );
    assert_ne!(
        ColorCode::new(Color::Green, Color::Cyan),
        ColorCode::new(Color::Cyan, Color::Green)
    );
}

#[test]
fn buffer_has_every_cell() {
    let color = ColorCode::new(Color::White, Color::Black);
    let buffer = Buffer::new(cell(b'x', color));
    assert_eq!(buffer.char_at(0, 0), cell(b'x', color));
    assert_eq!(buffer.char_at(BUFFER_HEIGHT - 1, BUFFER_WIDTH - 1), cell(b'x', color));
}

#[test]
fn write_byte_fills_the_row() {
    let (mut writer, color) = writer();
    writer.write_byte(b'H');
    writer.write_byte(b'i');
    assert_eq!((writer.row_pos, writer.column_pos), (0, 2));
    assert_eq!(writer.buffer().char_at(0, 0), cell(b'H', color));
    assert_eq!(writer.buffer().char_at(0, 1), cell(b'i', color));
    assert_eq!(writer.buffer().char_at(0, 2), cell(b'.', color));
}

#[test]
fn line_feed_moves_to_the_next_row() {
    let (mut writer, color) = writer();
    writer.write_byte(b'a');
    writer.write_byte(b'\n');
    assert_eq!((writer.row_pos, writer.column_pos), (1, 0));
    writer.write_byte(b'b');
    assert_eq!(writer.buffer().char_at(0, 0), cell(b'a', color));
    assert_eq!(writer.buffer().char_at(1, 0), cell(b'b', color));
}

#[test]
fn full_row_wraps_to_the_next_row() {
    let (mut writer, color) = writer();
    for _ in 0..BUFFER_WIDTH {
        writer.write_byte(b'x');
    }
    assert_eq!((writer.row_pos, writer.column_pos), (0, BUFFER_WIDTH));
    writer.write_byte(b'y');
    assert_eq!((writer.row_pos, writer.column_pos), (1, 1));
    assert_eq!(writer.buffer().char_at(0, BUFFER_WIDTH - 1), cell(b'x', color));
    assert_eq!(writer.buffer().char_at(1, 0), cell(b'y', color));
}

#[test]
fn last_row_scrolls() {
    let (mut writer, color) = writer();
    for row in 0..BUFFER_HEIGHT {
        writer.write_byte(b'A' + row as u8);
        if row + 1 < BUFFER_HEIGHT {
            writer.write_byte(b'\n');
        }
    }
    assert_eq!((writer.row_pos, writer.column_pos), (BUFFER_HEIGHT - 1, 1));
    assert_eq!(writer.buffer().char_at(0, 0), cell(b'A', color));
    writer.write_byte(b'\n');
    assert_eq!((writer.row_pos, writer.column_pos), (BUFFER_HEIGHT - 1, 0));
    // every row moved up by one, the last row is blank
    assert_eq!(writer.buffer().char_at(0, 0), cell(b'B', color));
    assert_eq!(writer.buffer().char_at(BUFFER_HEIGHT - 2, 0), cell(b'A' + 24, color));
    assert_eq!(writer.buffer().char_at(BUFFER_HEIGHT - 2, 1), cell(b'.', color));
    for col in 0..BUFFER_WIDTH {
        assert_eq!(writer.buffer().char_at(BUFFER_HEIGHT - 1, col), cell(b' ', color));
    }
}

#[test]
fn write_string_replaces_what_cannot_be_shown() {
    let (mut writer, color) = writer();
    writer.write_string("a~\u{7f}\tb\nö");
    assert_eq!(writer.buffer().char_at(0, 0), cell(b'a', color));
    assert_eq!(writer.buffer().char_at(0, 1), cell(b'~', color));
    assert_eq!(writer.buffer().char_at(0, 2), cell(0xfe, color));
    assert_eq!(writer.buffer().char_at(0, 3), cell(0xfe, color));
    assert_eq!(writer.buffer().char_at(0, 4), cell(b'b', color));
    // the two bytes of the umlaut on the next row
    assert_eq!(writer.buffer().char_at(1, 0), cell(0xfe, color));
    assert_eq!(writer.buffer().char_at(1, 1), cell(0xfe, color));
    assert_eq!((writer.row_pos, writer.column_pos), (1, 2));
}

#[test]
fn writer_uses_its_current_colours() {
    let (mut writer, color) = writer();
    writer.write_byte(b'a');
    let other = ColorCode::new(Color::Red, Color::White);
    writer.color_code = other;
    writer.write_byte(b'b');
    assert_eq!(writer.buffer().char_at(0, 0), cell(b'a', color));
    assert_eq!(writer.buffer().char_at(0, 1), cell(b'b', other));
}
