use lcd_screen::hd44780;
use lcd_screen::screen::Screen;

#[derive(Debug, Copy, Clone, PartialEq, Eq)]
enum ScreenError {}

#[derive(Debug, Default)]
struct TestScreen {
    commands: Vec<u8>,
    data: Vec<u8>,
}

impl TestScreen {
    fn new() -> Self {
        Self {
            commands: Vec::new(),
            data: Vec::new(),
        }
    }
}

impl Screen<16, 1, ScreenError> for TestScreen {
    fn send_command(&mut self, command: u8) -> Result<(), ScreenError> {
        self.commands.push(command);
        Ok(())
    }

    fn send_data(&mut self, data: u8) -> Result<(), ScreenError> {
        self.data.push(data);
        Ok(())
    }
}

/// A backend that records every byte it is handed, in order, and refuses the
/// byte at position `fail_at` (counting from zero over both kinds).
#[derive(Debug, Clone, Copy, PartialEq, Eq)]
enum Sent {
    Command(u8),
    Data(u8),
}

#[derive(Debug, Clone, PartialEq, Eq)]
struct BusFault(usize);

struct FaultyScreen {
    sent: Vec<Sent>,
    fail_at: Option<usize>,
}

impl FaultyScreen {
    fn new(fail_at: Option<usize>) -> Self {
        Self {
            sent: Vec::new(),
            fail_at,
        }
    }

    fn record(&mut self, byte: Sent) -> Result<(), BusFault> {
        let pos = self.sent.len();
        self.sent.push(byte);
        if self.fail_at == Some(pos) {
            Err(BusFault(pos))
        } else {
            Ok(())
        }
    }
}

impl Screen<4, 2, BusFault> for FaultyScreen {
    fn send_command(&mut self, command: u8) -> Result<(), BusFault> {
        self.record(Sent::Command(command))
    }

    fn send_data(&mut self, data: u8) -> Result<(), BusFault> {
        self.record(Sent::Data(data))
    }
}

struct NoColumns {
    commands: Vec<u8>,
    data: Vec<u8>,
}

impl Screen<0, 0, ()> for NoColumns {
    fn send_command(&mut self, command: u8) -> Result<(), ()> {
        self.commands.push(command);
        Ok(())
    }

    fn send_data(&mut self, data: u8) -> Result<(), ()> {
        self.data.push(data);
        Ok(())
    }
}

#[test]
fn cls() {
    let mut screen = TestScreen::new();
    screen.cls().unwrap();
    assert_eq!(screen.commands, vec![hd44780::clear_screen()]);
    assert_eq!(screen.data, vec![]);
}

#[test]
fn write() {
    let mut screen = TestScreen::new();
    screen
        .write("this is very long test string that should be truncated by screen size")
        .unwrap();
    assert_eq!(screen.commands, vec![]);
    assert_eq!(screen.data.as_slice(), b"this is very lon");
}

#[test]
fn clear_screen_is_the_clear_display_instruction() {
    assert_eq!(hd44780::clear_screen(), 0x01);
    assert_eq!(hd44780::CLEAR_DISPLAY, 0x01);
}

#[test]
fn send_commands_in_order() {
    let mut screen = TestScreen::new();
    screen.send_commands(&[0x38, 0x0C, 0x06, 0x01]).unwrap();
    assert_eq!(screen.commands, vec![0x38, 0x0C, 0x06, 0x01]);
    assert_eq!(screen.data, vec![]);
}

#[test]
fn send_data_bytes_in_order() {
    let mut screen = TestScreen::new();
    screen.send_data_bytes(&[0x48, 0x00, 0xFF, 0x48]).unwrap();
    assert_eq!(screen.commands, vec![]);
    assert_eq!(screen.data, vec![0x48, 0x00, 0xFF, 0x48]);
}

#[test]
fn empty_batches_send_nothing() {
    let mut screen = TestScreen::new();
    screen.send_commands(&[]).unwrap();
    screen.send_data_bytes(&[]).unwrap();
    assert!(screen.commands.is_empty());
    assert!(screen.data.is_empty());
}

#[test]
fn write_short_latin1_unchanged() {
    let mut screen = TestScreen::new();
    screen.write("Caf\u{e9} \u{ff}\u{a3}5").unwrap();
    assert_eq!(screen.commands, vec![]);
    assert_eq!(screen.data, vec![b'C', b'a', b'f', 0xE9, b' ', 0xFF, 0xA3, b'5']);
}

#[test]
fn write_exactly_width_is_not_truncated() {
    let mut screen = TestScreen::new();
    screen.write("0123456789abcdef").unwrap();
    assert_eq!(screen.data.as_slice(), b"0123456789abcdef");
}

#[test]
fn write_replaces_characters_outside_latin1() {
    let mut screen = TestScreen::new();
    screen.write("a\u{20ac}b\u{1f600}\u{100}\u{ff}").unwrap();
    assert_eq!(screen.commands, vec![]);
    assert_eq!(screen.data, vec![b'a', b'?', b'b', b'?', b'?', 0xFF]);
}

#[test]
fn write_truncates_by_characters_not_bytes() {
    let mut screen = TestScreen::new();
    let text: String = std::iter::repeat('\u{4e2d}').take(20).collect();
    screen.write(&text).unwrap();
    assert_eq!(screen.data, vec![b'?'; 16]);
}

#[test]
fn write_empty_sends_nothing() {
    let mut screen = TestScreen::new();
    screen.write("").unwrap();
    assert!(screen.commands.is_empty());
    assert!(screen.data.is_empty());
}

#[test]
fn write_on_zero_columns_sends_nothing() {
    let mut screen = NoColumns {
        commands: Vec::new(),
        data: Vec::new(),
    };
    screen.write("abc").unwrap();
    assert!(screen.data.is_empty());
    screen.cls().unwrap();
    assert_eq!(screen.commands, vec![hd44780::CLEAR_DISPLAY]);
}

#[test]
fn send_commands_stops_at_first_error() {
    let mut screen = FaultyScreen::new(Some(2));
    let r = screen.send_commands(&[1, 2, 3, 4, 5]);
    assert_eq!(r, Err(BusFault(2)));
    assert_eq!(
        screen.sent,
        vec![Sent::Command(1), Sent::Command(2), Sent::Command(3)]
    );
}

#[test]
fn send_data_bytes_stops_at_first_error() {
    let mut screen = FaultyScreen::new(Some(0));
    let r = screen.send_data_bytes(&[9, 8, 7]);
    assert_eq!(r, Err(BusFault(0)));
    assert_eq!(screen.sent, vec![Sent::Data(9)]);
}

#[test]
fn write_stops_at_first_error() {
    let mut screen = FaultyScreen::new(Some(1));
    let r = screen.write("wxyz!");
    assert_eq!(r, Err(BusFault(1)));
    assert_eq!(screen.sent, vec![Sent::Data(b'w'), Sent::Data(b'x')]);
}

#[test]
fn write_truncates_to_four_columns() {
    let mut screen = FaultyScreen::new(None);
    screen.write("wxyz!").unwrap();
    assert_eq!(
        screen.sent,
        vec![Sent::Data(b'w'), Sent::Data(b'x'), Sent::Data(b'y'), Sent::Data(b'z')]
    );
}

#[test]
fn cls_returns_the_backend_error() {
    let mut screen = FaultyScreen::new(Some(0));
    assert_eq!(screen.cls(), Err(BusFault(0)));
    assert_eq!(screen.sent, vec![Sent::Command(hd44780::CLEAR_DISPLAY)]);
}
