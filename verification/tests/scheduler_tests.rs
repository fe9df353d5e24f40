use tp_led_matrix::lines::{Command, Levels, Line, PinState};
use tp_led_matrix::scheduler::{init, next_deadline, Display, Receiver, MARKER, PERIOD_TICKS};
use tp_led_matrix::{Color, Image};

fn same(a: &Image, b: &Image) -> bool {
    a.bytes() == b.bytes()
}

fn frame(seed: u8) -> [u8; 192] {
    let mut bytes = [0u8; 192];
    for i in 0..192 {
        bytes[i] = ((i as u8).wrapping_mul(3).wrapping_add(seed)) % 255;
    }
    bytes
}

#[test]
fn period_is_a_480th_of_a_second() {
    assert_eq!(PERIOD_TICKS, 80_000_000 / (8 * 60));
    assert_eq!(next_deadline(0), 166_666);
    assert_eq!(next_deadline(1_000), 167_666);
}

#[test]
fn deadline_wraps_at_32_bits() {
    assert_eq!(next_deadline(u32::MAX), 166_665);
    assert_eq!(next_deadline(u32::MAX - 166_665), 0);
    assert_eq!(next_deadline(u32::MAX - 166_666), u32::MAX);
}

#[test]
fn deadlines_do_not_drift() {
    let mut at = 12_345u32;
    for _ in 0..480 {
        at = next_deadline(at);
    }
    assert_eq!(at, 12_345 + 480 * 166_666);
}

#[test]
fn receiver_completes_a_frame_of_0_to_191() {
    let mut shared = <Image as tp_led_matrix::image::Default>::default();
    let mut receiver = Receiver::new();
    let mut bytes = [0u8; 192];
    for i in 0..192 {
        bytes[i] = i as u8;
    }
    for (i, b) in bytes.iter().enumerate() {
        assert_eq!(receiver.position(), i);
        receiver.receive_byte(&mut shared, *b);
    }
    assert_eq!(receiver.position(), 0);
    assert!(same(&shared, &Image::from_bytes(&bytes)));
    for row in 0..8usize {
        for col in 0..8usize {
            let at = (3 * (8 * row + col)) as u8;
            assert_eq!(*shared.index((row, col)), Color { r: at, g: at + 1, b: at + 2 });
        }
    }
}

#[test]
fn marker_after_100_bytes_resets_the_cursor() {
    let first = <Image as tp_led_matrix::image::Default>::default();
    let mut shared = first;
    let mut receiver = Receiver::new();
    for i in 0..100u8 {
        receiver.receive_byte(&mut shared, i);
    }
    assert_eq!(receiver.position(), 100);
    receiver.receive_byte(&mut shared, MARKER);
    assert_eq!(receiver.position(), 0);
    assert!(same(&shared, &first));
    let bytes = frame(40);
    for b in bytes.iter() {
        receiver.receive_byte(&mut shared, *b);
    }
    assert_eq!(receiver.position(), 0);
    assert!(same(&shared, &Image::from_bytes(&bytes)));
}

#[test]
fn marker_is_not_stored() {
    let mut shared = <Image as tp_led_matrix::image::Default>::default();
    let mut receiver = Receiver::new();
    receiver.receive_byte(&mut shared, 7);
    receiver.receive_byte(&mut shared, MARKER);
    receiver.receive_byte(&mut shared, MARKER);
    assert_eq!(receiver.position(), 0);
    let bytes = frame(1);
    for b in bytes.iter() {
        receiver.receive_byte(&mut shared, *b);
    }
    assert!(same(&shared, &Image::from_bytes(&bytes)));
}

#[test]
fn partial_frame_is_never_shown() {
    let first = Image::gradient(Color::red());
    let mut shared = first;
    let mut receiver = Receiver::new();
    for i in 0..50u8 {
        receiver.receive_byte(&mut shared, i);
        assert!(same(&shared, &first));
        for row in 0..8 {
            assert_eq!(shared.row(row), first.row(row));
        }
    }
    assert_eq!(receiver.position(), 50);
}

#[test]
fn shared_image_is_always_a_whole_frame() {
    let first = Image::gradient(Color::green());
    let a = frame(10);
    let b = frame(99);
    let mut stream: Vec<u8> = Vec::new();
    stream.extend_from_slice(&a[..70]);
    stream.push(MARKER);
    stream.extend_from_slice(&a);
    stream.extend_from_slice(&b[..191]);
    stream.push(MARKER);
    stream.extend_from_slice(&b);
    stream.extend_from_slice(&a[..10]);
    let mut shared = first;
    let mut receiver = Receiver::new();
    let whole = [first, Image::from_bytes(&a), Image::from_bytes(&b)];
    let mut shown = 0;
    for byte in stream {
        receiver.receive_byte(&mut shared, byte);
        if !same(&shared, &whole[shown]) {
            shown += 1;
            assert!(same(&shared, &whole[shown]));
        }
    }
    assert_eq!(shown, 2);
    assert_eq!(receiver.position(), 10);
}

#[test]
fn exchange_hands_back_the_old_image_as_scratch() {
    let first = Image::new_solid(Color { r: 9, g: 8, b: 7 });
    let mut shared = first;
    let mut receiver = Receiver::new();
    let a = frame(5);
    for b in a.iter() {
        receiver.receive_byte(&mut shared, *b);
    }
    let mut b = [9u8, 8, 7].repeat(64);
    b[0] = 1;
    receiver.receive_byte(&mut shared, 1);
    for byte in b[1..].iter() {
        assert!(same(&shared, &Image::from_bytes(&a)));
        receiver.receive_byte(&mut shared, *byte);
    }
    let mut expected = [0u8; 192];
    expected.copy_from_slice(&b);
    assert!(same(&shared, &Image::from_bytes(&expected)));
}

#[test]
fn store_byte_and_publish_split_the_exchange() {
    let first = Image::new_solid(Color { r: 1, g: 1, b: 1 });
    let mut shared = first;
    let mut receiver = Receiver::new();
    let bytes = frame(17);
    for (i, b) in bytes.iter().enumerate() {
        let full = receiver.store_byte(*b);
        assert_eq!(full, i == 191);
        assert!(same(&shared, &first));
    }
    assert_eq!(receiver.position(), 192);
    receiver.publish(&mut shared);
    assert_eq!(receiver.position(), 0);
    assert!(same(&shared, &Image::from_bytes(&bytes)));
    assert!(!receiver.store_byte(MARKER));
    assert_eq!(receiver.position(), 0);
}

#[test]
fn init_starts_black_at_row_0() {
    let (image, mut display, receiver) = init();
    assert!(same(&image, &<Image as tp_led_matrix::image::Default>::default()));
    assert_eq!(display.next_line(), 0);
    assert_eq!(receiver.position(), 0);
    let commands = display.take_commands();
    assert_eq!(commands.len(), 583);
    assert_eq!(commands[0], Command::Wait(100));
}

#[test]
fn display_cycles_through_the_rows() {
    let image = Image::gradient(Color::blue());
    let mut display = Display::new();
    let mut levels = Levels::power_on();
    for command in display.take_commands() {
        levels.apply(command);
    }
    let mut at = 500u32;
    for activation in 0..20usize {
        let line = activation % 8;
        assert_eq!(display.next_line(), line);
        let next = display.display(&image, at);
        assert_eq!(next, at + 166_666);
        at = next;
        let commands = display.take_commands();
        assert_eq!(commands.len(), 773);
        for command in commands {
            levels.apply(command);
            let high = [
                Line::C0, Line::C1, Line::C2, Line::C3, Line::C4, Line::C5, Line::C6, Line::C7,
            ]
            .iter()
            .filter(|l| levels.get(**l) == PinState::High)
            .count();
            assert!(high <= 1);
        }
        assert_eq!(levels.active_row(), Some(line));
    }
    assert_eq!(display.next_line(), 4);
}

#[test]
fn display_shows_the_frame_that_was_published() {
    let mut shared = <Image as tp_led_matrix::image::Default>::default();
    let mut receiver = Receiver::new();
    let mut display = Display::new();
    display.take_commands();
    let bytes = frame(3);
    let mut at = 0u32;
    for b in bytes[..191].iter() {
        receiver.receive_byte(&mut shared, *b);
    }
    at = display.display(&shared, at);
    let black = display.take_commands();
    receiver.receive_byte(&mut shared, bytes[191]);
    let mut fresh = Display::new();
    fresh.take_commands();
    fresh.display(&<Image as tp_led_matrix::image::Default>::default(), 0);
    assert_eq!(black, fresh.take_commands());
    display.display(&shared, at);
    let shown = display.take_commands();
    let mut expected = tp_led_matrix::matrix::Matrix::new();
    expected.take_commands();
    expected.send_row(1, Image::from_bytes(&bytes).row(1));
    assert_eq!(shown, expected.take_commands());
}
