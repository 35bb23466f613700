use pacman_sim::direction::Direction;
use pacman_sim::input::Input;
use pacman_sim::replay::{button_to_input, Buffer, Key};

#[test]
fn direction_vectors() {
    assert_eq!(Direction::Up.to_vector(), (0, -1));
    assert_eq!(Direction::Down.to_vector(), (0, 1));
    assert_eq!(Direction::Left.to_vector(), (-1, 0));
    assert_eq!(Direction::Right.to_vector(), (1, 0));
}

#[test]
fn direction_opposites() {
    assert_eq!(Direction::Up.opposite(), Direction::Down);
    assert_eq!(Direction::Down.opposite(), Direction::Up);
    assert_eq!(Direction::Left.opposite(), Direction::Right);
    assert_eq!(Direction::Right.opposite(), Direction::Left);
}

#[test]
fn direction_preference_order() {
    assert_eq!(Direction::by_rank(0), Direction::Up);
    assert_eq!(Direction::by_rank(1), Direction::Left);
    assert_eq!(Direction::by_rank(2), Direction::Down);
    assert_eq!(Direction::by_rank(3), Direction::Right);
}

#[test]
fn input_characters() {
    assert_eq!(char::from(Input::Up), 'u');
    assert_eq!(char::from(Input::Down), 'd');
    assert_eq!(char::from(Input::Left), 'l');
    assert_eq!(char::from(Input::Right), 'r');
    assert_eq!(char::from(Input::Quit), 'q');
    assert_eq!(char::from(Input::Pause), 'p');
    assert_eq!(char::from(Input::NoOp), 'n');
    assert_eq!(Input::Pause.to_char(), 'p');
}

#[test]
fn input_strict_decoding() {
    assert_eq!(Input::try_from('u'), Ok(Input::Up));
    assert_eq!(Input::try_from('d'), Ok(Input::Down));
    assert_eq!(Input::try_from('l'), Ok(Input::Left));
    assert_eq!(Input::try_from('r'), Ok(Input::Right));
    assert_eq!(Input::try_from('q'), Ok(Input::Quit));
    assert_eq!(Input::try_from('p'), Ok(Input::Pause));
    assert_eq!(Input::try_from('n'), Ok(Input::NoOp));
}

#[test]
fn input_strict_decoding_reports_other_characters() {
    assert_eq!(
        Input::try_from('x'),
        Err("Invalid input character: 'x'".to_string())
    );
    assert_eq!(
        Input::try_from('U'),
        Err("Invalid input character: 'U'".to_string())
    );
    assert_eq!(
        Input::try_from('中'),
        Err("Invalid input character: '中'".to_string())
    );
}

#[test]
fn input_round_trip() {
    let all = [
        Input::Up,
        Input::Down,
        Input::Left,
        Input::Right,
        Input::Quit,
        Input::Pause,
        Input::NoOp,
    ];
    for input in all {
        assert_eq!(Input::try_from(input.to_char()), Ok(input));
    }
}

#[test]
fn keys_to_inputs() {
    assert_eq!(button_to_input(Key::Up), Input::Up);
    assert_eq!(button_to_input(Key::I), Input::Up);
    assert_eq!(button_to_input(Key::Down), Input::Down);
    assert_eq!(button_to_input(Key::K), Input::Down);
    assert_eq!(button_to_input(Key::Left), Input::Left);
    assert_eq!(button_to_input(Key::J), Input::Left);
    assert_eq!(button_to_input(Key::Right), Input::Right);
    assert_eq!(button_to_input(Key::L), Input::Right);
    assert_eq!(button_to_input(Key::Q), Input::Quit);
    assert_eq!(button_to_input(Key::P), Input::Pause);
    assert_eq!(button_to_input(Key::Other), Input::NoOp);
}

#[test]
fn buffer_holds_the_latest_value() {
    let mut buffer: Buffer<u8> = Buffer::new();
    assert!(buffer.is_empty());
    assert_eq!(buffer.pop(), None);
    buffer.push(1);
    assert!(!buffer.is_empty());
    buffer.push(2);
    assert_eq!(buffer.pop(), Some(2));
    assert!(buffer.is_empty());
    assert_eq!(buffer.pop(), None);
}
