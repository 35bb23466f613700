use crate::text::push_char;
use vstd::prelude::*;
use vstd::std_specs::convert::FromSpecImpl;
use vstd::string::*;

verus! {

/// What the player, or a recording, can ask of the simulation.
#[derive(Clone, Copy, Debug, PartialEq, Eq, Structural)]
pub enum Input {
    Up,
    Down,
    Left,
    Right,
    Quit,
    Pause,
    NoOp,
}

/// The character that stands for an input in a recording.
pub open spec fn input_symbol(input: Input) -> char {
    match input {
        Input::Up => 'u',
        Input::Down => 'd',
        Input::Left => 'l',
        Input::Right => 'r',
        Input::Quit => 'q',
        Input::Pause => 'p',
        Input::NoOp => 'n',
    }
}

/// The input that a character of a recording stands for, if any.
pub open spec fn symbol_input(c: char) -> Option<Input> {
    if c == 'u' {
        Some(Input::Up)
    } else if c == 'd' {
        Some(Input::Down)
    } else if c == 'l' {
        Some(Input::Left)
    } else if c == 'r' {
        Some(Input::Right)
    } else if c == 'q' {
        Some(Input::Quit)
    } else if c == 'p' {
        Some(Input::Pause)
    } else if c == 'n' {
        Some(Input::NoOp)
    } else {
        None
    }
}

/// The text that reports a character which stands for no input.
pub open spec fn invalid_symbol_text(c: char) -> Seq<char> {
    "Invalid input character: '"@ + seq![c] + "'"@
}

impl From<Input> for char {
    fn from(val: Input) -> (c: char) {
        match val {
            Input::Up => 'u',
            Input::Down => 'd',
            Input::Left => 'l',
            Input::Right => 'r',
            Input::Quit => 'q',
            Input::Pause => 'p',
            Input::NoOp => 'n',
        }
    }
}

impl FromSpecImpl<Input> for char {
    open spec fn obeys_from_spec() -> bool {
        true
    }

    open spec fn from_spec(val: Input) -> char {
        input_symbol(val)
    }
}

impl Input {
    /// The character that stands for this input in a recording.
    pub fn to_char(self) -> (c: char)
        ensures
            c == input_symbol(self),
            symbol_input(c) == Some(self),
    {
        match self {
            Input::Up => 'u',
            Input::Down => 'd',
            Input::Left => 'l',
            Input::Right => 'r',
            Input::Quit => 'q',
            Input::Pause => 'p',
            Input::NoOp => 'n',
        }
    }

    /// Decodes one character of a recording, strictly: a character that
    /// stands for no input is reported, not passed over.
    pub fn try_from(c: char) -> (r: Result<Input, String>)
        ensures
            match r {
                Ok(input) => symbol_input(c) == Some(input),
                Err(text) => symbol_input(c) is None && text@ == invalid_symbol_text(c),
            },
    {
        if c == 'u' {
            Ok(Input::Up)
        } else if c == 'd' {
            Ok(Input::Down)
        } else if c == 'l' {
            Ok(Input::Left)
        } else if c == 'r' {
            Ok(Input::Right)
        } else if c == 'q' {
            Ok(Input::Quit)
        } else if c == 'p' {
            Ok(Input::Pause)
        } else if c == 'n' {
            Ok(Input::NoOp)
        } else {
            let mut text = String::from_str("Invalid input character: '");
            push_char(&mut text, c);
            text.append("'");
            proof {
                assert(text@ =~= invalid_symbol_text(c));
            }
            Err(text)
        }
    }
}

/// The two codings undo each other: every input is what its character
/// stands for, and a character that stands for an input is that input's
/// character.
pub proof fn lemma_symbol_round_trip(input: Input, c: char)
    ensures
        symbol_input(input_symbol(input)) == Some(input),
        symbol_input(c) is Some ==> input_symbol(symbol_input(c).unwrap()) == c,
{
}

} // verus!
