use crate::text::{
    chars_of, decimal_digits, digit_value, find_char, find_line_end, index_of,
    lemma_decimal_digits, lemma_index_of, lemma_line_end, lemma_line_end_after, line_end,
    parse_number, push_char, push_decimal, read_number,
};
use vstd::prelude::*;
use vstd::string::*;

verus! {

/// A run as it was captured: pairs of a tick number and the character of the
/// input given at that tick, in the order in which they were given.
pub type Recording = Vec<(u64, char)>;

/// A source of numbers for the ghosts' flight. Nothing is asked of the
/// numbers; a run can be repeated where the source can.
pub trait RandGen {
    /// The next number.
    fn rand(&mut self) -> usize;
}

/// A source of layout texts by name.
pub trait FileLoader {
    /// The layout text of the given name.
    fn load_file(&mut self, filename: &str) -> String;
}

/// What a simulation is given to run with.
pub trait Simulator: RandGen + FileLoader {

}

/// The layout that `Sim1` hands out under any name.
pub const SIM1_LAYOUT: &'static str = r#"############################
            #................X.........#
            #..........................#
            #..........................#
            #..........................#
            #..............X.X.........#
            #..........................#
            #..........................#
            #..........................#
            ############################"#;

/// A simulator without surprises: its numbers count up from one, and its
/// only layout is a walled field of dots with three power-ups.
#[derive(Debug)]
pub struct Sim1 {
    pub x: usize,
}

impl Default for Sim1 {
    /// The simulator whose first number is one.
    fn default() -> (sim: Sim1)
        ensures
            sim.x == 0,
    {
        Sim1 { x: 0 }
    }
}

impl RandGen for Sim1 {
    /// One more than the number before; after the largest number, zero.
    fn rand(&mut self) -> (r: usize)
        ensures
            r == (if old(self).x == usize::MAX {
                0
            } else {
                old(self).x + 1
            }),
            final(self).x == r,
    {
        self.x = if self.x == usize::MAX {
            0
        } else {
            self.x + 1
        };
        self.x
    }
}

impl FileLoader for Sim1 {
    /// The one layout, whatever the name.
    fn load_file(&mut self, _filename: &str) -> (text: String)
        ensures
            text@ == SIM1_LAYOUT@,
            final(self).x == old(self).x,
    {
        String::from_str(SIM1_LAYOUT)
    }
}

impl Simulator for Sim1 {

}

/// Where the record ends whose line starts at `i`: at the line feed, or at
/// the carriage return before the line feed where there is one, or at the
/// end of the text.
pub open spec fn record_end(s: Seq<char>, i: int) -> int {
    let e = line_end(s, i);
    if i < e < s.len() && s[e - 1] == '\r' {
        e - 1
    } else {
        e
    }
}

/// What one line of a recording says: the number before its first comma as
/// the tick, and the first character after that comma as the input's
/// character. A line without a comma, without a number before it or without a
/// character after it says nothing.
pub open spec fn parse_record(line: Seq<char>) -> Option<(u64, char)> {
    let k = index_of(line, ',');
    if k + 1 < line.len() {
        match parse_number(line.subrange(0, k)) {
            Some(tick) => Some((tick, line[k + 1])),
            None => None,
        }
    } else {
        None
    }
}

/// The records of the text `s` from position `i` on, line by line; lines
/// that say nothing are passed over.
pub open spec fn parse_records(s: Seq<char>, i: int) -> Seq<(u64, char)>
    decreases s.len() - i,
{
    if i < 0 || i >= s.len() {
        Seq::empty()
    } else {
        let e = line_end(s, i);
        let rest = if i <= e < s.len() {
            parse_records(s, e + 1)
        } else {
            Seq::empty()
        };
        match parse_record(s.subrange(i, record_end(s, i))) {
            Some(r) => seq![r] + rest,
            None => rest,
        }
    }
}

/// The line that writes one record: the tick in decimal, a comma, the
/// character, a line feed.
pub open spec fn record_text(r: (u64, char)) -> Seq<char> {
    decimal_digits(r.0 as nat) + seq![',', r.1, '\n']
}

/// The text that writes a recording, one line for each record.
pub open spec fn recording_text(recording: Seq<(u64, char)>) -> Seq<char>
    decreases recording.len(),
{
    if recording.len() == 0 {
        Seq::empty()
    } else {
        recording_text(recording.drop_last()) + record_text(recording.last())
    }
}

/// The records of what follows a text are the records of that alone.
pub proof fn lemma_parse_records_after(a: Seq<char>, b: Seq<char>, i: int)
    requires
        0 <= i <= b.len(),
    ensures
        parse_records(a + b, a.len() + i) == parse_records(b, i),
    decreases b.len() - i,
{
    let t = a + b;
    if i < b.len() {
        lemma_line_end_after(a, b, i);
        let e = line_end(b, i);
        if e < b.len() {
            lemma_parse_records_after(a, b, e + 1);
        }
        if i < e {
            assert(t[a.len() + e - 1] == b[e - 1]);
        }
        assert(t.subrange(a.len() + i, a.len() + record_end(b, i)) =~= b.subrange(
            i,
            record_end(b, i),
        ));
    }
}

/// A recording's text is the line of its first record, then the text of the
/// others.
pub proof fn lemma_recording_text_front(recording: Seq<(u64, char)>)
    requires
        recording.len() > 0,
    ensures
        recording_text(recording) == record_text(recording[0]) + recording_text(
            recording.drop_first(),
        ),
    decreases recording.len(),
{
    let most = recording.drop_last();
    let others = recording.drop_first();
    if recording.len() == 1 {
        assert(recording_text(most) =~= Seq::<char>::empty());
        assert(recording_text(others) =~= Seq::<char>::empty());
        assert(recording_text(recording) =~= record_text(recording[0]) + recording_text(others));
    } else {
        lemma_recording_text_front(most);
        assert(most.drop_first() =~= others.drop_last());
        assert(most[0] == recording[0]);
        assert(others.last() == recording.last());
        assert(recording_text(recording) =~= record_text(recording[0]) + recording_text(others));
    }
}

/// The line that writes a record reads as that record, unless the record's
/// character is a line feed or a carriage return.
pub proof fn lemma_record_round_trip(r: (u64, char))
    requires
        r.1 != '\n',
        r.1 != '\r',
    ensures
        parse_record(decimal_digits(r.0 as nat) + seq![',', r.1]) == Some(r),
        forall|k: int|
            0 <= k < decimal_digits(r.0 as nat).len() + 2 ==> (#[trigger] record_text(r)[k])
                != '\n',
        record_text(r).len() == decimal_digits(r.0 as nat).len() + 3,
{
    let digits = decimal_digits(r.0 as nat);
    let line = digits + seq![',', r.1];
    lemma_decimal_digits(r.0 as nat);
    assert forall|j: int| 0 <= j < digits.len() implies line[j] != ',' by {
        assert(digit_value(digits[j]) is Some);
    }
    lemma_index_of(line, ',', digits.len() as int);
    assert(line.subrange(0, digits.len() as int) =~= digits);
    assert forall|k: int| 0 <= k < digits.len() + 2 implies (#[trigger] record_text(r)[k])
        != '\n' by {
        if k < digits.len() {
            assert(digit_value(digits[k]) is Some);
        }
    }
}

/// Round trip: the text that writes a recording reads as that recording,
/// provided that no character on record is a line feed or a carriage
/// return.
pub proof fn lemma_recording_round_trip(recording: Seq<(u64, char)>)
    requires
        forall|i: int|
            0 <= i < recording.len() ==> (#[trigger] recording[i]).1 != '\n' && recording[i].1
                != '\r',
    ensures
        parse_records(recording_text(recording), 0) == recording,
    decreases recording.len(),
{
    if recording.len() == 0 {
        assert(parse_records(recording_text(recording), 0) =~= recording);
    } else {
        let first = recording[0];
        let others = recording.drop_first();
        let head = record_text(first);
        let text = recording_text(recording);
        let digits = decimal_digits(first.0 as nat);
        let e = digits.len() + 2;
        lemma_recording_text_front(recording);
        lemma_record_round_trip(first);
        assert forall|i: int| 0 <= i < others.len() implies (#[trigger] others[i]).1 != '\n'
            && others[i].1 != '\r' by {
            assert(others[i] == recording[i + 1]);
        }
        lemma_recording_round_trip(others);
        lemma_parse_records_after(head, recording_text(others), 0);
        assert forall|k: int| 0 <= k < e implies text[k] != '\n' by {
            assert(text[k] == head[k]);
        }
        assert(text[e as int] == head[e as int]);
        assert(head[e as int] == '\n');
        lemma_line_end(text, 0, e as int);
        assert(text[e - 1] == head[e - 1]);
        assert(head[e - 1] == first.1);
        assert(text.subrange(0, e as int) =~= digits + seq![',', first.1]);
        if e + 1 >= text.len() {
            assert(recording_text(others).len() == 0);
        }
        assert(seq![first] + others =~= recording);
    }
}

/// Reads a recording from its text, leniently: each line that says
/// something gives a record, and every other line is passed over.
pub fn parse_file(text: &str) -> (recording: Recording)
    ensures
        recording@ == parse_records(text@, 0),
{
    let chars = chars_of(text);
    let n = chars.len();
    let mut recording: Recording = Vec::new();
    let mut i: usize = 0;
    while i < n
        invariant
            n == chars@.len(),
            i <= n,
            recording@ + parse_records(chars@, i as int) == parse_records(chars@, 0),
        decreases n - i,
    {
        let e = find_line_end(&chars, i);
        let end = if e < n && e > i && chars[e - 1] == '\r' {
            e - 1
        } else {
            e
        };
        let ghost line = chars@.subrange(i as int, end as int);
        let ghost rest = if e < n {
            parse_records(chars@, e + 1)
        } else {
            Seq::empty()
        };
        let ghost before = recording@;
        let k = find_char(&chars, ',', i, end);
        proof {
            assert(line.subrange(0, k - i) =~= chars@.subrange(i as int, k as int));
        }
        if k < end && k + 1 < end {
            match read_number(&chars, i, k) {
                Some(tick) => {
                    recording.push((tick, chars[k + 1]));
                    proof {
                        assert(line[k - i + 1] == chars@[k + 1]);
                        let r = (tick, chars@[k + 1]);
                        assert(before.push(r) + rest =~= before + (seq![r] + rest));
                    }
                },
                None => {},
            }
        }
        i = if e < n {
            e + 1
        } else {
            n
        };
    }
    proof {
        assert(recording@ + Seq::<(u64, char)>::empty() =~= recording@);
    }
    recording
}

/// Writes a recording as text, one line for each record.
pub fn format_recording(recording: &Recording) -> (text: String)
    ensures
        text@ == recording_text(recording@),
{
    let mut text = String::new();
    let mut i: usize = 0;
    while i < recording.len()
        invariant
            i <= recording@.len(),
            text@ == recording_text(recording@.take(i as int)),
        decreases recording@.len() - i,
    {
        let (tick, character) = recording[i];
        let ghost before = text@;
        push_decimal(&mut text, tick);
        push_char(&mut text, ',');
        push_char(&mut text, character);
        push_char(&mut text, '\n');
        proof {
            assert(recording@.take(i + 1).drop_last() =~= recording@.take(i as int));
            assert(text@ =~= before + record_text(recording@[i as int]));
        }
        i += 1;
    }
    proof {
        assert(recording@.take(recording@.len() as int) =~= recording@);
    }
    text
}

} // verus!
