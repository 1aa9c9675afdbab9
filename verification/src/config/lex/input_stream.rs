use crate::storage::file_handle::{decimal_nat, push_decimal};
use vstd::prelude::*;

verus! {

/// A place in the text: the position of a character, the line and the column
/// it stands in, and the character itself.
#[derive(PartialEq, Eq, Structural, Clone, Copy, Debug)]
pub struct InputStreamCursor {
    pub pos: usize,
    pub line: usize,
    pub col: usize,
    pub val: char,
}

impl InputStreamCursor {
    /// The cursor of the given place.
    pub fn new(pos: usize, line: usize, col: usize, val: char) -> (cursor: InputStreamCursor)
        ensures
            cursor == (InputStreamCursor { pos, line, col, val }),
    {
        InputStreamCursor { pos, line, col, val }
    }

    /// The cursor before the text: it stands on the first position, in the
    /// first line and column, and holds a blank.
    pub fn start() -> (cursor: InputStreamCursor)
        ensures
            cursor == (InputStreamCursor { pos: 0, line: 1, col: 1, val: ' ' }),
    {
        InputStreamCursor { pos: 0, line: 1, col: 1, val: ' ' }
    }

    /// The cursor one character on, where that character is `val`: a line
    /// feed begins the next line, any other character the next column.
    pub open spec fn moved(self, val: char) -> InputStreamCursor {
        if val == '\n' {
            InputStreamCursor { pos: (self.pos + 1) as usize, line: (self.line + 1) as usize, col: 1, val }
        } else {
            InputStreamCursor {
                pos: (self.pos + 1) as usize,
                line: self.line,
                col: (self.col + 1) as usize,
                val,
            }
        }
    }
}

/// What is said of a place in the text: the message, and behind it the line
/// and the column in brackets.
pub open spec fn complaint(msg: Seq<char>, line: nat, col: nat) -> Seq<char> {
    msg + seq![' ', '('] + decimal_nat(line) + seq![':'] + decimal_nat(col) + seq![')']
}

/// The text that is read, character by character.
pub struct InputStream {
    input: Vec<char>,
}

impl View for InputStream {
    type V = Seq<char>;

    closed spec fn view(&self) -> Seq<char> {
        self.input@
    }
}

impl InputStream {
    /// The stream of the characters of a text.
    pub fn new(input: String) -> (stream: InputStream)
        ensures
            stream@ == input@,
    {
        let text = input.as_str();
        let count = text.unicode_len();
        let mut chars: Vec<char> = Vec::new();
        let mut i: usize = 0;
        while i < count
            invariant
                i <= count,
                count == text@.len(),
                chars@ == text@.take(i as int),
            decreases count - i,
        {
            chars.push(text.get_char(i));
            assert(text@.take(i + 1) =~= text@.take(i as int).push(text@[i as int]));
            i += 1;
        }
        assert(text@.take(count as int) =~= text@);
        InputStream { input: chars }
    }

    /// The number of characters.
    pub fn len(&self) -> (count: usize)
        ensures
            count == self@.len(),
    {
        self.input.len()
    }

    /// The cursor one character on.
    pub fn next(&self, cursor: &InputStreamCursor) -> (moved: InputStreamCursor)
        requires
            cursor.pos + 1 < self@.len(),
            cursor.line < usize::MAX,
            cursor.col < usize::MAX,
        ensures
            moved == cursor.moved(self@[cursor.pos + 1]),
    {
        let total = self.input.len();
        assert(cursor.pos + 1 < total);
        let pos = cursor.pos + 1;
        let chr = self.input[pos];
        if chr == '\n' {
            InputStreamCursor::new(pos, cursor.line + 1, 1, chr)
        } else {
            InputStreamCursor::new(pos, cursor.line, cursor.col + 1, chr)
        }
    }

    /// The character at the cursor's position.
    pub fn peek(&self, cursor: &InputStreamCursor) -> (chr: char)
        requires
            cursor.pos < self@.len(),
        ensures
            chr == self@[cursor.pos as int],
    {
        self.input[cursor.pos]
    }

    /// Whether the cursor stands on the last character, or behind it.
    pub fn eof(&self, cursor: &InputStreamCursor) -> (ended: bool)
        requires
            self@.len() > 0,
        ensures
            ended == (cursor.pos >= self@.len() - 1),
    {
        cursor.pos >= self.input.len() - 1
    }

    /// The complaint about the place of the cursor.
    pub fn croak(&self, cursor: InputStreamCursor, msg: String) -> (text: String)
        ensures
            text@ == complaint(msg@, cursor.line as nat, cursor.col as nat),
    {
        let mut text = msg;
        text.push(' ');
        text.push('(');
        push_decimal(&mut text, cursor.line as u64);
        text.push(':');
        push_decimal(&mut text, cursor.col as u64);
        text.push(')');
        assert(text@ =~= complaint(msg@, cursor.line as nat, cursor.col as nat));
        text
    }
}

} // verus!
