//! The lexer.

pub mod input_stream;

use crate::config::domain::{Glyph, GlyphView};
use crate::config::lex::input_stream::{InputStream, InputStreamCursor};
use vstd::prelude::*;

verus! {

/// The sign that a character stands for, where `next` is the character
/// behind it: a slash takes a question mark or an exclamation mark behind it
/// into its sign. A character that stands for no sign gives none.
pub open spec fn sign_of(chr: char, next: char) -> Option<GlyphView> {
    if chr == '$' {
        Some(GlyphView::Dollar)
    } else if chr == '=' {
        Some(GlyphView::Equals)
    } else if chr == '[' {
        Some(GlyphView::ArrayStart)
    } else if chr == ']' {
        Some(GlyphView::ArrayEnd)
    } else if chr == ',' {
        Some(GlyphView::Comma)
    } else if chr == '&' {
        Some(GlyphView::Ampersand)
    } else if chr == ';' {
        Some(GlyphView::SemiColon)
    } else if chr == '/' {
        if next == '?' {
            Some(GlyphView::SlashQuest)
        } else if next == '!' {
            Some(GlyphView::SlashBang)
        } else {
            Some(GlyphView::Slash)
        }
    } else {
        None
    }
}

/// Whether a character is passed over: blanks and line feeds, and the
/// question marks and exclamation marks, which belong to a slash before them.
pub open spec fn passed_over(chr: char) -> bool {
    chr == ' ' || chr == '\n' || chr == '?' || chr == '!'
}

/// The lexer between two characters: the glyphs it has made, and the word
/// it is gathering.
pub struct Lexed {
    pub glyphs: Seq<GlyphView>,
    pub word: Option<Seq<char>>,
}

impl Lexed {
    /// One character taken, where `next` is the character behind it. A sign
    /// ends the word before it: the word is put out, then the sign. A
    /// character that is passed over changes nothing. Any other character
    /// joins the word.
    pub open spec fn take(self, chr: char, next: char) -> Lexed {
        match sign_of(chr, next) {
            Some(sign) => Lexed {
                glyphs: match self.word {
                    Some(word) => self.glyphs.push(GlyphView::Word(word)).push(sign),
                    None => self.glyphs.push(sign),
                },
                word: None,
            },
            None => if passed_over(chr) {
                self
            } else {
                Lexed {
                    word: match self.word {
                        Some(word) => Some(word.push(chr)),
                        None => Some(seq![chr]),
                    },
                    ..self
                }
            },
        }
    }
}

/// The character that the lexer takes in its step `k`: a blank in the first
/// step, in which the cursor stands before the text; the character at
/// position `k` after that.
pub open spec fn taken(text: Seq<char>, k: int) -> char {
    if k == 0 {
        ' '
    } else {
        text[k]
    }
}

/// The lexer after `steps` steps over a text. In each step it takes a
/// character and looks at the one behind it, so that it never takes the last
/// character.
pub open spec fn lexed(text: Seq<char>, steps: int) -> Lexed
    decreases steps,
{
    if steps <= 0 {
        Lexed { glyphs: Seq::empty(), word: None }
    } else {
        lexed(text, steps - 1).take(taken(text, steps - 1), text[steps])
    }
}

/// The glyphs of a list, as values.
pub open spec fn glyph_views(glyphs: Seq<Glyph>) -> Seq<GlyphView> {
    glyphs.map_values(|glyph: Glyph| glyph@)
}

/// Reads the glyphs of a text.
pub struct Tokenizer {
    pub stream: InputStream,
}

impl Tokenizer {
    /// The lexer of a text.
    pub fn new(stream: InputStream) -> (tokenizer: Tokenizer)
        ensures
            tokenizer.stream == stream,
    {
        Tokenizer { stream }
    }

    /// The glyphs of the text, in order. The lexer goes over the text up to
    /// its last character; a word that no sign ends is not put out.
    pub fn read_all(&self) -> (glyphs: Vec<Glyph>)
        requires
            self.stream@.len() > 0,
        ensures
            glyph_views(glyphs@) == lexed(self.stream@, self.stream@.len() - 1).glyphs,
    {
        let mut cursor = InputStreamCursor::start();
        let mut word: Option<String> = None;
        let mut glyphs: Vec<Glyph> = Vec::new();
        let ghost text = self.stream@;
        let total = self.stream.len();
        assert(glyph_views(glyphs@) =~= Seq::empty());
        while !self.stream.eof(&cursor)
            invariant
                text == self.stream@,
                total == text.len(),
                text.len() > 0,
                cursor.pos < text.len(),
                cursor.line <= cursor.pos + 1,
                cursor.col <= cursor.pos + 1,
                cursor.val == taken(text, cursor.pos as int),
                glyph_views(glyphs@) == lexed(text, cursor.pos as int).glyphs,
                match word {
                    Some(word) => lexed(text, cursor.pos as int).word == Some(word@),
                    None => lexed(text, cursor.pos as int).word is None,
                },
            decreases text.len() - cursor.pos,
        {
            let chr = cursor.val;
            let ghost before = lexed(text, cursor.pos as int);
            let ghost made = glyph_views(glyphs@);
            cursor = self.stream.next(&cursor);
            let next = cursor.val;
            let current = if chr == '$' {
                Some(Glyph::Dollar)
            } else if chr == '=' {
                Some(Glyph::Equals)
            } else if chr == '[' {
                Some(Glyph::ArrayStart)
            } else if chr == ']' {
                Some(Glyph::ArrayEnd)
            } else if chr == ',' {
                Some(Glyph::Comma)
            } else if chr == '&' {
                Some(Glyph::Ampersand)
            } else if chr == ';' {
                Some(Glyph::SemiColon)
            } else if chr == '/' {
                if next == '?' {
                    Some(Glyph::SlashQuest)
                } else if next == '!' {
                    Some(Glyph::SlashBang)
                } else {
                    Some(Glyph::Slash)
                }
            } else {
                None
            };
            match current {
                Some(sign) => {
                    match word {
                        Some(gathered) => {
                            let put = Glyph::Word(gathered);
                            glyphs.push(put);
                            assert(glyph_views(glyphs@) =~= made.push(put@));
                        },
                        None => {},
                    }
                    word = None;
                    let ghost with_word = glyph_views(glyphs@);
                    glyphs.push(sign);
                    assert(glyph_views(glyphs@) =~= with_word.push(sign@));
                },
                None => {
                    if chr == ' ' || chr == '\n' || chr == '?' || chr == '!' {
                    } else {
                        let mut gathered = match word {
                            Some(gathered) => gathered,
                            None => String::new(),
                        };
                        gathered.push(chr);
                        proof {
                            assert(Seq::<char>::empty().push(chr) =~= seq![chr]);
                        }
                        word = Some(gathered);
                    }
                },
            }
        }
        glyphs
    }
}

} // verus!
