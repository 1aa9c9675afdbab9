use vstd::prelude::*;

verus! {

/// The kinds of expression with one operand.
#[derive(PartialEq, Eq, Structural, Clone, Copy, Debug)]
pub enum UnaryExprKind {
    Variable,
}

/// The kinds of expression with two operands.
#[derive(PartialEq, Eq, Structural, Clone, Copy, Debug)]
pub enum BinaryExprKind {
    Equals,
}

/// An expression of the language.
#[derive(Debug)]
pub enum Expr {
    UnaryExpr(UnaryExprKind, Box<Expr>),
    BinaryExpr(BinaryExprKind, Box<Expr>, Box<Expr>),
    KaryExpr(Vec<Expr>),
    Literal(String),
}

/// The kinds of operator that begin with a slash.
#[derive(PartialEq, Eq, Structural, Clone, Copy, Debug)]
pub enum OperatorKind {
    Slash,
    SlashQuest,
    SlashBang,
}

/// A literal word.
#[derive(Debug)]
pub struct Literal {
    value: String,
}

impl View for Literal {
    type V = Seq<char>;

    closed spec fn view(&self) -> Seq<char> {
        self.value@
    }
}

impl Literal {
    /// The literal of the given text.
    pub fn new(value: String) -> (literal: Literal)
        ensures
            literal@ == value@,
    {
        Literal { value }
    }

    /// The text of the literal.
    pub fn value(&self) -> (value: &String)
        ensures
            value@ == self@,
    {
        &self.value
    }
}

/// A word of a sentence, as the parser sees it.
#[derive(Debug)]
pub enum Word {
    Empty,
    Var { name: String },
    Operator { op: String, kind: OperatorKind },
    Literal { value: Literal },
    Array { values: Vec<Literal> },
}

/// What the lexer makes of the text: a sign of the language, or a word.
#[derive(Debug)]
pub enum Glyph {
    Dollar,
    Equals,
    ArrayStart,
    ArrayEnd,
    Comma,
    Slash,
    SlashQuest,
    SlashBang,
    Ampersand,
    SemiColon,
    Word(String),
}

/// A glyph as a value.
pub enum GlyphView {
    Dollar,
    Equals,
    ArrayStart,
    ArrayEnd,
    Comma,
    Slash,
    SlashQuest,
    SlashBang,
    Ampersand,
    SemiColon,
    Word(Seq<char>),
}

impl View for Glyph {
    type V = GlyphView;

    open spec fn view(&self) -> GlyphView {
        match self {
            Glyph::Dollar => GlyphView::Dollar,
            Glyph::Equals => GlyphView::Equals,
            Glyph::ArrayStart => GlyphView::ArrayStart,
            Glyph::ArrayEnd => GlyphView::ArrayEnd,
            Glyph::Comma => GlyphView::Comma,
            Glyph::Slash => GlyphView::Slash,
            Glyph::SlashQuest => GlyphView::SlashQuest,
            Glyph::SlashBang => GlyphView::SlashBang,
            Glyph::Ampersand => GlyphView::Ampersand,
            Glyph::SemiColon => GlyphView::SemiColon,
            Glyph::Word(word) => GlyphView::Word(word@),
        }
    }
}

impl GlyphView {
    /// The text that a glyph is written as.
    pub open spec fn text(self) -> Seq<char> {
        match self {
            GlyphView::Dollar => seq!['$'],
            GlyphView::Equals => seq!['='],
            GlyphView::ArrayStart => seq!['['],
            GlyphView::ArrayEnd => seq![']'],
            GlyphView::Comma => seq![','],
            GlyphView::Slash => seq!['/'],
            GlyphView::SlashQuest => seq!['/', '?'],
            GlyphView::SlashBang => seq!['/', '!'],
            GlyphView::Ampersand => seq!['&'],
            GlyphView::SemiColon => seq![';'],
            GlyphView::Word(word) => word,
        }
    }
}

impl Glyph {
    /// The text that the glyph is written as.
    pub fn text(&self) -> (text: String)
        ensures
            text@ == self@.text(),
    {
        let mut text = String::new();
        match self {
            Glyph::Dollar => text.push('$'),
            Glyph::Equals => text.push('='),
            Glyph::ArrayStart => text.push('['),
            Glyph::ArrayEnd => text.push(']'),
            Glyph::Comma => text.push(','),
            Glyph::Slash => text.push('/'),
            Glyph::SlashQuest => {
                text.push('/');
                text.push('?');
            },
            Glyph::SlashBang => {
                text.push('/');
                text.push('!');
            },
            Glyph::Ampersand => text.push('&'),
            Glyph::SemiColon => text.push(';'),
            Glyph::Word(word) => text.push_str(word.as_str()),
        }
        assert(text@ =~= self@.text());
        text
    }
}

} // verus!
