use rusty_vessel::config::domain::{
    BinaryExprKind, Expr, Glyph, Literal, OperatorKind, UnaryExprKind, Word,
};
use rusty_vessel::config::lex::input_stream::{InputStream, InputStreamCursor};
use rusty_vessel::config::lex::Tokenizer;

fn lex(text: &str) -> Vec<String> {
    let reader = Tokenizer::new(InputStream::new(text.to_string()));
    reader.read_all().iter().map(|glyph| glyph.text()).collect()
}

#[test]
fn a_topology_is_read_glyph_by_glyph() {
    let program = "

$sym = [btc, eth, ltc];
$time = [1min, 5min, 15min];

$sym
    /? [open, high, low, close, volume]
    /! $time
;
    ";
    let expected = vec![
        "$", "sym", "=", "[", "btc", ",", "eth", ",", "ltc", "]", ";",
        "$", "time", "=", "[", "1min", ",", "5min", ",", "15min", "]", ";",
        "$", "sym", "/?", "[", "open", ",", "high", ",", "low", ",", "close", ",", "volume", "]",
        "/!", "$", "time", ";",
    ];
    assert_eq!(lex(program), expected);
}

#[test]
fn a_slash_takes_the_mark_behind_it() {
    assert_eq!(lex(" a/b/?c/!d; "), vec!["a", "/", "b", "/?", "c", "/!", "d", ";"]);
    assert_eq!(lex(" ? ! /; "), vec!["/", ";"]);
}

#[test]
fn the_first_and_the_last_character_are_not_taken() {
    assert_eq!(lex("$a;"), Vec::<String>::new());
    assert_eq!(lex("$a;;"), vec!["a", ";"]);
    assert_eq!(lex("$$a;;"), vec!["$", "a", ";"]);
    assert_eq!(lex(";;;"), vec![";"]);
    assert_eq!(lex("x"), Vec::<String>::new());
    assert_eq!(lex("[]"), Vec::<String>::new());
}

#[test]
fn only_a_sign_ends_a_word() {
    assert_eq!(lex(" it $time &time; "), vec!["it", "$", "time", "&", "time", ";"]);
    assert_eq!(lex(" one two\nthree, "), vec!["onetwothree", ","]);
    assert_eq!(lex(" never ended "), Vec::<String>::new());
}

#[test]
fn glyphs_are_written_as_their_signs() {
    let glyphs = [
        (Glyph::Dollar, "$"),
        (Glyph::Equals, "="),
        (Glyph::ArrayStart, "["),
        (Glyph::ArrayEnd, "]"),
        (Glyph::Comma, ","),
        (Glyph::Slash, "/"),
        (Glyph::SlashQuest, "/?"),
        (Glyph::SlashBang, "/!"),
        (Glyph::Ampersand, "&"),
        (Glyph::SemiColon, ";"),
        (Glyph::Word("hlc3".to_string()), "hlc3"),
    ];
    for (glyph, text) in glyphs {
        assert_eq!(glyph.text(), text);
    }
}

#[test]
fn a_cursor_counts_lines_and_columns() {
    let stream = InputStream::new("a\nbc".to_string());
    assert_eq!(stream.len(), 4);
    let start = InputStreamCursor::start();
    assert_eq!(start, InputStreamCursor::new(0, 1, 1, ' '));
    assert_eq!(stream.peek(&start), 'a');
    assert!(!stream.eof(&start));
    let second = stream.next(&start);
    assert_eq!(second, InputStreamCursor::new(1, 2, 1, '\n'));
    let third = stream.next(&second);
    assert_eq!(third, InputStreamCursor::new(2, 2, 2, 'b'));
    let fourth = stream.next(&third);
    assert_eq!(fourth, InputStreamCursor::new(3, 2, 3, 'c'));
    assert!(stream.eof(&fourth));
    assert_eq!(stream.peek(&fourth), 'c');
}

#[test]
fn a_complaint_names_line_and_column() {
    let stream = InputStream::new("abc".to_string());
    let cursor = InputStreamCursor::new(2, 14, 3, 'c');
    assert_eq!(stream.croak(cursor, "Unexpected sign".to_string()), "Unexpected sign (14:3)");
    let far = InputStreamCursor::new(0, usize::MAX, 0, ' ');
    assert_eq!(stream.croak(far, String::new()), format!(" ({}:0)", usize::MAX));
}

#[test]
fn words_of_the_parser_hold_what_they_are_given() {
    let literal = Literal::new("btc".to_string());
    assert_eq!(literal.value(), "btc");
    let word = Word::Operator { op: "/?".to_string(), kind: OperatorKind::SlashQuest };
    assert!(matches!(word, Word::Operator { kind: OperatorKind::SlashQuest, .. }));
    assert!(matches!(Word::Array { values: vec![literal] }, Word::Array { ref values } if values.len() == 1));
    assert!(matches!(Word::Var { name: "sym".to_string() }, Word::Var { .. }));
    assert!(matches!(Word::Empty, Word::Empty));
    let variable = Expr::UnaryExpr(UnaryExprKind::Variable, Box::new(Expr::Literal("sym".to_string())));
    let array = Expr::KaryExpr(vec![Expr::Literal("btc".to_string())]);
    let assign = Expr::BinaryExpr(BinaryExprKind::Equals, Box::new(variable), Box::new(array));
    assert!(matches!(assign, Expr::BinaryExpr(BinaryExprKind::Equals, _, _)));
}
