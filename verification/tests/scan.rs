use jsonparse::parse_char;
use jsonparse::parse_whitespace;
use jsonparse::parse_word;
use jsonparse::Context;

#[test]
fn cursor_walks_characters() {
    let mut ctx = Context::new("ab");
    assert!(ctx.is_next());
    assert_eq!(ctx.peek().unwrap(), 'a');
    assert_eq!(ctx.next().unwrap(), 'a');
    assert_eq!(ctx.peek().unwrap(), 'b');
    ctx.consume().unwrap();
    assert!(!ctx.is_next());
    assert_eq!(ctx.peek().unwrap_err(), "unexpected EOF at 1:3");
}

#[test]
fn error_carries_line_and_column() {
    let mut ctx = Context::new("a\nbc");
    assert_eq!(ctx.error("oops"), "oops at 1:1");
    ctx.consume().unwrap();
    ctx.consume().unwrap();
    ctx.consume().unwrap();
    assert_eq!(ctx.error("oops"), "oops at 2:2");
}

#[test]
fn whitespace_stops_at_significant_character() {
    let mut ctx = Context::new("  \t\n x");
    parse_whitespace(&mut ctx).unwrap();
    assert_eq!(ctx.peek().unwrap(), 'x');
}

#[test]
fn whitespace_accepts_end_of_input() {
    let mut ctx = Context::new("   ");
    parse_whitespace(&mut ctx).unwrap();
    assert!(!ctx.is_next());
}

#[test]
fn expected_character_matches_or_fails() {
    let mut ctx = Context::new("xy");
    parse_char(&mut ctx, 'x').unwrap();
    assert_eq!(parse_char(&mut ctx, 'z').unwrap_err(), "expected 'z' at 1:3");
}

#[test]
fn word_matches_in_order() {
    let mut ctx = Context::new("truex");
    parse_word(&mut ctx, "true").unwrap();
    assert_eq!(ctx.peek().unwrap(), 'x');
}

#[test]
fn word_fails_on_first_mismatch() {
    let mut ctx = Context::new("trap");
    assert_eq!(parse_word(&mut ctx, "true").unwrap_err(), "expected 'u' at 1:4");
}
