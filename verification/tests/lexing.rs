use sv_sim::lexer::Diagnostic;
use sv_sim::sim_time::{nanosecond, picosecond, SimTime, TimeUnit};
use sv_sim::{Lexer, LexingError, Token};

fn tokens_of(text: &str) -> Vec<Result<Token, LexingError>> {
    let mut lexer = Lexer::new(text);
    let mut out = Vec::new();
    while let Some(item) = lexer.next() {
        out.push(item);
    }
    out
}

#[test]
fn keywords_lex_to_their_tokens() {
    let toks = tokens_of("module endmodule");
    assert_eq!(toks.len(), 3);
    assert!(matches!(toks[0], Ok(Token::Module)));
    assert!(matches!(toks[1], Ok(Token::WhiteSpace)));
    assert!(matches!(toks[2], Ok(Token::EndModule)));
}

#[test]
fn always_comb_is_one_token() {
    let toks = tokens_of("always_comb");
    assert_eq!(toks.len(), 1);
    assert!(matches!(toks[0], Ok(Token::Comb)));
}

#[test]
fn always_alone_is_a_word() {
    let toks = tokens_of("always");
    assert_eq!(toks.len(), 1);
    match &toks[0] {
        Ok(Token::Word(w)) => assert_eq!(w, "always"),
        other => panic!("expected a word, got {:?}", other),
    }
}

#[test]
fn keyword_followed_by_letters_is_a_word() {
    let toks = tokens_of("modules");
    assert_eq!(toks.len(), 1);
    match &toks[0] {
        Ok(Token::Word(w)) => assert_eq!(w, "modules"),
        other => panic!("expected a word, got {:?}", other),
    }
}

#[test]
fn nanosecond_literal_keeps_digits_and_unit() {
    let toks = tokens_of("15ns");
    assert_eq!(toks.len(), 1);
    match &toks[0] {
        Ok(Token::Time(t)) => {
            assert_eq!(t.digits, "15");
            assert_eq!(t.unit, TimeUnit::Ns);
        },
        other => panic!("expected a time literal, got {:?}", other),
    }
}

#[test]
fn picosecond_literal_keeps_digits_and_unit() {
    let toks = tokens_of("2ps");
    assert_eq!(toks.len(), 1);
    match &toks[0] {
        Ok(Token::Time(t)) => {
            assert_eq!(t.digits, "2");
            assert_eq!(t.unit, TimeUnit::Ps);
        },
        other => panic!("expected a time literal, got {:?}", other),
    }
}

#[test]
fn sized_binary_literal_is_one_token() {
    let toks = tokens_of("4'b1010");
    assert_eq!(toks.len(), 1);
    assert!(matches!(toks[0], Ok(Token::BinaryValue)));
}

#[test]
fn hi_z_literal_is_one_token() {
    let toks = tokens_of("1'bz");
    assert_eq!(toks.len(), 1);
    assert!(matches!(toks[0], Ok(Token::HiZValue)));
}

#[test]
fn dangling_base_marker_falls_back_to_integer() {
    let toks = tokens_of("4'b");
    assert_eq!(toks.len(), 3);
    assert!(matches!(toks[0], Ok(Token::Integer(4))));
    assert!(matches!(toks[1], Err(LexingError::UnexpectedToken)));
    match &toks[2] {
        Ok(Token::Word(w)) => assert_eq!(w, "b"),
        other => panic!("expected a word, got {:?}", other),
    }
}

#[test]
fn integers_lex_to_their_value() {
    let toks = tokens_of("42");
    assert_eq!(toks.len(), 1);
    assert!(matches!(toks[0], Ok(Token::Integer(42))));
}

#[test]
fn largest_integer_still_fits() {
    let toks = tokens_of("18446744073709551615");
    assert_eq!(toks.len(), 1);
    assert!(matches!(toks[0], Ok(Token::Integer(u64::MAX))));
}

#[test]
fn integer_one_past_the_range_overflows() {
    let toks = tokens_of("18446744073709551616");
    assert_eq!(toks.len(), 1);
    match &toks[0] {
        Err(LexingError::InvalidInteger(reason)) => assert_eq!(reason, "overflow error"),
        other => panic!("expected an integer overflow, got {:?}", other),
    }
}

#[test]
fn comparison_operators_take_the_longest_match() {
    let toks = tokens_of("<= < >= > == =");
    let kinds: Vec<_> = toks
        .into_iter()
        .filter(|t| !matches!(t, Ok(Token::WhiteSpace)))
        .collect();
    assert_eq!(kinds.len(), 6);
    assert!(matches!(kinds[0], Ok(Token::BLTE)));
    assert!(matches!(kinds[1], Ok(Token::BLT)));
    assert!(matches!(kinds[2], Ok(Token::BGTE)));
    assert!(matches!(kinds[3], Ok(Token::BGT)));
    assert!(matches!(kinds[4], Ok(Token::BEQ)));
    assert!(matches!(kinds[5], Ok(Token::Equals)));
}

#[test]
fn double_slash_starts_a_comment_single_slash_divides() {
    let toks = tokens_of("// /");
    assert_eq!(toks.len(), 3);
    assert!(matches!(toks[0], Ok(Token::Comment)));
    assert!(matches!(toks[1], Ok(Token::WhiteSpace)));
    assert!(matches!(toks[2], Ok(Token::Divide)));
}

#[test]
fn carriage_returns_and_form_feeds_are_skipped() {
    let toks = tokens_of("\r\u{c}\nmodule");
    assert_eq!(toks.len(), 2);
    assert!(matches!(toks[0], Ok(Token::Newline)));
    assert!(matches!(toks[1], Ok(Token::Module)));
}

#[test]
fn tabs_and_spaces_are_whitespace() {
    let toks = tokens_of(" \t ");
    assert_eq!(toks.len(), 3);
    assert!(toks.iter().all(|t| matches!(t, Ok(Token::WhiteSpace))));
}

#[test]
fn unknown_characters_are_lexical_errors() {
    let toks = tokens_of("$");
    assert_eq!(toks.len(), 1);
    assert!(matches!(toks[0], Err(LexingError::UnexpectedToken)));
}

#[test]
fn punctuation_lexes_one_to_one() {
    let toks = tokens_of("#()[]{}?!:;,`_@");
    assert_eq!(toks.len(), 15);
    assert!(matches!(toks[0], Ok(Token::Pound)));
    assert!(matches!(toks[1], Ok(Token::OpenParen)));
    assert!(matches!(toks[2], Ok(Token::CloseParen)));
    assert!(matches!(toks[3], Ok(Token::OpenBracket)));
    assert!(matches!(toks[4], Ok(Token::CloseBracket)));
    assert!(matches!(toks[5], Ok(Token::OpenBrace)));
    assert!(matches!(toks[6], Ok(Token::CloseBrace)));
    assert!(matches!(toks[7], Ok(Token::QMark)));
    assert!(matches!(toks[8], Ok(Token::EMark)));
    assert!(matches!(toks[9], Ok(Token::Colon)));
    assert!(matches!(toks[10], Ok(Token::Semicolon)));
    assert!(matches!(toks[11], Ok(Token::Comma)));
    assert!(matches!(toks[12], Ok(Token::BTick)));
    assert!(matches!(toks[13], Ok(Token::Underscore)));
    assert!(matches!(toks[14], Ok(Token::At)));
}

#[test]
fn error_messages_match_the_taxonomy() {
    assert_eq!(
        LexingError::InvalidInteger("overflow error".to_string()).message(),
        "invalid integer encountered: overflow error"
    );
    assert_eq!(LexingError::UnexpectedToken.message(), "unexpected token encountered");
    assert_eq!(
        LexingError::ImproperTimeFormatting.message(),
        "improper time format encountered"
    );
    assert_eq!(LexingError::IncompleteWidth.message(), "incomplete width encountered");
    assert_eq!(LexingError::NegativeBitWidth.message(), "negative bit width encountered");
    assert_eq!(LexingError::ModuleWireNotFound.message(), "generic/unknown error encountered");
    assert_eq!(
        LexingError::ImproperCommentFormatting.message(),
        "generic/unknown error encountered"
    );
}

#[test]
fn time_conversion_helpers_tag_the_unit() {
    let n = nanosecond("5".to_string());
    assert_eq!(n.digits, "5");
    assert_eq!(n.unit, TimeUnit::Ns);
    let p = picosecond("250".to_string());
    assert_eq!(p.digits, "250");
    assert_eq!(p.unit, TimeUnit::Ps);
}

#[test]
fn default_sim_time_is_one_ns_over_one_ps() {
    let t = SimTime::default();
    assert_eq!(t.n_time.digits, "1");
    assert_eq!(t.n_time.unit, TimeUnit::Ns);
    assert_eq!(t.d_time.digits, "1");
    assert_eq!(t.d_time.unit, TimeUnit::Ps);
    // Under the conversion rule the two stand for 1e-6 and 1e-9.
    let n: f64 = t.n_time.digits.parse::<f64>().unwrap() * 1e-6;
    let d: f64 = t.d_time.digits.parse::<f64>().unwrap() * 1e-9;
    assert_eq!(n, 1e-6);
    assert_eq!(d, 1e-9);
}

#[test]
fn fresh_lexer_starts_with_no_diagnostics() {
    let lexer = Lexer::new("module");
    assert!(lexer.diags.is_empty());
    let _ = Diagnostic::NotImplemented(Token::Pound);
}
