//! Behavioral tests of the tokenizer, run against concrete sources.

use css_lexer::token::{NumLit, Token};
use css_lexer::tokenizer::{tokenize, Tokenizer};

fn chars(s: &str) -> Vec<char> {
    s.chars().collect()
}

fn lex(s: &str) -> Vec<Token> {
    let mut tk = Tokenizer::new(chars(s));
    let mut out = Vec::new();
    loop {
        let t = tk.next();
        let eof = t == Token::Eof;
        out.push(t);
        if eof {
            return out;
        }
    }
}

#[test]
fn empty_input_is_eof_immediately() {
    let mut tk = Tokenizer::new(chars(""));
    assert_eq!(tk.next(), Token::Eof);
}

#[test]
fn eof_is_idempotent() {
    let mut tk = Tokenizer::new(chars("a b"));
    let mut count = 0usize;
    loop {
        if tk.next() == Token::Eof {
            break;
        }
        count += 1;
        assert!(count <= 3, "more tokens than the input can hold");
    }
    assert_eq!(count, 3);
    for _ in 0..3 {
        assert_eq!(tk.next(), Token::Eof);
    }
}

#[test]
fn comment_token_carries_contents() {
    assert_eq!(
        lex("/* comment */"),
        vec![Token::Comment(chars(" comment ")), Token::Eof]
    );
}

#[test]
fn unterminated_comment_runs_to_end() {
    assert_eq!(lex("/*x"), vec![Token::Comment(chars("x")), Token::Eof]);
}

#[test]
fn dimension_ten_px() {
    let ts = lex("10px");
    assert_eq!(ts.len(), 2);
    match &ts[0] {
        Token::Dimension(n, unit) => {
            assert_eq!(n.int_part, chars("10"));
            assert!(n.is_integer());
            assert_eq!(n.integer_value(), Some(10));
            assert_eq!(*unit, chars("px"));
        }
        other => panic!("expected a dimension, got {:?}", other),
    }
    assert_eq!(ts[1], Token::Eof);
}

#[test]
fn unterminated_string_is_bad_string() {
    assert_eq!(
        lex("'unterminated"),
        vec![Token::BadString(chars("unterminated")), Token::Eof]
    );
}

#[test]
fn string_cut_by_newline_is_bad_string() {
    assert_eq!(
        lex("'a\nb'"),
        vec![
            Token::BadString(chars("a")),
            Token::Whitespace,
            Token::Ident(chars("b")),
            Token::BadString(chars("")),
            Token::Eof
        ]
    );
}

#[test]
fn at_keyword_media() {
    assert_eq!(
        lex("@media"),
        vec![Token::AtKeyword(chars("media")), Token::Eof]
    );
}

#[test]
fn hex_escape_decodes_to_ident() {
    assert_eq!(lex("\\41 "), vec![Token::Ident(chars("A")), Token::Eof]);
}

#[test]
fn zero_escape_decodes_to_replacement_character() {
    assert_eq!(lex("\\0"), vec![Token::Ident(chars("\u{fffd}")), Token::Eof]);
}

#[test]
fn out_of_range_escape_decodes_to_replacement_character() {
    assert_eq!(
        lex("\\110000"),
        vec![Token::Ident(chars("\u{fffd}")), Token::Eof]
    );
}

#[test]
fn string_with_escapes() {
    assert_eq!(
        lex("\"a\\41 b\""),
        vec![Token::QuotedString(chars("aAb")), Token::Eof]
    );
}

#[test]
fn string_line_continuation() {
    assert_eq!(
        lex("\"a\\\nb\""),
        vec![Token::QuotedString(chars("ab")), Token::Eof]
    );
}

#[test]
fn whitespace_run_is_one_token() {
    assert_eq!(lex("  \t\n "), vec![Token::Whitespace, Token::Eof]);
}

#[test]
fn hash_id_and_unrestricted() {
    assert_eq!(
        lex("#fff"),
        vec![Token::Hash(chars("fff"), true), Token::Eof]
    );
    assert_eq!(lex("#00"), vec![Token::Hash(chars("00"), false), Token::Eof]);
    assert_eq!(lex("# "), vec![Token::Delim('#'), Token::Whitespace, Token::Eof]);
}

#[test]
fn hash_with_escape() {
    assert_eq!(
        lex("#\\41"),
        vec![Token::Hash(chars("A"), true), Token::Eof]
    );
}

#[test]
fn number_with_all_parts() {
    let ts = lex("+2.5e-3");
    assert_eq!(ts.len(), 2);
    match &ts[0] {
        Token::Number(n) => {
            assert_eq!(n.sign, Some('+'));
            assert_eq!(n.int_part, chars("2"));
            assert_eq!(n.frac_part, chars("5"));
            assert_eq!(n.exp_marker, Some('e'));
            assert_eq!(n.exp_sign, Some('-'));
            assert_eq!(n.exp_part, chars("3"));
            assert!(!n.is_integer());
            assert_eq!(n.integer_value(), None);
        }
        other => panic!("expected a number, got {:?}", other),
    }
}

#[test]
fn negative_integer_value() {
    let ts = lex("-7");
    match &ts[0] {
        Token::Number(n) => {
            assert_eq!(n.sign, Some('-'));
            assert_eq!(n.integer_value(), Some(-7));
        }
        other => panic!("expected a number, got {:?}", other),
    }
}

#[test]
fn oversized_integer_has_no_i64_value() {
    let ts = lex("99999999999999999999999999");
    match &ts[0] {
        Token::Number(n) => {
            assert!(n.is_integer());
            assert_eq!(n.integer_value(), None);
        }
        other => panic!("expected a number, got {:?}", other),
    }
}

#[test]
fn fraction_without_integer_part() {
    let ts = lex(".5");
    match &ts[0] {
        Token::Number(n) => {
            assert_eq!(n.sign, None);
            assert_eq!(n.int_part, chars(""));
            assert_eq!(n.frac_part, chars("5"));
            assert!(!n.is_integer());
        }
        other => panic!("expected a number, got {:?}", other),
    }
}

#[test]
fn percentage() {
    let ts = lex("50%");
    match &ts[0] {
        Token::Percentage(n) => {
            assert_eq!(n.int_part, chars("50"));
        }
        other => panic!("expected a percentage, got {:?}", other),
    }
    assert_eq!(ts[1], Token::Eof);
}

#[test]
fn unquoted_url() {
    assert_eq!(
        lex("url(http://x)"),
        vec![Token::Url(chars("http://x")), Token::Eof]
    );
    assert_eq!(lex("URL( a )"), vec![Token::Url(chars("a")), Token::Eof]);
    assert_eq!(lex("url()"), vec![Token::Url(chars("")), Token::Eof]);
}

#[test]
fn quoted_url_stays_separate_tokens() {
    assert_eq!(
        lex("url('x')"),
        vec![
            Token::Ident(chars("url")),
            Token::ParenOpen,
            Token::QuotedString(chars("x")),
            Token::ParenClose,
            Token::Eof
        ]
    );
}

#[test]
fn malformed_url_is_bad_url() {
    assert_eq!(lex("url(a b)"), vec![Token::BadUrl(chars("a")), Token::Eof]);
    assert_eq!(lex("url(()"), vec![Token::BadUrl(chars("")), Token::Eof]);
}

#[test]
fn cdo_and_cdc() {
    assert_eq!(
        lex("<!-- -->"),
        vec![Token::Cdo, Token::Whitespace, Token::Cdc, Token::Eof]
    );
    assert_eq!(lex("<"), vec![Token::Delim('<'), Token::Eof]);
}

#[test]
fn structural_tokens() {
    assert_eq!(
        lex("([{}]):;,"),
        vec![
            Token::ParenOpen,
            Token::SquareOpen,
            Token::CurlyOpen,
            Token::CurlyClose,
            Token::SquareClose,
            Token::ParenClose,
            Token::Colon,
            Token::Semicolon,
            Token::Comma,
            Token::Eof
        ]
    );
}

#[test]
fn delimiters() {
    assert_eq!(
        lex("* !"),
        vec![
            Token::Delim('*'),
            Token::Whitespace,
            Token::Delim('!'),
            Token::Eof
        ]
    );
}

#[test]
fn hyphen_forms() {
    assert_eq!(lex("-x"), vec![Token::Ident(chars("-x")), Token::Eof]);
    assert_eq!(lex("--x"), vec![Token::Ident(chars("--x")), Token::Eof]);
    assert_eq!(lex("- "), vec![Token::Delim('-'), Token::Whitespace, Token::Eof]);
    match &lex("-4px")[0] {
        Token::Dimension(n, unit) => {
            assert_eq!(n.sign, Some('-'));
            assert_eq!(n.integer_value(), Some(-4));
            assert_eq!(*unit, chars("px"));
        }
        other => panic!("expected a dimension, got {:?}", other),
    }
}

#[test]
fn spans_reconstruct_source() {
    let src = "a{color:#fff;margin:-4px}/*x*/ url( h ) 'str' \\41 @m 1.5e2%";
    let cs = chars(src);
    let spanned = tokenize(cs.clone());
    assert!(spanned.len() >= 2);
    assert_eq!(spanned[0].start, 0);
    let mut rebuilt: Vec<char> = Vec::new();
    let mut prev_end = 0usize;
    for sp in &spanned {
        assert_eq!(sp.start, prev_end);
        assert!(sp.end >= sp.start);
        rebuilt.extend_from_slice(&cs[sp.start..sp.end]);
        prev_end = sp.end;
    }
    assert_eq!(prev_end, cs.len());
    assert_eq!(rebuilt, cs);
    assert_eq!(spanned.last().unwrap().token, Token::Eof);
}

#[test]
fn tokenize_ends_with_single_eof() {
    let spanned = tokenize(chars("a b"));
    assert_eq!(spanned.len(), 4);
    for sp in &spanned[..3] {
        assert_ne!(sp.token, Token::Eof);
    }
    assert_eq!(spanned[3].token, Token::Eof);
}

#[test]
fn line_and_column_tracking() {
    let mut tk = Tokenizer::new(chars("a\nbb"));
    while tk.next() != Token::Eof {}
    assert_eq!(tk.get_line_number(), 1);
    assert_eq!(tk.get_column_number(), 2);

    let mut tk = Tokenizer::new(chars("a\r\nb"));
    while tk.next() != Token::Eof {}
    assert_eq!(tk.get_line_number(), 1);
    assert_eq!(tk.get_column_number(), 1);

    let tk = Tokenizer::new(chars("abc"));
    assert_eq!(tk.get_line_number(), 0);
    assert_eq!(tk.get_column_number(), 0);
}

#[test]
fn comments_do_not_nest() {
    assert_eq!(
        lex("/*a/*b*/"),
        vec![Token::Comment(chars("a/*b")), Token::Eof]
    );
}

#[test]
fn url_with_escape() {
    assert_eq!(
        lex("url(a\\29 b)"),
        vec![Token::Url(chars("a)b")), Token::Eof]
    );
}

#[test]
fn escape_consumes_one_crlf_pair() {
    assert_eq!(lex("\\41\r\nx"), vec![Token::Ident(chars("Ax")), Token::Eof]);
}

#[test]
fn signed_fraction_number() {
    let ts = lex("+.5");
    match &ts[0] {
        Token::Number(n) => {
            assert_eq!(n.sign, Some('+'));
            assert_eq!(n.int_part, chars(""));
            assert_eq!(n.frac_part, chars("5"));
        }
        other => panic!("expected a number, got {:?}", other),
    }
}

#[test]
fn integer_value_bounds() {
    let lit = |digits: &str, sign: Option<char>| NumLit {
        sign,
        int_part: chars(digits),
        frac_part: Vec::new(),
        exp_marker: None,
        exp_sign: None,
        exp_part: Vec::new(),
    };
    assert_eq!(
        lit("9223372036854775807", None).integer_value(),
        Some(i64::MAX)
    );
    assert_eq!(lit("9223372036854775808", None).integer_value(), None);
    assert_eq!(
        lit("9223372036854775808", Some('-')).integer_value(),
        Some(i64::MIN)
    );
    assert_eq!(lit("9223372036854775809", Some('-')).integer_value(), None);
    assert_eq!(lit("0", None).integer_value(), Some(0));
}
