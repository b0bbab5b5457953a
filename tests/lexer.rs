use isla_footprint::lexer::{ExpLexer, Keyword, LexError, Tok, keywords};

fn all_tokens(input: &str) -> Vec<Result<(usize, Tok, usize), LexError>> {
    let mut lexer = ExpLexer::new(input);
    let mut out = Vec::new();
    while let Some(t) = lexer.next_token() {
        let stop = t.is_err();
        out.push(t);
        if stop {
            break;
        }
    }
    out
}

#[test]
fn lexes_an_assertion() {
    let toks = all_tokens("0:X1 = 0x1F & ~(x = 3) -> true");
    let kinds: Vec<String> = toks.iter().map(|t| format!("{:?}", t.as_ref().unwrap().1)).collect();
    assert_eq!(
        kinds,
        vec![
            "Nat(\"0\")", "Colon", "Id(\"X1\")", "Eq", "Hex(\"0x1F\")", "And", "Not", "Lparen", "Id(\"x\")", "Eq",
            "Nat(\"3\")", "Rparen", "Implies", "True"
        ]
    );
    let (start, _, end) = toks[4].as_ref().unwrap();
    assert_eq!((*start, *end), (7, 11));
}

#[test]
fn keywords_come_before_names() {
    let toks = all_tokens("trueish false");
    assert!(matches!(toks[0], Ok((0, Tok::True, 4))));
    assert!(matches!(&toks[1], Ok((4, Tok::Id(s), 7)) if s == "ish"));
    assert!(matches!(toks[2], Ok((8, Tok::False, 13))));
    assert_eq!(toks.len(), 3);
}

#[test]
fn binary_and_smt_style_numbers() {
    let toks = all_tokens("#b101 0b2 #xff, *|");
    assert!(matches!(&toks[0], Ok((0, Tok::Bin(s), 5)) if s == "#b101"));
    assert!(matches!(&toks[1], Ok((6, Tok::Nat(s), 7)) if s == "0"));
    assert!(matches!(&toks[2], Ok((7, Tok::Id(s), 9)) if s == "b2"));
    assert!(matches!(&toks[3], Ok((10, Tok::Hex(s), 14)) if s == "#xff"));
    assert!(matches!(toks[4], Ok((14, Tok::Comma, 15))));
    assert!(matches!(toks[5], Ok((16, Tok::Star, 17))));
    assert!(matches!(toks[6], Ok((17, Tok::Or, 18))));
}

#[test]
fn unknown_character_is_an_error() {
    let toks = all_tokens("  x $");
    assert!(matches!(toks[0], Ok((2, Tok::Id(_), 3))));
    assert_eq!(toks[1].as_ref().unwrap_err(), &LexError { pos: 4 });
}

#[test]
fn whitespace_only_has_no_tokens() {
    assert!(all_tokens(" \t\n ").is_empty());
    assert!(all_tokens("").is_empty());
}

#[test]
fn keyword_table() {
    let table = keywords();
    assert_eq!(table.len(), 12);
    assert_eq!(table[0].word, "->");
    assert_eq!(table[0].len, 2);
    let k = Keyword::new("false", Tok::False);
    assert_eq!(k.len, 5);
}
