use tape_machine::token::{parse, Token};

#[test]
fn parse_maps_each_command_symbol() {
    assert_eq!(
        parse("><+-.,[]"),
        vec![
            Token::T_GT,
            Token::T_LT,
            Token::T_PLUS,
            Token::T_MINUS,
            Token::T_DOT,
            Token::T_COMMA,
            Token::T_LBRACKET,
            Token::T_RBRACKET,
        ]
    );
}

#[test]
fn parse_of_empty_text_is_empty() {
    assert_eq!(parse(""), vec![]);
}

#[test]
fn parse_drops_comment_characters() {
    assert_eq!(
        parse("add one: + then\nmove > (twice) > done!"),
        vec![Token::T_PLUS, Token::T_GT, Token::T_GT]
    );
}

#[test]
fn parse_of_comment_only_text_is_empty() {
    assert_eq!(parse("no commands here\n\t42 {} () #"), vec![]);
}

#[test]
fn parse_drops_characters_beyond_ascii() {
    assert_eq!(parse("é+ü\u{1F600}-\u{FF0B}"), vec![Token::T_PLUS, Token::T_MINUS]);
}

#[test]
fn parse_keeps_order_and_repetitions() {
    assert_eq!(
        parse("[[x]]++"),
        vec![
            Token::T_LBRACKET,
            Token::T_LBRACKET,
            Token::T_RBRACKET,
            Token::T_RBRACKET,
            Token::T_PLUS,
            Token::T_PLUS,
        ]
    );
}

#[test]
fn parse_is_unchanged_by_an_inserted_comment() {
    assert_eq!(parse("+[a-]"), parse("+[-]"));
    assert_eq!(parse("+[- ]"), parse("+[-]"));
    assert_eq!(parse("\n+[-]"), parse("+[-]"));
}

#[test]
fn parse_of_two_parts_is_the_two_parses() {
    let mut both = parse("+a[");
    both.extend(parse("-b]"));
    assert_eq!(parse("+a[-b]"), both);
}
