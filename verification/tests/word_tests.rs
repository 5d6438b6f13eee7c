use turtle_wa::trig_parser::{next_word, read_annotation, read_iri_lexeme, read_literal_text, Token};

#[test]
fn test_next_word_simple() {
    let chars: Vec<char> = "hello world".chars().collect();

    let (first, pos) = next_word(&chars, 0);
    assert_eq!(first, Some(String::from("hello")));
    let (second, _) = next_word(&chars, pos);
    assert_eq!(second, Some(String::from("world")));
}

#[test]
fn test_next_word_complex() {
    let chars: Vec<char> = "      hello  world         ".chars().collect();

    let (first, pos) = next_word(&chars, 0);
    assert_eq!(first, Some(String::from("hello")));
    let (second, _) = next_word(&chars, pos);
    assert_eq!(second, Some(String::from("world")));
}

#[test]
fn test_next_word_all_whitespace() {
    let chars: Vec<char> = "               ".chars().collect();

    let (word, _) = next_word(&chars, 0);
    assert_eq!(word, None);
}

#[test]
fn test_lexer_absolute_or_relative_iri_lexeme() {
    let chars: Vec<char> = "<foo>".chars().collect();
    assert_eq!(
        read_iri_lexeme(&chars, 0).0,
        Token::RelativeOrAbsoluteIri(String::from("foo"))
    );

    let chars: Vec<char> = "<http://example.org/#batman>".chars().collect();
    assert_eq!(
        read_iri_lexeme(&chars, 0).0,
        Token::RelativeOrAbsoluteIri(String::from("http://example.org/#batman"))
    );

    let chars: Vec<char> = "     <foo>       ".chars().collect();
    assert_eq!(
        read_iri_lexeme(&chars, 0).0,
        Token::RelativeOrAbsoluteIri(String::from("foo"))
    );

    let chars: Vec<char> = "<foo".chars().collect();
    assert_eq!(read_iri_lexeme(&chars, 0).0, Token::Unknown(None));

    let chars: Vec<char> = "<foo bar>".chars().collect();
    assert_eq!(read_iri_lexeme(&chars, 0).0, Token::Unknown(None));
}

#[test]
fn test_lexer_prefix_iri_lexeme() {
    let chars: Vec<char> = "foo:bar ".chars().collect();
    assert_eq!(
        read_iri_lexeme(&chars, 0).0,
        Token::PrefixIri(String::from("foo:bar"))
    );

    let chars: Vec<char> = ":foobar ".chars().collect();
    assert_eq!(
        read_iri_lexeme(&chars, 0).0,
        Token::PrefixIri(String::from(":foobar"))
    );

    let chars: Vec<char> = "foobar: ".chars().collect();
    assert_eq!(
        read_iri_lexeme(&chars, 0).0,
        Token::PrefixIri(String::from("foobar:"))
    );

    let chars: Vec<char> = "foo:bar,".chars().collect();
    assert_eq!(
        read_iri_lexeme(&chars, 0).0,
        Token::PrefixIri(String::from("foo:bar"))
    );

    let chars: Vec<char> = "foobar".chars().collect();
    assert_eq!(read_iri_lexeme(&chars, 0).0, Token::Unknown(None));
}

#[test]
fn test_read_literal_text() {
    let chars: Vec<char> = "\"hello\"@en .".chars().collect();
    let (body, pos) = read_literal_text(&chars, 0);
    assert_eq!(body, String::from("hello"));
    assert_eq!(pos, 7);

    let (tag, after) = read_annotation(&chars, pos);
    assert_eq!(tag, String::from("@en"));
    assert_eq!(after, 10);

    // a body left open runs to the end of the line
    let chars: Vec<char> = "\"abc".chars().collect();
    let (body, pos) = read_literal_text(&chars, 0);
    assert_eq!(body, String::from("abc"));
    assert_eq!(pos, 4);
}
