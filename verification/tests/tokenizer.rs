use lsert::file_types::read_xml_file;
use lsert::lexical_analysis::{chars_of, tokens_of, Lexer};

const PAGE: &str = "<html><head><title>LSERT</title></head><body>\
<p>Hello, 20</p>\
<p>20Hello</p>\
<p>20, 10</p>\
<p>[20, 10, 30]</p>\
<p>2002, 20.10.20</p>\
<p>10.2532</p>\
</body></html>";

fn strings(tokens: &[&str]) -> Vec<String> {
    tokens.iter().map(|token| token.to_string()).collect()
}

#[test]
fn lexeme() {
    let content = read_xml_file(PAGE);

    let char_slice = content.chars().collect::<Vec<_>>();
    let mut lexer = Lexer::new(&char_slice);

    // LSERT
    assert_eq!(lexer.next(), Some(String::from("LSERT")));

    // Hello, 20
    assert_eq!(lexer.next(), Some(String::from("Hello")));
    assert_eq!(lexer.next(), Some(String::from(",")));
    assert_eq!(lexer.next(), Some(String::from("20")));

    // 20Hello
    assert_eq!(lexer.next(), Some(String::from("20")));
    assert_eq!(lexer.next(), Some(String::from("Hello")));

    // 20, 10
    assert_eq!(lexer.next(), Some(String::from("20")));
    assert_eq!(lexer.next(), Some(String::from(",")));
    assert_eq!(lexer.next(), Some(String::from("10")));

    // [20, 10, 30]
    assert_eq!(lexer.next(), Some(String::from("[")));
    assert_eq!(lexer.next(), Some(String::from("20")));
    assert_eq!(lexer.next(), Some(String::from(",")));
    assert_eq!(lexer.next(), Some(String::from("10")));
    assert_eq!(lexer.next(), Some(String::from(",")));
    assert_eq!(lexer.next(), Some(String::from("30")));
    assert_eq!(lexer.next(), Some(String::from("]")));

    // 2002, 20.10.20
    assert_eq!(lexer.next(), Some(String::from("2002")));
    assert_eq!(lexer.next(), Some(String::from(",")));
    assert_eq!(lexer.next(), Some(String::from("20")));
    assert_eq!(lexer.next(), Some(String::from(".")));
    assert_eq!(lexer.next(), Some(String::from("10")));
    assert_eq!(lexer.next(), Some(String::from(".")));
    assert_eq!(lexer.next(), Some(String::from("20")));

    // 10.2532
    assert_eq!(lexer.next(), Some(String::from("10")));
    assert_eq!(lexer.next(), Some(String::from(".")));
    assert_eq!(lexer.next(), Some(String::from("2532")));
}

#[test]
fn next_token_ends_with_none() {
    let chars: Vec<char> = "one two".chars().collect();
    let mut lexer = Lexer::new(&chars);
    assert_eq!(lexer.next_token(), Some(String::from("one")));
    assert_eq!(lexer.next_token(), Some(String::from("two")));
    assert_eq!(lexer.next_token(), None);
    assert_eq!(lexer.next_token(), None);
}

#[test]
fn empty_input_has_no_token() {
    let chars: Vec<char> = Vec::new();
    let mut lexer = Lexer::new(&chars);
    assert_eq!(lexer.next_token(), None);
    assert_eq!(tokens_of(""), Vec::<String>::new());
}

#[test]
fn white_space_alone_has_no_token() {
    assert_eq!(tokens_of(" \t\r\n  "), Vec::<String>::new());
}

#[test]
fn letters_are_one_token() {
    assert_eq!(tokens_of("tokenizer"), strings(&["tokenizer"]));
    assert_eq!(tokens_of("Straße"), strings(&["Straße"]));
    assert_eq!(tokens_of("東京"), strings(&["東京"]));
}

#[test]
fn decimal_is_three_tokens() {
    assert_eq!(tokens_of("10.2532"), strings(&["10", ".", "2532"]));
    assert_eq!(tokens_of("0.0"), strings(&["0", ".", "0"]));
}

#[test]
fn word_takes_digits_in() {
    assert_eq!(tokens_of("Hello20"), strings(&["Hello20"]));
    assert_eq!(tokens_of("a1b2 c3"), strings(&["a1b2", "c3"]));
}

#[test]
fn number_stops_at_a_letter() {
    assert_eq!(tokens_of("20Hello"), strings(&["20", "Hello"]));
}

#[test]
fn symbols_are_single_tokens() {
    assert_eq!(tokens_of("[a,b]"), strings(&["[", "a", ",", "b", "]"]));
    assert_eq!(tokens_of("!!"), strings(&["!", "!"]));
    assert_eq!(tokens_of("€5"), strings(&["€", "5"]));
}

#[test]
fn case_is_kept() {
    assert_eq!(tokens_of("Dog dog DOG"), strings(&["Dog", "dog", "DOG"]));
}

#[test]
fn white_space_separates_and_is_dropped() {
    assert_eq!(tokens_of("  dog\tcat\n\nbird  "), strings(&["dog", "cat", "bird"]));
    assert_eq!(tokens_of("dog\u{00A0}cat\u{3000}bird"), strings(&["dog", "cat", "bird"]));
}

#[test]
fn numeric_characters_outside_ascii_form_numbers() {
    assert_eq!(tokens_of("٣٤ x"), strings(&["٣٤", "x"]));
}

#[test]
fn tokens_exhaust_the_lexer() {
    let chars: Vec<char> = "a b c".chars().collect();
    let mut lexer = Lexer::new(&chars);
    assert_eq!(lexer.next_token(), Some(String::from("a")));
    assert_eq!(lexer.tokens(), strings(&["b", "c"]));
    assert_eq!(lexer.next_token(), None);
}

#[test]
fn chars_of_keeps_every_character() {
    assert_eq!(chars_of("aé東 "), vec!['a', 'é', '東', ' ']);
    assert_eq!(chars_of(""), Vec::<char>::new());
}

#[test]
fn retokenizing_the_joined_tokens_gives_the_tokens() {
    let text = "Hello, 20 [20, 10, 30] 20.10.20 x=y";
    let tokens = tokens_of(text);
    let joined: String = tokens.concat();
    assert_eq!(joined, "Hello,20[20,10,30]20.10.20x=y");
    assert_eq!(tokens_of(&joined), tokens);
}

#[test]
fn joined_tokens_that_merge_read_differently() {
    let tokens = tokens_of("dog cat");
    let joined: String = tokens.concat();
    assert_eq!(tokens_of(&joined), strings(&["dogcat"]));
}

#[test]
fn ascii_characters_fall_into_their_classes() {
    for code in 0u8..128 {
        let c = code as char;
        let space = c == ' ' || ('\t'..='\r').contains(&c);
        let word = c.is_ascii_alphabetic() || c.is_ascii_digit();
        let text = format!("x{}y", c);
        let expected = if space {
            strings(&["x", "y"])
        } else if word {
            vec![text.clone()]
        } else {
            vec![String::from("x"), c.to_string(), String::from("y")]
        };
        assert_eq!(tokens_of(&text), expected, "{:?}", c);
        let number = format!("1{}2", c);
        let expected = if space {
            strings(&["1", "2"])
        } else if c.is_ascii_digit() {
            vec![number.clone()]
        } else if c.is_ascii_alphabetic() {
            vec![String::from("1"), format!("{}2", c)]
        } else {
            vec![String::from("1"), c.to_string(), String::from("2")]
        };
        assert_eq!(tokens_of(&number), expected, "{:?}", c);
    }
}

#[test]
fn every_letter_alone_is_one_token() {
    let mut letters = 0;
    for code in 0u32..=0x10FFFF {
        if let Some(c) = char::from_u32(code) {
            if c.is_alphabetic() {
                letters += 1;
                assert_eq!(tokens_of(&c.to_string()), vec![c.to_string()], "{:?}", c);
            }
        }
    }
    assert!(letters > 52);
}
