use rogue_core::components::{Entity, HealthPotion, Item};
use rogue_core::events::Notice;
use rogue_core::logging::{
    color_by_name, has_complete_spans, lex, log_new_message, log_notices, parse_tokens, Lexer, Log,
    LogColors, LogItem, Token,
};

fn text(s: &str) -> Token {
    Token::Text(s.to_string())
}

fn item(s: &str, color: LogColors) -> LogItem {
    LogItem { text: s.to_string(), color }
}

#[test]
fn parsing() {
    let text_in = "[BLUE Hello ]World, My [RED name is louis!]";

    let tokens = lex(text_in).unwrap();

    let expect_tokens = vec![
        Token::OpenParen,
        Token::Color(LogColors::Blue),
        text("Hello "),
        Token::CloseParen,
        text("World, My "),
        Token::OpenParen,
        Token::Color(LogColors::Red),
        text("name is louis!"),
        Token::CloseParen,
    ];

    assert_eq!(tokens, expect_tokens);

    let log_message = parse_tokens(tokens);

    let expect_log = vec![
        item("Hello ", LogColors::Blue),
        item("World, My ", LogColors::White),
        item("name is louis!", LogColors::Red),
    ];

    assert_eq!(log_message, expect_log)
}

#[test]
fn parsing_normal_text() {
    let text_in = "Hello world my name is louis!";

    let tokens = lex(text_in).unwrap();

    let expect_tokens = vec![text("Hello world my name is louis!")];

    assert_eq!(tokens, expect_tokens);

    let log_message = parse_tokens(tokens);

    let expect_log = vec![item("Hello world my name is louis!", LogColors::White)];

    assert_eq!(log_message, expect_log)
}

#[test]
fn test() {
    let text_in = "You hit a [GREEN Tree!]. [RED The Tree isn't happy]";

    let tokens = lex(text_in).unwrap();

    let expect_tokens = vec![
        text("You hit a "),
        Token::OpenParen,
        Token::Color(LogColors::Green),
        text("Tree!"),
        Token::CloseParen,
        text(". "),
        Token::OpenParen,
        Token::Color(LogColors::Red),
        text("The Tree isn't happy"),
        Token::CloseParen,
    ];
    assert_eq!(tokens, expect_tokens);
}

#[test]
fn lexing_cuts_the_match_off_the_text() {
    let lexer = Lexer::new().unwrap();
    assert_eq!(lexer.lex("]]"), vec![Token::CloseParen, Token::CloseParen]);
    assert_eq!(lexer.lex(""), Vec::<Token>::new());
    assert_eq!(lexer.lex("ab"), vec![text("ab")]);
    assert_eq!(lexer.lex("a"), Vec::<Token>::new());
    assert_eq!(lexer.lex("BLACK ink"), vec![Token::Color(LogColors::White), text("ink")]);
    assert_eq!(lexer.lex("REDS"), vec![text("REDS")]);
}

#[test]
fn colour_names() {
    assert_eq!(color_by_name("RED"), LogColors::Red);
    assert_eq!(color_by_name("GREEN"), LogColors::Green);
    assert_eq!(color_by_name("BLUE"), LogColors::Blue);
    assert_eq!(color_by_name("BLACK"), LogColors::White);
    assert_eq!(color_by_name("red"), LogColors::White);
}

#[test]
fn stray_tokens_stand_for_nothing() {
    let tokens = vec![
        Token::CloseParen,
        Token::Color(LogColors::Red),
        text("plain"),
        Token::OpenParen,
        Token::Color(LogColors::Green),
        text("green"),
    ];
    assert!(has_complete_spans(&tokens));
    assert_eq!(
        parse_tokens(tokens),
        vec![item("plain", LogColors::White), item("green", LogColors::Green)]
    );
    assert_eq!(parse_tokens(Vec::new()), Vec::<LogItem>::new());
}

#[test]
fn incomplete_spans_are_told_apart() {
    assert!(!has_complete_spans(&vec![Token::OpenParen]));
    assert!(!has_complete_spans(&vec![Token::OpenParen, Token::Color(LogColors::Red)]));
    assert!(!has_complete_spans(&vec![Token::OpenParen, text("a"), text("b")]));
    assert!(!has_complete_spans(&vec![
        Token::OpenParen,
        Token::Color(LogColors::Red),
        Token::CloseParen
    ]));
    assert!(!has_complete_spans(&vec![
        text("fine"),
        Token::OpenParen,
        Token::Color(LogColors::Red),
        text("a"),
        Token::OpenParen
    ]));
    assert!(has_complete_spans(&vec![Token::OpenParen, Token::Color(LogColors::Red), text("a")]));
    assert!(has_complete_spans(&vec![]));
}

#[test]
fn messages_are_added_to_the_log_as_pieces() {
    let mut log = Log::default();
    assert!(log_new_message(&mut log, "That path is blocked"));
    assert!(log_new_message(&mut log, "You threw a [BLUE Health Potion ] at [RED 7v0]"));
    assert_eq!(log.items.len(), 2);
    assert_eq!(log.items[0], vec![item("That path is blocked", LogColors::White)]);
    assert_eq!(
        log.items[1],
        vec![
            item("You threw a ", LogColors::White),
            item("Health Potion ", LogColors::Blue),
            item("at ", LogColors::White),
            item("7v0", LogColors::Red),
        ]
    );
}

#[test]
fn a_message_with_an_incomplete_span_is_not_added() {
    let mut log = Log::default();
    assert!(!log_new_message(&mut log, "broken [RED"));
    assert!(!log_new_message(&mut log, "broken [ text"));
    assert!(log.items.is_empty());
}

#[test]
fn each_notice_makes_one_entry_in_the_log() {
    let mut log = Log::default();
    assert_eq!(log_notices(&mut log, &vec![Notice::PathBlocked]), 1);
    assert_eq!(log.items, vec![vec![item("That path is blocked", LogColors::White)]]);
    let thrown = Notice::ItemThrown {
        item: Item::HealthPotion(HealthPotion::default()),
        target: Entity(3),
    };
    assert_eq!(log_notices(&mut log, &vec![thrown, Notice::PathBlocked]), 2);
    assert_eq!(log.items.len(), 3);
    assert_eq!(
        log.items[1],
        vec![
            item("You threw a ", LogColors::White),
            item("Health Potion ", LogColors::Blue),
            item("at ", LogColors::White),
            item("3v0", LogColors::Red),
        ]
    );
    assert_eq!(log.items[2], vec![item("That path is blocked", LogColors::White)]);
    assert_eq!(log_notices(&mut log, &vec![]), 0);
    assert_eq!(log.items.len(), 3);
}
