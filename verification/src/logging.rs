use vstd::prelude::*;
use vstd::string::*;
use crate::events::{notice_text, Notice};

verus! {

/// A compiled regular expression of the `regex` crate.
#[verifier::external_type_specification]
#[verifier::external_body]
pub struct ExRegex(regex::Regex);

/// The text that a compiled expression was made from, as `regex::Regex::as_str`
/// gives it.
pub uninterp spec fn pattern_of(expression: regex::Regex) -> Seq<char>;

/// Whether `regex::Regex::new` takes `pattern` for a regular expression.
pub uninterp spec fn compiles(pattern: Seq<char>) -> bool;

/// What `regex::Regex::find` reports for an expression made from `pattern` on
/// `text`: the leftmost match, as the text matched and the text that follows
/// it, or nothing.
pub uninterp spec fn leftmost_match(pattern: Seq<char>, text: Seq<char>) -> Option<
    (Seq<char>, Seq<char>),
>;

/// The pair of texts as a pair of their characters.
pub open spec fn cut_view(cut: Option<(&str, &str)>) -> Option<(Seq<char>, Seq<char>)> {
    match cut {
        Some((matched, rest)) => Some((matched@, rest@)),
        None => None,
    }
}

/// `regex::Regex::new`: the expression compiled from `pattern`, or nothing
/// where the crate refuses the pattern. The expression remembers the text that
/// it was made from.
#[verifier::external_body]
fn compile(pattern: &str) -> (r: Option<regex::Regex>)
    ensures
        r.is_some() == compiles(pattern@),
        r matches Some(expression) ==> pattern_of(expression) == pattern@,
{
    regex::Regex::new(pattern).ok()
}

/// `regex::Regex::find`: the leftmost match of the expression in `text`,
/// handed out as the part of `text` that matched and the part behind the
/// match. The two parts do not overlap.
#[verifier::external_body]
fn find_match<'a>(expression: &regex::Regex, text: &'a str) -> (r: Option<(&'a str, &'a str)>)
    ensures
        cut_view(r) == leftmost_match(pattern_of(*expression), text@),
        r matches Some((matched, rest)) ==> matched@.len() + rest@.len() <= text@.len(),
{
    expression.find(text).map(|found| (found.as_str(), &text[found.end()..]))
}

/// The colours that a message can ask for.
#[derive(Clone, Copy, Debug, PartialEq, Eq, Structural)]
pub enum LogColors {
    Red,
    Green,
    Blue,
    Black,
    White,
}

/// A piece of a message.
#[derive(Debug, PartialEq, Eq)]
pub enum Token {
    Color(LogColors),
    Text(String),
    OpenParen,
    CloseParen,
}

/// What a token is in contracts.
pub ghost enum TokenView {
    Color(LogColors),
    Text(Seq<char>),
    OpenParen,
    CloseParen,
}

impl View for Token {
    type V = TokenView;

    open spec fn view(&self) -> TokenView {
        match self {
            Token::Color(color) => TokenView::Color(*color),
            Token::Text(text) => TokenView::Text(text@),
            Token::OpenParen => TokenView::OpenParen,
            Token::CloseParen => TokenView::CloseParen,
        }
    }
}

/// The tokens as they are in contracts.
pub open spec fn token_views(tokens: Seq<Token>) -> Seq<TokenView> {
    Seq::new(tokens.len(), |i: int| tokens[i]@)
}

/// A run of text: a letter, digit or one of `,!?.'`, then at least one more
/// of these or of white space.
pub open spec fn word_pattern() -> Seq<char> {
    "[a-zA-Z0-9,!?\\.'][a-zA-Z0-9,!?\\.'\\s]+"@
}

/// The name of a colour at the start of the text, ending at a word boundary.
pub open spec fn color_pattern() -> Seq<char> {
    "^(RED|GREEN|BLUE|BLACK)\\b"@
}

/// An opening bracket at the start of the text.
pub open spec fn open_pattern() -> Seq<char> {
    "^\\["@
}

/// A closing bracket at the start of the text.
pub open spec fn close_pattern() -> Seq<char> {
    "^\\]"@
}

/// The colour that a name stands for. Any name but those of red, green and
/// blue stands for white.
pub open spec fn color_named(name: Seq<char>) -> LogColors {
    if name == "RED"@ {
        LogColors::Red
    } else if name == "GREEN"@ {
        LogColors::Green
    } else if name == "BLUE"@ {
        LogColors::Blue
    } else {
        LogColors::White
    }
}

/// The token at the head of `text` and the text behind it: the name of a
/// colour, else a bracket, else the next run of text, before which anything
/// else is skipped.
pub open spec fn next_token(text: Seq<char>) -> Option<(TokenView, Seq<char>)> {
    match leftmost_match(color_pattern(), text) {
        Some((name, rest)) => Some((TokenView::Color(color_named(name)), rest)),
        None => match leftmost_match(open_pattern(), text) {
            Some((_, rest)) => Some((TokenView::OpenParen, rest)),
            None => match leftmost_match(close_pattern(), text) {
                Some((_, rest)) => Some((TokenView::CloseParen, rest)),
                None => match leftmost_match(word_pattern(), text) {
                    Some((word, rest)) => Some((TokenView::Text(word), rest)),
                    None => None,
                },
            },
        },
    }
}

/// The tokens of `text`: token after token from its head, until none is found
/// or one would use up nothing of the text.
pub open spec fn tokens_of(text: Seq<char>) -> Seq<TokenView>
    decreases text.len(),
{
    match next_token(text) {
        Some((token, rest)) => if rest.len() < text.len() {
            seq![token] + tokens_of(rest)
        } else {
            Seq::empty()
        },
        None => Seq::empty(),
    }
}

/// The `regex` crate takes each of the four patterns for a regular
/// expression.
pub open spec fn patterns_compile() -> bool {
    &&& compiles(word_pattern())
    &&& compiles(color_pattern())
    &&& compiles(open_pattern())
    &&& compiles(close_pattern())
}

/// The four expressions that cut a message into tokens.
pub struct Lexer {
    word: regex::Regex,
    color: regex::Regex,
    open_bracket: regex::Regex,
    close_bracket: regex::Regex,
}

impl Lexer {
    /// Each expression was made from its pattern.
    pub closed spec fn wf(&self) -> bool {
        &&& pattern_of(self.word) == word_pattern()
        &&& pattern_of(self.color) == color_pattern()
        &&& pattern_of(self.open_bracket) == open_pattern()
        &&& pattern_of(self.close_bracket) == close_pattern()
    }

    /// Compiles the four expressions. There is no lexer where one of them
    /// does not compile.
    pub fn new() -> (r: Option<Lexer>)
        ensures
            r.is_some() == patterns_compile(),
            r matches Some(lexer) ==> lexer.wf(),
    {
        let word = compile("[a-zA-Z0-9,!?\\.'][a-zA-Z0-9,!?\\.'\\s]+");
        let color = compile("^(RED|GREEN|BLUE|BLACK)\\b");
        let open_bracket = compile("^\\[");
        let close_bracket = compile("^\\]");
        match (word, color, open_bracket, close_bracket) {
            (Some(word), Some(color), Some(open_bracket), Some(close_bracket)) => Some(
                Lexer { word, color, open_bracket, close_bracket },
            ),
            _ => None,
        }
    }

    /// The token at the head of `source` and the rest of `source`.
    fn match_token<'a>(&self, source: &'a str) -> (r: Option<(Token, &'a str)>)
        requires
            self.wf(),
        ensures
            match r {
                Some((token, rest)) => next_token(source@) == Some((token@, rest@)) && rest@.len()
                    <= source@.len(),
                None => next_token(source@).is_none(),
            },
    {
        if let Some((name, rest)) = find_match(&self.color, source) {
            return Some((Token::Color(color_by_name(name)), rest));
        }
        if let Some((_, rest)) = find_match(&self.open_bracket, source) {
            return Some((Token::OpenParen, rest));
        }
        if let Some((_, rest)) = find_match(&self.close_bracket, source) {
            return Some((Token::CloseParen, rest));
        }
        if let Some((word, rest)) = find_match(&self.word, source) {
            return Some((Token::Text(String::from_str(word)), rest));
        }
        None
    }

    /// Cuts a message into tokens.
    pub fn lex(&self, input: &str) -> (tokens: Vec<Token>)
        requires
            self.wf(),
        ensures
            token_views(tokens@) == tokens_of(input@),
    {
        let mut tokens: Vec<Token> = Vec::new();
        let mut current_text = input;
        proof {
            assert(token_views(tokens@) =~= Seq::<TokenView>::empty());
            assert(Seq::<TokenView>::empty() + tokens_of(input@) =~= tokens_of(input@));
        }
        loop
            invariant
                self.wf(),
                token_views(tokens@) + tokens_of(current_text@) == tokens_of(input@),
            ensures
                token_views(tokens@) == tokens_of(input@),
            decreases current_text@.len(),
        {
            match self.match_token(current_text) {
                Some((token, next)) => {
                    if next.unicode_len() >= current_text.unicode_len() {
                        proof {
                            assert(token_views(tokens@) + Seq::<TokenView>::empty() =~= token_views(
                                tokens@,
                            ));
                        }
                        break ;
                    }
                    proof {
                        let before = token_views(tokens@);
                        assert(token_views(tokens@.push(token)) =~= before.push(token@));
                        assert(before.push(token@) + tokens_of(next@) =~= before + (seq![token@]
                            + tokens_of(next@)));
                    }
                    tokens.push(token);
                    current_text = next;
                },
                None => {
                    proof {
                        assert(token_views(tokens@) + Seq::<TokenView>::empty() =~= token_views(
                            tokens@,
                        ));
                    }
                    break ;
                },
            }
        }
        tokens
    }
}

/// The colour that a name stands for.
pub fn color_by_name(name: &str) -> (r: LogColors)
    ensures
        r == color_named(name@),
{
    let name = String::from_str(name);
    if name == String::from_str("RED") {
        LogColors::Red
    } else if name == String::from_str("GREEN") {
        LogColors::Green
    } else if name == String::from_str("BLUE") {
        LogColors::Blue
    } else {
        LogColors::White
    }
}

/// Cuts a message into tokens. There is no result where one of the
/// expressions that cut it does not compile.
pub fn lex(input: &str) -> (r: Option<Vec<Token>>)
    ensures
        r.is_some() == patterns_compile(),
        r matches Some(tokens) ==> token_views(tokens@) == tokens_of(input@),
{
    match Lexer::new() {
        Some(lexer) => Some(lexer.lex(input)),
        None => None,
    }
}

/// A piece of a message with the colour in which it is shown.
#[derive(Debug, PartialEq, Eq)]
pub struct LogItem {
    pub text: String,
    pub color: LogColors,
}

/// What a piece of a message is in contracts.
pub open spec fn item_views(items: Seq<LogItem>) -> Seq<(Seq<char>, LogColors)> {
    Seq::new(items.len(), |i: int| (items[i].text@, items[i].color))
}

/// Each opening bracket among the tokens is followed by a colour and a text.
pub open spec fn spans_complete(tokens: Seq<TokenView>) -> bool
    decreases tokens.len(),
{
    if tokens.len() == 0 {
        true
    } else {
        match tokens[0] {
            TokenView::OpenParen => tokens.len() >= 3 && tokens[1] is Color && tokens[2] is Text
                && spans_complete(tokens.skip(3)),
            _ => spans_complete(tokens.skip(1)),
        }
    }
}

/// The pieces that the tokens stand for: behind an opening bracket the text
/// in the colour named before it, any other text in white. Closing brackets
/// and stray colours stand for nothing.
pub open spec fn pieces_of(tokens: Seq<TokenView>) -> Seq<(Seq<char>, LogColors)>
    decreases tokens.len(),
{
    if tokens.len() == 0 {
        Seq::empty()
    } else {
        match tokens[0] {
            TokenView::OpenParen => if tokens.len() >= 3 {
                match (tokens[1], tokens[2]) {
                    (TokenView::Color(color), TokenView::Text(text)) => seq![(text, color)]
                        + pieces_of(tokens.skip(3)),
                    _ => Seq::empty(),
                }
            } else {
                Seq::empty()
            },
            TokenView::Text(text) => seq![(text, LogColors::White)] + pieces_of(tokens.skip(1)),
            _ => pieces_of(tokens.skip(1)),
        }
    }
}

/// Whether each opening bracket among the tokens is followed by a colour and
/// a text.
pub fn has_complete_spans(tokens: &Vec<Token>) -> (r: bool)
    ensures
        r == spans_complete(token_views(tokens@)),
{
    let ghost all = token_views(tokens@);
    let mut i: usize = 0;
    proof {
        assert(all.skip(0) =~= all);
    }
    while i < tokens.len()
        invariant
            i <= tokens.len(),
            all == token_views(tokens@),
            spans_complete(all) == spans_complete(all.skip(i as int)),
        decreases tokens.len() - i,
    {
        let ghost here = all.skip(i as int);
        proof {
            assert(here[0] == tokens@[i as int]@);
        }
        match &tokens[i] {
            Token::OpenParen => {
                if tokens.len() - i < 3 {
                    return false;
                }
                proof {
                    assert(here[1] == tokens@[i + 1]@);
                    assert(here[2] == tokens@[i + 2]@);
                    assert(here.skip(3) =~= all.skip(i + 3));
                }
                let colored = match &tokens[i + 1] {
                    Token::Color(_) => true,
                    _ => false,
                };
                let worded = match &tokens[i + 2] {
                    Token::Text(_) => true,
                    _ => false,
                };
                if !colored || !worded {
                    return false;
                }
                i += 3;
            },
            _ => {
                proof {
                    assert(here.skip(1) =~= all.skip(i + 1));
                }
                i += 1;
            },
        }
    }
    true
}

/// Turns tokens into the pieces of a message. Each opening bracket must be
/// followed by a colour and a text.
pub fn parse_tokens(tokens: Vec<Token>) -> (log: Vec<LogItem>)
    requires
        spans_complete(token_views(tokens@)),
    ensures
        item_views(log@) == pieces_of(token_views(tokens@)),
{
    let ghost all = token_views(tokens@);
    let mut log: Vec<LogItem> = Vec::new();
    let mut i: usize = 0;
    proof {
        assert(all.skip(0) =~= all);
        assert(item_views(log@) =~= Seq::<(Seq<char>, LogColors)>::empty());
        assert(Seq::<(Seq<char>, LogColors)>::empty() + pieces_of(all) =~= pieces_of(all));
    }
    while i < tokens.len()
        invariant
            i <= tokens.len(),
            all == token_views(tokens@),
            spans_complete(all.skip(i as int)),
            item_views(log@) + pieces_of(all.skip(i as int)) == pieces_of(all),
        decreases tokens.len() - i,
    {
        let ghost here = all.skip(i as int);
        let ghost done = item_views(log@);
        proof {
            assert(here[0] == tokens@[i as int]@);
        }
        match &tokens[i] {
            Token::OpenParen => {
                proof {
                    assert(here[1] == tokens@[i + 1]@);
                    assert(here[2] == tokens@[i + 2]@);
                    assert(here.skip(3) =~= all.skip(i + 3));
                }
                let color = match &tokens[i + 1] {
                    Token::Color(color) => *color,
                    _ => vstd::pervasive::unreached(),
                };
                let text = match &tokens[i + 2] {
                    Token::Text(text) => text.clone(),
                    _ => vstd::pervasive::unreached(),
                };
                proof {
                    let piece = (text@, color);
                    assert(item_views(log@.push(LogItem { text, color })) =~= done.push(piece));
                    assert(done.push(piece) + pieces_of(here.skip(3)) =~= done + (seq![piece]
                        + pieces_of(here.skip(3))));
                }
                log.push(LogItem { text, color });
                i += 3;
            },
            Token::Text(text) => {
                let text = text.clone();
                proof {
                    assert(here.skip(1) =~= all.skip(i + 1));
                    let piece = (text@, LogColors::White);
                    assert(item_views(log@.push(LogItem { text, color: LogColors::White }))
                        =~= done.push(piece));
                    assert(done.push(piece) + pieces_of(here.skip(1)) =~= done + (seq![piece]
                        + pieces_of(here.skip(1))));
                }
                log.push(LogItem { text, color: LogColors::White });
                i += 1;
            },
            _ => {
                proof {
                    assert(here.skip(1) =~= all.skip(i + 1));
                }
                i += 1;
            },
        }
    }
    proof {
        assert(pieces_of(all.skip(i as int)) =~= Seq::<(Seq<char>, LogColors)>::empty());
        assert(item_views(log@) + Seq::<(Seq<char>, LogColors)>::empty() =~= item_views(log@));
    }
    log
}

/// The messages that the game has shown, each as its coloured pieces.
pub struct Log {
    pub items: Vec<Vec<LogItem>>,
}

impl Default for Log {
    fn default() -> (r: Self)
        ensures
            r.items@ == Seq::<Vec<LogItem>>::empty(),
    {
        Log { items: Vec::new() }
    }
}

/// What a log holds in contracts: each message as its coloured pieces.
pub open spec fn log_view(log: Log) -> Seq<Seq<(Seq<char>, LogColors)>> {
    Seq::new(log.items@.len(), |i: int| item_views(log.items@[i]@))
}

/// The entry that a message makes in the log: its coloured pieces. It makes
/// none where an opening bracket is not followed by a colour and a text, or
/// where the expressions that cut the message do not compile.
pub open spec fn entry_of(text: Seq<char>) -> Option<Seq<(Seq<char>, LogColors)>> {
    if patterns_compile() && spans_complete(tokens_of(text)) {
        Some(pieces_of(tokens_of(text)))
    } else {
        None
    }
}

/// The entries of a log after a message has been added to it.
pub open spec fn with_message(
    entries: Seq<Seq<(Seq<char>, LogColors)>>,
    text: Seq<char>,
) -> Seq<Seq<(Seq<char>, LogColors)>> {
    match entry_of(text) {
        Some(entry) => entries.push(entry),
        None => entries,
    }
}

/// The entries of a log after the message of each notice has been added to
/// it, in the order of the notices.
pub open spec fn with_notices(
    entries: Seq<Seq<(Seq<char>, LogColors)>>,
    notices: Seq<Notice>,
) -> Seq<Seq<(Seq<char>, LogColors)>>
    decreases notices.len(),
{
    if notices.len() == 0 {
        entries
    } else {
        with_message(with_notices(entries, notices.drop_last()), notice_text(notices.last()))
    }
}

/// Adds a message to the log, cut into its coloured pieces. Tells whether it
/// did: the log stays as it is where an opening bracket of the message is not
/// followed by a colour and a text, or where the expressions that cut the
/// message do not compile.
pub fn log_new_message(log: &mut Log, text: &str) -> (r: bool)
    ensures
        r == entry_of(text@).is_some(),
        log_view(*final(log)) == with_message(log_view(*old(log)), text@),
        r ==> final(log).items@.len() == old(log).items@.len() + 1 && final(log).items@.drop_last()
            == old(log).items@,
        !r ==> *final(log) == *old(log),
{
    match lex(text) {
        Some(tokens) => {
            if has_complete_spans(&tokens) {
                let pieces = parse_tokens(tokens);
                log.items.push(pieces);
                proof {
                    assert(final(log).items@.drop_last() =~= old(log).items@);
                    assert(log_view(*final(log)) =~= log_view(*old(log)).push(item_views(pieces@)));
                }
                true
            } else {
                false
            }
        },
        None => false,
    }
}

/// Adds the message of each notice to the log, in the order of the notices,
/// and tells how many entries the log has gained.
pub fn log_notices(log: &mut Log, notices: &Vec<Notice>) -> (added: usize)
    ensures
        log_view(*final(log)) == with_notices(log_view(*old(log)), notices@),
        added == log_view(*final(log)).len() - log_view(*old(log)).len(),
        added <= notices.len(),
{
    let mut added: usize = 0;
    let mut i: usize = 0;
    proof {
        assert(notices@.take(0) =~= Seq::<Notice>::empty());
    }
    while i < notices.len()
        invariant
            i <= notices.len(),
            added <= i,
            log_view(*log) == with_notices(log_view(*old(log)), notices@.take(i as int)),
            added == log_view(*log).len() - log_view(*old(log)).len(),
        decreases notices.len() - i,
    {
        proof {
            assert(notices@.take(i + 1).drop_last() =~= notices@.take(i as int));
            assert(notices@.take(i + 1).last() == notices@[i as int]);
        }
        let message = notices[i].message();
        if log_new_message(log, message.as_str()) {
            added += 1;
        }
        i += 1;
    }
    proof {
        assert(notices@.take(notices@.len() as int) =~= notices@);
    }
    added
}

} // verus!
