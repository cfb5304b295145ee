//! Tokens, and the scanner that cuts program text into them.

use regex::Regex;
use vstd::prelude::*;
use vstd::string::StringExecFns;
use crate::text::{decimal_text, format_decimal, lemma_encoding_length, text_eq};

verus! {

/// The lexical class of a token.
#[derive(Copy, Clone, PartialEq, Eq, Hash, Debug, Structural)]
pub enum TokenType {
    Identifier,
    Number,
    Symbol,
    Keyword,
}

impl TokenType {
    /// The name of the class, as diagnostics print it.
    pub open spec fn name(self) -> Seq<char> {
        match self {
            TokenType::Identifier => "Identifier"@,
            TokenType::Number => "Number"@,
            TokenType::Symbol => "Symbol"@,
            TokenType::Keyword => "Keyword"@,
        }
    }

    /// The name of the class.
    pub fn to_string(&self) -> (r: String)
        ensures
            r@ == self.name(),
    {
        match self {
            TokenType::Identifier => "Identifier".to_owned(),
            TokenType::Number => "Number".to_owned(),
            TokenType::Symbol => "Symbol".to_owned(),
            TokenType::Keyword => "Keyword".to_owned(),
        }
    }
}

/// A lexeme with its class and the line it was read on.
#[derive(Debug)]
pub struct Token {
    pub kind: TokenType,
    pub value: String,
    pub line: usize,
}

/// A token as contracts speak of it: its class, its text, its line.
pub struct TokenView {
    pub kind: TokenType,
    pub value: Seq<char>,
    pub line: nat,
}

impl View for Token {
    type V = TokenView;

    open spec fn view(&self) -> TokenView {
        TokenView { kind: self.kind, value: self.value@, line: self.line as nat }
    }
}

impl Clone for Token {
    fn clone(&self) -> (r: Self)
        ensures
            r == *self,
    {
        Token { kind: self.kind, value: self.value.clone(), line: self.line }
    }
}

impl TokenView {
    /// The text a token is printed as: its lexeme, a colon, its class.
    pub open spec fn text(self) -> Seq<char> {
        self.value + ": "@ + self.kind.name()
    }
}

impl Token {
    /// A token of the given class and text, read on the given line.
    pub fn new(kind: TokenType, value: String, line: usize) -> (r: Token)
        ensures
            r.kind == kind,
            r.value == value,
            r.line == line,
    {
        Token { kind, value, line }
    }

    /// The token as it is printed: its lexeme, a colon, its class.
    pub fn to_string(&self) -> (r: String)
        ensures
            r@ == self@.text(),
    {
        let mut s = self.value.clone();
        s.append(": ");
        s.append(self.kind.to_string().as_str());
        s
    }
}

/// The views of a sequence of tokens, in order.
pub open spec fn token_views(tokens: Seq<Token>) -> Seq<TokenView> {
    tokens.map_values(|t: Token| t@)
}

/// Text that the scanner could not read, and the line it stands on.
pub struct ScanError {
    buffer: String,
    linenumber: usize,
}

/// A scan error as contracts speak of it.
pub struct ScanErrorView {
    pub buffer: Seq<char>,
    pub linenumber: nat,
}

impl ScanErrorView {
    /// The message a scan error is reported with.
    pub open spec fn message(self) -> Seq<char> {
        "Scan Error on line "@ + decimal_text(self.linenumber) + ": unable to read \""@
            + self.buffer + "\""@
    }
}

impl View for ScanError {
    type V = ScanErrorView;

    closed spec fn view(&self) -> ScanErrorView {
        ScanErrorView { buffer: self.buffer@, linenumber: self.linenumber as nat }
    }
}

impl ScanError {
    /// The message the error is reported with.
    pub fn to_string(&self) -> (r: String)
        ensures
            r@ == self@.message(),
    {
        let mut s = "Scan Error on line ".to_owned();
        s.append(format_decimal(self.linenumber as u64).as_str());
        s.append(": unable to read \"");
        s.append(self.buffer.as_str());
        s.append("\"");
        s
    }
}

/// Identifiers: a letter, then letters and digits.
pub const IDENTIFIER_PATTERN: &'static str = r"^([[:alpha:]])([[:alpha:]]|[0-9])*$";

/// Numbers: one or more digits.
pub const NUMBER_PATTERN: &'static str = r"^[0-9]+$";

/// The symbols of arithmetic, the brackets, the semicolon and the sign of
/// assignment.
pub const SYMBOL_PATTERN: &'static str = r"^(\+|\-|\*|/|\(|\)|;|:=)$";

/// The words that are no identifiers.
pub const KEYWORD_PATTERN: &'static str = r"^(if|then|else|endif|while|do|endwhile|skip)$";

impl TokenType {
    /// The regular expression that the lexemes of the class match.
    pub open spec fn pattern(self) -> Seq<char> {
        match self {
            TokenType::Identifier => IDENTIFIER_PATTERN@,
            TokenType::Number => NUMBER_PATTERN@,
            TokenType::Symbol => SYMBOL_PATTERN@,
            TokenType::Keyword => KEYWORD_PATTERN@,
        }
    }
}

/// The regular expression of a class.
fn pattern_of(kind: TokenType) -> (r: &'static str)
    ensures
        r@ == kind.pattern(),
{
    match kind {
        TokenType::Identifier => IDENTIFIER_PATTERN,
        TokenType::Number => NUMBER_PATTERN,
        TokenType::Symbol => SYMBOL_PATTERN,
        TokenType::Keyword => KEYWORD_PATTERN,
    }
}

/// What compiling `pattern` with `regex::Regex::new` and searching `text`
/// with `Regex::is_match` gives: `None` where the pattern does not compile,
/// else whether the text holds a match.
pub uninterp spec fn regex_search(pattern: Seq<char>, text: Seq<char>) -> Option<bool>;

/// Compiles the pattern with `regex::Regex::new` and searches the text with
/// `Regex::is_match`. Both depend on the two strings alone, so the outcome
/// is the one named by `regex_search`.
#[verifier::external_body]
fn search(pattern: &str, text: &str) -> (r: Option<bool>)
    ensures
        r == regex_search(pattern@, text@),
{
    match Regex::new(pattern) {
        Ok(regex) => Some(regex.is_match(text)),
        Err(_) => None,
    }
}

/// Whether `char::is_whitespace` holds of a character, that is whether it
/// has the Unicode property White_Space.
pub uninterp spec fn white_space(c: char) -> bool;

/// `char::is_whitespace`.
#[verifier::external_body]
fn is_whitespace(c: char) -> (r: bool)
    ensures
        r == white_space(c),
{
    c.is_whitespace()
}

/// Whether `text` is a lexeme of the class: the class's pattern compiles and
/// matches it.
pub open spec fn recognizes(kind: TokenType, text: Seq<char>) -> bool {
    regex_search(kind.pattern(), text) == Some(true)
}

/// Whether `text` is a lexeme of the class.
fn matches_kind(kind: TokenType, text: &str) -> (r: bool)
    ensures
        r == recognizes(kind, text@),
{
    match search(pattern_of(kind), text) {
        Some(found) => found,
        None => false,
    }
}

/// The class a lexeme is scanned as, judged by its first character: an
/// identifier, else a number, else a symbol. A colon starts a symbol too.
pub open spec fn initial_kind(first: Seq<char>) -> Option<TokenType> {
    if recognizes(TokenType::Identifier, first) {
        Some(TokenType::Identifier)
    } else if recognizes(TokenType::Number, first) {
        Some(TokenType::Number)
    } else if recognizes(TokenType::Symbol, first) || first == ":"@ {
        Some(TokenType::Symbol)
    } else {
        None
    }
}

/// The class a finished lexeme is given: an identifier that is a keyword
/// becomes one, every other lexeme keeps the class it was scanned as.
pub open spec fn settled_kind(kind: TokenType, text: Seq<char>) -> TokenType {
    if kind == TokenType::Identifier && recognizes(TokenType::Keyword, text) {
        TokenType::Keyword
    } else {
        kind
    }
}

/// The outcome of a scan: the tokens, or the first text that could not be read.
pub type Scanned = Result<Seq<TokenView>, ScanErrorView>;

/// The outcome `rest` of scanning on, with `tokens` already read before it.
pub open spec fn after(tokens: Seq<TokenView>, rest: Scanned) -> Scanned {
    match rest {
        Ok(more) => Ok(tokens + more),
        Err(e) => Err(e),
    }
}

/// Scanning a line from `pos` on, where no lexeme is under way: white space
/// is passed over, any other character starts a lexeme.
pub open spec fn scan_gap(line: Seq<char>, pos: int, number: nat) -> Scanned
    decreases line.len() - pos, 0nat,
{
    if pos < 0 || pos >= line.len() {
        Ok(Seq::empty())
    } else if white_space(line[pos]) {
        scan_gap(line, pos + 1, number)
    } else {
        match initial_kind(seq![line[pos]]) {
            Some(kind) => scan_lexeme(line, pos, pos + 1, kind, number),
            None => Err(ScanErrorView { buffer: seq![line[pos]], linenumber: number }),
        }
    }
}

/// Scanning a line on where the lexeme of class `kind` that began at `start`
/// has reached `end`. It takes the next character while the longer text is
/// still a lexeme of its class; where it can grow no more it must be one.
pub open spec fn scan_lexeme(
    line: Seq<char>,
    start: int,
    end: int,
    kind: TokenType,
    number: nat,
) -> Scanned
    decreases line.len() - end, 1nat,
{
    if 0 <= end < line.len() && !white_space(line[end]) && recognizes(
        kind,
        line.subrange(start, end + 1),
    ) {
        scan_lexeme(line, start, end + 1, kind, number)
    } else {
        let text = line.subrange(start, end);
        if recognizes(kind, text) {
            after(
                seq![TokenView { kind: settled_kind(kind, text), value: text, line: number }],
                scan_gap(line, end, number),
            )
        } else {
            Err(ScanErrorView { buffer: text, linenumber: number })
        }
    }
}

/// The tokens of one line of text.
pub open spec fn scan_line(line: Seq<char>, number: nat) -> Scanned {
    scan_gap(line, 0, number)
}

/// Where the line that holds position `pos` ends: at the next line feed, or
/// at the end of the text.
pub open spec fn line_end(text: Seq<char>, pos: int) -> int
    decreases text.len() - pos,
{
    if 0 <= pos < text.len() && text[pos] != '\n' {
        line_end(text, pos + 1)
    } else {
        pos
    }
}

/// A line ends at or after each of its positions, and within the text.
pub proof fn lemma_line_end_bounds(text: Seq<char>, pos: int)
    requires
        0 <= pos <= text.len(),
    ensures
        pos <= line_end(text, pos) <= text.len(),
        line_end(text, pos) < text.len() ==> text[line_end(text, pos)] == '\n',
        forall|i: int| pos <= i < line_end(text, pos) ==> text[i] != '\n',
    decreases text.len() - pos,
{
    if pos < text.len() && text[pos] != '\n' {
        lemma_line_end_bounds(text, pos + 1);
    }
}

/// The tokens of the lines of a text from position `pos` on, the line at
/// `pos` counted as line `number`. Lines are parted by line feeds; a line
/// feed at the very end opens no further line.
pub open spec fn scan_lines(text: Seq<char>, pos: int, number: nat) -> Scanned
    decreases text.len() - pos,
{
    if pos < 0 || pos >= text.len() {
        Ok(Seq::empty())
    } else {
        let end = line_end(text, pos);
        proof {
            lemma_line_end_bounds(text, pos);
        }
        match scan_line(text.subrange(pos, end), number) {
            Ok(tokens) => if end < text.len() {
                after(tokens, scan_lines(text, end + 1, number + 1))
            } else {
                Ok(tokens)
            },
            Err(e) => Err(e),
        }
    }
}

/// The tokens of a whole text, its first line counted as line 1.
pub open spec fn scan_text(text: Seq<char>) -> Scanned {
    scan_lines(text, 0, 1)
}

/// Whether a scan ended as the model of the scanner does: with the same
/// tokens, or with the same error.
pub open spec fn scanned_as(outcome: Result<Vec<Token>, ScanError>, scanned: Scanned) -> bool {
    match outcome {
        Ok(tokens) => scanned == Ok::<Seq<TokenView>, ScanErrorView>(token_views(tokens@)),
        Err(e) => scanned == Err::<Seq<TokenView>, ScanErrorView>(e@),
    }
}

/// Finds the class of the lexeme that starts with `buffer`, its first character.
pub fn assign_initial_token(buffer: &str, line: usize) -> (r: Result<TokenType, ScanError>)
    ensures
        match initial_kind(buffer@) {
            Some(kind) => r == Ok::<TokenType, ScanError>(kind),
            None => r is Err && r->Err_0@ == (ScanErrorView {
                buffer: buffer@,
                linenumber: line as nat,
            }),
        },
{
    if matches_kind(TokenType::Identifier, buffer) {
        Ok(TokenType::Identifier)
    } else if matches_kind(TokenType::Number, buffer) {
        Ok(TokenType::Number)
    } else if matches_kind(TokenType::Symbol, buffer) {
        Ok(TokenType::Symbol)
    } else if text_eq(buffer, ":") {
        Ok(TokenType::Symbol)
    } else {
        Err(ScanError { buffer: buffer.to_owned(), linenumber: line })
    }
}

/// Tells a keyword from an identifier, once the lexeme is complete.
pub fn check_if_keyword(buffer: &str, kind: TokenType) -> (r: TokenType)
    ensures
        r == settled_kind(kind, buffer@),
{
    if kind == TokenType::Identifier && matches_kind(TokenType::Keyword, buffer) {
        TokenType::Keyword
    } else {
        kind
    }
}

/// Ends a lexeme: where `buffer` is a lexeme of the class it was scanned as,
/// its token is added to `tokens`; where it is not, nothing is added and the
/// buffer is reported as unreadable.
pub fn add_token(buffer: &str, tokens: &mut Vec<Token>, kind: TokenType, line: usize) -> (r: Result<
    TokenType,
    ScanError,
>)
    ensures
        recognizes(kind, buffer@) ==> r == Ok::<TokenType, ScanError>(settled_kind(kind, buffer@))
            && token_views(final(tokens)@) == token_views(old(tokens)@).push(
            TokenView { kind: settled_kind(kind, buffer@), value: buffer@, line: line as nat },
        ),
        !recognizes(kind, buffer@) ==> r is Err && r->Err_0@ == (ScanErrorView {
            buffer: buffer@,
            linenumber: line as nat,
        }) && final(tokens)@ == old(tokens)@,
{
    if matches_kind(kind, buffer) {
        let newkind = check_if_keyword(buffer, kind);
        let newtoken = Token::new(newkind, buffer.to_owned(), line);
        tokens.push(newtoken);
        Ok(newkind)
    } else {
        Err(ScanError { buffer: buffer.to_owned(), linenumber: line })
    }
}

/// Cuts one line into tokens.
pub fn line_to_tokens(line: &str, linenumber: usize) -> (r: Result<Vec<Token>, ScanError>)
    ensures
        scanned_as(r, scan_line(line@, linenumber as nat)),
{
    let mut tokens: Vec<Token> = Vec::new();
    let mut buffer = String::new();
    let mut token = TokenType::Symbol;
    let ghost mut start: int = 0;
    let ghost number = linenumber as nat;
    for c in it: line.chars()
        invariant
            it.seq() == line@,
            number == linenumber as nat,
            0 <= start <= it.index() <= line@.len(),
            buffer@ == line@.subrange(start, it.index() as int),
            buffer@.len() == 0 ==> scan_line(line@, number) == after(
                token_views(tokens@),
                scan_gap(line@, it.index() as int, number),
            ),
            buffer@.len() > 0 ==> scan_line(line@, number) == after(
                token_views(tokens@),
                scan_lexeme(line@, start, it.index() as int, token, number),
            ),
    {
        let ghost pos = it.index() as int;
        let ghost read = token_views(tokens@);
        if is_whitespace(c) {
            if !buffer.as_str().is_empty() {
                match add_token(buffer.as_str(), &mut tokens, token, linenumber) {
                    Ok(_) => {},
                    Err(e) => {
                        return Err(e);
                    },
                }
                proof {
                    lemma_after_push(
                        read,
                        token_views(tokens@).last(),
                        scan_gap(line@, pos, number),
                    );
                }
                buffer = String::new();
            }
            proof {
                start = pos + 1;
            }
        } else if buffer.as_str().is_empty() {
            buffer.push(c);
            assert(buffer@ =~= seq![line@[pos]]);
            match assign_initial_token(buffer.as_str(), linenumber) {
                Ok(kind) => {
                    token = kind;
                },
                Err(e) => {
                    return Err(e);
                },
            }
            proof {
                start = pos;
            }
        } else {
            let mut longer = buffer.clone();
            longer.push(c);
            assert(longer@ =~= line@.subrange(start, pos + 1));
            if matches_kind(token, longer.as_str()) {
                buffer = longer;
            } else {
                match add_token(buffer.as_str(), &mut tokens, token, linenumber) {
                    Ok(_) => {},
                    Err(e) => {
                        return Err(e);
                    },
                }
                proof {
                    lemma_after_push(
                        read,
                        token_views(tokens@).last(),
                        scan_gap(line@, pos, number),
                    );
                }
                buffer = String::new();
                buffer.push(c);
                match assign_initial_token(buffer.as_str(), linenumber) {
                    Ok(kind) => {
                        token = kind;
                    },
                    Err(e) => {
                        return Err(e);
                    },
                }
                proof {
                    start = pos;
                }
            }
        }
    }
    let ghost read = token_views(tokens@);
    if !buffer.as_str().is_empty() {
        match add_token(buffer.as_str(), &mut tokens, token, linenumber) {
            Ok(_) => {},
            Err(e) => {
                return Err(e);
            },
        }
        proof {
            lemma_after_push(
                read,
                token_views(tokens@).last(),
                scan_gap(line@, line@.len() as int, number),
            );
        }
    }
    Ok(tokens)
}

/// A token read last may be counted with those before it, or with the
/// outcome after it.
pub proof fn lemma_after_push(read: Seq<TokenView>, token: TokenView, rest: Scanned)
    ensures
        after(read, after(seq![token], rest)) == after(read.push(token), rest),
{
    if let Ok(more) = rest {
        assert(read + (seq![token] + more) =~= read.push(token) + more);
    }
}

/// Tokens read before an outcome may be counted in two parts.
pub proof fn lemma_after_after(first: Seq<TokenView>, second: Seq<TokenView>, rest: Scanned)
    ensures
        after(first, after(second, rest)) == after(first + second, rest),
{
    if let Ok(more) = rest {
        assert(first + (second + more) =~= (first + second) + more);
    }
}

/// A stretch of text without a line feed, closed by a line feed or by the
/// end of the text, is a line.
pub proof fn lemma_line_end_is(text: Seq<char>, pos: int, end: int)
    requires
        0 <= pos <= end <= text.len(),
        forall|i: int| pos <= i < end ==> text[i] != '\n',
        end < text.len() ==> text[end] == '\n',
    ensures
        line_end(text, pos) == end,
    decreases end - pos,
{
    if pos < end {
        lemma_line_end_is(text, pos + 1, end);
    }
}

/// Cuts a text into tokens, line by line.
pub fn scan_file(file: String) -> (r: Result<Vec<Token>, ScanError>)
    ensures
        scanned_as(r, scan_text(file@)),
{
    let text = file.as_str();
    // A text has no more characters than bytes, and so no more lines than
    // a `usize` can count.
    let size = text.as_bytes().len();
    proof {
        lemma_encoding_length(text@);
    }
    let mut tokens: Vec<Token> = Vec::new();
    let mut current = String::new();
    let mut finished: usize = 0;
    let ghost mut start: int = 0;
    for c in it: text.chars()
        invariant
            it.seq() == text@,
            text@ == file@,
            text@.len() <= size,
            0 <= start <= it.index() <= text@.len(),
            finished <= start,
            current@ == text@.subrange(start, it.index() as int),
            forall|i: int| start <= i < it.index() ==> text@[i] != '\n',
            scan_text(text@) == after(
                token_views(tokens@),
                scan_lines(text@, start, (finished + 1) as nat),
            ),
    {
        let ghost pos = it.index() as int;
        let ghost read = token_views(tokens@);
        if c == '\n' {
            proof {
                lemma_line_end_is(text@, start, pos);
            }
            let mut line = match line_to_tokens(current.as_str(), finished + 1) {
                Ok(line) => line,
                Err(e) => {
                    return Err(e);
                },
            };
            proof {
                lemma_after_after(
                    read,
                    token_views(line@),
                    scan_lines(text@, pos + 1, (finished + 2) as nat),
                );
                assert(token_views(tokens@ + line@) =~= read + token_views(line@));
            }
            tokens.append(&mut line);
            current = String::new();
            finished = finished + 1;
            proof {
                start = pos + 1;
            }
        } else {
            current.push(c);
        }
    }
    if !current.as_str().is_empty() {
        let ghost read = token_views(tokens@);
        proof {
            lemma_line_end_is(text@, start, text@.len() as int);
        }
        let mut line = match line_to_tokens(current.as_str(), finished + 1) {
            Ok(line) => line,
            Err(e) => {
                return Err(e);
            },
        };
        proof {
            assert(token_views(tokens@ + line@) =~= read + token_views(line@));
        }
        tokens.append(&mut line);
    }
    Ok(tokens)
}

} // verus!
