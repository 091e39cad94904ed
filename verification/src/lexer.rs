//! Tokens of the definition language and the lexer that produces them.

use vstd::prelude::*;

use crate::text::{char_at, chars_of, decimal, push_decimal, push_str, str_eq};

verus! {

/// The code points that carry the Unicode `White_Space` property.
pub open spec fn is_white_space(c: char) -> bool {
    let u = c as u32;
    ||| 0x09 <= u <= 0x0d
    ||| u == 0x20
    ||| u == 0x85
    ||| u == 0xa0
    ||| u == 0x1680
    ||| 0x2000 <= u <= 0x200a
    ||| u == 0x2028
    ||| u == 0x2029
    ||| u == 0x202f
    ||| u == 0x205f
    ||| u == 0x3000
}

/// Whether the character has the Unicode `White_Space` property, as
/// `char::is_whitespace` of std tells.
fn char_is_whitespace(c: char) -> (r: bool)
    ensures
        r == is_white_space(c),
{
    let u = c as u32;
    (0x09 <= u && u <= 0x0d) || u == 0x20 || u == 0x85 || u == 0xa0 || u == 0x1680 || (0x2000 <= u
        && u <= 0x200a) || u == 0x2028 || u == 0x2029 || u == 0x202f || u == 0x205f || u == 0x3000
}

pub open spec fn is_ascii_digit(c: char) -> bool {
    '0' as u32 <= c as u32 <= '9' as u32
}

pub open spec fn is_ascii_alphanumeric(c: char) -> bool {
    ||| is_ascii_digit(c)
    ||| 'a' as u32 <= c as u32 <= 'z' as u32
    ||| 'A' as u32 <= c as u32 <= 'Z' as u32
}

/// A named character class of the language.
#[derive(Debug, Clone, Copy, PartialEq, Eq, Structural)]
pub enum Builtin {
    Digit,
    WordChar,
    WhiteSpace,
    Space,
    Tab,
    CarriageReturn,
    Linefeed,
    VerticalTab,
    FormFeed,
    Nul,
}

impl Builtin {
    /// The RE2 text of the class.
    pub open spec fn spec_build(self) -> Seq<char> {
        match self {
            Builtin::Digit => seq!['\\', 'd'],
            Builtin::WordChar => seq!['\\', 'w'],
            Builtin::WhiteSpace => seq!['\\', 's'],
            Builtin::Tab => seq!['\\', 't'],
            Builtin::CarriageReturn => seq!['\\', 'r'],
            Builtin::Linefeed => seq!['\\', 'n'],
            Builtin::VerticalTab => seq!['\\', 'v'],
            Builtin::FormFeed => seq!['\\', 'f'],
            Builtin::Nul => seq!['\\', '0'],
            Builtin::Space => seq![' '],
        }
    }

    /// The characters that the class matches.
    pub open spec fn spec_contains(self, c: char) -> bool {
        match self {
            Builtin::Digit => is_ascii_digit(c),
            Builtin::WordChar => is_ascii_alphanumeric(c),
            Builtin::WhiteSpace => is_white_space(c),
            Builtin::Space => c == ' ',
            Builtin::Tab => c == '\t',
            Builtin::CarriageReturn => c == '\r',
            Builtin::Linefeed => c == '\n',
            Builtin::VerticalTab => c == '\x0b',
            Builtin::FormFeed => c == '\x0c',
            Builtin::Nul => c == '\0',
        }
    }

    /// The classes that this class is known to include: itself, the digits
    /// in `WordChar`, and the single whitespace characters in `WhiteSpace`.
    pub open spec fn spec_contains_builtin(self, c: Builtin) -> bool {
        ||| c == self
        ||| self == Builtin::WordChar && c == Builtin::Digit
        ||| self == Builtin::WhiteSpace && (c == Builtin::Space || c == Builtin::Tab
            || c == Builtin::CarriageReturn || c == Builtin::Linefeed
            || c == Builtin::VerticalTab || c == Builtin::FormFeed)
    }

    pub fn build(self) -> (r: &'static str)
        ensures
            r@ == self.spec_build(),
    {
        match self {
            Builtin::Digit => {
                proof {
                    reveal_strlit("\\d");
                }
                "\\d"
            },
            Builtin::WordChar => {
                proof {
                    reveal_strlit("\\w");
                }
                "\\w"
            },
            Builtin::WhiteSpace => {
                proof {
                    reveal_strlit("\\s");
                }
                "\\s"
            },
            Builtin::Tab => {
                proof {
                    reveal_strlit("\\t");
                }
                "\\t"
            },
            Builtin::CarriageReturn => {
                proof {
                    reveal_strlit("\\r");
                }
                "\\r"
            },
            Builtin::Linefeed => {
                proof {
                    reveal_strlit("\\n");
                }
                "\\n"
            },
            Builtin::VerticalTab => {
                proof {
                    reveal_strlit("\\v");
                }
                "\\v"
            },
            Builtin::FormFeed => {
                proof {
                    reveal_strlit("\\f");
                }
                "\\f"
            },
            Builtin::Nul => {
                proof {
                    reveal_strlit("\\0");
                }
                "\\0"
            },
            Builtin::Space => {
                proof {
                    reveal_strlit(" ");
                }
                " "
            },
        }
    }

    pub fn contains(self, c: char) -> (r: bool)
        ensures
            r == self.spec_contains(c),
    {
        match self {
            Builtin::Digit => '0' <= c && c <= '9',
            Builtin::WordChar => ('0' <= c && c <= '9') || ('a' <= c && c <= 'z') || ('A' <= c
                && c <= 'Z'),
            Builtin::WhiteSpace => char_is_whitespace(c),
            Builtin::Space => c == ' ',
            Builtin::Tab => c == '\t',
            Builtin::CarriageReturn => c == '\r',
            Builtin::Linefeed => c == '\n',
            Builtin::VerticalTab => c == '\x0b',
            Builtin::FormFeed => c == '\x0c',
            Builtin::Nul => c == '\0',
        }
    }

    pub fn contains_builtin(self, c: Builtin) -> (r: bool)
        ensures
            r == self.spec_contains_builtin(c),
    {
        (match self {
            Builtin::WordChar => c == Builtin::Digit,
            Builtin::WhiteSpace => {
                c == Builtin::Space || c == Builtin::Tab || c == Builtin::CarriageReturn || c
                    == Builtin::Linefeed || c == Builtin::VerticalTab || c == Builtin::FormFeed
            },
            _ => false,
        }) || c == self
    }
}

/// Whatever a class includes by `contains_builtin`, it matches: every
/// character of the included class is a character of the including one.
pub proof fn lemma_contains_builtin_sound(a: Builtin, b: Builtin, c: char)
    requires
        a.spec_contains_builtin(b),
        b.spec_contains(c),
    ensures
        a.spec_contains(c),
{
}

/// `contains_builtin` is reflexive and transitive.
pub proof fn lemma_contains_builtin_preorder(a: Builtin, b: Builtin, c: Builtin)
    ensures
        a.spec_contains_builtin(a),
        a.spec_contains_builtin(b) && b.spec_contains_builtin(c) ==> a.spec_contains_builtin(c),
{
}


/// The names of the classes in the language.
pub open spec fn builtin_named(name: Seq<char>) -> Option<Builtin> {
    if name == "DIGIT"@ {
        Some(Builtin::Digit)
    } else if name == "WCHAR"@ {
        Some(Builtin::WordChar)
    } else if name == "WHITESPACE"@ {
        Some(Builtin::WhiteSpace)
    } else if name == "TAB"@ {
        Some(Builtin::Tab)
    } else if name == "CR"@ {
        Some(Builtin::CarriageReturn)
    } else if name == "LF"@ {
        Some(Builtin::Linefeed)
    } else if name == "VTAB"@ {
        Some(Builtin::VerticalTab)
    } else if name == "FORMFEED"@ {
        Some(Builtin::FormFeed)
    } else if name == "NUL"@ {
        Some(Builtin::Nul)
    } else if name == "SPACE"@ {
        Some(Builtin::Space)
    } else {
        None
    }
}

impl Builtin {
    /// The class with the given name in the language.
    pub fn from_name(s: &str) -> (r: Option<Builtin>)
        ensures
            r == builtin_named(s@),
    {
        if str_eq(s, "DIGIT") {
            Some(Builtin::Digit)
        } else if str_eq(s, "WCHAR") {
            Some(Builtin::WordChar)
        } else if str_eq(s, "WHITESPACE") {
            Some(Builtin::WhiteSpace)
        } else if str_eq(s, "TAB") {
            Some(Builtin::Tab)
        } else if str_eq(s, "CR") {
            Some(Builtin::CarriageReturn)
        } else if str_eq(s, "LF") {
            Some(Builtin::Linefeed)
        } else if str_eq(s, "VTAB") {
            Some(Builtin::VerticalTab)
        } else if str_eq(s, "FORMFEED") {
            Some(Builtin::FormFeed)
        } else if str_eq(s, "NUL") {
            Some(Builtin::Nul)
        } else if str_eq(s, "SPACE") {
            Some(Builtin::Space)
        } else {
            None
        }
    }
}

impl std::str::FromStr for Builtin {
    type Err = ();

    fn from_str(s: &str) -> (r: Result<Self, Self::Err>)
        ensures
            r == (match builtin_named(s@) {
                Some(b) => Ok(b),
                None => Err(()),
            }),
    {
        match Builtin::from_name(s) {
            Some(b) => Ok(b),
            None => Err(()),
        }
    }
}

/// The value of an `Ident`.
pub enum IdentValue {
    Builtin(Builtin),
    Definition(Seq<char>),
}

/// The value of a `Token`.
pub enum TokenValue {
    Newline,
    Ident(IdentValue),
    Literal(Seq<char>),
    Define,
    Join,
    Alt,
    Optional,
    Multiple,
    Oneof,
    Nothing,
}

/// A word: a class name or the name of a definition.
#[derive(Debug, Clone, PartialEq, Eq)]
pub enum Ident<'a> {
    Builtin(Builtin),
    Definition(&'a str),
}

/// A token of the definition language.
#[derive(Debug, Clone, PartialEq, Eq)]
pub enum Token<'a> {
    Newline,
    Ident(Ident<'a>),
    Literal(String),
    Define,
    Join,
    Alt,
    Optional,
    Multiple,
    Oneof,
    Nothing,
}

impl<'a> View for Ident<'a> {
    type V = IdentValue;

    open spec fn view(&self) -> IdentValue {
        match self {
            Ident::Builtin(b) => IdentValue::Builtin(*b),
            Ident::Definition(n) => IdentValue::Definition(n@),
        }
    }
}

impl<'a> View for Token<'a> {
    type V = TokenValue;

    open spec fn view(&self) -> TokenValue {
        match self {
            Token::Newline => TokenValue::Newline,
            Token::Ident(i) => TokenValue::Ident(i@),
            Token::Literal(s) => TokenValue::Literal(s@),
            Token::Define => TokenValue::Define,
            Token::Join => TokenValue::Join,
            Token::Alt => TokenValue::Alt,
            Token::Optional => TokenValue::Optional,
            Token::Multiple => TokenValue::Multiple,
            Token::Oneof => TokenValue::Oneof,
            Token::Nothing => TokenValue::Nothing,
        }
    }
}

/// The values of a sequence of tokens.
pub open spec fn token_values<'a>(s: Seq<Token<'a>>) -> Seq<TokenValue> {
    s.map_values(|t: Token<'a>| t@)
}

/// What `regex_syntax::is_word_character` says of a character: whether it is
/// a Unicode word character (the class `\w`).
pub uninterp spec fn unicode_word(c: char) -> bool;

pub open spec fn is_ascii_word(c: char) -> bool {
    is_ascii_alphanumeric(c) || c == '_'
}

/// `regex_syntax::is_word_character`: whether the character is in the
/// Unicode class `\w`. Of an ASCII character, the source shows that it is
/// exactly `[_0-9a-zA-Z]`; of the others, only the name is stated.
#[verifier::external_body]
fn word_character(c: char) -> (r: bool)
    ensures
        r == unicode_word(c),
        (c as u32) < 0x80 ==> (r == is_ascii_word(c)),
{
    regex_syntax::is_word_character(c)
}

/// Whether a character is a word character: for ASCII, `[_0-9a-zA-Z]`;
/// otherwise as the Unicode class `\w` says.
pub open spec fn word_char(c: char) -> bool {
    if (c as u32) < 0x80 {
        is_ascii_word(c)
    } else {
        unicode_word(c)
    }
}

/// The value of a literal's inside: the text itself when it holds no
/// backslash; otherwise what replacing its escapes gives.
pub open spec fn literal_value(s: Seq<char>) -> Option<Seq<char>> {
    if !s.contains('\\') {
        Some(s)
    } else {
        unescaped(s)
    }
}

/// The value of an optional string.
pub open spec fn option_text(o: Option<String>) -> Option<Seq<char>> {
    match o {
        Some(t) => Some(t@),
        None => None,
    }
}

/// What `unescape::unescape` gives for the inside of a string literal: the
/// text with its backslash escapes replaced, or `None` for a malformed one.
pub uninterp spec fn unescaped(s: Seq<char>) -> Option<Seq<char>>;

/// `unescape::unescape`: replaces the backslash escapes of the text. The
/// result is named, not stated; of a text with no backslash the source shows
/// that it comes back unchanged.
#[verifier::external_body]
fn unescape_text(s: &str) -> (r: Option<String>)
    ensures
        option_text(r) == unescaped(s@),
        !s@.contains('\\') ==> option_text(r) == Some(s@),
{
    unescape::unescape(s)
}

/// What the `Debug` formatting of std gives for a string: the text quoted,
/// with quotes, backslashes and unprintable characters escaped.
pub uninterp spec fn debug_text(s: Seq<char>) -> Seq<char>;

/// `format!("{:?}", s)` of std: the `Debug` form of a string. Only the name
/// of the result is stated.
#[verifier::external_body]
fn debug_quoted(s: &str) -> (r: String)
    ensures
        r@ == debug_text(s@),
{
    format!("{:?}", s)
}

/// The end of the run of blanks from `i` on.
pub open spec fn blank_end(s: Seq<char>, i: int) -> int
    decreases s.len() - i,
{
    if i < 0 || i >= s.len() || !is_blank(s[i]) {
        i
    } else {
        blank_end(s, i + 1)
    }
}

/// The end of the comment text from `i` on: up to the next line break.
pub open spec fn comment_end(s: Seq<char>, i: int) -> int
    decreases s.len() - i,
{
    if i < 0 || i >= s.len() || !in_comment(s[i]) {
        i
    } else {
        comment_end(s, i + 1)
    }
}

/// The end of the run of word characters from `i` on.
pub open spec fn word_end(s: Seq<char>, i: int) -> int
    decreases s.len() - i,
{
    if i < 0 || i >= s.len() || !word_char(s[i]) {
        i
    } else {
        word_end(s, i + 1)
    }
}

pub open spec fn is_blank(c: char) -> bool {
    c == ' ' || c == '\t'
}

pub open spec fn in_comment(c: char) -> bool {
    c != '\r' && c != '\n'
}

/// Where the scan of a string literal's inside ends.
pub enum LiteralScan {
    /// At the closing quote, at this index.
    Closed(int),
    /// No closing quote can follow; the bad text ends at this index.
    Stuck(int),
}

/// Scans a literal's inside from `k`: a backslash takes the next character
/// with it, unless that is a line feed or there is none.
pub open spec fn literal_scan(s: Seq<char>, k: int) -> LiteralScan
    decreases s.len() - k,
{
    if k < 0 || k >= s.len() {
        LiteralScan::Stuck(s.len() as int)
    } else if s[k] == '"' {
        LiteralScan::Closed(k)
    } else if s[k] == '\\' {
        if k + 1 >= s.len() {
            LiteralScan::Stuck(s.len() as int)
        } else if s[k + 1] == '\n' {
            LiteralScan::Stuck(k + 1)
        } else {
            literal_scan(s, k + 2)
        }
    } else {
        literal_scan(s, k + 1)
    }
}

/// The token that a word stands for.
pub open spec fn classify(word: Seq<char>) -> TokenValue {
    if word == "OPTIONAL"@ {
        TokenValue::Optional
    } else if word == "MULTIPLE"@ {
        TokenValue::Multiple
    } else if word == "ONEOF"@ {
        TokenValue::Oneof
    } else if word == "NOTHING"@ {
        TokenValue::Nothing
    } else {
        match builtin_named(word) {
            Some(b) => TokenValue::Ident(IdentValue::Builtin(b)),
            None => TokenValue::Ident(IdentValue::Definition(word)),
        }
    }
}

/// What the lexer does at one position.
pub enum Lexeme {
    /// Blanks or a comment, up to this index.
    Skip(int),
    /// A token, up to this index.
    Token(TokenValue, int),
    /// Text that no token matches, up to this index.
    Bad(int),
}

/// The longest match at position `i` (which is inside the input).
pub open spec fn lex_step(s: Seq<char>, i: int) -> Lexeme {
    let c = s[i];
    if is_blank(c) {
        Lexeme::Skip(blank_end(s, i))
    } else if c == ';' {
        Lexeme::Skip(comment_end(s, i + 1))
    } else if c == '\r' {
        Lexeme::Token(
            TokenValue::Newline,
            if i + 1 < s.len() && s[i + 1] == '\n' {
                i + 2
            } else {
                i + 1
            },
        )
    } else if c == '\n' {
        Lexeme::Token(TokenValue::Newline, i + 1)
    } else if word_char(c) {
        let j = word_end(s, i);
        Lexeme::Token(classify(s.subrange(i, j)), j)
    } else if c == ':' {
        if i + 1 < s.len() && s[i + 1] == '=' {
            Lexeme::Token(TokenValue::Define, i + 2)
        } else {
            Lexeme::Bad(i + 1)
        }
    } else if c == '+' {
        Lexeme::Token(TokenValue::Join, i + 1)
    } else if c == '/' {
        Lexeme::Token(TokenValue::Alt, i + 1)
    } else if c == '"' {
        match literal_scan(s, i + 1) {
            LiteralScan::Closed(k) => match literal_value(s.subrange(i + 1, k)) {
                Some(t) => Lexeme::Token(TokenValue::Literal(t), k + 1),
                None => Lexeme::Bad(k + 1),
            },
            LiteralScan::Stuck(e) => Lexeme::Bad(e),
        }
    } else {
        Lexeme::Bad(i + 1)
    }
}

/// The tokens from position `i` on, or the span of the first bad text.
pub open spec fn lex_from(s: Seq<char>, i: int) -> Result<Seq<TokenValue>, (int, int)>
    decreases s.len() - i,
{
    if i < 0 || i >= s.len() {
        Ok(seq![])
    } else {
        match lex_step(s, i) {
            Lexeme::Skip(j) => if i < j <= s.len() {
                lex_from(s, j)
            } else {
                Err((i, i + 1))
            },
            Lexeme::Token(t, j) => if i < j <= s.len() {
                match lex_from(s, j) {
                    Ok(ts) => Ok(seq![t] + ts),
                    Err(e) => Err(e),
                }
            } else {
                Err((i, i + 1))
            },
            Lexeme::Bad(j) => Err((i, j)),
        }
    }
}

/// The line and column (both from 1) just after the text `s`.
pub open spec fn line_col(s: Seq<char>) -> (nat, nat)
    decreases s.len(),
{
    if s.len() == 0 {
        (1, 1)
    } else {
        let (l, c) = line_col(s.drop_last());
        if s.last() == '\n' {
            (l + 1, 1)
        } else {
            (l, c + 1)
        }
    }
}

/// The message for bad text, shown as `quoted`, that starts at position
/// `a` of the text `s`.
pub open spec fn message_at(s: Seq<char>, a: int, quoted: Seq<char>) -> Seq<char> {
    let (line, col) = line_col(s.take(a));
    "unexpected "@ + quoted + " at "@ + decimal(line) + ":"@ + decimal(col)
}

/// The message for bad text from `a` to `b`.
pub open spec fn lex_error(s: Seq<char>, a: int, b: int) -> Seq<char> {
    message_at(s, a, debug_text(s.subrange(a, b)))
}

/// The tokens of a definition file, or the message for its first bad text.
pub open spec fn lex_spec(s: Seq<char>) -> Result<Seq<TokenValue>, Seq<char>> {
    match lex_from(s, 0) {
        Ok(ts) => Ok(ts),
        Err((a, b)) => Err(lex_error(s, a, b)),
    }
}


/// The tokens after `ts`, or the error.
pub open spec fn prepend(ts: Seq<TokenValue>, r: Result<Seq<TokenValue>, (int, int)>) -> Result<
    Seq<TokenValue>,
    (int, int),
> {
    match r {
        Ok(x) => Ok(ts + x),
        Err(e) => Err(e),
    }
}

/// The value of the lexer's outcome.
pub open spec fn lex_outcome<'a>(r: Result<Vec<Token<'a>>, String>) -> Result<Seq<TokenValue>, Seq<char>> {
    match r {
        Ok(ts) => Ok(token_values(ts@)),
        Err(m) => Err(m@),
    }
}

fn scan_blank(cs: &Vec<char>, i: usize) -> (j: usize)
    requires
        i <= cs@.len(),
    ensures
        i < cs@.len() && is_blank(cs@[i as int]) ==> i < j,
        j == blank_end(cs@, i as int),
        i <= j <= cs@.len(),
{
    let mut j = i;
    while j < cs.len()
        invariant
            i <= j <= cs@.len(),
            blank_end(cs@, i as int) == blank_end(cs@, j as int),
        decreases cs@.len() - j,
    {
        let c = char_at(cs, j);
        if !(c == ' ' || c == '\t') {
            return j;
        }
        j = j + 1;
    }
    j
}

fn scan_comment(cs: &Vec<char>, i: usize) -> (j: usize)
    requires
        i <= cs@.len(),
    ensures
        j == comment_end(cs@, i as int),
        i <= j <= cs@.len(),
{
    let mut j = i;
    while j < cs.len()
        invariant
            i <= j <= cs@.len(),
            comment_end(cs@, i as int) == comment_end(cs@, j as int),
        decreases cs@.len() - j,
    {
        let c = char_at(cs, j);
        if c == '\r' || c == '\n' {
            return j;
        }
        j = j + 1;
    }
    j
}

fn scan_word(cs: &Vec<char>, i: usize) -> (j: usize)
    requires
        i <= cs@.len(),
    ensures
        i < cs@.len() && word_char(cs@[i as int]) ==> i < j,
        j == word_end(cs@, i as int),
        i <= j <= cs@.len(),
{
    let mut j = i;
    while j < cs.len()
        invariant
            i <= j <= cs@.len(),
            word_end(cs@, i as int) == word_end(cs@, j as int),
        decreases cs@.len() - j,
    {
        let c = char_at(cs, j);
        if !word_character(c) {
            return j;
        }
        j = j + 1;
    }
    j
}

/// The result of scanning a literal's inside in exec code.
enum Scanned {
    Closed(usize),
    Stuck(usize),
}

fn scan_literal(cs: &Vec<char>, k: usize) -> (r: Scanned)
    requires
        k <= cs@.len(),
    ensures
        match r {
            Scanned::Closed(e) => literal_scan(cs@, k as int) == LiteralScan::Closed(e as int) && k
                <= e < cs@.len(),
            Scanned::Stuck(e) => literal_scan(cs@, k as int) == LiteralScan::Stuck(e as int) && k
                <= e <= cs@.len(),
        },
{
    let n = cs.len();
    let mut j = k;
    while j < n
        invariant
            k <= j <= n,
            n == cs@.len(),
            literal_scan(cs@, k as int) == literal_scan(cs@, j as int),
        decreases n - j,
    {
        let c = char_at(cs, j);
        if c == '"' {
            return Scanned::Closed(j);
        } else if c == '\\' {
            if j + 1 >= n {
                return Scanned::Stuck(n);
            } else if char_at(cs, j + 1) == '\n' {
                return Scanned::Stuck(j + 1);
            }
            j = j + 2;
        } else {
            j = j + 1;
        }
    }
    Scanned::Stuck(n)
}

fn classify_word<'a>(w: &'a str) -> (t: Token<'a>)
    ensures
        t@ == classify(w@),
{
    if str_eq(w, "OPTIONAL") {
        Token::Optional
    } else if str_eq(w, "MULTIPLE") {
        Token::Multiple
    } else if str_eq(w, "ONEOF") {
        Token::Oneof
    } else if str_eq(w, "NOTHING") {
        Token::Nothing
    } else {
        match Builtin::from_name(w) {
            Some(b) => Token::Ident(Ident::Builtin(b)),
            None => Token::Ident(Ident::Definition(w)),
        }
    }
}

/// The message for bad text, shown as `quoted`, that starts at character
/// `a` of `input`: the text and its line and column.
pub fn error_message(input: &str, a: usize, quoted: &str) -> (m: String)
    requires
        a < input@.len(),
    ensures
        m@ == message_at(input@, a as int, quoted@),
{
    let cs = chars_of(input);
    let mut line: usize = 1;
    let mut col: usize = 1;
    let mut k: usize = 0;
    while k < a
        invariant
            k <= a < cs@.len(),
            cs@ == input@,
            cs@.len() == cs.len(),
            (line as nat, col as nat) == line_col(cs@.take(k as int)),
            line <= k + 1,
            col <= k + 1,
        decreases a - k,
    {
        assert(cs@.take(k + 1).drop_last() =~= cs@.take(k as int));
        if char_at(&cs, k) == '\n' {
            line = line + 1;
            col = 1;
        } else {
            col = col + 1;
        }
        k = k + 1;
    }
    let mut m = String::from_str("unexpected ");
    push_str(&mut m, quoted);
    push_str(&mut m, " at ");
    push_decimal(&mut m, line);
    push_str(&mut m, ":");
    push_decimal(&mut m, col);
    m
}

fn lex_failure(input: &str, a: usize, b: usize) -> (m: String)
    requires
        a < b <= input@.len(),
    ensures
        m@ == lex_error(input@, a as int, b as int),
{
    let bad = input.substring_char(a, b);
    let quoted = debug_quoted(bad);
    error_message(input, a, quoted.as_str())
}

/// Splits a definition file into tokens. Blanks and comments (from `;` to
/// the end of the line) are skipped; at each position the longest token
/// wins, a keyword over a name of the same length. Text that no token
/// matches is reported with its line and column.
pub fn lex(input: &str) -> (r: Result<Vec<Token<'_>>, String>)
    ensures
        lex_outcome(r) == lex_spec(input@),
{
    let cs = chars_of(input);
    let n = cs.len();
    let ghost s = input@;
    let mut tokens: Vec<Token> = Vec::new();
    let mut i: usize = 0;
    assert(token_values(tokens@) =~= seq![]);
    assert(seq![] + lex_from(s, 0)->Ok_0 =~= lex_from(s, 0)->Ok_0);
    while i < n
        invariant
            i <= n,
            s == input@,
            cs@ == s,
            n == s.len(),
            lex_from(s, 0) == prepend(token_values(tokens@), lex_from(s, i as int)),
        decreases n - i,
    {
        let ghost before = token_values(tokens@);
        let ghost i0 = i as int;
        let ghost mut pushed: Option<TokenValue> = None;
        let c = char_at(&cs, i);
        if c == ' ' || c == '\t' {
            i = scan_blank(&cs, i);
        } else if c == ';' {
            i = scan_comment(&cs, i + 1);
        } else if c == '\r' {
            tokens.push(Token::Newline);
            proof {
                pushed = Some(TokenValue::Newline);
            }
            if i + 1 < n && char_at(&cs, i + 1) == '\n' {
                i = i + 2;
            } else {
                i = i + 1;
            }
        } else if c == '\n' {
            tokens.push(Token::Newline);
            proof {
                pushed = Some(TokenValue::Newline);
            }
            i = i + 1;
        } else if word_character(c) {
            let j = scan_word(&cs, i);
            let w = input.substring_char(i, j);
            let t = classify_word(w);
            proof {
                pushed = Some(t@);
            }
            tokens.push(t);
            i = j;
        } else if c == ':' {
            if i + 1 < n && char_at(&cs, i + 1) == '=' {
                tokens.push(Token::Define);
                proof {
                    pushed = Some(TokenValue::Define);
                }
                i = i + 2;
            } else {
                return Err(lex_failure(input, i, i + 1));
            }
        } else if c == '+' {
            tokens.push(Token::Join);
            proof {
                pushed = Some(TokenValue::Join);
            }
            i = i + 1;
        } else if c == '/' {
            tokens.push(Token::Alt);
            proof {
                pushed = Some(TokenValue::Alt);
            }
            i = i + 1;
        } else if c == '"' {
            match scan_literal(&cs, i + 1) {
                Scanned::Closed(k) => {
                    let inner = input.substring_char(i + 1, k);
                    match unescape_text(inner) {
                        Some(t) => {
                            proof {
                                pushed = Some(TokenValue::Literal(t@));
                            }
                            tokens.push(Token::Literal(t));
                            i = k + 1;
                        },
                        None => {
                            return Err(lex_failure(input, i, k + 1));
                        },
                    }
                },
                Scanned::Stuck(e) => {
                    return Err(lex_failure(input, i, e));
                },
            }
        } else {
            return Err(lex_failure(input, i, i + 1));
        }
        proof {
            assert(i0 < i <= n);
            match pushed {
                None => {
                    assert(lex_step(s, i0) == Lexeme::Skip(i as int));
                    assert(token_values(tokens@) == before);
                },
                Some(t) => {
                    assert(lex_step(s, i0) == Lexeme::Token(t, i as int));
                    assert(token_values(tokens@) =~= before.push(t));
                    match lex_from(s, i as int) {
                        Ok(x) => {
                            assert(before + (seq![t] + x) =~= before.push(t) + x);
                        },
                        Err(_) => {},
                    }
                },
            }
        }
    }
    Ok(tokens)
}

/// A run of blanks ends where the run from its second character ends.
proof fn lemma_blank_end_step(s: Seq<char>, i: int)
    requires
        0 <= i < s.len(),
        s[i] == ' ' || s[i] == '\t',
    ensures
        blank_end(s, i) == blank_end(s, i + 1),
        i < blank_end(s, i) <= s.len(),
    decreases s.len() - i,
{
    if i + 1 < s.len() && (s[i + 1] == ' ' || s[i + 1] == '\t') {
        lemma_blank_end_step(s, i + 1);
    }
}

/// Spaces and tabs between tokens are skipped alike: a space or a tab at
/// any position gives no token and no error, so lexing from it is lexing
/// from the next character. In particular, a tab may stand wherever a space
/// does outside a literal and a comment.
pub proof fn lemma_blanks_skipped(s: Seq<char>, i: int)
    requires
        0 <= i < s.len(),
        s[i] == ' ' || s[i] == '\t',
    ensures
        lex_from(s, i) == lex_from(s, i + 1),
{
    lemma_blank_end_step(s, i);
    if i + 1 < s.len() && (s[i + 1] == ' ' || s[i + 1] == '\t') {
        lemma_blank_end_step(s, i + 1);
        assert(lex_from(s, i + 1) == lex_from(s, blank_end(s, i + 1)));
    } else {
        assert(blank_end(s, i + 1) == i + 1);
    }
}

/// Whether the RE2 text `t` of one character or one backslash escape
/// matches the character `c`, as RE2 reads it: `\d` the ASCII digits,
/// `\w` the ASCII letters, digits and `_`, `\s` the characters
/// `[\t\n\f\r ]`, `\t`, `\r`, `\n`, `\v`, `\f` and `\0` the control
/// characters they name, and any other single character itself.
pub open spec fn re2_matches_char(t: Seq<char>, c: char) -> bool {
    if t.len() == 1 && t[0] != '\\' {
        c == t[0]
    } else if t.len() == 2 && t[0] == '\\' {
        let e = t[1];
        let u = c as u32;
        if e == 'd' {
            0x30 <= u <= 0x39
        } else if e == 'w' {
            (0x30 <= u <= 0x39) || (0x41 <= u <= 0x5a) || (0x61 <= u <= 0x7a) || c == '_'
        } else if e == 's' {
            c == '\t' || c == '\n' || c == '\x0c' || c == '\r' || c == ' '
        } else if e == 't' {
            c == '\t'
        } else if e == 'r' {
            c == '\r'
        } else if e == 'n' {
            c == '\n'
        } else if e == 'v' {
            u == 0x0b
        } else if e == 'f' {
            u == 0x0c
        } else if e == '0' {
            u == 0
        } else {
            false
        }
    } else {
        false
    }
}

/// A class holds the characters that its printed RE2 text matches: every
/// character that `contains` accepts is matched by `build`'s text, but for
/// `WHITESPACE`, which holds every Unicode white space while RE2's `\s`
/// matches only `[\t\n\f\r ]`; and every character that the text
/// matches is accepted, but for `WCHAR`, whose text `\w` also matches `_`.
pub proof fn lemma_contains_what_build_matches(b: Builtin, c: char)
    ensures
        b != Builtin::WhiteSpace && b.spec_contains(c) ==> re2_matches_char(b.spec_build(), c),
        b != Builtin::WordChar && re2_matches_char(b.spec_build(), c) ==> b.spec_contains(c),
{
}

} // verus!
