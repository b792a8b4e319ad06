use vstd::prelude::*;

verus! {

/// The kinds of token of the DOT subset in which state machines are
/// written, with the two that only error messages name (`Transition` and
/// `EndOfInput`) and `Error` for text that no token matches.
#[derive(Clone, Copy, Debug, PartialEq, Eq, Structural)]
pub enum TokenKind {
    Identifier,
    Digraph,
    Label,
    LeftBrace,
    RightBrace,
    LeftSquare,
    RightSquare,
    Arrow,
    Equal,
    Comma,
    Semicolon,
    Transition,
    EndOfInput,
    Error,
}

/// A token. An identifier carries its text: a name, a number, or the
/// content of a quoted string with its escaped quotes unescaped.
#[derive(Debug)]
pub enum Token {
    Identifier(String),
    Digraph,
    Label,
    LeftBrace,
    RightBrace,
    LeftSquare,
    RightSquare,
    Arrow,
    Equal,
    Comma,
    Semicolon,
    Transition,
    EndOfInput,
    Error,
}

impl Token {
    pub open spec fn spec_kind(&self) -> TokenKind {
        match self {
            Token::Identifier(_) => TokenKind::Identifier,
            Token::Digraph => TokenKind::Digraph,
            Token::Label => TokenKind::Label,
            Token::LeftBrace => TokenKind::LeftBrace,
            Token::RightBrace => TokenKind::RightBrace,
            Token::LeftSquare => TokenKind::LeftSquare,
            Token::RightSquare => TokenKind::RightSquare,
            Token::Arrow => TokenKind::Arrow,
            Token::Equal => TokenKind::Equal,
            Token::Comma => TokenKind::Comma,
            Token::Semicolon => TokenKind::Semicolon,
            Token::Transition => TokenKind::Transition,
            Token::EndOfInput => TokenKind::EndOfInput,
            Token::Error => TokenKind::Error,
        }
    }

    /// The text of an identifier; empty for every other token.
    pub open spec fn spec_text(&self) -> Seq<char> {
        match self {
            Token::Identifier(text) => text@,
            _ => Seq::empty(),
        }
    }

    /// The kind of this token.
    pub fn kind(&self) -> (kind: TokenKind)
        ensures
            kind == self.spec_kind(),
    {
        match self {
            Token::Identifier(_) => TokenKind::Identifier,
            Token::Digraph => TokenKind::Digraph,
            Token::Label => TokenKind::Label,
            Token::LeftBrace => TokenKind::LeftBrace,
            Token::RightBrace => TokenKind::RightBrace,
            Token::LeftSquare => TokenKind::LeftSquare,
            Token::RightSquare => TokenKind::RightSquare,
            Token::Arrow => TokenKind::Arrow,
            Token::Equal => TokenKind::Equal,
            Token::Comma => TokenKind::Comma,
            Token::Semicolon => TokenKind::Semicolon,
            Token::Transition => TokenKind::Transition,
            Token::EndOfInput => TokenKind::EndOfInput,
            Token::Error => TokenKind::Error,
        }
    }
}

/// A token of the input with the text it was read from.
pub struct Lexeme {
    pub token: Token,
    pub slice: String,
}

/// What a lexeme is, as plain values: its kind, its text (for an
/// identifier) and the input it was read from.
pub struct TokenModel {
    pub kind: TokenKind,
    pub text: Seq<char>,
    pub raw: Seq<char>,
}

pub open spec fn model(lexeme: Lexeme) -> TokenModel {
    TokenModel { kind: lexeme.token.spec_kind(), text: lexeme.token.spec_text(), raw: lexeme.slice@ }
}

pub open spec fn models(lexemes: Seq<Lexeme>) -> Seq<TokenModel> {
    lexemes.map_values(|lexeme: Lexeme| model(lexeme))
}

/// Space, tab, carriage return, line feed, form feed and vertical tab:
/// what separates tokens.
pub open spec fn is_space(c: char) -> bool {
    c == ' ' || c == '\t' || c == '\r' || c == '\n' || c == '\x0C' || c == '\x0B'
}

pub open spec fn is_digit(c: char) -> bool {
    '0' <= c && c <= '9'
}

/// A letter, an underscore or a character from U+0080 to U+00FF.
pub open spec fn is_ident_start(c: char) -> bool {
    ('a' <= c && c <= 'z') || ('A' <= c && c <= 'Z') || ('\u{80}' <= c && c <= '\u{FF}')
        || c == '_'
}

pub open spec fn is_ident_char(c: char) -> bool {
    is_ident_start(c) || is_digit(c)
}

/// The end of the longest run of identifier characters from `i`.
pub open spec fn ident_end(s: Seq<char>, i: int) -> int
    decreases s.len() - i,
{
    if 0 <= i < s.len() && is_ident_char(s[i]) {
        ident_end(s, i + 1)
    } else {
        i
    }
}

/// The end of the longest run of digits from `i`.
pub open spec fn digits_end(s: Seq<char>, i: int) -> int
    decreases s.len() - i,
{
    if 0 <= i < s.len() && is_digit(s[i]) {
        digits_end(s, i + 1)
    } else {
        i
    }
}

/// The end of the longest number at `i`: an optional minus sign, then
/// either a point and digits or digits with an optional point and digits.
pub open spec fn number_end(s: Seq<char>, i: int) -> Option<int> {
    let j = if i < s.len() && s[i] == '-' {
        i + 1
    } else {
        i
    };
    if j < s.len() && s[j] == '.' {
        let k = digits_end(s, j + 1);
        if k > j + 1 {
            Some(k)
        } else {
            None
        }
    } else if j < s.len() && is_digit(s[j]) {
        let k = digits_end(s, j);
        if k < s.len() && s[k] == '.' {
            Some(digits_end(s, k + 1))
        } else {
            Some(k)
        }
    } else {
        None
    }
}

/// The first quote from `q` on that no backslash precedes.
pub open spec fn first_closing(s: Seq<char>, q: int) -> Option<int>
    decreases s.len() - q,
{
    if q < 1 || q >= s.len() {
        None
    } else if s[q] == '"' && s[q - 1] != '\\' {
        Some(q)
    } else {
        first_closing(s, q + 1)
    }
}

/// The last quote from `q` on.
pub open spec fn last_quote(s: Seq<char>, q: int) -> Option<int>
    decreases s.len() - q,
{
    if q < 0 || q >= s.len() {
        None
    } else {
        match last_quote(s, q + 1) {
            Some(k) => Some(k),
            None => if s[q] == '"' {
                Some(q)
            } else {
                None
            },
        }
    }
}

/// The end of the longest quoted string at `i`, where `s[i]` is a quote:
/// inside it every quote follows a backslash. So it closes at the first
/// quote that no backslash precedes, or else at the last quote.
pub open spec fn literal_end(s: Seq<char>, i: int) -> Option<int> {
    match first_closing(s, i + 1) {
        Some(q) => Some(q + 1),
        None => match last_quote(s, i + 1) {
            Some(q) => Some(q + 1),
            None => None,
        },
    }
}

/// The content of a quoted string with each backslash that comes before a
/// quote taken out.
pub open spec fn unescape(c: Seq<char>) -> Seq<char>
    decreases c.len(),
{
    if c.len() < 2 {
        c
    } else if c[0] == '\\' && c[1] == '"' {
        seq!['"'] + unescape(c.subrange(2, c.len() as int))
    } else {
        seq![c[0]] + unescape(c.subrange(1, c.len() as int))
    }
}

pub open spec fn digraph_word() -> Seq<char> {
    seq!['d', 'i', 'g', 'r', 'a', 'p', 'h']
}

pub open spec fn label_word() -> Seq<char> {
    seq!['l', 'a', 'b', 'e', 'l']
}

pub open spec fn quoted_label_word() -> Seq<char> {
    seq!['"', 'l', 'a', 'b', 'e', 'l', '"']
}

/// The token that starts at `i`, where no space is: its kind, its text,
/// and where it ends. The longest match wins; among matches of one length
/// a keyword wins over an identifier. Text that no token matches is an
/// error of one character.
pub open spec fn token_at(s: Seq<char>, i: int) -> (TokenKind, Seq<char>, int) {
    let c = s[i];
    if c == '{' {
        (TokenKind::LeftBrace, Seq::empty(), i + 1)
    } else if c == '}' {
        (TokenKind::RightBrace, Seq::empty(), i + 1)
    } else if c == '[' {
        (TokenKind::LeftSquare, Seq::empty(), i + 1)
    } else if c == ']' {
        (TokenKind::RightSquare, Seq::empty(), i + 1)
    } else if c == '=' {
        (TokenKind::Equal, Seq::empty(), i + 1)
    } else if c == ',' {
        (TokenKind::Comma, Seq::empty(), i + 1)
    } else if c == ';' {
        (TokenKind::Semicolon, Seq::empty(), i + 1)
    } else if c == '-' && i + 1 < s.len() && s[i + 1] == '>' {
        (TokenKind::Arrow, Seq::empty(), i + 2)
    } else if c == '"' {
        match literal_end(s, i) {
            Some(e) => if s.subrange(i, e) == quoted_label_word() {
                (TokenKind::Label, Seq::empty(), e)
            } else {
                (TokenKind::Identifier, unescape(s.subrange(i + 1, e - 1)), e)
            },
            None => (TokenKind::Error, Seq::empty(), i + 1),
        }
    } else if is_ident_start(c) {
        let e = ident_end(s, i + 1);
        let word = s.subrange(i, e);
        if word == digraph_word() {
            (TokenKind::Digraph, Seq::empty(), e)
        } else if word == label_word() {
            (TokenKind::Label, Seq::empty(), e)
        } else {
            (TokenKind::Identifier, word, e)
        }
    } else {
        match number_end(s, i) {
            Some(e) => (TokenKind::Identifier, s.subrange(i, e), e),
            None => (TokenKind::Error, Seq::empty(), i + 1),
        }
    }
}

/// The tokens of `s` from `i` on; spaces between them are skipped.
pub open spec fn tokens_from(s: Seq<char>, i: int) -> Seq<TokenModel>
    decreases s.len() - i,
{
    if i < 0 || i >= s.len() {
        Seq::empty()
    } else if is_space(s[i]) {
        tokens_from(s, i + 1)
    } else {
        let (kind, text, e) = token_at(s, i);
        let first = TokenModel { kind, text, raw: s.subrange(i, e) };
        if i < e <= s.len() {
            seq![first] + tokens_from(s, e)
        } else {
            seq![first]
        }
    }
}

/// The tokens of `s`.
pub open spec fn tokens(s: Seq<char>) -> Seq<TokenModel> {
    tokens_from(s, 0)
}

pub(crate) proof fn lemma_ident_end(s: Seq<char>, i: int)
    requires
        0 <= i <= s.len(),
    ensures
        i <= ident_end(s, i) <= s.len(),
        forall|k: int| i <= k < ident_end(s, i) ==> is_ident_char(#[trigger] s[k]),
        ident_end(s, i) < s.len() ==> !is_ident_char(s[ident_end(s, i)]),
    decreases s.len() - i,
{
    if i < s.len() && is_ident_char(s[i]) {
        lemma_ident_end(s, i + 1);
    }
}

pub(crate) proof fn lemma_digits_end(s: Seq<char>, i: int)
    requires
        0 <= i <= s.len(),
    ensures
        i <= digits_end(s, i) <= s.len(),
        forall|k: int| i <= k < digits_end(s, i) ==> is_digit(#[trigger] s[k]),
        digits_end(s, i) < s.len() ==> !is_digit(s[digits_end(s, i)]),
    decreases s.len() - i,
{
    if i < s.len() && is_digit(s[i]) {
        lemma_digits_end(s, i + 1);
    }
}

pub(crate) proof fn lemma_first_closing(s: Seq<char>, q: int)
    requires
        1 <= q,
    ensures
        match first_closing(s, q) {
            Some(k) => q <= k < s.len() && s[k] == '"' && s[k - 1] != '\\' && forall|m: int|
                q <= m < k ==> !(#[trigger] s[m] == '"' && s[m - 1] != '\\'),
            None => forall|m: int| q <= m < s.len() ==> !(#[trigger] s[m] == '"' && s[m - 1] != '\\'),
        },
    decreases s.len() - q,
{
    if q < s.len() && !(s[q] == '"' && s[q - 1] != '\\') {
        lemma_first_closing(s, q + 1);
    }
}

pub(crate) proof fn lemma_last_quote(s: Seq<char>, q: int)
    requires
        0 <= q,
    ensures
        match last_quote(s, q) {
            Some(k) => q <= k < s.len() && s[k] == '"' && forall|m: int|
                k < m < s.len() ==> #[trigger] s[m] != '"',
            None => forall|m: int| q <= m < s.len() ==> #[trigger] s[m] != '"',
        },
    decreases s.len() - q,
{
    if q < s.len() {
        lemma_last_quote(s, q + 1);
    }
}

/// A quoted string ends after its opening quote, within the text.
pub(crate) proof fn lemma_literal_end(s: Seq<char>, i: int)
    requires
        0 <= i < s.len(),
    ensures
        literal_end(s, i) matches Some(e) ==> i + 2 <= e <= s.len(),
{
    lemma_first_closing(s, i + 1);
    lemma_last_quote(s, i + 1);
}

/// A number ends after where it starts, within the text.
pub(crate) proof fn lemma_number_end(s: Seq<char>, i: int)
    requires
        0 <= i < s.len(),
    ensures
        number_end(s, i) matches Some(e) ==> i < e <= s.len(),
{
    let j = if i < s.len() && s[i] == '-' {
        i + 1
    } else {
        i
    };
    if j < s.len() {
        lemma_digits_end(s, j + 1);
        lemma_digits_end(s, j);
        let k = digits_end(s, j);
        if k < s.len() {
            lemma_digits_end(s, k + 1);
        }
    }
}

/// The characters of a string.
pub fn chars_of(input: &str) -> (chars: Vec<char>)
    ensures
        chars@ == input@,
{
    let n = input.unicode_len();
    let mut chars: Vec<char> = Vec::new();
    let mut i: usize = 0;
    while i < n
        invariant
            n == input@.len(),
            i <= n,
            chars@ == input@.subrange(0, i as int),
        decreases n - i,
    {
        chars.push(input.get_char(i));
        i = i + 1;
        proof {
            assert(chars@ =~= input@.subrange(0, i as int));
        }
    }
    proof {
        assert(chars@ =~= input@);
    }
    chars
}

/// The string made of `chars[start..end]`.
pub fn text_of(chars: &Vec<char>, start: usize, end: usize) -> (text: String)
    requires
        start <= end <= chars@.len(),
    ensures
        text@ == chars@.subrange(start as int, end as int),
{
    let mut text = String::new();
    let mut i = start;
    while i < end
        invariant
            start <= i <= end <= chars@.len(),
            text@ == chars@.subrange(start as int, i as int),
        decreases end - i,
    {
        crate::text::push(&mut text, chars[i]);
        i = i + 1;
        proof {
            assert(text@ =~= chars@.subrange(start as int, i as int));
        }
    }
    text
}

fn is_space_char(c: char) -> (b: bool)
    ensures
        b == is_space(c),
{
    c == ' ' || c == '\t' || c == '\r' || c == '\n' || c == '\x0C' || c == '\x0B'
}

fn is_digit_char(c: char) -> (b: bool)
    ensures
        b == is_digit(c),
{
    '0' <= c && c <= '9'
}

fn is_ident_start_char(c: char) -> (b: bool)
    ensures
        b == is_ident_start(c),
{
    ('a' <= c && c <= 'z') || ('A' <= c && c <= 'Z') || ('\u{80}' <= c && c <= '\u{FF}')
        || c == '_'
}

fn scan_ident(s: &Vec<char>, i: usize) -> (end: usize)
    requires
        i <= s@.len(),
    ensures
        end == ident_end(s@, i as int),
{
    let mut j = i;
    while j < s.len() && (is_ident_start_char(s[j]) || is_digit_char(s[j]))
        invariant
            i <= j <= s@.len(),
            ident_end(s@, j as int) == ident_end(s@, i as int),
        decreases s@.len() - j,
    {
        j = j + 1;
    }
    j
}

fn scan_digits(s: &Vec<char>, i: usize) -> (end: usize)
    requires
        i <= s@.len(),
    ensures
        end == digits_end(s@, i as int),
{
    let mut j = i;
    while j < s.len() && is_digit_char(s[j])
        invariant
            i <= j <= s@.len(),
            digits_end(s@, j as int) == digits_end(s@, i as int),
        decreases s@.len() - j,
    {
        j = j + 1;
    }
    j
}

fn scan_number(s: &Vec<char>, i: usize) -> (end: Option<usize>)
    requires
        i < s.len(),
    ensures
        match number_end(s@, i as int) {
            Some(e) => end == Some(e as usize) && e <= s@.len(),
            None => end is None,
        },
{
    let j = if s[i] == '-' {
        i + 1
    } else {
        i
    };
    if j < s.len() && s[j] == '.' {
        let k = scan_digits(s, j + 1);
        proof {
            lemma_digits_end(s@, j + 1);
        }
        if k > j + 1 {
            Some(k)
        } else {
            None
        }
    } else if j < s.len() && is_digit_char(s[j]) {
        let k = scan_digits(s, j);
        proof {
            lemma_digits_end(s@, j as int);
        }
        if k < s.len() && s[k] == '.' {
            let e = scan_digits(s, k + 1);
            proof {
                lemma_digits_end(s@, k + 1);
            }
            Some(e)
        } else {
            Some(k)
        }
    } else {
        None
    }
}

fn scan_literal(s: &Vec<char>, i: usize) -> (end: Option<usize>)
    requires
        i < s.len(),
    ensures
        match literal_end(s@, i as int) {
            Some(e) => end == Some(e as usize) && i + 2 <= e <= s@.len(),
            None => end is None,
        },
{
    proof {
        lemma_first_closing(s@, i + 1);
        lemma_last_quote(s@, i + 1);
    }
    let mut last: Option<usize> = None;
    let mut q = i + 1;
    while q < s.len()
        invariant
            i + 1 <= q <= s@.len(),
            first_closing(s@, q as int) == first_closing(s@, i + 1),
            match last {
                Some(k) => i + 1 <= k < q && s@[k as int] == '"' && forall|m: int|
                    k < m < q ==> #[trigger] s@[m] != '"',
                None => forall|m: int| i + 1 <= m < q ==> #[trigger] s@[m] != '"',
            },
        decreases s@.len() - q,
    {
        if s[q] == '"' {
            if s[q - 1] != '\\' {
                return Some(q + 1);
            }
            last = Some(q);
        }
        q = q + 1;
    }
    proof {
        match last {
            Some(k) => {
                lemma_last_quote(s@, i + 1);
                match last_quote(s@, i + 1) {
                    Some(k2) => {
                        if k2 < k {
                            assert(s@[k as int] != '"');
                        }
                        if k2 > k {
                            assert(s@[k2] != '"');
                        }
                    },
                    None => {
                        assert(s@[k as int] != '"');
                    },
                }
            },
            None => {
                match last_quote(s@, i + 1) {
                    Some(k2) => {
                        assert(s@[k2] != '"');
                    },
                    None => {},
                }
            },
        }
    }
    match last {
        Some(k) => Some(k + 1),
        None => None,
    }
}

fn unescape_text(s: &Vec<char>, start: usize, end: usize) -> (text: String)
    requires
        start <= end <= s.len(),
    ensures
        text@ == unescape(s@.subrange(start as int, end as int)),
{
    let ghost whole = s@.subrange(start as int, end as int);
    let mut text = String::new();
    let mut j = start;
    while j < end
        invariant
            start <= j <= end <= s.len(),
            whole == s@.subrange(start as int, end as int),
            text@ + unescape(s@.subrange(j as int, end as int)) == unescape(whole),
        decreases end - j,
    {
        let ghost rest = s@.subrange(j as int, end as int);
        if j + 1 < end && s[j] == '\\' && s[j + 1] == '"' {
            crate::text::push(&mut text, '"');
            proof {
                assert(rest.subrange(2, rest.len() as int) =~= s@.subrange(j + 2, end as int));
                assert(text@ + unescape(s@.subrange(j + 2, end as int)) =~= unescape(whole));
            }
            j = j + 2;
        } else {
            crate::text::push(&mut text, s[j]);
            proof {
                assert(rest.subrange(1, rest.len() as int) =~= s@.subrange(j + 1, end as int));
                if rest.len() < 2 {
                    assert(s@.subrange(j + 1, end as int) =~= Seq::<char>::empty());
                    assert(unescape(s@.subrange(j + 1, end as int)) =~= Seq::<char>::empty());
                    assert(unescape(rest) == rest);
                    assert(rest =~= seq![s@[j as int]]);
                }
                assert(text@ + unescape(s@.subrange(j + 1, end as int)) =~= unescape(whole));
            }
            j = j + 1;
        }
    }
    proof {
        assert(s@.subrange(j as int, end as int) =~= Seq::<char>::empty());
        assert(text@ =~= unescape(whole));
    }
    text
}

/// Whether `s[start..end]` is `word`.
fn slice_is(s: &Vec<char>, start: usize, end: usize, word: &Vec<char>) -> (b: bool)
    requires
        start <= end <= s.len(),
    ensures
        b == (s@.subrange(start as int, end as int) == word@),
{
    if end - start != word.len() {
        return false;
    }
    let mut k: usize = 0;
    while k < word.len()
        invariant
            end - start == word@.len(),
            start <= end <= s.len(),
            k <= word@.len(),
            forall|m: int| 0 <= m < k ==> s@[start + m] == #[trigger] word@[m],
        decreases word@.len() - k,
    {
        if s[start + k] != word[k] {
            proof {
                let w = s@.subrange(start as int, end as int);
                assert(w[k as int] == s@[start + k]);
            }
            return false;
        }
        k = k + 1;
    }
    proof {
        assert(s@.subrange(start as int, end as int) =~= word@);
    }
    true
}

fn is_digraph_word(s: &Vec<char>, start: usize, end: usize) -> (b: bool)
    requires
        start <= end <= s.len(),
    ensures
        b == (s@.subrange(start as int, end as int) == digraph_word()),
{
    let word = vec!['d', 'i', 'g', 'r', 'a', 'p', 'h'];
    proof {
        assert(word@ =~= digraph_word());
    }
    slice_is(s, start, end, &word)
}

fn is_label_word(s: &Vec<char>, start: usize, end: usize) -> (b: bool)
    requires
        start <= end <= s.len(),
    ensures
        b == (s@.subrange(start as int, end as int) == label_word()),
{
    let word = vec!['l', 'a', 'b', 'e', 'l'];
    proof {
        assert(word@ =~= label_word());
    }
    slice_is(s, start, end, &word)
}

fn is_quoted_label_word(s: &Vec<char>, start: usize, end: usize) -> (b: bool)
    requires
        start <= end <= s.len(),
    ensures
        b == (s@.subrange(start as int, end as int) == quoted_label_word()),
{
    let word = vec!['"', 'l', 'a', 'b', 'e', 'l', '"'];
    proof {
        assert(word@ =~= quoted_label_word());
    }
    slice_is(s, start, end, &word)
}

fn simple(kind: TokenKind, i: usize, end: usize) -> (r: (Token, usize))
    requires
        kind != TokenKind::Identifier,
    ensures
        r.0.spec_kind() == kind,
        r.0.spec_text() == Seq::<char>::empty(),
        r.1 == end,
{
    let token = match kind {
        TokenKind::Identifier => Token::Error,
        TokenKind::Digraph => Token::Digraph,
        TokenKind::Label => Token::Label,
        TokenKind::LeftBrace => Token::LeftBrace,
        TokenKind::RightBrace => Token::RightBrace,
        TokenKind::LeftSquare => Token::LeftSquare,
        TokenKind::RightSquare => Token::RightSquare,
        TokenKind::Arrow => Token::Arrow,
        TokenKind::Equal => Token::Equal,
        TokenKind::Comma => Token::Comma,
        TokenKind::Semicolon => Token::Semicolon,
        TokenKind::Transition => Token::Transition,
        TokenKind::EndOfInput => Token::EndOfInput,
        TokenKind::Error => Token::Error,
    };
    (token, end)
}

/// Reads the token at `i`, where no space is.
fn next_token(s: &Vec<char>, i: usize) -> (r: (Token, usize))
    requires
        i < s.len(),
        !is_space(s@[i as int]),
    ensures
        r.0.spec_kind() == token_at(s@, i as int).0,
        r.0.spec_text() == token_at(s@, i as int).1,
        r.1 == token_at(s@, i as int).2,
        i < r.1 <= s.len(),
{
    let c = s[i];
    if c == '{' {
        simple(TokenKind::LeftBrace, i, i + 1)
    } else if c == '}' {
        simple(TokenKind::RightBrace, i, i + 1)
    } else if c == '[' {
        simple(TokenKind::LeftSquare, i, i + 1)
    } else if c == ']' {
        simple(TokenKind::RightSquare, i, i + 1)
    } else if c == '=' {
        simple(TokenKind::Equal, i, i + 1)
    } else if c == ',' {
        simple(TokenKind::Comma, i, i + 1)
    } else if c == ';' {
        simple(TokenKind::Semicolon, i, i + 1)
    } else if c == '-' && i + 1 < s.len() && s[i + 1] == '>' {
        simple(TokenKind::Arrow, i, i + 2)
    } else if c == '"' {
        match scan_literal(s, i) {
            Some(e) => if is_quoted_label_word(s, i, e) {
                simple(TokenKind::Label, i, e)
            } else {
                (Token::Identifier(unescape_text(s, i + 1, e - 1)), e)
            },
            None => simple(TokenKind::Error, i, i + 1),
        }
    } else if is_ident_start_char(c) {
        let e = scan_ident(s, i + 1);
        proof {
            lemma_ident_end(s@, i + 1);
        }
        if is_digraph_word(s, i, e) {
            simple(TokenKind::Digraph, i, e)
        } else if is_label_word(s, i, e) {
            simple(TokenKind::Label, i, e)
        } else {
            (Token::Identifier(text_of(s, i, e)), e)
        }
    } else {
        match scan_number(s, i) {
            Some(e) => {
                proof {
                    let j = if s@[i as int] == '-' {
                        i + 1
                    } else {
                        i as int
                    };
                    if j < s@.len() && s@[j] == '.' {
                        lemma_digits_end(s@, j + 1);
                    } else {
                        lemma_digits_end(s@, j);
                        let k = digits_end(s@, j);
                        if k < s@.len() && s@[k] == '.' {
                            lemma_digits_end(s@, k + 1);
                        }
                    }
                }
                (Token::Identifier(text_of(s, i, e)), e)
            },
            None => simple(TokenKind::Error, i, i + 1),
        }
    }
}

/// The tokens of `input`, each with the text it was read from.
pub fn lex(input: &str) -> (lexemes: Vec<Lexeme>)
    ensures
        models(lexemes@) == tokens(input@),
{
    let s = chars_of(input);
    let mut lexemes: Vec<Lexeme> = Vec::new();
    let mut i: usize = 0;
    while i < s.len()
        invariant
            s@ == input@,
            i <= s@.len(),
            models(lexemes@) + tokens_from(s@, i as int) == tokens(s@),
        decreases s@.len() - i,
    {
        if is_space_char(s[i]) {
            i = i + 1;
        } else {
            let (token, e) = next_token(&s, i);
            let slice = text_of(&s, i, e);
            let lexeme = Lexeme { token, slice };
            proof {
                assert(models(lexemes@.push(lexeme)) =~= models(lexemes@).push(model(lexeme)));
                assert(models(lexemes@).push(model(lexeme)) + tokens_from(s@, e as int)
                    =~= models(lexemes@) + tokens_from(s@, i as int));
            }
            lexemes.push(lexeme);
            i = e;
        }
    }
    proof {
        assert(models(lexemes@) + tokens_from(s@, i as int) =~= models(lexemes@));
    }
    lexemes
}

/// How error messages name a kind of token.
pub open spec fn kind_name(kind: TokenKind) -> Seq<char> {
    match kind {
        TokenKind::Identifier => "an identifier"@,
        TokenKind::Digraph => "'digraph'"@,
        TokenKind::Label => "'label'"@,
        TokenKind::LeftBrace => "'{'"@,
        TokenKind::RightBrace => "'}'"@,
        TokenKind::LeftSquare => "'['"@,
        TokenKind::RightSquare => "']'"@,
        TokenKind::Arrow => "'->'"@,
        TokenKind::Equal => "'='"@,
        TokenKind::Comma => "','"@,
        TokenKind::Semicolon => "';'"@,
        TokenKind::Transition => "a transition"@,
        TokenKind::EndOfInput => "end of input"@,
        TokenKind::Error => Seq::empty(),
    }
}

impl TokenKind {
    /// How error messages name this kind of token. Text that no token
    /// matches is never named: an error names what it expected, and the
    /// text it found.
    pub fn name(self) -> (name: &'static str)
        requires
            self != TokenKind::Error,
        ensures
            name@ == kind_name(self),
    {
        match self {
            TokenKind::Identifier => "an identifier",
            TokenKind::Digraph => "'digraph'",
            TokenKind::Label => "'label'",
            TokenKind::LeftBrace => "'{'",
            TokenKind::RightBrace => "'}'",
            TokenKind::LeftSquare => "'['",
            TokenKind::RightSquare => "']'",
            TokenKind::Arrow => "'->'",
            TokenKind::Equal => "'='",
            TokenKind::Comma => "','",
            TokenKind::Semicolon => "';'",
            TokenKind::Transition => "a transition",
            TokenKind::EndOfInput => "end of input",
            TokenKind::Error => "",
        }
    }
}

} // verus!
