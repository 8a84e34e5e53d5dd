use vstd::prelude::*;

verus! {

/// One lexical unit of a source line.
#[derive(Debug, PartialEq, Clone)]
pub enum Token {
    Other(char),
    Var(char),
    Relop(Relop),
    Number(u32),
    String(String),
    ClosingBracket(char),
    OpeningBracket(char),
    Reserved(Reserved),
    Plus,
    Minus,
    Asterisk,
    Slash,
}

/// The closed set of keywords; they are matched without regard to letter case.
#[allow(non_camel_case_types)]
#[derive(Debug, PartialEq, Eq, Clone, Copy)]
pub enum Reserved {
    END,
    RUN,
    LIST,
    CLEAR,
    RETURN,
    GOSUB,
    LET,
    INPUT,
    GOTO,
    THEN,
    IF,
    PRINT,
}

#[derive(Debug, PartialEq, Eq, Clone, Copy)]
pub enum Relop {
    Equal,
    NotEqual,
    GreaterThan,
    LessThan,
    GreaterThanOrEqual,
    LessThanOrEqual,
}

/// Why a line could not be tokenized. Positions count characters from the
/// start of the line.
#[derive(Debug, PartialEq, Eq, Clone, Copy)]
pub enum LexError {
    /// A character that starts no token.
    UnknownCharacter { found: char, at: usize },
    /// A run of two or more letters that is no keyword.
    UnknownIdentifier { at: usize, len: usize },
    /// A run of digits whose value does not fit in a `u32`.
    NumberTooLarge { at: usize },
    /// A string literal with no closing quote.
    UnterminatedString { at: usize },
}

/// A token with its text as a sequence of characters.
pub enum TokenView {
    Other(char),
    Var(char),
    Relop(Relop),
    Number(u32),
    String(Seq<char>),
    ClosingBracket(char),
    OpeningBracket(char),
    Reserved(Reserved),
    Plus,
    Minus,
    Asterisk,
    Slash,
}

impl View for Token {
    type V = TokenView;

    open spec fn view(&self) -> TokenView {
        match self {
            Token::Other(c) => TokenView::Other(*c),
            Token::Var(c) => TokenView::Var(*c),
            Token::Relop(r) => TokenView::Relop(*r),
            Token::Number(n) => TokenView::Number(*n),
            Token::String(s) => TokenView::String(s@),
            Token::ClosingBracket(c) => TokenView::ClosingBracket(*c),
            Token::OpeningBracket(c) => TokenView::OpeningBracket(*c),
            Token::Reserved(r) => TokenView::Reserved(*r),
            Token::Plus => TokenView::Plus,
            Token::Minus => TokenView::Minus,
            Token::Asterisk => TokenView::Asterisk,
            Token::Slash => TokenView::Slash,
        }
    }
}

pub open spec fn tokens_view(ts: Seq<Token>) -> Seq<TokenView> {
    ts.map_values(|t: Token| t@)
}

impl Token {
    pub fn is_number(&self) -> (r: bool)
        ensures
            r == (self is Number),
    {
        matches!(self, Token::Number(_))
    }
}

impl Reserved {
    /// The keyword in upper case.
    pub open spec fn spelling(self) -> Seq<char> {
        match self {
            Reserved::END => seq!['E', 'N', 'D'],
            Reserved::RUN => seq!['R', 'U', 'N'],
            Reserved::LIST => seq!['L', 'I', 'S', 'T'],
            Reserved::CLEAR => seq!['C', 'L', 'E', 'A', 'R'],
            Reserved::RETURN => seq!['R', 'E', 'T', 'U', 'R', 'N'],
            Reserved::GOSUB => seq!['G', 'O', 'S', 'U', 'B'],
            Reserved::LET => seq!['L', 'E', 'T'],
            Reserved::INPUT => seq!['I', 'N', 'P', 'U', 'T'],
            Reserved::GOTO => seq!['G', 'O', 'T', 'O'],
            Reserved::THEN => seq!['T', 'H', 'E', 'N'],
            Reserved::IF => seq!['I', 'F'],
            Reserved::PRINT => seq!['P', 'R', 'I', 'N', 'T'],
        }
    }

    fn spelling_chars(self) -> (r: Vec<char>)
        ensures
            r@ == self.spelling(),
    {
        match self {
            Reserved::END => vec!['E', 'N', 'D'],
            Reserved::RUN => vec!['R', 'U', 'N'],
            Reserved::LIST => vec!['L', 'I', 'S', 'T'],
            Reserved::CLEAR => vec!['C', 'L', 'E', 'A', 'R'],
            Reserved::RETURN => vec!['R', 'E', 'T', 'U', 'R', 'N'],
            Reserved::GOSUB => vec!['G', 'O', 'S', 'U', 'B'],
            Reserved::LET => vec!['L', 'E', 'T'],
            Reserved::INPUT => vec!['I', 'N', 'P', 'U', 'T'],
            Reserved::GOTO => vec!['G', 'O', 'T', 'O'],
            Reserved::THEN => vec!['T', 'H', 'E', 'N'],
            Reserved::IF => vec!['I', 'F'],
            Reserved::PRINT => vec!['P', 'R', 'I', 'N', 'T'],
        }
    }

    fn is_spelled(self, word: &Vec<char>) -> (r: bool)
        ensures
            r == (word@ == self.spelling()),
    {
        let name = self.spelling_chars();
        if name.len() != word.len() {
            return false;
        }
        let mut i: usize = 0;
        while i < name.len()
            invariant
                name@ == self.spelling(),
                name.len() == word.len(),
                i <= name.len(),
                forall|k: int| 0 <= k < i ==> name@[k] == word@[k],
            decreases name.len() - i,
        {
            if name[i] != word[i] {
                return false;
            }
            i = i + 1;
        }
        assert(word@ =~= name@);
        true
    }
}

/// The keyword whose upper-case spelling is `word`, if any.
pub open spec fn keyword(word: Seq<char>) -> Option<Reserved> {
    if word == Reserved::END.spelling() {
        Some(Reserved::END)
    } else if word == Reserved::RUN.spelling() {
        Some(Reserved::RUN)
    } else if word == Reserved::LIST.spelling() {
        Some(Reserved::LIST)
    } else if word == Reserved::CLEAR.spelling() {
        Some(Reserved::CLEAR)
    } else if word == Reserved::RETURN.spelling() {
        Some(Reserved::RETURN)
    } else if word == Reserved::GOSUB.spelling() {
        Some(Reserved::GOSUB)
    } else if word == Reserved::LET.spelling() {
        Some(Reserved::LET)
    } else if word == Reserved::INPUT.spelling() {
        Some(Reserved::INPUT)
    } else if word == Reserved::GOTO.spelling() {
        Some(Reserved::GOTO)
    } else if word == Reserved::THEN.spelling() {
        Some(Reserved::THEN)
    } else if word == Reserved::IF.spelling() {
        Some(Reserved::IF)
    } else if word == Reserved::PRINT.spelling() {
        Some(Reserved::PRINT)
    } else {
        None
    }
}

fn keyword_of(word: &Vec<char>) -> (r: Option<Reserved>)
    ensures
        r == keyword(word@),
{
    if Reserved::END.is_spelled(word) {
        Some(Reserved::END)
    } else if Reserved::RUN.is_spelled(word) {
        Some(Reserved::RUN)
    } else if Reserved::LIST.is_spelled(word) {
        Some(Reserved::LIST)
    } else if Reserved::CLEAR.is_spelled(word) {
        Some(Reserved::CLEAR)
    } else if Reserved::RETURN.is_spelled(word) {
        Some(Reserved::RETURN)
    } else if Reserved::GOSUB.is_spelled(word) {
        Some(Reserved::GOSUB)
    } else if Reserved::LET.is_spelled(word) {
        Some(Reserved::LET)
    } else if Reserved::INPUT.is_spelled(word) {
        Some(Reserved::INPUT)
    } else if Reserved::GOTO.is_spelled(word) {
        Some(Reserved::GOTO)
    } else if Reserved::THEN.is_spelled(word) {
        Some(Reserved::THEN)
    } else if Reserved::IF.is_spelled(word) {
        Some(Reserved::IF)
    } else if Reserved::PRINT.is_spelled(word) {
        Some(Reserved::PRINT)
    } else {
        None
    }
}

pub open spec fn is_letter(c: char) -> bool {
    ('a' <= c && c <= 'z') || ('A' <= c && c <= 'Z')
}

pub open spec fn is_digit(c: char) -> bool {
    '0' <= c && c <= '9'
}

/// Characters that separate tokens and are otherwise dropped.
pub open spec fn is_blank(c: char) -> bool {
    c == ' ' || c == '\t' || c == '\n'
}

pub open spec fn upper(c: char) -> char {
    if 'a' <= c && c <= 'z' {
        ((c as u32) - 32) as char
    } else {
        c
    }
}

pub open spec fn upper_word(w: Seq<char>) -> Seq<char> {
    w.map_values(|c: char| upper(c))
}

pub open spec fn digit_value(c: char) -> nat {
    ((c as u32) - ('0' as u32)) as nat
}

/// The value of a run of decimal digits, most significant first.
pub open spec fn decimal_value(w: Seq<char>) -> nat
    decreases w.len(),
{
    if w.len() == 0 {
        0
    } else {
        decimal_value(w.drop_last()) * 10 + digit_value(w.last())
    }
}

/// How many letters follow one another from position `i` on.
pub open spec fn letter_run(s: Seq<char>, i: nat) -> nat
    decreases s.len() - i,
{
    if i < s.len() && is_letter(s[i as int]) {
        1 + letter_run(s, i + 1)
    } else {
        0
    }
}

/// How many digits follow one another from position `i` on.
pub open spec fn digit_run(s: Seq<char>, i: nat) -> nat
    decreases s.len() - i,
{
    if i < s.len() && is_digit(s[i as int]) {
        1 + digit_run(s, i + 1)
    } else {
        0
    }
}

/// How many characters stand between position `i` and the next double quote,
/// if there is one.
pub open spec fn quoted_len(s: Seq<char>, i: nat) -> Option<nat>
    decreases s.len() - i,
{
    if i >= s.len() {
        None
    } else if s[i as int] == '"' {
        Some(0)
    } else {
        match quoted_len(s, i + 1) {
            Some(k) => Some(k + 1),
            None => None,
        }
    }
}

pub open spec fn next_is(s: Seq<char>, i: nat, c: char) -> bool {
    i + 1 < s.len() && s[i + 1 as int] == c
}

/// The token that starts at position `i` (not a blank), with the number of
/// characters it takes beyond the first.
pub open spec fn scan(s: Seq<char>, i: nat) -> Result<(TokenView, nat), LexError> {
    let c = s[i as int];
    if c == '<' {
        if next_is(s, i, '=') {
            Ok((TokenView::Relop(Relop::LessThanOrEqual), 1))
        } else if next_is(s, i, '>') {
            Ok((TokenView::Relop(Relop::NotEqual), 1))
        } else {
            Ok((TokenView::Relop(Relop::LessThan), 0))
        }
    } else if c == '>' {
        if next_is(s, i, '=') {
            Ok((TokenView::Relop(Relop::GreaterThanOrEqual), 1))
        } else if next_is(s, i, '<') {
            Ok((TokenView::Relop(Relop::NotEqual), 1))
        } else {
            Ok((TokenView::Relop(Relop::GreaterThan), 0))
        }
    } else if c == '=' {
        Ok((TokenView::Relop(Relop::Equal), 0))
    } else if c == '(' {
        Ok((TokenView::OpeningBracket('('), 0))
    } else if c == ')' {
        Ok((TokenView::ClosingBracket(')'), 0))
    } else if c == '+' {
        Ok((TokenView::Plus, 0))
    } else if c == '-' {
        Ok((TokenView::Minus, 0))
    } else if c == '*' {
        Ok((TokenView::Asterisk, 0))
    } else if c == '/' {
        Ok((TokenView::Slash, 0))
    } else if is_letter(c) {
        let n = letter_run(s, i);
        if n == 1 {
            Ok((TokenView::Var(c), 0))
        } else {
            match keyword(upper_word(s.subrange(i as int, (i + n) as int))) {
                Some(r) => Ok((TokenView::Reserved(r), (n - 1) as nat)),
                None => Err(LexError::UnknownIdentifier { at: i as usize, len: n as usize }),
            }
        }
    } else if is_digit(c) {
        let n = digit_run(s, i);
        let v = decimal_value(s.subrange(i as int, (i + n) as int));
        if v <= u32::MAX {
            Ok((TokenView::Number(v as u32), (n - 1) as nat))
        } else {
            Err(LexError::NumberTooLarge { at: i as usize })
        }
    } else if c == '"' {
        match quoted_len(s, i + 1) {
            Some(k) => Ok((TokenView::String(s.subrange(i + 1 as int, (i + 1 + k) as int)), k + 1)),
            None => Err(LexError::UnterminatedString { at: i as usize }),
        }
    } else {
        Err(LexError::UnknownCharacter { found: c, at: i as usize })
    }
}

pub open spec fn remaining(len: nat, i: nat) -> nat {
    if i < len {
        (len - i) as nat
    } else {
        0
    }
}

/// The tokens of `s` from position `i` on, or the first error met there.
pub open spec fn lex_from(s: Seq<char>, i: nat) -> Result<Seq<TokenView>, LexError>
    decreases remaining(s.len(), i),
{
    if i >= s.len() {
        Ok(seq![])
    } else if is_blank(s[i as int]) {
        lex_from(s, i + 1)
    } else {
        match scan(s, i) {
            Err(e) => Err(e),
            Ok((t, extra)) => match lex_from(s, i + 1 + extra) {
                Ok(rest) => Ok(seq![t] + rest),
                Err(e) => Err(e),
            },
        }
    }
}

/// The tokens of a whole line.
pub open spec fn lex(s: Seq<char>) -> Result<Seq<TokenView>, LexError> {
    lex_from(s, 0)
}

pub open spec fn prepend(done: Seq<TokenView>, r: Result<Seq<TokenView>, LexError>) -> Result<
    Seq<TokenView>,
    LexError,
> {
    match r {
        Ok(rest) => Ok(done + rest),
        Err(e) => Err(e),
    }
}

fn chars_of(s: &str) -> (r: Vec<char>)
    ensures
        r@ == s@,
{
    let mut r: Vec<char> = Vec::new();
    for c in it: s.chars()
        invariant
            r@ == it.seq().take(it.index() as int),
    {
        r.push(c);
    }
    r
}

fn upper_char(c: char) -> (r: char)
    ensures
        r == upper(c),
{
    if 'a' <= c && c <= 'z' {
        ((c as u8) - 32) as char
    } else {
        c
    }
}

/// Relies on `FromIterator<char>` for `String`: the string holds the given
/// characters in order.
#[verifier::external_body]
fn string_from_chars(cs: &Vec<char>) -> (r: String)
    ensures
        r@ == cs@,
{
    cs.iter().collect()
}

fn scan_word(s: &Vec<char>, i: usize) -> (r: Result<(Token, usize), LexError>)
    requires
        i < s@.len(),
        is_letter(s@[i as int]),
    ensures
        match r {
            Ok((t, extra)) => scan(s@, i as nat) == Ok::<(TokenView, nat), LexError>((t@, extra as nat))
                && i + 1 + extra <= s@.len(),
            Err(e) => scan(s@, i as nat) == Err::<(TokenView, nat), LexError>(e),
        },
{
    let mut word: Vec<char> = Vec::new();
    let mut j: usize = i;
    while j < s.len() && (('a' <= s[j] && s[j] <= 'z') || ('A' <= s[j] && s[j] <= 'Z'))
        invariant
            i <= j <= s@.len(),
            letter_run(s@, i as nat) == (j - i) + letter_run(s@, j as nat),
            word@ == upper_word(s@.subrange(i as int, j as int)),
        decreases s@.len() - j,
    {
        word.push(upper_char(s[j]));
        assert(upper_word(s@.subrange(i as int, j + 1)) =~= upper_word(
            s@.subrange(i as int, j as int),
        ).push(upper(s@[j as int])));
        j = j + 1;
    }
    let n = j - i;
    if n == 1 {
        return Ok((Token::Var(s[i]), 0));
    }
    match keyword_of(&word) {
        Some(r) => Ok((Token::Reserved(r), n - 1)),
        None => Err(LexError::UnknownIdentifier { at: i, len: n }),
    }
}

fn scan_number(s: &Vec<char>, i: usize) -> (r: Result<(Token, usize), LexError>)
    requires
        i < s@.len(),
        is_digit(s@[i as int]),
    ensures
        match r {
            Ok((t, extra)) => scan(s@, i as nat) == Ok::<(TokenView, nat), LexError>((t@, extra as nat))
                && i + 1 + extra <= s@.len(),
            Err(e) => scan(s@, i as nat) == Err::<(TokenView, nat), LexError>(e),
        },
{
    let mut value: u32 = 0;
    let mut too_large = false;
    let mut j: usize = i;
    while j < s.len() && '0' <= s[j] && s[j] <= '9'
        invariant
            i <= j <= s@.len(),
            digit_run(s@, i as nat) == (j - i) + digit_run(s@, j as nat),
            !too_large ==> value == decimal_value(s@.subrange(i as int, j as int)),
            too_large ==> decimal_value(s@.subrange(i as int, j as int)) > u32::MAX,
        decreases s@.len() - j,
    {
        let d = (s[j] as u32) - ('0' as u32);
        assert(s@.subrange(i as int, j + 1).drop_last() =~= s@.subrange(i as int, j as int));
        if !too_large {
            let next: u64 = (value as u64) * 10 + (d as u64);
            if next > u32::MAX as u64 {
                too_large = true;
            } else {
                value = next as u32;
            }
        }
        j = j + 1;
    }
    if too_large {
        Err(LexError::NumberTooLarge { at: i })
    } else {
        Ok((Token::Number(value), j - i - 1))
    }
}

fn scan_string(s: &Vec<char>, i: usize) -> (r: Result<(Token, usize), LexError>)
    requires
        i < s@.len(),
        s@[i as int] == '"',
    ensures
        match r {
            Ok((t, extra)) => scan(s@, i as nat) == Ok::<(TokenView, nat), LexError>((t@, extra as nat))
                && i + 1 + extra <= s@.len(),
            Err(e) => scan(s@, i as nat) == Err::<(TokenView, nat), LexError>(e),
        },
{
    let mut text: Vec<char> = Vec::new();
    let len = s.len();
    assert(i < len);
    let mut j: usize = i + 1;
    while j < s.len() && s[j] != '"'
        invariant
            i + 1 <= j <= s@.len(),
            text@ == s@.subrange(i + 1, j as int),
            match quoted_len(s@, j as nat) {
                Some(k) => quoted_len(s@, (i + 1) as nat) == Some(k + (j - i - 1) as nat),
                None => quoted_len(s@, (i + 1) as nat) is None,
            },
        decreases s@.len() - j,
    {
        text.push(s[j]);
        assert(text@ =~= s@.subrange(i + 1, j + 1));
        j = j + 1;
    }
    if j == s.len() {
        Err(LexError::UnterminatedString { at: i })
    } else {
        Ok((Token::String(string_from_chars(&text)), j - i))
    }
}

fn scan_token(s: &Vec<char>, i: usize) -> (r: Result<(Token, usize), LexError>)
    requires
        i < s@.len(),
    ensures
        match r {
            Ok((t, extra)) => scan(s@, i as nat) == Ok::<(TokenView, nat), LexError>((t@, extra as nat))
                && i + 1 + extra <= s@.len(),
            Err(e) => scan(s@, i as nat) == Err::<(TokenView, nat), LexError>(e),
        },
{
    let c = s[i];
    let len = s.len();
    let next: Option<char> = if i < len - 1 {
        Some(s[i + 1])
    } else {
        None
    };
    if c == '<' {
        if next == Some('=') {
            Ok((Token::Relop(Relop::LessThanOrEqual), 1))
        } else if next == Some('>') {
            Ok((Token::Relop(Relop::NotEqual), 1))
        } else {
            Ok((Token::Relop(Relop::LessThan), 0))
        }
    } else if c == '>' {
        if next == Some('=') {
            Ok((Token::Relop(Relop::GreaterThanOrEqual), 1))
        } else if next == Some('<') {
            Ok((Token::Relop(Relop::NotEqual), 1))
        } else {
            Ok((Token::Relop(Relop::GreaterThan), 0))
        }
    } else if c == '=' {
        Ok((Token::Relop(Relop::Equal), 0))
    } else if c == '(' {
        Ok((Token::OpeningBracket('('), 0))
    } else if c == ')' {
        Ok((Token::ClosingBracket(')'), 0))
    } else if c == '+' {
        Ok((Token::Plus, 0))
    } else if c == '-' {
        Ok((Token::Minus, 0))
    } else if c == '*' {
        Ok((Token::Asterisk, 0))
    } else if c == '/' {
        Ok((Token::Slash, 0))
    } else if ('a' <= c && c <= 'z') || ('A' <= c && c <= 'Z') {
        scan_word(s, i)
    } else if '0' <= c && c <= '9' {
        scan_number(s, i)
    } else if c == '"' {
        scan_string(s, i)
    } else {
        Err(LexError::UnknownCharacter { found: c, at: i })
    }
}

/// Splits one line of source text into tokens. Blanks (space, tab, newline)
/// only separate tokens.
pub fn lexer(expr: &str) -> (r: Result<Vec<Token>, LexError>)
    ensures
        match r {
            Ok(tokens) => lex(expr@) == Ok::<Seq<TokenView>, LexError>(tokens_view(tokens@)),
            Err(e) => lex(expr@) == Err::<Seq<TokenView>, LexError>(e),
        },
{
    let s = chars_of(expr);
    let mut tokens: Vec<Token> = Vec::new();
    let mut i: usize = 0;
    assert(tokens_view(tokens@) =~= seq![]);
    assert(prepend(seq![], lex_from(s@, 0)) == lex_from(s@, 0)) by {
        match lex_from(s@, 0) {
            Ok(rest) => assert(seq![] + rest =~= rest),
            Err(e) => {},
        }
    }
    while i < s.len()
        invariant
            s@ == expr@,
            i <= s@.len(),
            lex(s@) == prepend(tokens_view(tokens@), lex_from(s@, i as nat)),
        decreases s@.len() - i,
    {
        let c = s[i];
        if c == ' ' || c == '\t' || c == '\n' {
            i = i + 1;
        } else {
            match scan_token(&s, i) {
                Err(e) => return Err(e),
                Ok((t, extra)) => {
                    proof {
                        let done = tokens_view(tokens@);
                        let next = lex_from(s@, (i + 1 + extra) as nat);
                        assert(tokens_view(tokens@.push(t)) =~= done.push(t@));
                        match next {
                            Ok(rest) => assert(done + (seq![t@] + rest) =~= done.push(t@) + rest),
                            Err(e) => {},
                        }
                    }
                    tokens.push(t);
                    i = i + 1 + extra;
                }
            }
        }
    }
    assert(tokens_view(tokens@) + seq![] =~= tokens_view(tokens@));
    Ok(tokens)
}

// ---- Laws of the tokenizer ----

/// A lone letter, of either case, is one variable token holding it.
pub proof fn lemma_single_letter(c: char)
    requires
        is_letter(c),
    ensures
        lex(seq![c]) == Ok::<Seq<TokenView>, LexError>(seq![TokenView::Var(c)]),
{
    let s = seq![c];
    assert(letter_run(s, 1) == 0);
    assert(letter_run(s, 0) == 1);
    assert(lex_from(s, 1) == Ok::<Seq<TokenView>, LexError>(seq![]));
    assert(seq![TokenView::Var(c)] + Seq::<TokenView>::empty() =~= seq![TokenView::Var(c)]);
}

proof fn lemma_letter_run_to_end(s: Seq<char>, i: nat)
    requires
        i <= s.len(),
        forall|k: int| i <= k < s.len() ==> is_letter(#[trigger] s[k]),
    ensures
        letter_run(s, i) == s.len() - i,
    decreases s.len() - i,
{
    if i < s.len() {
        lemma_letter_run_to_end(s, i + 1);
    }
}

proof fn lemma_digit_run_to_end(s: Seq<char>, i: nat)
    requires
        i <= s.len(),
        forall|k: int| i <= k < s.len() ==> is_digit(#[trigger] s[k]),
    ensures
        digit_run(s, i) == s.len() - i,
    decreases s.len() - i,
{
    if i < s.len() {
        lemma_digit_run_to_end(s, i + 1);
    }
}

proof fn lemma_keyword_of_spelling(r: Reserved)
    ensures
        keyword(r.spelling()) == Some(r),
        r.spelling().len() >= 2,
{
    let w = r.spelling();
    match r {
        Reserved::END => {},
        Reserved::RUN => {
            assert(w[0] != Reserved::END.spelling()[0]);
        },
        Reserved::LIST => {},
        Reserved::CLEAR => {},
        Reserved::RETURN => {},
        Reserved::GOSUB => {},
        Reserved::LET => {
            assert(w[0] != Reserved::END.spelling()[0]);
            assert(w[0] != Reserved::RUN.spelling()[0]);
        },
        Reserved::INPUT => {
            assert(w[0] != Reserved::CLEAR.spelling()[0]);
            assert(w[0] != Reserved::GOSUB.spelling()[0]);
        },
        Reserved::GOTO => {
            assert(w[0] != Reserved::LIST.spelling()[0]);
        },
        Reserved::THEN => {
            assert(w[0] != Reserved::LIST.spelling()[0]);
            assert(w[0] != Reserved::GOTO.spelling()[0]);
        },
        Reserved::IF => {},
        Reserved::PRINT => {
            assert(w[0] != Reserved::CLEAR.spelling()[0]);
            assert(w[0] != Reserved::GOSUB.spelling()[0]);
            assert(w[0] != Reserved::INPUT.spelling()[0]);
        },
    }
}

/// A keyword spelt in any mix of upper- and lower-case letters is the one
/// keyword token.
pub proof fn lemma_keyword_any_case(w: Seq<char>, r: Reserved)
    requires
        forall|k: int| 0 <= k < w.len() ==> is_letter(#[trigger] w[k]),
        upper_word(w) == r.spelling(),
    ensures
        lex(w) == Ok::<Seq<TokenView>, LexError>(seq![TokenView::Reserved(r)]),
{
    lemma_keyword_of_spelling(r);
    lemma_letter_run_to_end(w, 0);
    assert(w.len() == r.spelling().len());
    assert(w.subrange(0, w.len() as int) =~= w);
    assert(is_letter(w[0]));
    assert(lex_from(w, w.len()) == Ok::<Seq<TokenView>, LexError>(seq![]));
    assert(seq![TokenView::Reserved(r)] + Seq::<TokenView>::empty() =~= seq![
        TokenView::Reserved(r),
    ]);
}

pub open spec fn digit_char(d: nat) -> char {
    seq!['0', '1', '2', '3', '4', '5', '6', '7', '8', '9'][d as int]
}

/// The decimal digits of `n`, with no leading zero.
pub open spec fn decimal(n: nat) -> Seq<char>
    decreases n,
{
    if n < 10 {
        seq![digit_char(n)]
    } else {
        decimal(n / 10).push(digit_char(n % 10))
    }
}

proof fn lemma_digit_char(d: nat)
    requires
        d < 10,
    ensures
        is_digit(digit_char(d)),
        digit_value(digit_char(d)) == d,
{
    let t = seq!['0', '1', '2', '3', '4', '5', '6', '7', '8', '9'];
    assert(t[0] == '0' && t[1] == '1' && t[2] == '2' && t[3] == '3' && t[4] == '4');
    assert(t[5] == '5' && t[6] == '6' && t[7] == '7' && t[8] == '8' && t[9] == '9');
}

proof fn lemma_decimal(n: nat)
    ensures
        decimal(n).len() >= 1,
        forall|k: int| 0 <= k < decimal(n).len() ==> is_digit(#[trigger] decimal(n)[k]),
        decimal_value(decimal(n)) == n,
    decreases n,
{
    if n < 10 {
        lemma_digit_char(n);
        assert(decimal(n).drop_last() =~= Seq::<char>::empty());
        assert(decimal_value(Seq::<char>::empty()) == 0);
        assert(decimal(n).last() == digit_char(n));
    } else {
        lemma_decimal(n / 10);
        lemma_digit_char(n % 10);
        let s = decimal(n);
        assert(s.drop_last() =~= decimal(n / 10));
        assert(s.last() == digit_char(n % 10));
        assert(decimal_value(s) == decimal_value(decimal(n / 10)) * 10 + digit_value(
            digit_char(n % 10),
        ));
        assert(n == (n / 10) * 10 + n % 10) by (nonlinear_arith);
    }
}

/// Every number that fits in a `u32`, written in decimal, is one number
/// token with that value.
pub proof fn lemma_number(n: nat)
    requires
        n <= u32::MAX,
    ensures
        lex(decimal(n)) == Ok::<Seq<TokenView>, LexError>(seq![TokenView::Number(n as u32)]),
{
    let s = decimal(n);
    lemma_decimal(n);
    lemma_digit_run_to_end(s, 0);
    assert(s.subrange(0, s.len() as int) =~= s);
    assert(is_digit(s[0]));
    assert(lex_from(s, s.len()) == Ok::<Seq<TokenView>, LexError>(seq![]));
    assert(seq![TokenView::Number(n as u32)] + Seq::<TokenView>::empty() =~= seq![
        TokenView::Number(n as u32),
    ]);
}

} // verus!
