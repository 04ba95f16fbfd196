use vstd::prelude::*;
use vstd::utf8::{encode_utf8, is_ascii_chars_encode_utf8};
use crate::error::{bad_parse, Error, ErrorType, SpecError};
use crate::numeral::{defect_of, is_numeral_char, Defect, Numeral};
use crate::text::characters;

verus! {

/// The five binary operations.
#[derive(Debug, PartialEq, Eq, Clone, Copy, Structural)]
pub enum Operation {
    Add,
    Subtract,
    Multiply,
    Divide,
    Exponentiate,
}

/// What a token is.
#[derive(Debug, PartialEq, Eq)]
pub enum TokenType {
    OpenParen,
    CloseParen,
    Op(Operation),
    Constant(Numeral),
    Identifier(char),
}

/// A token with the half-open span `[start, end)` of the text it was read from.
#[derive(Debug, PartialEq, Eq)]
pub struct Token {
    pub token_type: TokenType,
    pub start: usize,
    pub end: usize,
}

/// The mathematical content of a [`TokenType`].
pub enum SpecTokenType {
    OpenParen,
    CloseParen,
    Op(Operation),
    Constant(Seq<char>),
    Identifier(char),
}

/// The mathematical content of a [`Token`].
pub struct SpecToken {
    pub token_type: SpecTokenType,
    pub start: int,
    pub end: int,
}

impl View for TokenType {
    type V = SpecTokenType;

    open spec fn view(&self) -> SpecTokenType {
        match *self {
            TokenType::OpenParen => SpecTokenType::OpenParen,
            TokenType::CloseParen => SpecTokenType::CloseParen,
            TokenType::Op(op) => SpecTokenType::Op(op),
            TokenType::Constant(n) => SpecTokenType::Constant(n@),
            TokenType::Identifier(name) => SpecTokenType::Identifier(name),
        }
    }
}

impl View for Token {
    type V = SpecToken;

    open spec fn view(&self) -> SpecToken {
        SpecToken { token_type: self.token_type@, start: self.start as int, end: self.end as int }
    }
}

/// The contents of a sequence of tokens.
pub open spec fn token_views(tokens: Seq<Token>) -> Seq<SpecToken> {
    Seq::new(tokens.len(), |i: int| tokens[i]@)
}

impl Token {
    pub fn new(token_type: TokenType, start: usize, end: usize) -> (token: Token)
        ensures
            token.token_type == token_type,
            token.start == start,
            token.end == end,
    {
        Token { token_type, start, end }
    }
}

/// Whether `c` is a letter of the basic Latin alphabet.
pub open spec fn is_letter(c: char) -> bool {
    ('A' <= c && c <= 'Z') || ('a' <= c && c <= 'z')
}

/// The token that a single character stands for, if it stands for one.
pub open spec fn symbol(c: char) -> Option<SpecTokenType> {
    if c == '(' {
        Some(SpecTokenType::OpenParen)
    } else if c == ')' {
        Some(SpecTokenType::CloseParen)
    } else if c == '+' {
        Some(SpecTokenType::Op(Operation::Add))
    } else if c == '-' {
        Some(SpecTokenType::Op(Operation::Subtract))
    } else if c == '*' {
        Some(SpecTokenType::Op(Operation::Multiply))
    } else if c == '/' {
        Some(SpecTokenType::Op(Operation::Divide))
    } else if c == '^' {
        Some(SpecTokenType::Op(Operation::Exponentiate))
    } else if is_letter(c) {
        Some(SpecTokenType::Identifier(c))
    } else {
        None
    }
}

/// Where the run of digits and decimal points that starts at `i` ends.
pub open spec fn number_end(text: Seq<char>, i: int) -> int
    decreases text.len() - i,
{
    if 0 <= i < text.len() && is_numeral_char(text[i]) {
        number_end(text, i + 1)
    } else {
        i
    }
}

/// A run ends at or behind its start, and within the text.
pub proof fn lemma_number_end_bounds(text: Seq<char>, i: int)
    requires
        0 <= i <= text.len(),
    ensures
        i <= number_end(text, i) <= text.len(),
        i < text.len() && is_numeral_char(text[i]) ==> i < number_end(text, i),
    decreases text.len() - i,
{
    if i < text.len() && is_numeral_char(text[i]) {
        lemma_number_end_bounds(text, i + 1);
    }
}

/// A run that holds digits and decimal points only, and stops at `j`, ends there.
pub proof fn lemma_number_end_is(text: Seq<char>, i: int, j: int)
    requires
        0 <= i <= j <= text.len(),
        forall|k: int| i <= k < j ==> is_numeral_char(#[trigger] text[k]),
        j == text.len() || !is_numeral_char(text[j]),
    ensures
        number_end(text, i) == j,
    decreases j - i,
{
    if i < j {
        lemma_number_end_is(text, i + 1, j);
    }
}

/// The failure of a run of digits and decimal points that is no numeral.
pub open spec fn numeral_failure(defect: Defect, start: int, end: int) -> SpecError {
    match defect {
        Defect::Malformed => bad_parse("invalid float literal"@, start, end),
        Defect::TooLarge => bad_parse("number too large to fit in f64"@, start, end),
    }
}

/// The failure of a character that belongs to no token.
pub open spec fn invalid_character(c: char, at: int) -> SpecError {
    bad_parse("invalid character '"@.push(c).push('\''), at, at + 1)
}

/// A result with `tokens` in front of what it holds.
pub open spec fn preceded(tokens: Seq<SpecToken>, then: Result<Seq<SpecToken>, SpecError>) -> Result<
    Seq<SpecToken>,
    SpecError,
> {
    match then {
        Ok(rest) => Ok(tokens + rest),
        Err(e) => Err(e),
    }
}

/// The tokens of `text` from position `i` on. A run of digits and decimal points
/// is taken whole, as one numeral; a space is passed over; each other character
/// is a token by itself. The first character or run that is none fails.
pub open spec fn scan(text: Seq<char>, i: int) -> Result<Seq<SpecToken>, SpecError>
    decreases text.len() - i,
{
    if i < 0 || i >= text.len() {
        Ok(Seq::empty())
    } else if is_numeral_char(text[i]) {
        let j = number_end(text, i);
        proof {
            lemma_number_end_bounds(text, i);
        }
        match defect_of(text.subrange(i, j)) {
            Some(defect) => Err(numeral_failure(defect, i, j)),
            None => preceded(
                seq![
                    SpecToken {
                        token_type: SpecTokenType::Constant(text.subrange(i, j)),
                        start: i,
                        end: j,
                    },
                ],
                scan(text, j),
            ),
        }
    } else if text[i] == ' ' {
        scan(text, i + 1)
    } else {
        match symbol(text[i]) {
            Some(token_type) => preceded(
                seq![SpecToken { token_type, start: i, end: i + 1 }],
                scan(text, i + 1),
            ),
            None => Err(invalid_character(text[i], i)),
        }
    }
}

/// The tokens of a text. An empty text has none to offer and fails.
pub open spec fn tokens_of(text: Seq<char>) -> Result<Seq<SpecToken>, SpecError> {
    if text.len() == 0 {
        Err(bad_parse("expected token"@, 0, 1))
    } else {
        scan(text, 0)
    }
}

/// Whether the text holds nothing but spaces from `from` up to `to`.
pub open spec fn is_blank(text: Seq<char>, from: int, to: int) -> bool {
    forall|k: int| from <= k < to ==> #[trigger] text[k] == ' '
}

/// Whether the token is what the text holds at its span: a whole run of digits
/// and decimal points that is a numeral, or the one character of its kind.
pub open spec fn reads(text: Seq<char>, t: SpecToken) -> bool {
    &&& 0 <= t.start < t.end <= text.len()
    &&& match t.token_type {
        SpecTokenType::Constant(val) => {
            &&& val == text.subrange(t.start, t.end)
            &&& is_numeral_char(text[t.start])
            &&& number_end(text, t.start) == t.end
            &&& defect_of(val) is None
        },
        kind => t.end == t.start + 1 && symbol(text[t.start]) == Some(kind),
    }
}

/// Whether the tokens are those of the text from `from` on: each is what the
/// text holds at its span, they come in order, and there is nothing but spaces
/// around them.
pub open spec fn spells(text: Seq<char>, from: int, tokens: Seq<SpecToken>) -> bool
    decreases tokens.len(),
{
    if tokens.len() == 0 {
        is_blank(text, from, text.len() as int)
    } else {
        let t = tokens[0];
        &&& from <= t.start
        &&& is_blank(text, from, t.start)
        &&& reads(text, t)
        &&& spells(text, t.end, tokens.skip(1))
    }
}

/// A run holds digits and decimal points only, and stops at a character that is
/// none or at the end of the text.
pub proof fn lemma_number_end_stops(text: Seq<char>, i: int)
    requires
        0 <= i <= text.len(),
    ensures
        forall|k: int| i <= k < number_end(text, i) ==> is_numeral_char(#[trigger] text[k]),
        number_end(text, i) == text.len() || !is_numeral_char(text[number_end(text, i)]),
    decreases text.len() - i,
{
    lemma_number_end_bounds(text, i);
    if i < text.len() && is_numeral_char(text[i]) {
        lemma_number_end_stops(text, i + 1);
    }
}

/// The tokens that are read from a text spell it.
pub proof fn lemma_scan_spells(text: Seq<char>, i: int)
    requires
        0 <= i <= text.len(),
        scan(text, i) is Ok,
    ensures
        scan(text, i) matches Ok(tokens) && spells(text, i, tokens),
    decreases text.len() - i,
{
    if i < text.len() {
        if is_numeral_char(text[i]) {
            let j = number_end(text, i);
            lemma_number_end_bounds(text, i);
            lemma_scan_spells(text, j);
            let tokens = scan(text, i)->Ok_0;
            assert(tokens.skip(1) =~= scan(text, j)->Ok_0);
        } else if text[i] == ' ' {
            lemma_scan_spells(text, i + 1);
        } else {
            lemma_scan_spells(text, i + 1);
            let tokens = scan(text, i)->Ok_0;
            assert(tokens.skip(1) =~= scan(text, i + 1)->Ok_0);
        }
    }
}

/// Tokens that spell a text are the tokens that are read from it.
pub proof fn lemma_spelled_is_scanned(text: Seq<char>, i: int, tokens: Seq<SpecToken>)
    requires
        0 <= i <= text.len(),
        spells(text, i, tokens),
    ensures
        scan(text, i) == Ok::<Seq<SpecToken>, SpecError>(tokens),
    decreases text.len() - i,
{
    if i == text.len() {
        assert(tokens =~= Seq::empty());
    } else if tokens.len() > 0 && tokens[0].start == i {
        let t = tokens[0];
        lemma_spelled_is_scanned(text, t.end, tokens.skip(1));
        assert(seq![t] + tokens.skip(1) =~= tokens);
    } else {
        assert(text[i] == ' ');
        lemma_spelled_is_scanned(text, i + 1, tokens);
    }
}

/// What holds of each of the tokens that spell a text: it is what the text holds
/// at its span, it starts where the one in front of it has ended or behind that,
/// and the tokens behind it spell the rest of the text.
pub proof fn lemma_spelled_token(text: Seq<char>, i: int, tokens: Seq<SpecToken>, k: int)
    requires
        spells(text, i, tokens),
        0 <= k < tokens.len(),
    ensures
        reads(text, tokens[k]),
        i <= tokens[k].start,
        k > 0 ==> tokens[k - 1].end <= tokens[k].start,
        spells(text, tokens[k].start, tokens.skip(k)),
        spells(text, tokens[k].end, tokens.skip(k + 1)),
    decreases k,
{
    let t = tokens[0];
    if k == 0 {
        assert(tokens.skip(0) =~= tokens);
    } else {
        lemma_spelled_token(text, t.end, tokens.skip(1), k - 1);
        assert(tokens.skip(1).skip(k - 1) =~= tokens.skip(k));
        assert(tokens.skip(1).skip(k) =~= tokens.skip(k + 1));
    }
}

/// The tokens of a text come in the order of the text and within it, each has a
/// width, and none overlaps another.
pub proof fn lemma_tokens_are_ordered(text: Seq<char>, j: int, k: int)
    requires
        tokens_of(text) is Ok,
        0 <= j < k < tokens_of(text)->Ok_0.len(),
    ensures
        ({
            let tokens = tokens_of(text)->Ok_0;
            0 <= tokens[j].start < tokens[j].end <= tokens[k].start < tokens[k].end <= text.len()
        }),
{
    let tokens = tokens_of(text)->Ok_0;
    lemma_scan_spells(text, 0);
    lemma_spelled_token(text, 0, tokens, j);
    lemma_spelled_token(text, 0, tokens, k);
    lemma_spelled_end_grows(text, 0, tokens, j, k);
}

/// The token with its span moved by `by`.
pub open spec fn moved_token(t: SpecToken, by: int) -> SpecToken {
    SpecToken { token_type: t.token_type, start: t.start + by, end: t.end + by }
}

/// The tokens with their spans moved by `by`.
pub open spec fn moved_tokens(tokens: Seq<SpecToken>, by: int) -> Seq<SpecToken> {
    Seq::new(tokens.len(), |k: int| moved_token(tokens[k], by))
}

/// A run ends in a part of the text where it ends in the text, if the part
/// holds it whole.
proof fn lemma_number_end_in_part(text: Seq<char>, s: int, e: int, a: int)
    requires
        0 <= s <= a <= number_end(text, a) <= e <= text.len(),
    ensures
        number_end(text.subrange(s, e), a - s) == number_end(text, a) - s,
{
    let part = text.subrange(s, e);
    let b = number_end(text, a);
    lemma_number_end_stops(text, a);
    assert forall|k: int| a - s <= k < b - s implies is_numeral_char(#[trigger] part[k]) by {
        assert(part[k] == text[k + s]);
    }
    if b < e {
        assert(part[b - s] == text[b]);
    }
    lemma_number_end_is(part, a - s, b - s);
}

/// The tokens that spell a text up to the end of one of them spell that part of
/// the text, from wherever it starts in front of them.
proof fn lemma_spells_part(
    text: Seq<char>,
    s: int,
    e: int,
    i: int,
    tokens: Seq<SpecToken>,
    n: int,
)
    requires
        spells(text, i, tokens),
        0 <= s <= i <= e <= text.len(),
        0 <= n <= tokens.len(),
        n == 0 ==> i == e,
        n > 0 ==> tokens[n - 1].end == e,
    ensures
        spells(text.subrange(s, e), i - s, moved_tokens(tokens.take(n), -s)),
    decreases n,
{
    let part = text.subrange(s, e);
    let moved = moved_tokens(tokens.take(n), -s);
    if n > 0 {
        let t = tokens[0];
        lemma_spelled_token(text, i, tokens, n - 1);
        lemma_spelled_token(text, i, tokens, 0);
        if n > 1 {
            lemma_spelled_end_grows(text, i, tokens, 0, n - 1);
        }
        lemma_spells_part(text, s, e, t.end, tokens.skip(1), n - 1);
        assert(moved.skip(1) =~= moved_tokens(tokens.skip(1).take(n - 1), -s));
        assert(is_blank(part, i - s, t.start - s)) by {
            assert forall|k: int| i - s <= k < t.start - s implies #[trigger] part[k] == ' ' by {
                assert(part[k] == text[k + s]);
            }
        }
        assert(part[t.start - s] == text[t.start]);
        if let SpecTokenType::Constant(val) = t.token_type {
            lemma_number_end_in_part(text, s, e, t.start);
            assert(part.subrange(t.start - s, t.end - s) =~= text.subrange(t.start, t.end));
        }
        assert(reads(part, moved[0]));
    }
}

/// Of the tokens that spell a text, a later one ends behind an earlier one.
proof fn lemma_spelled_end_grows(text: Seq<char>, i: int, tokens: Seq<SpecToken>, j: int, k: int)
    requires
        spells(text, i, tokens),
        0 <= j < k < tokens.len(),
    ensures
        tokens[j].end <= tokens[k].start,
    decreases k - j,
{
    lemma_spelled_token(text, i, tokens, k);
    lemma_spelled_token(text, i, tokens, j + 1);
    if j + 1 < k {
        lemma_spelled_end_grows(text, i, tokens, j + 1, k);
    }
}

/// The text from the start of one of its tokens to the end of a later one, or
/// of the same, has the tokens in between as its own, with their spans counted
/// from its start.
pub proof fn lemma_tokens_of_part(text: Seq<char>, p: int, q: int)
    requires
        tokens_of(text) is Ok,
        0 <= p < q <= tokens_of(text)->Ok_0.len(),
    ensures
        ({
            let tokens = tokens_of(text)->Ok_0;
            let s = tokens[p].start;
            let e = tokens[q - 1].end;
            &&& 0 <= s < e <= text.len()
            &&& tokens_of(text.subrange(s, e)) == Ok::<Seq<SpecToken>, SpecError>(
                moved_tokens(tokens.subrange(p, q), -s),
            )
        }),
{
    let tokens = tokens_of(text)->Ok_0;
    let s = tokens[p].start;
    let e = tokens[q - 1].end;
    lemma_scan_spells(text, 0);
    lemma_spelled_token(text, 0, tokens, p);
    lemma_spelled_token(text, 0, tokens, q - 1);
    if p < q - 1 {
        lemma_spelled_end_grows(text, 0, tokens, p, q - 1);
    }
    lemma_spells_part(text, s, e, s, tokens.skip(p), q - p);
    assert(tokens.skip(p).take(q - p) =~= tokens.subrange(p, q));
    lemma_spelled_is_scanned(text.subrange(s, e), 0, moved_tokens(tokens.subrange(p, q), -s));
}


/// Whether `c` is one of the characters that the tokens are made of, or a space.
pub open spec fn is_plain(c: char) -> bool {
    c == ' ' || is_numeral_char(c) || symbol(c) is Some
}

/// Every character that the tokens are made of is one of the first 128, which
/// are encoded with one byte each.
pub proof fn lemma_plain_takes_one_byte(c: char)
    requires
        is_plain(c),
    ensures
        '\0' <= c <= '\u{7f}',
{
}

/// Where tokens spell a text, the text is made of plain characters.
proof fn lemma_spelled_is_plain(text: Seq<char>, i: int, tokens: Seq<SpecToken>, k: int)
    requires
        spells(text, i, tokens),
        0 <= i <= k < text.len(),
    ensures
        is_plain(text[k]),
    decreases tokens.len(),
{
    if tokens.len() > 0 {
        let t = tokens[0];
        if k >= t.end {
            lemma_spelled_is_plain(text, t.end, tokens.skip(1), k);
        } else if k >= t.start {
            if let SpecTokenType::Constant(val) = t.token_type {
                lemma_number_end_stops(text, t.start);
            }
        }
    }
}

/// A text that has tokens is made of plain characters.
pub proof fn lemma_text_with_tokens_is_plain(text: Seq<char>, k: int)
    requires
        tokens_of(text) is Ok,
        0 <= k < text.len(),
    ensures
        is_plain(text[k]),
{
    lemma_scan_spells(text, 0);
    lemma_spelled_is_plain(text, 0, tokens_of(text)->Ok_0, k);
}

/// Where reading a text from `i` on fails, the failure lies within the text at
/// `i` or behind it, and the text up to it is made of plain characters.
proof fn lemma_scan_failure(text: Seq<char>, i: int, k: int)
    requires
        0 <= i <= text.len(),
        scan(text, i) is Err,
    ensures
        i <= scan(text, i)->Err_0.start < scan(text, i)->Err_0.end <= text.len(),
        i <= k < scan(text, i)->Err_0.start ==> is_plain(text[k]),
    decreases text.len() - i,
{
    if i < text.len() {
        if is_numeral_char(text[i]) {
            let j = number_end(text, i);
            lemma_number_end_bounds(text, i);
            lemma_number_end_stops(text, i);
            if defect_of(text.subrange(i, j)) is None {
                lemma_scan_failure(text, j, k);
            }
        } else if text[i] == ' ' {
            lemma_scan_failure(text, i + 1, k);
        } else if symbol(text[i]) is Some {
            lemma_scan_failure(text, i + 1, k);
        }
    }
}

/// Where a text has no tokens, the failure lies within the text, or in its
/// first place if the text is empty, and the text up to the failure is made of
/// plain characters.
pub proof fn lemma_failure_is_behind_plain_text(text: Seq<char>, k: int)
    requires
        tokens_of(text) is Err,
    ensures
        ({
            let e = tokens_of(text)->Err_0;
            &&& 0 <= e.start < e.end
            &&& text.len() > 0 ==> e.end <= text.len()
            &&& 0 <= k < e.start ==> is_plain(text[k])
        }),
{
    if text.len() > 0 {
        lemma_scan_failure(text, 0, k);
    }
}


/// In a text that has tokens, every position counts the bytes in front of it
/// as well as the characters: the first `k` characters are encoded in `k`
/// bytes.
pub proof fn lemma_positions_count_bytes(text: Seq<char>, k: int)
    requires
        tokens_of(text) is Ok,
        0 <= k <= text.len(),
    ensures
        encode_utf8(text.take(k)).len() == k,
{
    let front = text.take(k);
    assert forall|i: int| 0 <= i < front.len() implies '\0' <= #[trigger] front[i] <= '\u{7f}' by {
        lemma_text_with_tokens_is_plain(text, i);
    }
    is_ascii_chars_encode_utf8(front);
}

/// Where a text has no tokens, every position up to the start of the failure
/// counts the bytes in front of it as well as the characters.
pub proof fn lemma_failure_counts_bytes(text: Seq<char>, k: int)
    requires
        tokens_of(text) is Err,
        0 <= k <= tokens_of(text)->Err_0.start,
    ensures
        k <= text.len(),
        encode_utf8(text.take(k)).len() == k,
{
    let front = text.take(k);
    lemma_failure_is_behind_plain_text(text, 0);
    assert forall|i: int| 0 <= i < front.len() implies '\0' <= #[trigger] front[i] <= '\u{7f}' by {
        lemma_failure_is_behind_plain_text(text, i);
    }
    is_ascii_chars_encode_utf8(front);
}


/// The content of the result of reading tokens.
pub open spec fn lexed(r: Result<Vec<Token>, Error>) -> Result<Seq<SpecToken>, SpecError> {
    match r {
        Ok(tokens) => Ok(token_views(tokens@)),
        Err(e) => Err(e@),
    }
}

/// What has been read of a text so far: how many characters, the digits and
/// decimal points of a numeral that has not ended yet, and the tokens in front
/// of it.
struct LexerState {
    index: usize,
    curr_number: Vec<char>,
    tokens: Vec<Token>,
}

impl LexerState {
    /// Whether this is the state after the first `index` characters of `text`.
    spec fn follows(self, text: Seq<char>) -> bool {
        let from = self.index - self.curr_number@.len();
        &&& self.curr_number@.len() <= self.index <= text.len() <= usize::MAX
        &&& self.curr_number@ == text.subrange(from, self.index as int)
        &&& forall|k: int| from <= k < self.index ==> is_numeral_char(#[trigger] text[k])
        &&& scan(text, 0) == preceded(token_views(self.tokens@), scan(text, from))
    }

    fn new() -> (state: LexerState)
        ensures
            state.index == 0,
            state.curr_number@.len() == 0,
            state.tokens@.len() == 0,
    {
        LexerState { index: 0, curr_number: Vec::new(), tokens: Vec::new() }
    }

    /// Ends the numeral that is being read, if there is one, and adds it to the
    /// tokens.
    fn parse_current_number(self, Ghost(text): Ghost<Seq<char>>) -> (res: Result<
        LexerState,
        Error,
    >)
        requires
            self.follows(text),
            self.index == text.len() || !is_numeral_char(text[self.index as int]),
        ensures
            match res {
                Ok(state) => state.follows(text) && state.index == self.index
                    && state.curr_number@.len() == 0,
                Err(e) => scan(text, 0) == Err::<Seq<SpecToken>, SpecError>(e@),
            },
    {
        let LexerState { index, curr_number, mut tokens } = self;
        if curr_number.len() == 0 {
            return Ok(LexerState { index, curr_number, tokens });
        }
        let n_len = curr_number.len();
        let start = index - n_len;
        let ghost before = token_views(tokens@);
        proof {
            lemma_number_end_is(text, start as int, index as int);
        }
        match Numeral::new(curr_number) {
            Ok(n) => {
                tokens.push(Token::new(TokenType::Constant(n), start, index));
                proof {
                    let token = SpecToken {
                        token_type: SpecTokenType::Constant(text.subrange(start as int, index as int)),
                        start: start as int,
                        end: index as int,
                    };
                    assert(token_views(tokens@) =~= before.push(token));
                    lemma_preceded_twice(before, seq![token], scan(text, index as int));
                    assert(before + seq![token] =~= before.push(token));
                    assert(text.subrange(index as int, index as int) =~= Seq::<char>::empty());
                }
                Ok(LexerState { index, curr_number: Vec::new(), tokens })
            },
            Err(Defect::TooLarge) => Err(
                Error::new(
                    ErrorType::BadParse,
                    "number too large to fit in f64".to_owned(),
                    start,
                    index,
                ),
            ),
            Err(Defect::Malformed) => Err(
                Error::new(ErrorType::BadParse, "invalid float literal".to_owned(), start, index),
            ),
        }
    }

    /// The tokens once the text has been read to its end.
    fn finalize(self, Ghost(text): Ghost<Seq<char>>) -> (res: Result<Vec<Token>, Error>)
        requires
            self.follows(text),
            self.index == text.len(),
        ensures
            lexed(res) == scan(text, 0),
    {
        match self.parse_current_number(Ghost(text)) {
            Ok(state) => {
                proof {
                    assert(token_views(state.tokens@) + Seq::<SpecToken>::empty() =~= token_views(
                        state.tokens@,
                    ));
                }
                Ok(state.tokens)
            },
            Err(e) => Err(e),
        }
    }
}

/// Putting tokens in front in two steps is putting them in front at once.
proof fn lemma_preceded_twice(
    a: Seq<SpecToken>,
    b: Seq<SpecToken>,
    then: Result<Seq<SpecToken>, SpecError>,
)
    ensures
        preceded(a, preceded(b, then)) == preceded(a + b, then),
{
    if let Ok(rest) = then {
        assert(a + (b + rest) =~= (a + b) + rest);
    }
}

/// Putting no tokens in front changes nothing.
proof fn lemma_preceded_by_none(a: Seq<SpecToken>, then: Result<Seq<SpecToken>, SpecError>)
    requires
        a.len() == 0,
    ensures
        preceded(a, then) == then,
{
    if let Ok(rest) = then {
        assert(a + rest =~= rest);
    }
}

fn is_number_char(c: char) -> (b: bool)
    ensures
        b == is_numeral_char(c),
{
    ('0' <= c && c <= '9') || c == '.'
}

/// The kind of token that `c` stands for, if it stands for one.
fn token_type_of(c: char) -> (found: Option<TokenType>)
    ensures
        match symbol(c) {
            Some(token_type) => found matches Some(t) && t@ == token_type,
            None => found is None,
        },
{
    if c == '(' {
        Some(TokenType::OpenParen)
    } else if c == ')' {
        Some(TokenType::CloseParen)
    } else if c == '+' {
        Some(TokenType::Op(Operation::Add))
    } else if c == '-' {
        Some(TokenType::Op(Operation::Subtract))
    } else if c == '*' {
        Some(TokenType::Op(Operation::Multiply))
    } else if c == '/' {
        Some(TokenType::Op(Operation::Divide))
    } else if c == '^' {
        Some(TokenType::Op(Operation::Exponentiate))
    } else if ('A' <= c && c <= 'Z') || ('a' <= c && c <= 'z') {
        Some(TokenType::Identifier(c))
    } else {
        None
    }
}

/// Reads the character `next`, which stands at position `i` of the text.
fn consume_char(state: LexerState, i: usize, next: char, Ghost(text): Ghost<Seq<char>>) -> (res:
    Result<LexerState, Error>)
    requires
        state.follows(text),
        state.index == i,
        i < text.len(),
        next == text[i as int],
    ensures
        match res {
            Ok(after) => after.follows(text) && after.index == i + 1,
            Err(e) => scan(text, 0) == Err::<Seq<SpecToken>, SpecError>(e@),
        },
{
    if is_number_char(next) {
        let LexerState { index, mut curr_number, tokens } = state;
        curr_number.push(next);
        proof {
            assert(curr_number@ =~= text.subrange(index + 1 - curr_number@.len(), index + 1));
        }
        return Ok(LexerState { index: index + 1, curr_number, tokens });
    }
    let LexerState { index, curr_number, mut tokens } = match state.parse_current_number(
        Ghost(text),
    ) {
        Ok(flushed) => flushed,
        Err(e) => {
            return Err(e);
        },
    };
    let ghost before = token_views(tokens@);
    if next != ' ' {
        match token_type_of(next) {
            Some(token_type) => {
                tokens.push(Token::new(token_type, i, i + 1));
                proof {
                    let token = SpecToken {
                        token_type: symbol(next).unwrap(),
                        start: i as int,
                        end: i + 1,
                    };
                    assert(token_views(tokens@) =~= before.push(token));
                    lemma_preceded_twice(before, seq![token], scan(text, i + 1));
                    assert(before + seq![token] =~= before.push(token));
                }
            },
            None => {
                let mut message = "invalid character '".to_owned();
                message.push(next);
                message.push('\'');
                return Err(Error::new(ErrorType::BadParse, message, i, i + 1));
            },
        }
    }
    proof {
        assert(curr_number@ =~= text.subrange(i + 1, i + 1));
        assert(scan(text, 0) == preceded(token_views(tokens@), scan(text, i + 1)));
    }
    Ok(LexerState { index: index + 1, curr_number, tokens })
}

/// Splits a text into its tokens.
pub fn lex(text: &str) -> (res: Result<Vec<Token>, Error>)
    ensures
        lexed(res) == tokens_of(text@),
{
    let chars = characters(text);
    if chars.len() == 0 {
        return Err(Error::new(ErrorType::BadParse, "expected token".to_owned(), 0, 1));
    }
    let mut state = LexerState::new();
    proof {
        lemma_preceded_by_none(token_views(state.tokens@), scan(text@, 0));
        assert(state.curr_number@ =~= text@.subrange(0, 0));
    }
    let mut i: usize = 0;
    while i < chars.len()
        invariant
            chars@ == text@,
            i <= chars.len(),
            state.index == i,
            state.follows(text@),
        decreases chars.len() - i,
    {
        state = match consume_char(state, i, chars[i], Ghost(text@)) {
            Ok(after) => after,
            Err(e) => {
                return Err(e);
            },
        };
        i += 1;
    }
    state.finalize(Ghost(text@))
}


} // verus!
