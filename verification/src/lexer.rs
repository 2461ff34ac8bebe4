//! The lexical scanner: turns source text into a forward-only stream of
//! typed tokens.
//!
//! The scanner is the sole lexical authority of the crate.  Its behaviour is
//! fixed by the specification functions in this module ([`lex_step`] and the
//! functions it builds on), and the executable [`Lexer`] is verified to
//! produce exactly that token stream.

use vstd::prelude::*;
use vstd::string::*;
use crate::sim_time::{TimeUnit, TimeValue, TimeValueModel, nanosecond, picosecond};

verus! {

// ---------------------------------------------------------------------------
// Character classes
// ---------------------------------------------------------------------------

/// Characters the scanner silently skips between tokens.
pub open spec fn is_skip_char(c: char) -> bool {
    c == '\r' || c == '\u{c}'
}

/// An ASCII letter, the only characters an identifier fragment is made of.
pub open spec fn is_letter(c: char) -> bool {
    ('a' <= c && c <= 'z') || ('A' <= c && c <= 'Z')
}

/// A decimal digit.
pub open spec fn is_digit(c: char) -> bool {
    '0' <= c && c <= '9'
}

/// Numeric value of a decimal digit character.
pub open spec fn digit_val(c: char) -> int {
    c as int - '0' as int
}

/// Whether `c` is an ASCII letter.
fn letter_check(c: char) -> (b: bool)
    ensures
        b == is_letter(c),
{
    let u = c as u32;
    (97 <= u && u <= 122) || (65 <= u && u <= 90)
}

/// Whether `c` is a decimal digit.
fn digit_check(c: char) -> (b: bool)
    ensures
        b == is_digit(c),
{
    let u = c as u32;
    48 <= u && u <= 57
}

// ---------------------------------------------------------------------------
// Maximal runs of a character class
// ---------------------------------------------------------------------------

/// End of the maximal run of spaces starting at `i`.
pub open spec fn space_run_end(src: Seq<char>, i: int) -> int
    decreases src.len() - i when 0 <= i <= src.len()
{
    if i < src.len() && src[i] == ' ' {
        space_run_end(src, i + 1)
    } else {
        i
    }
}

/// End of the maximal run of ASCII letters starting at `i`.
pub open spec fn letter_run_end(src: Seq<char>, i: int) -> int
    decreases src.len() - i when 0 <= i <= src.len()
{
    if i < src.len() && is_letter(src[i]) {
        letter_run_end(src, i + 1)
    } else {
        i
    }
}

/// End of the maximal run of decimal digits starting at `i`.
pub open spec fn digit_run_end(src: Seq<char>, i: int) -> int
    decreases src.len() - i when 0 <= i <= src.len()
{
    if i < src.len() && is_digit(src[i]) {
        digit_run_end(src, i + 1)
    } else {
        i
    }
}

pub proof fn lemma_space_run_end(src: Seq<char>, i: int)
    requires
        0 <= i <= src.len(),
    ensures
        i <= space_run_end(src, i) <= src.len(),
        forall|k: int| i <= k < space_run_end(src, i) ==> #[trigger] src[k] == ' ',
        space_run_end(src, i) < src.len() ==> src[space_run_end(src, i)] != ' ',
        i < src.len() && src[i] == ' ' ==> space_run_end(src, i) > i,
    decreases src.len() - i,
{
    if i < src.len() && src[i] == ' ' {
        lemma_space_run_end(src, i + 1);
    }
}

pub proof fn lemma_letter_run_end(src: Seq<char>, i: int)
    requires
        0 <= i <= src.len(),
    ensures
        i <= letter_run_end(src, i) <= src.len(),
        forall|k: int| i <= k < letter_run_end(src, i) ==> is_letter(#[trigger] src[k]),
        letter_run_end(src, i) < src.len() ==> !is_letter(src[letter_run_end(src, i)]),
        i < src.len() && is_letter(src[i]) ==> letter_run_end(src, i) > i,
    decreases src.len() - i,
{
    if i < src.len() && is_letter(src[i]) {
        lemma_letter_run_end(src, i + 1);
    }
}

pub proof fn lemma_digit_run_end(src: Seq<char>, i: int)
    requires
        0 <= i <= src.len(),
    ensures
        i <= digit_run_end(src, i) <= src.len(),
        forall|k: int| i <= k < digit_run_end(src, i) ==> is_digit(#[trigger] src[k]),
        digit_run_end(src, i) < src.len() ==> !is_digit(src[digit_run_end(src, i)]),
        i < src.len() && is_digit(src[i]) ==> digit_run_end(src, i) > i,
    decreases src.len() - i,
{
    if i < src.len() && is_digit(src[i]) {
        lemma_digit_run_end(src, i + 1);
    }
}

// ---------------------------------------------------------------------------
// Decimal digit sequences
// ---------------------------------------------------------------------------

/// Value of a sequence of decimal digit characters, most significant first.
pub open spec fn digits_val(s: Seq<char>) -> int
    decreases s.len()
{
    if s.len() == 0 {
        0
    } else {
        digits_val(s.drop_last()) * 10 + digit_val(s.last())
    }
}

pub proof fn lemma_digits_val_nonneg(s: Seq<char>)
    requires
        forall|k: int| 0 <= k < s.len() ==> is_digit(#[trigger] s[k]),
    ensures
        digits_val(s) >= 0,
    decreases s.len(),
{
    if s.len() > 0 {
        lemma_digits_val_nonneg(s.drop_last());
    }
}

// ---------------------------------------------------------------------------
// Errors
// ---------------------------------------------------------------------------

/// Mathematical model of a [`LexingError`].
pub ghost enum LexingErrorModel {
    InvalidInteger(Seq<char>),
    UnexpectedToken,
    ExpectedSemi,
    ImproperTimeFormatting,
    ImproperCommentFormatting,
    NonAsciiCharacter,
    IncompleteWidth,
    NegativeBitWidth,
    ModuleWireNotFound,
}

/// Errors occurring due to incorrect character sequences.
#[derive(Debug, Clone)]
pub enum LexingError {
    /// Invalid integer found.
    InvalidInteger(String),

    /// Unexpected token or generic error.
    UnexpectedToken,

    /// Unexpected token, expected semicolon.
    ExpectedSemi,

    /// Improper time format found.
    ImproperTimeFormatting,

    /// Improper comment format found.
    ImproperCommentFormatting,

    /// Non ASCII character found (not currently used).
    NonAsciiCharacter,

    /// Bit width opened but not closed.
    IncompleteWidth,

    /// Bit width determined to be negative.
    NegativeBitWidth,

    /// Module wire parsing failed.
    ModuleWireNotFound,
}

impl View for LexingError {
    type V = LexingErrorModel;

    open spec fn view(&self) -> LexingErrorModel {
        match self {
            LexingError::InvalidInteger(reason) => LexingErrorModel::InvalidInteger(reason@),
            LexingError::UnexpectedToken => LexingErrorModel::UnexpectedToken,
            LexingError::ExpectedSemi => LexingErrorModel::ExpectedSemi,
            LexingError::ImproperTimeFormatting => LexingErrorModel::ImproperTimeFormatting,
            LexingError::ImproperCommentFormatting => LexingErrorModel::ImproperCommentFormatting,
            LexingError::NonAsciiCharacter => LexingErrorModel::NonAsciiCharacter,
            LexingError::IncompleteWidth => LexingErrorModel::IncompleteWidth,
            LexingError::NegativeBitWidth => LexingErrorModel::NegativeBitWidth,
            LexingError::ModuleWireNotFound => LexingErrorModel::ModuleWireNotFound,
        }
    }
}

/// The diagnostic string each error converts to.
pub open spec fn error_message(e: LexingErrorModel) -> Seq<char> {
    match e {
        LexingErrorModel::InvalidInteger(reason) => "invalid integer encountered: "@ + reason,
        LexingErrorModel::UnexpectedToken => "unexpected token encountered"@,
        LexingErrorModel::ImproperTimeFormatting => "improper time format encountered"@,
        LexingErrorModel::IncompleteWidth => "incomplete width encountered"@,
        LexingErrorModel::NegativeBitWidth => "negative bit width encountered"@,
        _ => "generic/unknown error encountered"@,
    }
}

impl LexingError {
    /// Renders the error as a human-readable diagnostic string.
    pub fn message(self) -> (r: String)
        ensures
            r@ == error_message(self@),
    {
        match self {
            LexingError::InvalidInteger(reason) => {
                String::from_str("invalid integer encountered: ").concat(reason.as_str())
            },
            LexingError::UnexpectedToken => String::from_str("unexpected token encountered"),
            LexingError::ImproperTimeFormatting => {
                String::from_str("improper time format encountered")
            },
            LexingError::IncompleteWidth => String::from_str("incomplete width encountered"),
            LexingError::NegativeBitWidth => String::from_str("negative bit width encountered"),
            _ => String::from_str("generic/unknown error encountered"),
        }
    }
}

// ---------------------------------------------------------------------------
// Tokens
// ---------------------------------------------------------------------------

/// Mathematical model of a [`Token`].
pub ghost enum TokenModel {
    Module,
    EndModule,
    Parameter,
    Inout,
    Input,
    Output,
    Reg,
    Wire,
    Assign,
    Comb,
    If,
    Else,
    Begin,
    End,
    Posedge,
    Negedge,
    Timescale,
    Time(TimeValueModel),
    Pound,
    OpenParen,
    CloseParen,
    OpenBracket,
    CloseBracket,
    OpenBrace,
    CloseBrace,
    BEQ,
    BLT,
    BGT,
    BLTE,
    BGTE,
    Equals,
    Subtract,
    Add,
    Multiply,
    Divide,
    QMark,
    EMark,
    Colon,
    Semicolon,
    Comma,
    BTick,
    Underscore,
    At,
    Newline,
    WhiteSpace,
    BinaryValue,
    HiZValue,
    Comment,
    Word(Seq<char>),
    Integer(u64),
}

/// Lexer token output.
#[derive(Debug, Clone)]
pub enum Token {
    /// Module start.
    Module,

    /// Module end.
    EndModule,

    /// Parameter start.
    Parameter,

    /// Inout start.
    Inout,

    /// Input start.
    Input,

    /// Output start.
    Output,

    /// Register start.
    Reg,

    /// Wire start.
    Wire,

    /// Assign start.
    Assign,

    /// Combinational logic start.
    Comb,

    /// If statement start.
    If,

    /// Else statement start.
    Else,

    /// Begin statement.
    Begin,

    /// End statement.
    End,

    /// Rising edge trigger.
    Posedge,

    /// Negative edge trigger.
    Negedge,

    /// Timescale start.
    Timescale,

    /// Simulation time, in ns or ps.
    Time(TimeValue),

    /// Pound symbol.
    Pound,

    /// Open parenthesis.
    OpenParen,

    /// Close parenthesis.
    CloseParen,

    /// Open bracket.
    OpenBracket,

    /// Close bracket.
    CloseBracket,

    /// Open brace.
    OpenBrace,

    /// Close brace.
    CloseBrace,

    /// Equivalent comparison.
    BEQ,

    /// Less than comparison.
    BLT,

    /// Greater than comparison.
    BGT,

    /// Less than or equal to comparison.
    BLTE,

    /// Greater than or equal to comparison.
    BGTE,

    /// Assignment start.
    Equals,

    /// Subtraction.
    Subtract,

    /// Addition.
    Add,

    /// Multiply.
    Multiply,

    /// Divide.
    Divide,

    /// Question mark.
    QMark,

    /// Exclamation point.
    EMark,

    /// Colon.
    Colon,

    /// Semicolon.
    Semicolon,

    /// Comma.
    Comma,

    /// Back tick.
    BTick,

    /// Underscore.
    Underscore,

    /// At symbol.
    At,

    /// Newline.
    Newline,

    /// Whitespace.
    WhiteSpace,

    /// Binary value of form `X'bY`, where `X` is the bit width.
    BinaryValue,

    /// Hi-Z value of form `X'bz`, where `X` is the bit width.
    HiZValue,

    /// Comment start.
    Comment,

    /// Generic text.
    Word(String),

    /// Integer value.
    Integer(u64),
}

impl View for Token {
    type V = TokenModel;

    open spec fn view(&self) -> TokenModel {
        match self {
            Token::Module => TokenModel::Module,
            Token::EndModule => TokenModel::EndModule,
            Token::Parameter => TokenModel::Parameter,
            Token::Inout => TokenModel::Inout,
            Token::Input => TokenModel::Input,
            Token::Output => TokenModel::Output,
            Token::Reg => TokenModel::Reg,
            Token::Wire => TokenModel::Wire,
            Token::Assign => TokenModel::Assign,
            Token::Comb => TokenModel::Comb,
            Token::If => TokenModel::If,
            Token::Else => TokenModel::Else,
            Token::Begin => TokenModel::Begin,
            Token::End => TokenModel::End,
            Token::Posedge => TokenModel::Posedge,
            Token::Negedge => TokenModel::Negedge,
            Token::Timescale => TokenModel::Timescale,
            Token::Time(t) => TokenModel::Time(t@),
            Token::Pound => TokenModel::Pound,
            Token::OpenParen => TokenModel::OpenParen,
            Token::CloseParen => TokenModel::CloseParen,
            Token::OpenBracket => TokenModel::OpenBracket,
            Token::CloseBracket => TokenModel::CloseBracket,
            Token::OpenBrace => TokenModel::OpenBrace,
            Token::CloseBrace => TokenModel::CloseBrace,
            Token::BEQ => TokenModel::BEQ,
            Token::BLT => TokenModel::BLT,
            Token::BGT => TokenModel::BGT,
            Token::BLTE => TokenModel::BLTE,
            Token::BGTE => TokenModel::BGTE,
            Token::Equals => TokenModel::Equals,
            Token::Subtract => TokenModel::Subtract,
            Token::Add => TokenModel::Add,
            Token::Multiply => TokenModel::Multiply,
            Token::Divide => TokenModel::Divide,
            Token::QMark => TokenModel::QMark,
            Token::EMark => TokenModel::EMark,
            Token::Colon => TokenModel::Colon,
            Token::Semicolon => TokenModel::Semicolon,
            Token::Comma => TokenModel::Comma,
            Token::BTick => TokenModel::BTick,
            Token::Underscore => TokenModel::Underscore,
            Token::At => TokenModel::At,
            Token::Newline => TokenModel::Newline,
            Token::WhiteSpace => TokenModel::WhiteSpace,
            Token::BinaryValue => TokenModel::BinaryValue,
            Token::HiZValue => TokenModel::HiZValue,
            Token::Comment => TokenModel::Comment,
            Token::Word(w) => TokenModel::Word(w@),
            Token::Integer(v) => TokenModel::Integer(*v),
        }
    }
}

// ---------------------------------------------------------------------------
// The token grammar
// ---------------------------------------------------------------------------

/// The keyword token a run of letters stands for, or a generic word.
pub open spec fn keyword_or_word(w: Seq<char>) -> TokenModel {
    if w == "module"@ {
        TokenModel::Module
    } else if w == "endmodule"@ {
        TokenModel::EndModule
    } else if w == "parameter"@ {
        TokenModel::Parameter
    } else if w == "inout"@ {
        TokenModel::Inout
    } else if w == "input"@ {
        TokenModel::Input
    } else if w == "output"@ {
        TokenModel::Output
    } else if w == "reg"@ {
        TokenModel::Reg
    } else if w == "wire"@ {
        TokenModel::Wire
    } else if w == "assign"@ {
        TokenModel::Assign
    } else if w == "if"@ {
        TokenModel::If
    } else if w == "else"@ {
        TokenModel::Else
    } else if w == "begin"@ {
        TokenModel::Begin
    } else if w == "end"@ {
        TokenModel::End
    } else if w == "posedge"@ {
        TokenModel::Posedge
    } else if w == "negedge"@ {
        TokenModel::Negedge
    } else if w == "timescale"@ {
        TokenModel::Timescale
    } else {
        TokenModel::Word(w)
    }
}

/// Scan of a token that starts with a decimal digit: a time literal, a sized
/// binary literal, a high-impedance literal, or a bare integer, whichever
/// matches the most text.
pub open spec fn scan_number(src: Seq<char>, i: int) -> (Result<TokenModel, LexingErrorModel>, int)
    recommends
        0 <= i < src.len(),
        is_digit(src[i]),
{
    let j = digit_run_end(src, i);
    let d = src.subrange(i, j);
    if j + 2 <= src.len() && src[j] == 'n' && src[j + 1] == 's' {
        (Ok(TokenModel::Time(TimeValueModel { digits: d, unit: TimeUnit::Ns })), j + 2)
    } else if j + 2 <= src.len() && src[j] == 'p' && src[j + 1] == 's' {
        (Ok(TokenModel::Time(TimeValueModel { digits: d, unit: TimeUnit::Ps })), j + 2)
    } else if j + 3 <= src.len() && src[j] == '\'' && src[j + 1] == 'b' && is_digit(src[j + 2]) {
        (Ok(TokenModel::BinaryValue), digit_run_end(src, j + 2))
    } else if j + 3 <= src.len() && src[j] == '\'' && src[j + 1] == 'b' && src[j + 2] == 'z' {
        (Ok(TokenModel::HiZValue), j + 3)
    } else if digits_val(d) > u64::MAX {
        (Err(LexingErrorModel::InvalidInteger("overflow error"@)), j)
    } else {
        (Ok(TokenModel::Integer(digits_val(d) as u64)), j)
    }
}

/// Scan of the single token that starts at `i`, which must not be a skipped
/// character, and the position just after it.
pub open spec fn scan_token(src: Seq<char>, i: int) -> (Result<TokenModel, LexingErrorModel>, int)
    recommends
        0 <= i < src.len(),
        !is_skip_char(src[i]),
{
    let c = src[i];
    if c == ' ' {
        (Ok(TokenModel::WhiteSpace), space_run_end(src, i))
    } else if c == '\t' {
        (Ok(TokenModel::WhiteSpace), i + 1)
    } else if c == '\n' {
        (Ok(TokenModel::Newline), i + 1)
    } else if i + 11 <= src.len() && src.subrange(i, i + 11) == "always_comb"@ {
        (Ok(TokenModel::Comb), i + 11)
    } else if is_letter(c) {
        let j = letter_run_end(src, i);
        (Ok(keyword_or_word(src.subrange(i, j))), j)
    } else if is_digit(c) {
        scan_number(src, i)
    } else if c == '/' {
        if i + 1 < src.len() && src[i + 1] == '/' {
            (Ok(TokenModel::Comment), i + 2)
        } else {
            (Ok(TokenModel::Divide), i + 1)
        }
    } else if c == '<' {
        if i + 1 < src.len() && src[i + 1] == '=' {
            (Ok(TokenModel::BLTE), i + 2)
        } else {
            (Ok(TokenModel::BLT), i + 1)
        }
    } else if c == '>' {
        if i + 1 < src.len() && src[i + 1] == '=' {
            (Ok(TokenModel::BGTE), i + 2)
        } else {
            (Ok(TokenModel::BGT), i + 1)
        }
    } else if c == '=' {
        if i + 1 < src.len() && src[i + 1] == '=' {
            (Ok(TokenModel::BEQ), i + 2)
        } else {
            (Ok(TokenModel::Equals), i + 1)
        }
    } else if c == '#' {
        (Ok(TokenModel::Pound), i + 1)
    } else if c == '(' {
        (Ok(TokenModel::OpenParen), i + 1)
    } else if c == ')' {
        (Ok(TokenModel::CloseParen), i + 1)
    } else if c == '[' {
        (Ok(TokenModel::OpenBracket), i + 1)
    } else if c == ']' {
        (Ok(TokenModel::CloseBracket), i + 1)
    } else if c == '{' {
        (Ok(TokenModel::OpenBrace), i + 1)
    } else if c == '}' {
        (Ok(TokenModel::CloseBrace), i + 1)
    } else if c == '-' {
        (Ok(TokenModel::Subtract), i + 1)
    } else if c == '+' {
        (Ok(TokenModel::Add), i + 1)
    } else if c == '*' {
        (Ok(TokenModel::Multiply), i + 1)
    } else if c == '?' {
        (Ok(TokenModel::QMark), i + 1)
    } else if c == '!' {
        (Ok(TokenModel::EMark), i + 1)
    } else if c == ':' {
        (Ok(TokenModel::Colon), i + 1)
    } else if c == ';' {
        (Ok(TokenModel::Semicolon), i + 1)
    } else if c == ',' {
        (Ok(TokenModel::Comma), i + 1)
    } else if c == '`' {
        (Ok(TokenModel::BTick), i + 1)
    } else if c == '_' {
        (Ok(TokenModel::Underscore), i + 1)
    } else if c == '@' {
        (Ok(TokenModel::At), i + 1)
    } else {
        (Err(LexingErrorModel::UnexpectedToken), i + 1)
    }
}

/// One step of the lexer: the next token (or lexical error) after position
/// `i`, and the position the stream stands at once it is consumed.  `None`
/// means the end of the text was reached.
pub ghost struct LexStep {
    pub item: Option<Result<TokenModel, LexingErrorModel>>,
    pub next: int,
}

/// What the scanner hands out at position `i` of `src`.
pub open spec fn lex_step(src: Seq<char>, i: int) -> LexStep
    decreases src.len() - i when 0 <= i <= src.len()
{
    if i >= src.len() {
        LexStep { item: None, next: i }
    } else if is_skip_char(src[i]) {
        lex_step(src, i + 1)
    } else {
        LexStep { item: Some(scan_token(src, i).0), next: scan_token(src, i).1 }
    }
}

pub proof fn lemma_scan_token_bounds(src: Seq<char>, i: int)
    requires
        0 <= i < src.len(),
        !is_skip_char(src[i]),
    ensures
        i < scan_token(src, i).1 <= src.len(),
{
    lemma_space_run_end(src, i);
    lemma_letter_run_end(src, i);
    lemma_digit_run_end(src, i);
    if is_digit(src[i]) {
        let j = digit_run_end(src, i);
        if j + 3 <= src.len() && src[j] == '\'' && src[j + 1] == 'b' && is_digit(src[j + 2]) {
            lemma_digit_run_end(src, j + 2);
        }
    }
}

/// The scanner always advances while input remains, and stops exactly at the
/// end of the text.
pub proof fn lemma_lex_step_bounds(src: Seq<char>, i: int)
    requires
        0 <= i <= src.len(),
    ensures
        i <= lex_step(src, i).next <= src.len(),
        lex_step(src, i).item is Some ==> lex_step(src, i).next > i,
        lex_step(src, i).item is None ==> lex_step(src, i).next == src.len(),
    decreases src.len() - i,
{
    if i >= src.len() {
    } else if is_skip_char(src[i]) {
        lemma_lex_step_bounds(src, i + 1);
    } else {
        lemma_scan_token_bounds(src, i);
    }
}

/// A digit run too large for an unsigned 64-bit integer, not followed by a
/// time or sized-literal suffix, lexes to the integer-overflow error and
/// never to a token; the scanner itself cannot fail in any other way on
/// digits.
pub proof fn lemma_integer_overflow_rejected(src: Seq<char>, i: int)
    requires
        0 <= i < src.len(),
        is_digit(src[i]),
        digits_val(src.subrange(i, digit_run_end(src, i))) > u64::MAX,
        ({
            let j = digit_run_end(src, i);
            &&& !(j + 2 <= src.len() && src[j] == 'n' && src[j + 1] == 's')
            &&& !(j + 2 <= src.len() && src[j] == 'p' && src[j + 1] == 's')
            &&& !(j + 3 <= src.len() && src[j] == '\'' && src[j + 1] == 'b')
        }),
    ensures
        lex_step(src, i).item == Some(
            Err::<TokenModel, LexingErrorModel>(
                LexingErrorModel::InvalidInteger("overflow error"@),
            ),
        ),
        lex_step(src, i).next == digit_run_end(src, i),
{
    reveal_strlit("always_comb");
    if i + 11 <= src.len() && src.subrange(i, i + 11) == "always_comb"@ {
        assert(src[i] == src.subrange(i, i + 11)[0]);
    }
}

/// Every word token the scanner hands out carries at least one character.
pub proof fn lemma_word_token_nonempty(src: Seq<char>, i: int)
    requires
        0 <= i <= src.len(),
    ensures
        lex_step(src, i).item matches Some(Ok(TokenModel::Word(w))) ==> w.len() >= 1,
    decreases src.len() - i,
{
    if i >= src.len() {
    } else if is_skip_char(src[i]) {
        lemma_word_token_nonempty(src, i + 1);
    } else {
        if is_letter(src[i]) {
            lemma_letter_run_end(src, i);
        }
    }
}

// ---------------------------------------------------------------------------
// Views of composite results
// ---------------------------------------------------------------------------

/// Model of a `Result`, both sides taken to their views.
pub open spec fn res_view<T: View, E: View>(r: Result<T, E>) -> Result<T::V, E::V> {
    match r {
        Ok(t) => Ok(t@),
        Err(e) => Err(e@),
    }
}

/// Model of one item handed out by [`Lexer::next`].
pub open spec fn lex_item_view(r: Option<Result<Token, LexingError>>) -> Option<
    Result<TokenModel, LexingErrorModel>,
> {
    match r {
        None => None,
        Some(item) => Some(res_view(item)),
    }
}

// ---------------------------------------------------------------------------
// Soft diagnostics
// ---------------------------------------------------------------------------

/// A recoverable anomaly noticed while parsing.
///
/// These are the soft channel of the parser: a token that does not belong
/// where it was found but does not break the structure is recorded here and
/// parsing continues.  Structural failures travel through [`LexingError`]
/// instead, and the two never mix.
#[derive(Debug, Clone)]
pub enum Diagnostic {
    /// A token kind the top-level parser does not handle yet.
    NotImplemented(Token),

    /// An out-of-place token inside a variable declaration.
    UnexpectedInVariable(Token),

    /// An out-of-place token inside an identifier.
    UnexpectedInName(Token),

    /// An out-of-place token inside a bit-width range.
    UnexpectedInWidth(Token),

    /// An out-of-place token inside a timescale directive.
    UnexpectedInTimescale(Token),

    /// A token found where a module's name was expected.
    ExpectedModuleName(Token),

    /// A token found where a module's opening parenthesis was expected.
    ExpectedOpenParen(Token),

    /// A token found where a port declaration or `)` was expected.
    ExpectedIoItem(Token),

    /// A token found where the module header's `;` was expected.
    ExpectedSemicolon(Token),
}

// ---------------------------------------------------------------------------
// The executable scanner
// ---------------------------------------------------------------------------

/// Relies on `String::push`: appends one character to the end of the string.
#[verifier::external_body]
fn push_char(s: &mut String, c: char)
    ensures
        final(s)@ == old(s)@.push(c),
{
    s.push(c);
}

/// The characters of `src` from `from` (inclusive) to `to` (exclusive), as an
/// owned string.
fn collect_string(src: &Vec<char>, from: usize, to: usize) -> (s: String)
    requires
        from <= to,
        to as int <= src@.len(),
    ensures
        s@ == src@.subrange(from as int, to as int),
{
    let mut s = String::new();
    let mut k = from;
    loop
        invariant
            from <= k <= to,
            to as int <= src@.len(),
            s@ == src@.subrange(from as int, k as int),
        ensures
            s@ == src@.subrange(from as int, to as int),
        decreases to - k,
    {
        if k >= to {
            break;
        }
        push_char(&mut s, src[k]);
        proof {
            assert(src@.subrange(from as int, k as int).push(src@[k as int]) =~= src@.subrange(
                from as int,
                k as int + 1,
            ));
        }
        k += 1;
    }
    s
}

/// End of the maximal run of spaces starting at `from`.
fn space_end(src: &Vec<char>, from: usize) -> (j: usize)
    requires
        from as int <= src@.len(),
    ensures
        j as int == space_run_end(src@, from as int),
        from <= j,
        j as int <= src@.len(),
{
    let mut j = from;
    loop
        invariant
            from <= j,
            j as int <= src@.len(),
            space_run_end(src@, from as int) == space_run_end(src@, j as int),
        ensures
            j as int == space_run_end(src@, from as int),
            j as int <= src@.len(),
        decreases src@.len() - j as int,
    {
        if j >= src.len() {
            proof {
                assert(space_run_end(src@, j as int) == j as int);
            }
            break;
        }
        if src[j] == ' ' {
            proof {
                assert(space_run_end(src@, j as int) == space_run_end(src@, j as int + 1));
            }
            j += 1;
        } else {
            proof {
                assert(space_run_end(src@, j as int) == j as int);
            }
            break;
        }
    }
    j
}

/// End of the maximal run of ASCII letters starting at `from`.
fn letter_end(src: &Vec<char>, from: usize) -> (j: usize)
    requires
        from as int <= src@.len(),
    ensures
        j as int == letter_run_end(src@, from as int),
        from <= j,
        j as int <= src@.len(),
{
    let mut j = from;
    loop
        invariant
            from <= j,
            j as int <= src@.len(),
            letter_run_end(src@, from as int) == letter_run_end(src@, j as int),
        ensures
            j as int == letter_run_end(src@, from as int),
            j as int <= src@.len(),
        decreases src@.len() - j as int,
    {
        if j >= src.len() {
            proof {
                assert(letter_run_end(src@, j as int) == j as int);
            }
            break;
        }
        if letter_check(src[j]) {
            proof {
                assert(letter_run_end(src@, j as int) == letter_run_end(src@, j as int + 1));
            }
            j += 1;
        } else {
            proof {
                assert(letter_run_end(src@, j as int) == j as int);
            }
            break;
        }
    }
    j
}

/// End of the maximal run of decimal digits starting at `from`.
fn digit_end(src: &Vec<char>, from: usize) -> (j: usize)
    requires
        from as int <= src@.len(),
    ensures
        j as int == digit_run_end(src@, from as int),
        from <= j,
        j as int <= src@.len(),
{
    let mut j = from;
    loop
        invariant
            from <= j,
            j as int <= src@.len(),
            digit_run_end(src@, from as int) == digit_run_end(src@, j as int),
        ensures
            j as int == digit_run_end(src@, from as int),
            j as int <= src@.len(),
        decreases src@.len() - j as int,
    {
        if j >= src.len() {
            proof {
                assert(digit_run_end(src@, j as int) == j as int);
            }
            break;
        }
        if digit_check(src[j]) {
            proof {
                assert(digit_run_end(src@, j as int) == digit_run_end(src@, j as int + 1));
            }
            j += 1;
        } else {
            proof {
                assert(digit_run_end(src@, j as int) == j as int);
            }
            break;
        }
    }
    j
}

/// Whether the text `always_comb` starts at position `i` of `src`.
fn always_comb_at(src: &Vec<char>, i: usize) -> (b: bool)
    requires
        i as int <= src@.len(),
    ensures
        b == (i + 11 <= src@.len() && src@.subrange(i as int, i as int + 11) == "always_comb"@),
{
    proof {
        reveal_strlit("always_comb");
    }
    if src.len() - i < 11 {
        return false;
    }
    let b = src[i] == 'a' && src[i + 1] == 'l' && src[i + 2] == 'w' && src[i + 3] == 'a' && src[i
        + 4] == 'y' && src[i + 5] == 's' && src[i + 6] == '_' && src[i + 7] == 'c' && src[i + 8]
        == 'o' && src[i + 9] == 'm' && src[i + 10] == 'b';
    proof {
        let sub = src@.subrange(i as int, i as int + 11);
        if b {
            assert(sub =~= "always_comb"@);
        }
        if sub == "always_comb"@ {
            assert(src@[i as int] == sub[0]);
            assert(src@[i as int + 1] == sub[1]);
            assert(src@[i as int + 2] == sub[2]);
            assert(src@[i as int + 3] == sub[3]);
            assert(src@[i as int + 4] == sub[4]);
            assert(src@[i as int + 5] == sub[5]);
            assert(src@[i as int + 6] == sub[6]);
            assert(src@[i as int + 7] == sub[7]);
            assert(src@[i as int + 8] == sub[8]);
            assert(src@[i as int + 9] == sub[9]);
            assert(src@[i as int + 10] == sub[10]);
        }
    }
    b
}

/// The token a completed run of letters stands for.
fn keyword_token(w: String) -> (t: Token)
    ensures
        t@ == keyword_or_word(w@),
{
    if w == String::from_str("module") {
        Token::Module
    } else if w == String::from_str("endmodule") {
        Token::EndModule
    } else if w == String::from_str("parameter") {
        Token::Parameter
    } else if w == String::from_str("inout") {
        Token::Inout
    } else if w == String::from_str("input") {
        Token::Input
    } else if w == String::from_str("output") {
        Token::Output
    } else if w == String::from_str("reg") {
        Token::Reg
    } else if w == String::from_str("wire") {
        Token::Wire
    } else if w == String::from_str("assign") {
        Token::Assign
    } else if w == String::from_str("if") {
        Token::If
    } else if w == String::from_str("else") {
        Token::Else
    } else if w == String::from_str("begin") {
        Token::Begin
    } else if w == String::from_str("end") {
        Token::End
    } else if w == String::from_str("posedge") {
        Token::Posedge
    } else if w == String::from_str("negedge") {
        Token::Negedge
    } else if w == String::from_str("timescale") {
        Token::Timescale
    } else {
        Token::Word(w)
    }
}

/// Value of the digit run `src[from..to]` as an unsigned 64-bit integer, or
/// `None` when the value does not fit.
fn digits_to_u64(src: &Vec<char>, from: usize, to: usize) -> (r: Option<u64>)
    requires
        from <= to,
        to as int <= src@.len(),
        forall|m: int| from as int <= m < to as int ==> is_digit(#[trigger] src@[m]),
    ensures
        ({
            let v = digits_val(src@.subrange(from as int, to as int));
            match r {
                Some(x) => v <= u64::MAX && x as int == v,
                None => v > u64::MAX,
            }
        }),
{
    let ghost s = src@;
    let mut acc: u64 = 0;
    let mut k = from;
    loop
        invariant
            from <= k <= to,
            to as int <= s.len(),
            s == src@,
            forall|m: int| from as int <= m < to as int ==> is_digit(#[trigger] s[m]),
            acc as int == digits_val(s.subrange(from as int, k as int)),
        ensures
            k == to,
            acc as int == digits_val(s.subrange(from as int, to as int)),
        decreases to - k,
    {
        if k >= to {
            break;
        }
        let c = src[k];
        let d = (c as u32 - 48) as u64;
        proof {
            lemma_digits_val_step(s, from as int, k as int);
            assert(digit_val(c) == d as int);
        }
        if acc > u64::MAX / 10 || (acc == u64::MAX / 10 && d > u64::MAX % 10) {
            proof {
                assert(digits_val(s.subrange(from as int, k as int + 1)) > u64::MAX);
                lemma_digits_val_mono(s, from as int, k as int + 1, to as int);
            }
            return None;
        }
        acc = acc * 10 + d;
        k += 1;
    }
    Some(acc)
}

/// One accumulation step of [`digits_val`] along a slice of `src`.
pub proof fn lemma_digits_val_step(src: Seq<char>, from: int, k: int)
    requires
        0 <= from <= k < src.len(),
    ensures
        digits_val(src.subrange(from, k + 1)) == digits_val(src.subrange(from, k)) * 10
            + digit_val(src[k]),
{
    assert(src.subrange(from, k + 1).drop_last() =~= src.subrange(from, k));
    assert(src.subrange(from, k + 1).last() == src[k]);
}

/// Extending a digit run never shrinks its value.
pub proof fn lemma_digits_val_mono(src: Seq<char>, from: int, k: int, to: int)
    requires
        0 <= from <= k <= to <= src.len(),
        forall|m: int| from <= m < to ==> is_digit(#[trigger] src[m]),
    ensures
        digits_val(src.subrange(from, k)) <= digits_val(src.subrange(from, to)),
    decreases to - k,
{
    if k < to {
        let prefix = src.subrange(from, k);
        assert(forall|m: int| 0 <= m < prefix.len() ==> is_digit(#[trigger] prefix[m]));
        lemma_digits_val_nonneg(prefix);
        lemma_digits_val_step(src, from, k);
        lemma_digits_val_mono(src, from, k + 1, to);
    }
}

/// The forward-only cursor over the token stream.
///
/// One parsing function at a time holds the cursor by exclusive mutable
/// reference; tokens, once consumed, are never replayed.
pub struct Lexer {
    /// The source text, one character per element.
    pub src: Vec<char>,

    /// Position of the next character the scanner will look at.
    pub pos: usize,

    /// Soft anomalies recorded while parsing.
    pub diags: Vec<Diagnostic>,
}

impl Lexer {
    /// The cursor never stands past the end of the text.
    pub open spec fn wf(&self) -> bool {
        self.pos <= self.src@.len()
    }

    /// A fresh cursor over `text`, standing at its beginning.
    pub fn new(text: &str) -> (l: Lexer)
        ensures
            l.src@ == text@,
            l.pos == 0,
            l.diags@ == Seq::<Diagnostic>::empty(),
            l.wf(),
    {
        let n = text.unicode_len();
        let mut src: Vec<char> = Vec::new();
        let mut k: usize = 0;
        loop
            invariant
                k <= n,
                n == text@.len(),
                src@ == text@.subrange(0, k as int),
            ensures
                src@ == text@,
            decreases n - k,
        {
            if k >= n {
                proof {
                    assert(text@.subrange(0, k as int) =~= text@);
                }
                break;
            }
            src.push(text.get_char(k));
            proof {
                assert(text@.subrange(0, k as int).push(text@[k as int]) =~= text@.subrange(
                    0,
                    k as int + 1,
                ));
            }
            k += 1;
        }
        Lexer { src, pos: 0, diags: Vec::new() }
    }

    /// Scans the single token standing at the cursor, which must not be at
    /// the end of the text nor on a skipped character.
    fn scan(&mut self) -> (r: Result<Token, LexingError>)
        requires
            old(self).wf(),
            old(self).pos < old(self).src@.len(),
            !is_skip_char(old(self).src@[old(self).pos as int]),
        ensures
            final(self).wf(),
            final(self).src@ == old(self).src@,
            final(self).diags@ == old(self).diags@,
            res_view(r) == scan_token(old(self).src@, old(self).pos as int).0,
            final(self).pos as int == scan_token(old(self).src@, old(self).pos as int).1,
    {
        let ghost src = self.src@;
        let i = self.pos;
        let ghost ii = i as int;
        let n = self.src.len();
        let c = self.src[i];
        if c == ' ' {
            let j = space_end(&self.src, i);
            proof {
                lemma_space_run_end(src, ii);
            }
            self.pos = j;
            Ok(Token::WhiteSpace)
        } else if c == '\t' {
            self.pos = i + 1;
            Ok(Token::WhiteSpace)
        } else if c == '\n' {
            self.pos = i + 1;
            Ok(Token::Newline)
        } else if always_comb_at(&self.src, i) {
            self.pos = i + 11;
            Ok(Token::Comb)
        } else if letter_check(c) {
            let j = letter_end(&self.src, i);
            proof {
                lemma_letter_run_end(src, ii);
            }
            let w = collect_string(&self.src, i, j);
            let t = keyword_token(w);
            self.pos = j;
            Ok(t)
        } else if digit_check(c) {
            let j = digit_end(&self.src, i);
            proof {
                lemma_digit_run_end(src, ii);
            }
            if n - j >= 2 && self.src[j] == 'n' && self.src[j + 1] == 's' {
                let d = collect_string(&self.src, i, j);
                let t = Token::Time(nanosecond(d));
                self.pos = j + 2;
                Ok(t)
            } else if n - j >= 2 && self.src[j] == 'p' && self.src[j + 1] == 's' {
                let d = collect_string(&self.src, i, j);
                let t = Token::Time(picosecond(d));
                self.pos = j + 2;
                Ok(t)
            } else if n - j >= 3 && self.src[j] == '\'' && self.src[j + 1] == 'b' && digit_check(
                self.src[j + 2],
            ) {
                let e = digit_end(&self.src, j + 2);
                self.pos = e;
                Ok(Token::BinaryValue)
            } else if n - j >= 3 && self.src[j] == '\'' && self.src[j + 1] == 'b' && self.src[j + 2]
                == 'z' {
                self.pos = j + 3;
                Ok(Token::HiZValue)
            } else {
                match digits_to_u64(&self.src, i, j) {
                    Some(v) => {
                        self.pos = j;
                        Ok(Token::Integer(v))
                    },
                    None => {
                        self.pos = j;
                        Err(LexingError::InvalidInteger(String::from_str("overflow error")))
                    },
                }
            }
        } else if c == '/' {
            if i + 1 < self.src.len() && self.src[i + 1] == '/' {
                self.pos = i + 2;
                Ok(Token::Comment)
            } else {
                self.pos = i + 1;
                Ok(Token::Divide)
            }
        } else if c == '<' {
            if i + 1 < self.src.len() && self.src[i + 1] == '=' {
                self.pos = i + 2;
                Ok(Token::BLTE)
            } else {
                self.pos = i + 1;
                Ok(Token::BLT)
            }
        } else if c == '>' {
            if i + 1 < self.src.len() && self.src[i + 1] == '=' {
                self.pos = i + 2;
                Ok(Token::BGTE)
            } else {
                self.pos = i + 1;
                Ok(Token::BGT)
            }
        } else if c == '=' {
            if i + 1 < self.src.len() && self.src[i + 1] == '=' {
                self.pos = i + 2;
                Ok(Token::BEQ)
            } else {
                self.pos = i + 1;
                Ok(Token::Equals)
            }
        } else if c == '#' {
            self.pos = i + 1;
            Ok(Token::Pound)
        } else if c == '(' {
            self.pos = i + 1;
            Ok(Token::OpenParen)
        } else if c == ')' {
            self.pos = i + 1;
            Ok(Token::CloseParen)
        } else if c == '[' {
            self.pos = i + 1;
            Ok(Token::OpenBracket)
        } else if c == ']' {
            self.pos = i + 1;
            Ok(Token::CloseBracket)
        } else if c == '{' {
            self.pos = i + 1;
            Ok(Token::OpenBrace)
        } else if c == '}' {
            self.pos = i + 1;
            Ok(Token::CloseBrace)
        } else if c == '-' {
            self.pos = i + 1;
            Ok(Token::Subtract)
        } else if c == '+' {
            self.pos = i + 1;
            Ok(Token::Add)
        } else if c == '*' {
            self.pos = i + 1;
            Ok(Token::Multiply)
        } else if c == '?' {
            self.pos = i + 1;
            Ok(Token::QMark)
        } else if c == '!' {
            self.pos = i + 1;
            Ok(Token::EMark)
        } else if c == ':' {
            self.pos = i + 1;
            Ok(Token::Colon)
        } else if c == ';' {
            self.pos = i + 1;
            Ok(Token::Semicolon)
        } else if c == ',' {
            self.pos = i + 1;
            Ok(Token::Comma)
        } else if c == '`' {
            self.pos = i + 1;
            Ok(Token::BTick)
        } else if c == '_' {
            self.pos = i + 1;
            Ok(Token::Underscore)
        } else if c == '@' {
            self.pos = i + 1;
            Ok(Token::At)
        } else {
            self.pos = i + 1;
            Err(LexingError::UnexpectedToken)
        }
    }

    /// Hands out the next token of the stream, or `None` at the end of the
    /// text, advancing the cursor past it.
    pub fn next(&mut self) -> (r: Option<Result<Token, LexingError>>)
        requires
            old(self).wf(),
        ensures
            final(self).wf(),
            final(self).src@ == old(self).src@,
            final(self).diags@ == old(self).diags@,
            lex_item_view(r) == lex_step(old(self).src@, old(self).pos as int).item,
            final(self).pos as int == lex_step(old(self).src@, old(self).pos as int).next,
            old(self).pos <= final(self).pos,
    {
        let ghost src = self.src@;
        let ghost p0 = self.pos as int;
        let ghost d0 = self.diags@;
        loop
            invariant
                self.wf(),
                self.src@ == src,
                self.diags@ == d0,
                p0 <= self.pos as int <= src.len(),
                lex_step(src, p0) == lex_step(src, self.pos as int),
            ensures
                self.wf(),
                self.src@ == src,
                self.diags@ == d0,
                p0 <= self.pos as int <= src.len(),
                lex_step(src, p0) == lex_step(src, self.pos as int),
                self.pos as int == src.len() || !is_skip_char(src[self.pos as int]),
            decreases src.len() - self.pos as int,
        {
            if self.pos >= self.src.len() {
                break;
            }
            let c = self.src[self.pos];
            if c == '\r' || c == '\u{c}' {
                proof {
                    assert(lex_step(src, self.pos as int) == lex_step(src, self.pos as int + 1));
                }
                self.pos = self.pos + 1;
            } else {
                break;
            }
        }
        if self.pos >= self.src.len() {
            return None;
        }
        let ghost p1 = self.pos as int;
        let r = self.scan();
        proof {
            lemma_scan_token_bounds(src, p1);
        }
        Some(r)
    }
}

} // verus!
