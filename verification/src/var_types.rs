//! Signal and port types, and the parsers that read their declarations.

use vstd::prelude::*;
use vstd::string::*;
use crate::lexer::{
    lex_step, lemma_lex_step_bounds, res_view, Diagnostic, LexStep, Lexer, LexingError,
    LexingErrorModel, Token, TokenModel,
};
use crate::{lemma_spec_parse_comment_bounds, parse_comment, spec_parse_comment};

verus! {

// ---------------------------------------------------------------------------
// Data model
// ---------------------------------------------------------------------------

/// The two recognized internal signal storage kinds.
#[derive(Debug, Clone, PartialEq, Eq, Structural)]
pub enum VarType {
    Wire,
    Reg,
}

impl View for VarType {
    type V = VarType;

    open spec fn view(&self) -> VarType {
        *self
    }
}

impl Default for VarType {
    /// A signal whose kind is not written down is a wire.
    fn default() -> (r: Self)
        ensures
            r == VarType::Wire,
    {
        VarType::Wire
    }
}

impl From<&str> for VarType {
    /// The storage kind a keyword spells, defaulting to wire.
    fn from(val: &str) -> (r: Self) {
        let v = String::from_str(val);
        if v == String::from_str("wire") {
            VarType::Wire
        } else if v == String::from_str("reg") {
            VarType::Reg
        } else {
            VarType::default()
        }
    }
}

impl vstd::std_specs::convert::FromSpecImpl<&str> for VarType {
    open spec fn obeys_from_spec() -> bool {
        true
    }

    open spec fn from_spec(v: &str) -> VarType {
        if v@ == "wire"@ {
            VarType::Wire
        } else if v@ == "reg"@ {
            VarType::Reg
        } else {
            VarType::Wire
        }
    }
}

/// Mathematical model of a [`Var`].
pub ghost struct VarModel {
    pub name: Seq<char>,
    pub width: u64,
    pub var_type: VarType,
    pub state: bool,
    pub hi_z: bool,
}

/// An internal signal: its name, bit width and storage kind.
///
/// `state` and `hi_z` are simulation-time fields; parsing always leaves them
/// false.
#[derive(Debug, Clone)]
pub struct Var {
    pub name: String,
    pub width: u64,
    pub var_type: VarType,
    pub state: bool,
    pub hi_z: bool,
}

impl View for Var {
    type V = VarModel;

    open spec fn view(&self) -> VarModel {
        VarModel {
            name: self.name@,
            width: self.width,
            var_type: self.var_type,
            state: self.state,
            hi_z: self.hi_z,
        }
    }
}

impl Default for Var {
    /// A nameless zero-width wire with cleared simulation state.
    fn default() -> (r: Self)
        ensures
            r@.name == Seq::<char>::empty(),
            r@.width == 0,
            r@.var_type == VarType::Wire,
            !r@.state,
            !r@.hi_z,
    {
        Var {
            name: String::new(),
            width: 0,
            var_type: VarType::default(),
            state: false,
            hi_z: false,
        }
    }
}

/// Mathematical model of an [`Input`].
pub ghost struct InputModel {
    pub name: Seq<char>,
    pub var: VarModel,
}

/// An input port.  The name deliberately duplicates `var.name` for
/// convenient lookup.
#[derive(Debug, Clone)]
pub struct Input {
    pub name: String,
    pub var: Var,
}

impl View for Input {
    type V = InputModel;

    open spec fn view(&self) -> InputModel {
        InputModel { name: self.name@, var: self.var@ }
    }
}

/// Mathematical model of an [`Output`].
pub ghost struct OutputModel {
    pub name: Seq<char>,
    pub var: VarModel,
}

/// An output port.  The name deliberately duplicates `var.name` for
/// convenient lookup.
#[derive(Debug, Clone)]
pub struct Output {
    pub name: String,
    pub var: Var,
}

impl View for Output {
    type V = OutputModel;

    open spec fn view(&self) -> OutputModel {
        OutputModel { name: self.name@, var: self.var@ }
    }
}

/// Mathematical model of an [`Inout`].
pub ghost struct InoutModel {
    pub name: Seq<char>,
    pub var: VarModel,
}

/// A bidirectional port.  The name deliberately duplicates `var.name` for
/// convenient lookup.
#[derive(Debug, Clone)]
pub struct Inout {
    pub name: String,
    pub var: Var,
}

impl View for Inout {
    type V = InoutModel;

    open spec fn view(&self) -> InoutModel {
        InoutModel { name: self.name@, var: self.var@ }
    }
}

// ---------------------------------------------------------------------------
// Views of sequences of signals and ports
// ---------------------------------------------------------------------------

/// The models of a sequence of variables.
pub open spec fn views_of_vars(v: Seq<Var>) -> Seq<VarModel> {
    v.map_values(|x: Var| x@)
}

/// The models of a sequence of input ports.
pub open spec fn views_of_inputs(v: Seq<Input>) -> Seq<InputModel> {
    v.map_values(|x: Input| x@)
}

/// The models of a sequence of output ports.
pub open spec fn views_of_outputs(v: Seq<Output>) -> Seq<OutputModel> {
    v.map_values(|x: Output| x@)
}

/// The models of a sequence of bidirectional ports.
pub open spec fn views_of_inouts(v: Seq<Inout>) -> Seq<InoutModel> {
    v.map_values(|x: Inout| x@)
}

pub proof fn lemma_views_of_vars_push(v: Seq<Var>, x: Var)
    ensures
        views_of_vars(v.push(x)) == views_of_vars(v).push(x@),
{
    assert(views_of_vars(v.push(x)) =~= views_of_vars(v).push(x@));
}

pub proof fn lemma_views_of_inputs_push(v: Seq<Input>, x: Input)
    ensures
        views_of_inputs(v.push(x)) == views_of_inputs(v).push(x@),
{
    assert(views_of_inputs(v.push(x)) =~= views_of_inputs(v).push(x@));
}

pub proof fn lemma_views_of_outputs_push(v: Seq<Output>, x: Output)
    ensures
        views_of_outputs(v.push(x)) == views_of_outputs(v).push(x@),
{
    assert(views_of_outputs(v.push(x)) =~= views_of_outputs(v).push(x@));
}

pub proof fn lemma_views_of_inouts_push(v: Seq<Inout>, x: Inout)
    ensures
        views_of_inouts(v.push(x)) == views_of_inouts(v).push(x@),
{
    assert(views_of_inouts(v.push(x)) =~= views_of_inouts(v).push(x@));
}

// ---------------------------------------------------------------------------
// The bit-width range parser
// ---------------------------------------------------------------------------

/// The width a bracketed range yields once the opening bracket has been
/// consumed, threaded through the loop state: the low index `start`, the
/// high index `end`, and whether the high index has been seen yet.
///
/// The first integer becomes the high index, the second the low index; on
/// the closing bracket the width is `end - start + 1`, rejected as negative
/// when `end < start`.  A range that is never closed is incomplete, and a
/// width too large for 64 bits is an invalid integer.
pub open spec fn spec_width_loop(
    src: Seq<char>,
    i: int,
    start: u64,
    end: u64,
    end_found: bool,
) -> (Result<u64, LexingErrorModel>, int)
    decreases src.len() - i when 0 <= i <= src.len() via spec_width_loop_dec
{
    let st = lex_step(src, i);
    match st.item {
        None => (Err(LexingErrorModel::IncompleteWidth), st.next),
        Some(item) => match item {
            Ok(TokenModel::Integer(v)) => if !end_found {
                spec_width_loop(src, st.next, start, v, true)
            } else {
                spec_width_loop(src, st.next, v, end, end_found)
            },
            Ok(TokenModel::Colon) => spec_width_loop(src, st.next, start, end, end_found),
            Ok(TokenModel::WhiteSpace) => spec_width_loop(src, st.next, start, end, end_found),
            Ok(TokenModel::CloseBracket) => if end < start {
                (Err(LexingErrorModel::NegativeBitWidth), st.next)
            } else if end - start + 1 > u64::MAX {
                (Err(LexingErrorModel::InvalidInteger("overflow error"@)), st.next)
            } else {
                (Ok((end - start + 1) as u64), st.next)
            },
            Err(e) => (Err(e), st.next),
            Ok(_) => spec_width_loop(src, st.next, start, end, end_found),
        },
    }
}

#[via_fn]
proof fn spec_width_loop_dec(src: Seq<char>, i: int, start: u64, end: u64, end_found: bool) {
    lemma_lex_step_bounds(src, i);
}

/// The width a bracketed range yields, from the position just after the
/// opening bracket.
pub open spec fn spec_parse_width(src: Seq<char>, i: int) -> (Result<u64, LexingErrorModel>, int) {
    spec_width_loop(src, i, 0, 0, false)
}

pub proof fn lemma_spec_width_loop_bounds(
    src: Seq<char>,
    i: int,
    start: u64,
    end: u64,
    end_found: bool,
)
    requires
        0 <= i <= src.len(),
    ensures
        i <= spec_width_loop(src, i, start, end, end_found).1 <= src.len(),
    decreases src.len() - i,
{
    lemma_lex_step_bounds(src, i);
    let st = lex_step(src, i);
    match st.item {
        Some(Ok(t)) => match t {
            TokenModel::Integer(v) => if !end_found {
                lemma_spec_width_loop_bounds(src, st.next, start, v, true)
            } else {
                lemma_spec_width_loop_bounds(src, st.next, v, end, end_found)
            },
            TokenModel::CloseBracket => {},
            _ => lemma_spec_width_loop_bounds(src, st.next, start, end, end_found),
        },
        _ => {},
    }
}

/// Collects a bracketed bit range `[high:low]` into a width.
pub(crate) fn parse_width(lexer: &mut Lexer) -> (r: Result<u64, LexingError>)
    requires
        old(lexer).wf(),
    ensures
        final(lexer).wf(),
        final(lexer).src@ == old(lexer).src@,
        res_view(r) == spec_parse_width(old(lexer).src@, old(lexer).pos as int).0,
        final(lexer).pos as int == spec_parse_width(old(lexer).src@, old(lexer).pos as int).1,
{
    let ghost src = lexer.src@;
    let ghost p0 = lexer.pos as int;
    let mut start: u64 = 0;
    let mut end: u64 = 0;
    let mut end_found = false;
    loop
        invariant
            src == old(lexer).src@,
            p0 == old(lexer).pos as int,
            lexer.wf(),
            lexer.src@ == src,
            0 <= p0 <= lexer.pos as int <= src.len(),
            spec_parse_width(src, p0) == spec_width_loop(
                src,
                lexer.pos as int,
                start,
                end,
                end_found,
            ),
        decreases src.len() - lexer.pos as int,
    {
        let ghost p = lexer.pos as int;
        let ghost st0 = start;
        let ghost en0 = end;
        let ghost ef0 = end_found;
        let token = lexer.next();
        proof {
            lemma_lex_step_bounds(src, p);
        }
        match token {
            None => {
                return Err(LexingError::IncompleteWidth);
            },
            Some(Ok(Token::Integer(v))) => {
                if !end_found {
                    end = v;
                    end_found = true;
                } else {
                    start = v;
                }
            },
            Some(Ok(Token::Colon)) => {},
            Some(Ok(Token::WhiteSpace)) => {},
            Some(Ok(Token::CloseBracket)) => {
                if end < start {
                    return Err(LexingError::NegativeBitWidth);
                }
                if start == 0 && end == u64::MAX {
                    return Err(LexingError::InvalidInteger(String::from_str("overflow error")));
                }
                return Ok(end - start + 1);
            },
            Some(Err(e)) => {
                return Err(e);
            },
            Some(Ok(t)) => {
                lexer.diags.push(Diagnostic::UnexpectedInWidth(t));
            },
        }
        proof {
            assert(spec_width_loop(src, p, st0, en0, ef0) == spec_width_loop(
                src,
                lexer.pos as int,
                start,
                end,
                end_found,
            ));
        }
    }
}

// ---------------------------------------------------------------------------
// The identifier parser
// ---------------------------------------------------------------------------

/// The identifier accumulated from position `i` onwards, starting from the
/// already-scanned fragment `acc`: further words are appended, underscores
/// become a literal `_`, whitespace and newlines are absorbed, a semicolon
/// or comma ends the scan, and the end of the text is tolerated.  A close
/// parenthesis also ends the scan but is left in the stream, so that the
/// module-header machine can see the end of its port list.
pub open spec fn spec_parse_name(src: Seq<char>, i: int, acc: Seq<char>) -> (Result<
    Seq<char>,
    LexingErrorModel,
>, int)
    decreases src.len() - i when 0 <= i <= src.len() via spec_parse_name_dec
{
    let st = lex_step(src, i);
    match st.item {
        None => (Ok(acc), st.next),
        Some(item) => match item {
            Ok(TokenModel::Word(w)) => spec_parse_name(src, st.next, acc + w),
            Ok(TokenModel::Underscore) => spec_parse_name(src, st.next, acc + "_"@),
            Ok(TokenModel::WhiteSpace) => spec_parse_name(src, st.next, acc),
            Ok(TokenModel::Newline) => spec_parse_name(src, st.next, acc),
            Ok(TokenModel::Semicolon) => (Ok(acc), st.next),
            Ok(TokenModel::Comma) => (Ok(acc), st.next),
            Ok(TokenModel::CloseParen) => (Ok(acc), i),
            Err(e) => (Err(e), st.next),
            Ok(_) => spec_parse_name(src, st.next, acc),
        },
    }
}

#[via_fn]
proof fn spec_parse_name_dec(src: Seq<char>, i: int, acc: Seq<char>) {
    lemma_lex_step_bounds(src, i);
}

pub proof fn lemma_spec_parse_name_bounds(src: Seq<char>, i: int, acc: Seq<char>)
    requires
        0 <= i <= src.len(),
    ensures
        i <= spec_parse_name(src, i, acc).1 <= src.len(),
    decreases src.len() - i,
{
    lemma_lex_step_bounds(src, i);
    let st = lex_step(src, i);
    match st.item {
        Some(Ok(t)) => match t {
            TokenModel::Word(w) => lemma_spec_parse_name_bounds(src, st.next, acc + w),
            TokenModel::Underscore => lemma_spec_parse_name_bounds(src, st.next, acc + "_"@),
            TokenModel::Semicolon => {},
            TokenModel::Comma => {},
            TokenModel::CloseParen => {},
            _ => lemma_spec_parse_name_bounds(src, st.next, acc),
        },
        _ => {},
    }
}

/// Accumulates an identifier, continuing from the fragment `name` that the
/// caller has already scanned.
pub fn parse_name(lexer: &mut Lexer, name: String) -> (r: Result<String, LexingError>)
    requires
        old(lexer).wf(),
    ensures
        final(lexer).wf(),
        final(lexer).src@ == old(lexer).src@,
        res_view(r) == spec_parse_name(old(lexer).src@, old(lexer).pos as int, name@).0,
        final(lexer).pos as int == spec_parse_name(old(lexer).src@, old(lexer).pos as int, name@).1,
{
    let ghost src = lexer.src@;
    let ghost p0 = lexer.pos as int;
    let mut ident = name;
    loop
        invariant
            src == old(lexer).src@,
            p0 == old(lexer).pos as int,
            lexer.wf(),
            lexer.src@ == src,
            0 <= p0 <= lexer.pos as int <= src.len(),
            spec_parse_name(src, p0, name@) == spec_parse_name(src, lexer.pos as int, ident@),
        decreases src.len() - lexer.pos as int,
    {
        let ghost p = lexer.pos as int;
        let ghost a = ident@;
        let mark = lexer.pos;
        let token = lexer.next();
        proof {
            lemma_lex_step_bounds(src, p);
        }
        match token {
            None => {
                return Ok(ident);
            },
            Some(Ok(Token::Word(w))) => {
                ident.append(w.as_str());
            },
            Some(Ok(Token::Underscore)) => {
                ident.append("_");
            },
            Some(Ok(Token::WhiteSpace)) => {},
            Some(Ok(Token::Newline)) => {},
            Some(Ok(Token::Semicolon)) => {
                return Ok(ident);
            },
            Some(Ok(Token::Comma)) => {
                return Ok(ident);
            },
            Some(Ok(Token::CloseParen)) => {
                lexer.pos = mark;
                return Ok(ident);
            },
            Some(Err(e)) => {
                return Err(e);
            },
            Some(Ok(t)) => {
                lexer.diags.push(Diagnostic::UnexpectedInName(t));
            },
        }
        proof {
            assert(spec_parse_name(src, p, a) == spec_parse_name(src, lexer.pos as int, ident@));
        }
    }
}

// ---------------------------------------------------------------------------
// The generic variable parser
// ---------------------------------------------------------------------------

/// The variable declaration read from position `i`, threaded through the
/// loop state: an optional `wire`/`reg` keyword fixes the storage kind, an
/// optional bracketed range fixes the width, and a word token starts the
/// name that ends the declaration.  Reaching the end of the text before a
/// name is an error.
pub open spec fn spec_var_loop(src: Seq<char>, i: int, var_type: VarType, width: u64) -> (Result<
    (VarType, Seq<char>, u64),
    LexingErrorModel,
>, int)
    decreases src.len() - i when 0 <= i <= src.len() via spec_var_loop_dec
{
    let st = lex_step(src, i);
    match st.item {
        None => (Err(LexingErrorModel::UnexpectedToken), st.next),
        Some(item) => match item {
            Ok(TokenModel::Wire) => spec_var_loop(src, st.next, VarType::Wire, width),
            Ok(TokenModel::Reg) => spec_var_loop(src, st.next, VarType::Reg, width),
            Ok(TokenModel::Word(w)) => {
                let r = spec_parse_name(src, st.next, w);
                match r.0 {
                    Ok(name) => (Ok((var_type, name, width)), r.1),
                    Err(e) => (Err(e), r.1),
                }
            },
            Ok(TokenModel::OpenBracket) => {
                let r = spec_parse_width(src, st.next);
                match r.0 {
                    Ok(v) => spec_var_loop(src, r.1, var_type, v),
                    Err(e) => (Err(e), r.1),
                }
            },
            Ok(TokenModel::Comment) => spec_var_loop(
                src,
                spec_parse_comment(src, st.next).1,
                var_type,
                width,
            ),
            Ok(TokenModel::WhiteSpace) => spec_var_loop(src, st.next, var_type, width),
            Err(e) => (Err(e), st.next),
            Ok(_) => spec_var_loop(src, st.next, var_type, width),
        },
    }
}

#[via_fn]
proof fn spec_var_loop_dec(src: Seq<char>, i: int, var_type: VarType, width: u64) {
    lemma_lex_step_bounds(src, i);
    let st = lex_step(src, i);
    if 0 <= i <= src.len() && st.item is Some {
        lemma_spec_width_loop_bounds(src, st.next, 0, 0, false);
        lemma_spec_parse_comment_bounds(src, st.next);
    }
}

/// The variable declaration read from position `i`, with the default storage
/// kind (wire) and width (one bit).
pub open spec fn spec_parse_var(src: Seq<char>, i: int) -> (Result<
    (VarType, Seq<char>, u64),
    LexingErrorModel,
>, int) {
    spec_var_loop(src, i, VarType::Wire, 1)
}

pub proof fn lemma_spec_var_loop_bounds(src: Seq<char>, i: int, var_type: VarType, width: u64)
    requires
        0 <= i <= src.len(),
    ensures
        i <= spec_var_loop(src, i, var_type, width).1 <= src.len(),
    decreases src.len() - i,
{
    lemma_lex_step_bounds(src, i);
    let st = lex_step(src, i);
    match st.item {
        Some(Ok(t)) => match t {
            TokenModel::Wire => lemma_spec_var_loop_bounds(src, st.next, VarType::Wire, width),
            TokenModel::Reg => lemma_spec_var_loop_bounds(src, st.next, VarType::Reg, width),
            TokenModel::Word(w) => {
                lemma_spec_parse_name_bounds(src, st.next, w);
            },
            TokenModel::OpenBracket => {
                lemma_spec_width_loop_bounds(src, st.next, 0, 0, false);
                let r = spec_parse_width(src, st.next);
                match r.0 {
                    Ok(v) => lemma_spec_var_loop_bounds(src, r.1, var_type, v),
                    Err(_) => {},
                }
            },
            TokenModel::Comment => {
                lemma_spec_parse_comment_bounds(src, st.next);
                lemma_spec_var_loop_bounds(
                    src,
                    spec_parse_comment(src, st.next).1,
                    var_type,
                    width,
                );
            },
            _ => lemma_spec_var_loop_bounds(src, st.next, var_type, width),
        },
        _ => {},
    }
}

/// Scans one variable declaration: an optional `wire`/`reg` keyword, an
/// optional bracketed width, and the terminating identifier.
pub fn parse_var(lexer: &mut Lexer) -> (r: Result<(VarType, String, u64), LexingError>)
    requires
        old(lexer).wf(),
    ensures
        final(lexer).wf(),
        final(lexer).src@ == old(lexer).src@,
        res_view(r) == spec_parse_var(old(lexer).src@, old(lexer).pos as int).0,
        final(lexer).pos as int == spec_parse_var(old(lexer).src@, old(lexer).pos as int).1,
{
    let ghost src = lexer.src@;
    let ghost p0 = lexer.pos as int;
    let mut var_type = VarType::default();
    let mut width: u64 = 1;
    loop
        invariant
            src == old(lexer).src@,
            p0 == old(lexer).pos as int,
            lexer.wf(),
            lexer.src@ == src,
            0 <= p0 <= lexer.pos as int <= src.len(),
            spec_parse_var(src, p0) == spec_var_loop(src, lexer.pos as int, var_type@, width),
        decreases src.len() - lexer.pos as int,
    {
        let ghost p = lexer.pos as int;
        let ghost vt0 = var_type@;
        let ghost w0 = width;
        let token = lexer.next();
        proof {
            lemma_lex_step_bounds(src, p);
        }
        match token {
            None => {
                return Err(LexingError::UnexpectedToken);
            },
            Some(Ok(Token::Wire)) => {
                var_type = VarType::Wire;
            },
            Some(Ok(Token::Reg)) => {
                var_type = VarType::Reg;
            },
            Some(Ok(Token::Word(w))) => {
                match parse_name(lexer, w) {
                    Ok(name) => {
                        return Ok((var_type, name, width));
                    },
                    Err(e) => {
                        return Err(e);
                    },
                }
            },
            Some(Ok(Token::OpenBracket)) => {
                proof {
                    lemma_spec_width_loop_bounds(src, lexer.pos as int, 0, 0, false);
                }
                match parse_width(lexer) {
                    Ok(v) => {
                        width = v;
                    },
                    Err(e) => {
                        return Err(e);
                    },
                }
            },
            Some(Ok(Token::Comment)) => {
                proof {
                    lemma_spec_parse_comment_bounds(src, lexer.pos as int);
                }
                // A malformed comment is tolerated at this spot.
                let _ = parse_comment(lexer);
            },
            Some(Ok(Token::WhiteSpace)) => {},
            Some(Err(e)) => {
                return Err(e);
            },
            Some(Ok(t)) => {
                lexer.diags.push(Diagnostic::UnexpectedInVariable(t));
            },
        }
        proof {
            assert(spec_var_loop(src, p, vt0, w0) == spec_var_loop(
                src,
                lexer.pos as int,
                var_type@,
                width,
            ));
        }
    }
}

// ---------------------------------------------------------------------------
// The port parsers
// ---------------------------------------------------------------------------

/// The input port read from position `i`: a variable declaration wrapped
/// into an [`InputModel`], with the name duplicated for lookup.
pub open spec fn spec_parse_input(src: Seq<char>, i: int) -> (Result<
    InputModel,
    LexingErrorModel,
>, int) {
    let r = spec_parse_var(src, i);
    match r.0 {
        Ok((var_type, name, width)) => (
            Ok(
                InputModel {
                    name,
                    var: VarModel { name, width, var_type, state: false, hi_z: false },
                },
            ),
            r.1,
        ),
        Err(e) => (Err(e), r.1),
    }
}

/// The output port read from position `i`, wrapped like [`spec_parse_input`].
pub open spec fn spec_parse_output(src: Seq<char>, i: int) -> (Result<
    OutputModel,
    LexingErrorModel,
>, int) {
    let r = spec_parse_var(src, i);
    match r.0 {
        Ok((var_type, name, width)) => (
            Ok(
                OutputModel {
                    name,
                    var: VarModel { name, width, var_type, state: false, hi_z: false },
                },
            ),
            r.1,
        ),
        Err(e) => (Err(e), r.1),
    }
}

/// The bidirectional port read from position `i`, wrapped like
/// [`spec_parse_input`].
pub open spec fn spec_parse_inout(src: Seq<char>, i: int) -> (Result<
    InoutModel,
    LexingErrorModel,
>, int) {
    let r = spec_parse_var(src, i);
    match r.0 {
        Ok((var_type, name, width)) => (
            Ok(
                InoutModel {
                    name,
                    var: VarModel { name, width, var_type, state: false, hi_z: false },
                },
            ),
            r.1,
        ),
        Err(e) => (Err(e), r.1),
    }
}

// ---------------------------------------------------------------------------
// Laws of the width and variable parsers
// ---------------------------------------------------------------------------

/// For a bit range `[hi:lo]` with `hi >= lo`, the parsed width is exactly
/// `hi - lo + 1`.
///
/// The hypothesis spells the range out token by token from the position
/// just after the opening bracket: the high index, a colon, the low index,
/// and the closing bracket.  The one range this cannot hold of is
/// `[u64::MAX:0]`, whose width does not fit 64 bits.
pub proof fn lemma_range_width(src: Seq<char>, i: int, j1: int, j2: int, j3: int, hi: u64, lo: u64)
    requires
        0 <= i <= src.len(),
        lex_step(src, i) == (LexStep {
            item: Some(Ok(TokenModel::Integer(hi))),
            next: j1,
        }),
        lex_step(src, j1) == (LexStep { item: Some(Ok(TokenModel::Colon)), next: j2 }),
        lex_step(src, j2) == (LexStep {
            item: Some(Ok(TokenModel::Integer(lo))),
            next: j3,
        }),
        lex_step(src, j3).item == Some(
            Ok::<TokenModel, LexingErrorModel>(TokenModel::CloseBracket),
        ),
        lo <= hi,
        !(hi == u64::MAX && lo == 0),
    ensures
        spec_parse_width(src, i) == (
            Ok::<u64, LexingErrorModel>((hi - lo + 1) as u64),
            lex_step(src, j3).next,
        ),
{
    lemma_lex_step_bounds(src, i);
    lemma_lex_step_bounds(src, j1);
    lemma_lex_step_bounds(src, j2);
    lemma_lex_step_bounds(src, j3);
    assert(spec_width_loop(src, i, 0, 0, false) == spec_width_loop(src, j1, 0, hi, true));
    assert(spec_width_loop(src, j1, 0, hi, true) == spec_width_loop(src, j2, 0, hi, true));
    assert(spec_width_loop(src, j2, 0, hi, true) == spec_width_loop(src, j3, lo, hi, true));
}

/// A bit range `[hi:lo]` with `hi < lo` fails with the negative-width
/// error, laid out token by token as in [`lemma_range_width`].
pub proof fn lemma_negative_range_rejected(
    src: Seq<char>,
    i: int,
    j1: int,
    j2: int,
    j3: int,
    hi: u64,
    lo: u64,
)
    requires
        0 <= i <= src.len(),
        lex_step(src, i) == (LexStep {
            item: Some(Ok(TokenModel::Integer(hi))),
            next: j1,
        }),
        lex_step(src, j1) == (LexStep { item: Some(Ok(TokenModel::Colon)), next: j2 }),
        lex_step(src, j2) == (LexStep {
            item: Some(Ok(TokenModel::Integer(lo))),
            next: j3,
        }),
        lex_step(src, j3).item == Some(
            Ok::<TokenModel, LexingErrorModel>(TokenModel::CloseBracket),
        ),
        hi < lo,
    ensures
        spec_parse_width(src, i) == (
            Err::<u64, LexingErrorModel>(LexingErrorModel::NegativeBitWidth),
            lex_step(src, j3).next,
        ),
{
    lemma_lex_step_bounds(src, i);
    lemma_lex_step_bounds(src, j1);
    lemma_lex_step_bounds(src, j2);
    lemma_lex_step_bounds(src, j3);
    assert(spec_width_loop(src, i, 0, 0, false) == spec_width_loop(src, j1, 0, hi, true));
    assert(spec_width_loop(src, j1, 0, hi, true) == spec_width_loop(src, j2, 0, hi, true));
    assert(spec_width_loop(src, j2, 0, hi, true) == spec_width_loop(src, j3, lo, hi, true));
}

/// Whitespace tokens are transparent to the width parser, so a range may be
/// spaced freely without changing the width it yields.
pub proof fn lemma_width_skips_whitespace(
    src: Seq<char>,
    i: int,
    start: u64,
    end: u64,
    end_found: bool,
)
    requires
        0 <= i <= src.len(),
        lex_step(src, i).item == Some(Ok::<TokenModel, LexingErrorModel>(TokenModel::WhiteSpace)),
    ensures
        spec_width_loop(src, i, start, end, end_found) == spec_width_loop(
            src,
            lex_step(src, i).next,
            start,
            end,
            end_found,
        ),
{
    lemma_lex_step_bounds(src, i);
}

/// The variable parser's width is never touched while no opening bracket
/// stands anywhere ahead in the stream.
proof fn lemma_var_loop_width_stable(src: Seq<char>, i: int, var_type: VarType, width: u64)
    requires
        0 <= i <= src.len(),
        forall|k: int| i <= k < src.len() ==> (#[trigger] lex_step(src, k).item) != Some(
            Ok::<TokenModel, LexingErrorModel>(TokenModel::OpenBracket),
        ),
    ensures
        spec_var_loop(src, i, var_type, width).0 matches Ok(t) ==> t.2 == width,
    decreases src.len() - i,
{
    lemma_lex_step_bounds(src, i);
    let st = lex_step(src, i);
    match st.item {
        Some(Ok(t)) => match t {
            TokenModel::Wire => lemma_var_loop_width_stable(src, st.next, VarType::Wire, width),
            TokenModel::Reg => lemma_var_loop_width_stable(src, st.next, VarType::Reg, width),
            TokenModel::Word(_) => {},
            TokenModel::OpenBracket => {
                assert(lex_step(src, i).item == Some(
                    Ok::<TokenModel, LexingErrorModel>(TokenModel::OpenBracket),
                ));
            },
            TokenModel::Comment => {
                lemma_spec_parse_comment_bounds(src, st.next);
                lemma_var_loop_width_stable(
                    src,
                    spec_parse_comment(src, st.next).1,
                    var_type,
                    width,
                );
            },
            _ => lemma_var_loop_width_stable(src, st.next, var_type, width),
        },
        _ => {},
    }
}

/// A variable declared without a bracketed range has width exactly one: as
/// long as no opening bracket stands anywhere ahead in the stream, a
/// successfully parsed declaration keeps the default width.
pub proof fn lemma_var_without_range_has_width_one(src: Seq<char>, i: int)
    requires
        0 <= i <= src.len(),
        forall|k: int| i <= k < src.len() ==> (#[trigger] lex_step(src, k).item) != Some(
            Ok::<TokenModel, LexingErrorModel>(TokenModel::OpenBracket),
        ),
    ensures
        spec_parse_var(src, i).0 matches Ok(t) ==> t.2 == 1,
{
    lemma_var_loop_width_stable(src, i, VarType::Wire, 1);
}

/// Reaching the end of the text before a variable's name is an error, never
/// a made-up declaration.
pub proof fn lemma_var_at_end_of_text_rejected(src: Seq<char>, i: int, var_type: VarType, width: u64)
    requires
        0 <= i <= src.len(),
        lex_step(src, i).item is None,
    ensures
        spec_var_loop(src, i, var_type, width) == (
            Err::<(VarType, Seq<char>, u64), LexingErrorModel>(LexingErrorModel::UnexpectedToken),
            src.len() as int,
        ),
{
    lemma_lex_step_bounds(src, i);
}

/// The identifier accumulator only ever grows.
pub proof fn lemma_parse_name_grows(src: Seq<char>, i: int, acc: Seq<char>)
    requires
        0 <= i <= src.len(),
    ensures
        spec_parse_name(src, i, acc).0 matches Ok(name) ==> name.len() >= acc.len(),
    decreases src.len() - i,
{
    lemma_lex_step_bounds(src, i);
    let st = lex_step(src, i);
    match st.item {
        Some(Ok(t)) => match t {
            TokenModel::Word(w) => lemma_parse_name_grows(src, st.next, acc + w),
            TokenModel::Underscore => lemma_parse_name_grows(src, st.next, acc + "_"@),
            TokenModel::Semicolon => {},
            TokenModel::Comma => {},
            TokenModel::CloseParen => {},
            _ => lemma_parse_name_grows(src, st.next, acc),
        },
        _ => {},
    }
}

/// A successfully parsed variable declaration never carries an empty name:
/// the name begins with a word token, and word tokens are never empty.
pub proof fn lemma_parsed_var_name_nonempty(src: Seq<char>, i: int, var_type: VarType, width: u64)
    requires
        0 <= i <= src.len(),
    ensures
        spec_var_loop(src, i, var_type, width).0 matches Ok(t) ==> t.1.len() >= 1,
    decreases src.len() - i,
{
    lemma_lex_step_bounds(src, i);
    crate::lexer::lemma_word_token_nonempty(src, i);
    let st = lex_step(src, i);
    match st.item {
        Some(Ok(t)) => match t {
            TokenModel::Wire => lemma_parsed_var_name_nonempty(src, st.next, VarType::Wire, width),
            TokenModel::Reg => lemma_parsed_var_name_nonempty(src, st.next, VarType::Reg, width),
            TokenModel::Word(w) => {
                lemma_parse_name_grows(src, st.next, w);
            },
            TokenModel::OpenBracket => {
                lemma_spec_width_loop_bounds(src, st.next, 0, 0, false);
                let r = spec_parse_width(src, st.next);
                match r.0 {
                    Ok(v) => lemma_parsed_var_name_nonempty(src, r.1, var_type, v),
                    Err(_) => {},
                }
            },
            TokenModel::Comment => {
                lemma_spec_parse_comment_bounds(src, st.next);
                lemma_parsed_var_name_nonempty(
                    src,
                    spec_parse_comment(src, st.next).1,
                    var_type,
                    width,
                );
            },
            _ => lemma_parsed_var_name_nonempty(src, st.next, var_type, width),
        },
        _ => {},
    }
}

// ---------------------------------------------------------------------------
// Well-formedness of parsed signals and ports
// ---------------------------------------------------------------------------

/// What holds of every signal the parsers hand out: a nonempty name, at
/// least one bit of width, and cleared simulation state.
pub open spec fn wf_parsed_var(v: VarModel) -> bool {
    &&& v.name.len() >= 1
    &&& v.width >= 1
    &&& !v.state
    &&& !v.hi_z
}

/// What holds of every input port the parsers hand out: a well-formed
/// signal whose name the port duplicates.
pub open spec fn wf_parsed_input(p: InputModel) -> bool {
    p.name == p.var.name && wf_parsed_var(p.var)
}

/// What holds of every output port the parsers hand out.
pub open spec fn wf_parsed_output(p: OutputModel) -> bool {
    p.name == p.var.name && wf_parsed_var(p.var)
}

/// What holds of every bidirectional port the parsers hand out.
pub open spec fn wf_parsed_inout(p: InoutModel) -> bool {
    p.name == p.var.name && wf_parsed_var(p.var)
}

/// A width the range parser accepts is never below one.
pub proof fn lemma_width_result_positive(
    src: Seq<char>,
    i: int,
    start: u64,
    end: u64,
    end_found: bool,
)
    requires
        0 <= i <= src.len(),
    ensures
        spec_width_loop(src, i, start, end, end_found).0 matches Ok(v) ==> v >= 1,
    decreases src.len() - i,
{
    lemma_lex_step_bounds(src, i);
    let st = lex_step(src, i);
    match st.item {
        Some(Ok(t)) => match t {
            TokenModel::Integer(v) => if !end_found {
                lemma_width_result_positive(src, st.next, start, v, true)
            } else {
                lemma_width_result_positive(src, st.next, v, end, end_found)
            },
            TokenModel::CloseBracket => {},
            _ => lemma_width_result_positive(src, st.next, start, end, end_found),
        },
        _ => {},
    }
}

/// A variable the parser accepts starting from a positive width keeps a
/// positive width.
proof fn lemma_var_loop_width_positive(src: Seq<char>, i: int, var_type: VarType, width: u64)
    requires
        0 <= i <= src.len(),
        width >= 1,
    ensures
        spec_var_loop(src, i, var_type, width).0 matches Ok(t) ==> t.2 >= 1,
    decreases src.len() - i,
{
    lemma_lex_step_bounds(src, i);
    let st = lex_step(src, i);
    match st.item {
        Some(Ok(t)) => match t {
            TokenModel::Wire => lemma_var_loop_width_positive(src, st.next, VarType::Wire, width),
            TokenModel::Reg => lemma_var_loop_width_positive(src, st.next, VarType::Reg, width),
            TokenModel::Word(_) => {},
            TokenModel::OpenBracket => {
                lemma_spec_width_loop_bounds(src, st.next, 0, 0, false);
                lemma_width_result_positive(src, st.next, 0, 0, false);
                let r = spec_parse_width(src, st.next);
                match r.0 {
                    Ok(v) => lemma_var_loop_width_positive(src, r.1, var_type, v),
                    Err(_) => {},
                }
            },
            TokenModel::Comment => {
                lemma_spec_parse_comment_bounds(src, st.next);
                lemma_var_loop_width_positive(
                    src,
                    spec_parse_comment(src, st.next).1,
                    var_type,
                    width,
                );
            },
            _ => lemma_var_loop_width_positive(src, st.next, var_type, width),
        },
        _ => {},
    }
}

/// Every port the port parsers accept is well-formed: the name is never
/// empty, the width never below one, the simulation state cleared, and the
/// port's own name duplicates its signal's.
pub proof fn lemma_parsed_ports_wf(src: Seq<char>, i: int)
    requires
        0 <= i <= src.len(),
    ensures
        spec_parse_input(src, i).0 matches Ok(p) ==> wf_parsed_input(p),
        spec_parse_output(src, i).0 matches Ok(p) ==> wf_parsed_output(p),
        spec_parse_inout(src, i).0 matches Ok(p) ==> wf_parsed_inout(p),
{
    lemma_parsed_var_name_nonempty(src, i, VarType::Wire, 1);
    lemma_var_loop_width_positive(src, i, VarType::Wire, 1);
}

/// Parses an input port declaration.
pub fn parse_input(lexer: &mut Lexer) -> (r: Result<Input, LexingError>)
    requires
        old(lexer).wf(),
    ensures
        final(lexer).wf(),
        final(lexer).src@ == old(lexer).src@,
        res_view(r) == spec_parse_input(old(lexer).src@, old(lexer).pos as int).0,
        final(lexer).pos as int == spec_parse_input(old(lexer).src@, old(lexer).pos as int).1,
{
    match parse_var(lexer) {
        Ok((var_type, name, width)) => Ok(
            Input {
                name: name.clone(),
                var: Var { name, width, var_type, state: false, hi_z: false },
            },
        ),
        Err(e) => Err(e),
    }
}

/// Parses an output port declaration.
pub fn parse_output(lexer: &mut Lexer) -> (r: Result<Output, LexingError>)
    requires
        old(lexer).wf(),
    ensures
        final(lexer).wf(),
        final(lexer).src@ == old(lexer).src@,
        res_view(r) == spec_parse_output(old(lexer).src@, old(lexer).pos as int).0,
        final(lexer).pos as int == spec_parse_output(old(lexer).src@, old(lexer).pos as int).1,
{
    match parse_var(lexer) {
        Ok((var_type, name, width)) => Ok(
            Output {
                name: name.clone(),
                var: Var { name, width, var_type, state: false, hi_z: false },
            },
        ),
        Err(e) => Err(e),
    }
}

/// Parses a bidirectional port declaration.
pub fn parse_inout(lexer: &mut Lexer) -> (r: Result<Inout, LexingError>)
    requires
        old(lexer).wf(),
    ensures
        final(lexer).wf(),
        final(lexer).src@ == old(lexer).src@,
        res_view(r) == spec_parse_inout(old(lexer).src@, old(lexer).pos as int).0,
        final(lexer).pos as int == spec_parse_inout(old(lexer).src@, old(lexer).pos as int).1,
{
    match parse_var(lexer) {
        Ok((var_type, name, width)) => Ok(
            Inout {
                name: name.clone(),
                var: Var { name, width, var_type, state: false, hi_z: false },
            },
        ),
        Err(e) => Err(e),
    }
}

} // verus!
