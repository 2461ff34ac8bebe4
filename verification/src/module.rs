//! Module types, the module-header state machine, and the module-body
//! parser.

use vstd::prelude::*;
use vstd::string::*;
use crate::lexer::{
    lex_step, lemma_lex_step_bounds, res_view, Diagnostic, Lexer, LexingError, LexingErrorModel,
    Token, TokenModel,
};
use crate::var_types::{
    lemma_spec_parse_name_bounds, lemma_spec_var_loop_bounds, lemma_spec_width_loop_bounds,
    lemma_views_of_inouts_push, lemma_views_of_inputs_push, lemma_views_of_outputs_push,
    lemma_views_of_vars_push, parse_inout, parse_input, parse_name, parse_output, parse_width,
};
use crate::var_types::{
    spec_parse_inout, spec_parse_input, spec_parse_name, spec_parse_output, spec_parse_width,
    views_of_inouts, views_of_inputs, views_of_outputs, views_of_vars, wf_parsed_inout,
    wf_parsed_input, wf_parsed_output, wf_parsed_var, Inout, InoutModel, Input, InputModel,
    Output, OutputModel, Var, VarModel, VarType,
};
use crate::{lemma_spec_parse_comment_bounds, parse_comment, spec_parse_comment};

verus! {

// ---------------------------------------------------------------------------
// Data model
// ---------------------------------------------------------------------------

/// Mathematical model of a [`ModuleIO`].
pub ghost struct ModuleIOModel {
    pub name: Seq<char>,
    pub inputs: Seq<InputModel>,
    pub outputs: Seq<OutputModel>,
    pub inouts: Seq<InoutModel>,
}

/// Module I/O information.
///
/// Stores all inputs, outputs, and inouts for a given module, in declaration
/// order, not deduplicated.
#[derive(Debug, Clone)]
pub struct ModuleIO {
    /// Module name.
    pub name: String,

    /// Module inputs.
    pub inputs: Vec<Input>,

    /// Module outputs.
    pub outputs: Vec<Output>,

    /// Module combination input/outputs.
    pub inouts: Vec<Inout>,
}

impl View for ModuleIO {
    type V = ModuleIOModel;

    open spec fn view(&self) -> ModuleIOModel {
        ModuleIOModel {
            name: self.name@,
            inputs: views_of_inputs(self.inputs@),
            outputs: views_of_outputs(self.outputs@),
            inouts: views_of_inouts(self.inouts@),
        }
    }
}

/// The model of a header with nothing read yet.
pub open spec fn empty_module_io() -> ModuleIOModel {
    ModuleIOModel {
        name: Seq::<char>::empty(),
        inputs: Seq::<InputModel>::empty(),
        outputs: Seq::<OutputModel>::empty(),
        inouts: Seq::<InoutModel>::empty(),
    }
}

impl Default for ModuleIO {
    /// A nameless header with no ports.
    fn default() -> (r: Self)
        ensures
            r@ == empty_module_io(),
    {
        let r = ModuleIO { name: String::new(), inputs: Vec::new(), outputs: Vec::new(), inouts: Vec::new() };
        proof {
            assert(r@.inputs =~= empty_module_io().inputs);
            assert(r@.outputs =~= empty_module_io().outputs);
            assert(r@.inouts =~= empty_module_io().inouts);
        }
        r
    }
}

/// Mathematical model of a [`Module`].
pub ghost struct ModuleModel {
    pub name: Seq<char>,
    pub io: ModuleIOModel,
    pub vars: Seq<VarModel>,
}

/// SystemVerilog module representation.
///
/// Contains a module I/O header and the signals declared in its body; the
/// name duplicates the header's name.
#[derive(Debug, Clone)]
pub struct Module {
    /// Module friendly name.
    pub name: String,

    /// Module I/O information.
    pub io: ModuleIO,

    /// Module "variables" (wire, reg, etc.).
    pub vars: Vec<Var>,
}

impl View for Module {
    type V = ModuleModel;

    open spec fn view(&self) -> ModuleModel {
        ModuleModel { name: self.name@, io: self.io@, vars: views_of_vars(self.vars@) }
    }
}

impl Default for Module {
    /// A nameless module with no ports and no signals.
    fn default() -> (r: Self)
        ensures
            r@.name == Seq::<char>::empty(),
            r@.io == empty_module_io(),
            r@.vars == Seq::<VarModel>::empty(),
    {
        let r = Module { name: String::new(), io: ModuleIO::default(), vars: Vec::new() };
        proof {
            assert(r@.vars =~= Seq::<VarModel>::empty());
        }
        r
    }
}

/// The models of a sequence of modules.
pub open spec fn views_of_modules(v: Seq<Module>) -> Seq<ModuleModel> {
    v.map_values(|x: Module| x@)
}

pub proof fn lemma_views_of_modules_push(v: Seq<Module>, x: Module)
    ensures
        views_of_modules(v.push(x)) == views_of_modules(v).push(x@),
{
    assert(views_of_modules(v.push(x)) =~= views_of_modules(v).push(x@));
}

// ---------------------------------------------------------------------------
// The module-header state machine
// ---------------------------------------------------------------------------

/// The four strictly-forward states of the module-header parser: awaiting
/// the module's name, its opening parenthesis, its port declarations, and
/// its terminating semicolon.
#[derive(Debug, Clone, Copy, PartialEq, Eq, Structural)]
pub enum HeaderState {
    Name,
    Paren,
    IO,
    Semi,
}

/// The header read from position `i`, threaded through the machine's state
/// and what it has gathered: the module's name and its ports, in declaration
/// order.
///
/// Each state ignores whitespace and newlines and records anything
/// grammatically out of place without leaving its state; only the awaited
/// token moves the machine forward.  A lexical error in any state ends the
/// parse at once; the end of the text ends the header with whatever was
/// gathered.
pub open spec fn spec_io_loop(
    src: Seq<char>,
    i: int,
    state: HeaderState,
    name: Seq<char>,
    inputs: Seq<InputModel>,
    outputs: Seq<OutputModel>,
    inouts: Seq<InoutModel>,
) -> (Result<ModuleIOModel, LexingErrorModel>, int)
    decreases src.len() - i when 0 <= i <= src.len() via spec_io_loop_dec
{
    let st = lex_step(src, i);
    match st.item {
        None => (Ok(ModuleIOModel { name, inputs, outputs, inouts }), st.next),
        Some(item) => match state {
            HeaderState::Name => match item {
                Ok(TokenModel::Word(w)) => spec_io_loop(
                    src,
                    st.next,
                    HeaderState::Paren,
                    w,
                    inputs,
                    outputs,
                    inouts,
                ),
                Ok(TokenModel::WhiteSpace) => spec_io_loop(
                    src,
                    st.next,
                    state,
                    name,
                    inputs,
                    outputs,
                    inouts,
                ),
                Ok(TokenModel::Newline) => spec_io_loop(
                    src,
                    st.next,
                    state,
                    name,
                    inputs,
                    outputs,
                    inouts,
                ),
                Err(e) => (Err(e), st.next),
                Ok(_) => spec_io_loop(src, st.next, state, name, inputs, outputs, inouts),
            },
            HeaderState::Paren => match item {
                Ok(TokenModel::OpenParen) => spec_io_loop(
                    src,
                    st.next,
                    HeaderState::IO,
                    name,
                    inputs,
                    outputs,
                    inouts,
                ),
                Ok(TokenModel::WhiteSpace) => spec_io_loop(
                    src,
                    st.next,
                    state,
                    name,
                    inputs,
                    outputs,
                    inouts,
                ),
                Ok(TokenModel::Newline) => spec_io_loop(
                    src,
                    st.next,
                    state,
                    name,
                    inputs,
                    outputs,
                    inouts,
                ),
                Err(e) => (Err(e), st.next),
                Ok(_) => spec_io_loop(src, st.next, state, name, inputs, outputs, inouts),
            },
            HeaderState::IO => match item {
                Ok(TokenModel::Input) => {
                    let r = spec_parse_input(src, st.next);
                    match r.0 {
                        Ok(p) => spec_io_loop(
                            src,
                            r.1,
                            state,
                            name,
                            inputs.push(p),
                            outputs,
                            inouts,
                        ),
                        Err(e) => (Err(e), r.1),
                    }
                },
                Ok(TokenModel::Output) => {
                    let r = spec_parse_output(src, st.next);
                    match r.0 {
                        Ok(p) => spec_io_loop(
                            src,
                            r.1,
                            state,
                            name,
                            inputs,
                            outputs.push(p),
                            inouts,
                        ),
                        Err(e) => (Err(e), r.1),
                    }
                },
                Ok(TokenModel::Inout) => {
                    let r = spec_parse_inout(src, st.next);
                    match r.0 {
                        Ok(p) => spec_io_loop(
                            src,
                            r.1,
                            state,
                            name,
                            inputs,
                            outputs,
                            inouts.push(p),
                        ),
                        Err(e) => (Err(e), r.1),
                    }
                },
                Ok(TokenModel::Comment) => spec_io_loop(
                    src,
                    spec_parse_comment(src, st.next).1,
                    state,
                    name,
                    inputs,
                    outputs,
                    inouts,
                ),
                Ok(TokenModel::CloseParen) => spec_io_loop(
                    src,
                    st.next,
                    HeaderState::Semi,
                    name,
                    inputs,
                    outputs,
                    inouts,
                ),
                Ok(TokenModel::WhiteSpace) => spec_io_loop(
                    src,
                    st.next,
                    state,
                    name,
                    inputs,
                    outputs,
                    inouts,
                ),
                Ok(TokenModel::Newline) => spec_io_loop(
                    src,
                    st.next,
                    state,
                    name,
                    inputs,
                    outputs,
                    inouts,
                ),
                Err(e) => (Err(e), st.next),
                Ok(_) => spec_io_loop(src, st.next, state, name, inputs, outputs, inouts),
            },
            HeaderState::Semi => match item {
                Ok(TokenModel::Semicolon) => (
                    Ok(ModuleIOModel { name, inputs, outputs, inouts }),
                    st.next,
                ),
                Ok(TokenModel::WhiteSpace) => spec_io_loop(
                    src,
                    st.next,
                    state,
                    name,
                    inputs,
                    outputs,
                    inouts,
                ),
                Ok(TokenModel::Newline) => spec_io_loop(
                    src,
                    st.next,
                    state,
                    name,
                    inputs,
                    outputs,
                    inouts,
                ),
                Ok(TokenModel::Comment) => spec_io_loop(
                    src,
                    spec_parse_comment(src, st.next).1,
                    state,
                    name,
                    inputs,
                    outputs,
                    inouts,
                ),
                Err(e) => (Err(e), st.next),
                Ok(_) => spec_io_loop(src, st.next, state, name, inputs, outputs, inouts),
            },
        },
    }
}

#[via_fn]
proof fn spec_io_loop_dec(
    src: Seq<char>,
    i: int,
    state: HeaderState,
    name: Seq<char>,
    inputs: Seq<InputModel>,
    outputs: Seq<OutputModel>,
    inouts: Seq<InoutModel>,
) {
    lemma_lex_step_bounds(src, i);
    let st = lex_step(src, i);
    if 0 <= i <= src.len() && st.item is Some {
        lemma_spec_var_loop_bounds(src, st.next, VarType::Wire, 1);
        lemma_spec_parse_comment_bounds(src, st.next);
    }
}

/// The header read from position `i`, from the machine's initial state.
pub open spec fn spec_parse_module_io(src: Seq<char>, i: int) -> (Result<
    ModuleIOModel,
    LexingErrorModel,
>, int) {
    spec_io_loop(
        src,
        i,
        HeaderState::Name,
        Seq::<char>::empty(),
        Seq::<InputModel>::empty(),
        Seq::<OutputModel>::empty(),
        Seq::<InoutModel>::empty(),
    )
}

pub proof fn lemma_spec_io_loop_bounds(
    src: Seq<char>,
    i: int,
    state: HeaderState,
    name: Seq<char>,
    inputs: Seq<InputModel>,
    outputs: Seq<OutputModel>,
    inouts: Seq<InoutModel>,
)
    requires
        0 <= i <= src.len(),
    ensures
        i <= spec_io_loop(src, i, state, name, inputs, outputs, inouts).1 <= src.len(),
    decreases src.len() - i,
{
    lemma_lex_step_bounds(src, i);
    let st = lex_step(src, i);
    if st.item is Some {
        lemma_spec_var_loop_bounds(src, st.next, VarType::Wire, 1);
        lemma_spec_parse_comment_bounds(src, st.next);
        let item = st.item->0;
        match state {
            HeaderState::Name => match item {
                Ok(TokenModel::Word(w)) => lemma_spec_io_loop_bounds(
                    src,
                    st.next,
                    HeaderState::Paren,
                    w,
                    inputs,
                    outputs,
                    inouts,
                ),
                Err(_) => {},
                Ok(_) => lemma_spec_io_loop_bounds(
                    src,
                    st.next,
                    state,
                    name,
                    inputs,
                    outputs,
                    inouts,
                ),
            },
            HeaderState::Paren => match item {
                Ok(TokenModel::OpenParen) => lemma_spec_io_loop_bounds(
                    src,
                    st.next,
                    HeaderState::IO,
                    name,
                    inputs,
                    outputs,
                    inouts,
                ),
                Err(_) => {},
                Ok(_) => lemma_spec_io_loop_bounds(
                    src,
                    st.next,
                    state,
                    name,
                    inputs,
                    outputs,
                    inouts,
                ),
            },
            HeaderState::IO => match item {
                Ok(TokenModel::Input) => {
                    let r = spec_parse_input(src, st.next);
                    match r.0 {
                        Ok(p) => lemma_spec_io_loop_bounds(
                            src,
                            r.1,
                            state,
                            name,
                            inputs.push(p),
                            outputs,
                            inouts,
                        ),
                        Err(_) => {},
                    }
                },
                Ok(TokenModel::Output) => {
                    let r = spec_parse_output(src, st.next);
                    match r.0 {
                        Ok(p) => lemma_spec_io_loop_bounds(
                            src,
                            r.1,
                            state,
                            name,
                            inputs,
                            outputs.push(p),
                            inouts,
                        ),
                        Err(_) => {},
                    }
                },
                Ok(TokenModel::Inout) => {
                    let r = spec_parse_inout(src, st.next);
                    match r.0 {
                        Ok(p) => lemma_spec_io_loop_bounds(
                            src,
                            r.1,
                            state,
                            name,
                            inputs,
                            outputs,
                            inouts.push(p),
                        ),
                        Err(_) => {},
                    }
                },
                Ok(TokenModel::Comment) => lemma_spec_io_loop_bounds(
                    src,
                    spec_parse_comment(src, st.next).1,
                    state,
                    name,
                    inputs,
                    outputs,
                    inouts,
                ),
                Ok(TokenModel::CloseParen) => lemma_spec_io_loop_bounds(
                    src,
                    st.next,
                    HeaderState::Semi,
                    name,
                    inputs,
                    outputs,
                    inouts,
                ),
                Err(_) => {},
                Ok(_) => lemma_spec_io_loop_bounds(
                    src,
                    st.next,
                    state,
                    name,
                    inputs,
                    outputs,
                    inouts,
                ),
            },
            HeaderState::Semi => match item {
                Ok(TokenModel::Semicolon) => {},
                Ok(TokenModel::Comment) => lemma_spec_io_loop_bounds(
                    src,
                    spec_parse_comment(src, st.next).1,
                    state,
                    name,
                    inputs,
                    outputs,
                    inouts,
                ),
                Err(_) => {},
                Ok(_) => lemma_spec_io_loop_bounds(
                    src,
                    st.next,
                    state,
                    name,
                    inputs,
                    outputs,
                    inouts,
                ),
            },
        }
    }
}

/// Parses a module I/O block to completion.
pub fn parse_module_io(lexer: &mut Lexer) -> (r: Result<ModuleIO, LexingError>)
    requires
        old(lexer).wf(),
    ensures
        final(lexer).wf(),
        final(lexer).src@ == old(lexer).src@,
        res_view(r) == spec_parse_module_io(old(lexer).src@, old(lexer).pos as int).0,
        final(lexer).pos as int == spec_parse_module_io(old(lexer).src@, old(lexer).pos as int).1,
{
    let ghost src = lexer.src@;
    let ghost p0 = lexer.pos as int;
    let mut state = HeaderState::Name;
    let mut name = String::default();
    let mut inputs: Vec<Input> = Vec::new();
    let mut outputs: Vec<Output> = Vec::new();
    let mut inouts: Vec<Inout> = Vec::new();
    proof {
        assert(views_of_inputs(inputs@) =~= Seq::<InputModel>::empty());
        assert(views_of_outputs(outputs@) =~= Seq::<OutputModel>::empty());
        assert(views_of_inouts(inouts@) =~= Seq::<InoutModel>::empty());
    }
    loop
        invariant
            src == old(lexer).src@,
            p0 == old(lexer).pos as int,
            lexer.wf(),
            lexer.src@ == src,
            0 <= p0 <= lexer.pos as int <= src.len(),
            spec_parse_module_io(src, p0) == spec_io_loop(
                src,
                lexer.pos as int,
                state,
                name@,
                views_of_inputs(inputs@),
                views_of_outputs(outputs@),
                views_of_inouts(inouts@),
            ),
        decreases src.len() - lexer.pos as int,
    {
        let ghost p = lexer.pos as int;
        let ghost state0 = state;
        let ghost name0 = name@;
        let ghost in0 = views_of_inputs(inputs@);
        let ghost out0 = views_of_outputs(outputs@);
        let ghost io0 = views_of_inouts(inouts@);
        let token = lexer.next();
        proof {
            lemma_lex_step_bounds(src, p);
        }
        match token {
            None => {
                return Ok(ModuleIO { name, inputs, outputs, inouts });
            },
            Some(item) => match state {
                HeaderState::Name => match item {
                    Ok(Token::Word(w)) => {
                        name = w;
                        state = HeaderState::Paren;
                    },
                    Ok(Token::WhiteSpace) => {},
                    Ok(Token::Newline) => {},
                    Err(e) => {
                        return Err(e);
                    },
                    Ok(t) => {
                        lexer.diags.push(Diagnostic::ExpectedModuleName(t));
                    },
                },
                HeaderState::Paren => match item {
                    Ok(Token::OpenParen) => {
                        state = HeaderState::IO;
                    },
                    Ok(Token::WhiteSpace) => {},
                    Ok(Token::Newline) => {},
                    Err(e) => {
                        return Err(e);
                    },
                    Ok(t) => {
                        lexer.diags.push(Diagnostic::ExpectedOpenParen(t));
                    },
                },
                HeaderState::IO => match item {
                    Ok(Token::Input) => {
                        proof {
                            lemma_spec_var_loop_bounds(src, lexer.pos as int, VarType::Wire, 1);
                        }
                        match parse_input(lexer) {
                            Ok(var) => {
                                proof {
                                    lemma_views_of_inputs_push(inputs@, var);
                                }
                                inputs.push(var);
                            },
                            Err(e) => {
                                return Err(e);
                            },
                        }
                    },
                    Ok(Token::Output) => {
                        proof {
                            lemma_spec_var_loop_bounds(src, lexer.pos as int, VarType::Wire, 1);
                        }
                        match parse_output(lexer) {
                            Ok(var) => {
                                proof {
                                    lemma_views_of_outputs_push(outputs@, var);
                                }
                                outputs.push(var);
                            },
                            Err(e) => {
                                return Err(e);
                            },
                        }
                    },
                    Ok(Token::Inout) => {
                        proof {
                            lemma_spec_var_loop_bounds(src, lexer.pos as int, VarType::Wire, 1);
                        }
                        match parse_inout(lexer) {
                            Ok(var) => {
                                proof {
                                    lemma_views_of_inouts_push(inouts@, var);
                                }
                                inouts.push(var);
                            },
                            Err(e) => {
                                return Err(e);
                            },
                        }
                    },
                    Ok(Token::Comment) => {
                        proof {
                            lemma_spec_parse_comment_bounds(src, lexer.pos as int);
                        }
                        // A malformed comment is tolerated at this spot.
                let _ = parse_comment(lexer);
                    },
                    Ok(Token::CloseParen) => {
                        state = HeaderState::Semi;
                    },
                    Ok(Token::WhiteSpace) => {},
                    Ok(Token::Newline) => {},
                    Err(e) => {
                        return Err(e);
                    },
                    Ok(t) => {
                        lexer.diags.push(Diagnostic::ExpectedIoItem(t));
                    },
                },
                HeaderState::Semi => match item {
                    Ok(Token::Semicolon) => {
                        return Ok(ModuleIO { name, inputs, outputs, inouts });
                    },
                    Ok(Token::WhiteSpace) => {},
                    Ok(Token::Newline) => {},
                    Ok(Token::Comment) => {
                        proof {
                            lemma_spec_parse_comment_bounds(src, lexer.pos as int);
                        }
                        // A malformed comment is tolerated at this spot.
                let _ = parse_comment(lexer);
                    },
                    Err(e) => {
                        return Err(e);
                    },
                    Ok(t) => {
                        lexer.diags.push(Diagnostic::ExpectedSemicolon(t));
                    },
                },
            },
        }
        proof {
            assert(spec_io_loop(src, p, state0, name0, in0, out0, io0) == spec_io_loop(
                src,
                lexer.pos as int,
                state,
                name@,
                views_of_inputs(inputs@),
                views_of_outputs(outputs@),
                views_of_inouts(inouts@),
            ));
        }
    }
}

// ---------------------------------------------------------------------------
// The module-body variable parser
// ---------------------------------------------------------------------------

/// The body signal read from position `i`, once its `wire`/`reg` keyword has
/// fixed the storage kind: an optional bracketed range fixes the width, and
/// a word token starts the name.  A signal whose name cannot be read, or
/// that ends at the end of the text, is a missing module wire.
pub open spec fn spec_module_var_loop(src: Seq<char>, i: int, var_type: VarType, width: u64) -> (
    Result<VarModel, LexingErrorModel>,
    int,
)
    decreases src.len() - i when 0 <= i <= src.len() via spec_module_var_loop_dec
{
    let st = lex_step(src, i);
    match st.item {
        None => (Err(LexingErrorModel::ModuleWireNotFound), st.next),
        Some(item) => match item {
            Ok(TokenModel::Word(w)) => {
                let r = spec_parse_name(src, st.next, w);
                match r.0 {
                    Ok(name) => (
                        Ok(VarModel { name, width, var_type, state: false, hi_z: false }),
                        r.1,
                    ),
                    Err(_) => (Err(LexingErrorModel::ModuleWireNotFound), r.1),
                }
            },
            Ok(TokenModel::OpenBracket) => {
                let r = spec_parse_width(src, st.next);
                match r.0 {
                    Ok(v) => spec_module_var_loop(src, r.1, var_type, v),
                    Err(e) => (Err(e), r.1),
                }
            },
            Ok(TokenModel::Comment) => spec_module_var_loop(
                src,
                spec_parse_comment(src, st.next).1,
                var_type,
                width,
            ),
            Ok(TokenModel::WhiteSpace) => spec_module_var_loop(src, st.next, var_type, width),
            Err(e) => (Err(e), st.next),
            Ok(_) => spec_module_var_loop(src, st.next, var_type, width),
        },
    }
}

#[via_fn]
proof fn spec_module_var_loop_dec(src: Seq<char>, i: int, var_type: VarType, width: u64) {
    lemma_lex_step_bounds(src, i);
    let st = lex_step(src, i);
    if 0 <= i <= src.len() && st.item is Some {
        lemma_spec_width_loop_bounds(src, st.next, 0, 0, false);
        lemma_spec_parse_comment_bounds(src, st.next);
    }
}

/// The body signal read from position `i`, with the storage kind its
/// dispatching keyword fixed and the default one-bit width.
pub open spec fn spec_parse_module_var(src: Seq<char>, i: int, var_type: VarType) -> (Result<
    VarModel,
    LexingErrorModel,
>, int) {
    spec_module_var_loop(src, i, var_type, 1)
}

pub proof fn lemma_spec_module_var_loop_bounds(src: Seq<char>, i: int, var_type: VarType, width: u64)
    requires
        0 <= i <= src.len(),
    ensures
        i <= spec_module_var_loop(src, i, var_type, width).1 <= src.len(),
    decreases src.len() - i,
{
    lemma_lex_step_bounds(src, i);
    let st = lex_step(src, i);
    match st.item {
        Some(Ok(t)) => match t {
            TokenModel::Word(w) => {
                lemma_spec_parse_name_bounds(src, st.next, w);
            },
            TokenModel::OpenBracket => {
                lemma_spec_width_loop_bounds(src, st.next, 0, 0, false);
                let r = spec_parse_width(src, st.next);
                match r.0 {
                    Ok(v) => lemma_spec_module_var_loop_bounds(src, r.1, var_type, v),
                    Err(_) => {},
                }
            },
            TokenModel::Comment => {
                lemma_spec_parse_comment_bounds(src, st.next);
                lemma_spec_module_var_loop_bounds(
                    src,
                    spec_parse_comment(src, st.next).1,
                    var_type,
                    width,
                );
            },
            _ => lemma_spec_module_var_loop_bounds(src, st.next, var_type, width),
        },
        _ => {},
    }
}

/// Scans one body signal declaration of the given storage kind.
fn parse_module_var(lexer: &mut Lexer, var_type: VarType) -> (r: Result<Var, LexingError>)
    requires
        old(lexer).wf(),
    ensures
        final(lexer).wf(),
        final(lexer).src@ == old(lexer).src@,
        res_view(r) == spec_parse_module_var(old(lexer).src@, old(lexer).pos as int, var_type@).0,
        final(lexer).pos as int == spec_parse_module_var(
            old(lexer).src@,
            old(lexer).pos as int,
            var_type@,
        ).1,
{
    let ghost src = lexer.src@;
    let ghost p0 = lexer.pos as int;
    let mut width: u64 = 1;
    loop
        invariant
            src == old(lexer).src@,
            p0 == old(lexer).pos as int,
            lexer.wf(),
            lexer.src@ == src,
            0 <= p0 <= lexer.pos as int <= src.len(),
            spec_parse_module_var(src, p0, var_type@) == spec_module_var_loop(
                src,
                lexer.pos as int,
                var_type@,
                width,
            ),
        decreases src.len() - lexer.pos as int,
    {
        let ghost p = lexer.pos as int;
        let ghost w0 = width;
        let token = lexer.next();
        proof {
            lemma_lex_step_bounds(src, p);
        }
        match token {
            None => {
                return Err(LexingError::ModuleWireNotFound);
            },
            Some(Ok(Token::Word(w))) => {
                proof {
                    lemma_spec_parse_name_bounds(src, lexer.pos as int, w@);
                }
                match parse_name(lexer, w) {
                    Ok(name) => {
                        return Ok(Var { name, width, var_type, state: false, hi_z: false });
                    },
                    Err(_) => {
                        return Err(LexingError::ModuleWireNotFound);
                    },
                }
            },
            Some(Ok(Token::OpenBracket)) => {
                proof {
                    lemma_spec_width_loop_bounds(src, lexer.pos as int, 0, 0, false);
                }
                match parse_width(lexer) {
                    Ok(v) => {
                        width = v;
                    },
                    Err(e) => {
                        return Err(e);
                    },
                }
            },
            Some(Ok(Token::Comment)) => {
                proof {
                    lemma_spec_parse_comment_bounds(src, lexer.pos as int);
                }
                // A malformed comment is tolerated at this spot.
                let _ = parse_comment(lexer);
            },
            Some(Ok(Token::WhiteSpace)) => {},
            Some(Err(e)) => {
                return Err(e);
            },
            Some(Ok(_)) => {},
        }
        proof {
            assert(spec_module_var_loop(src, p, var_type@, w0) == spec_module_var_loop(
                src,
                lexer.pos as int,
                var_type@,
                width,
            ));
        }
    }
}

// ---------------------------------------------------------------------------
// The module parser
// ---------------------------------------------------------------------------

/// The module body read from position `i` once the header `io` is complete:
/// `wire` and `reg` keywords each contribute a signal, comments are skipped,
/// and `endmodule` or the end of the text completes the module, whose name
/// duplicates the header's.  Any error of a delegate ends the parse at once.
pub open spec fn spec_module_body(
    src: Seq<char>,
    i: int,
    io: ModuleIOModel,
    vars: Seq<VarModel>,
) -> (Result<ModuleModel, LexingErrorModel>, int)
    decreases src.len() - i when 0 <= i <= src.len() via spec_module_body_dec
{
    let st = lex_step(src, i);
    match st.item {
        None => (Ok(ModuleModel { name: io.name, io, vars }), st.next),
        Some(item) => match item {
            Ok(TokenModel::Wire) => {
                let r = spec_parse_module_var(src, st.next, VarType::Wire);
                match r.0 {
                    Ok(v) => spec_module_body(src, r.1, io, vars.push(v)),
                    Err(e) => (Err(e), r.1),
                }
            },
            Ok(TokenModel::Reg) => {
                let r = spec_parse_module_var(src, st.next, VarType::Reg);
                match r.0 {
                    Ok(v) => spec_module_body(src, r.1, io, vars.push(v)),
                    Err(e) => (Err(e), r.1),
                }
            },
            Ok(TokenModel::Comment) => {
                let r = spec_parse_comment(src, st.next);
                match r.0 {
                    Ok(_) => spec_module_body(src, r.1, io, vars),
                    Err(e) => (Err(e), r.1),
                }
            },
            Ok(TokenModel::WhiteSpace) => spec_module_body(src, st.next, io, vars),
            Ok(TokenModel::EndModule) => (Ok(ModuleModel { name: io.name, io, vars }), st.next),
            Err(e) => (Err(e), st.next),
            Ok(_) => spec_module_body(src, st.next, io, vars),
        },
    }
}

#[via_fn]
proof fn spec_module_body_dec(src: Seq<char>, i: int, io: ModuleIOModel, vars: Seq<VarModel>) {
    lemma_lex_step_bounds(src, i);
    let st = lex_step(src, i);
    if 0 <= i <= src.len() && st.item is Some {
        lemma_spec_module_var_loop_bounds(src, st.next, VarType::Wire, 1);
        lemma_spec_module_var_loop_bounds(src, st.next, VarType::Reg, 1);
        lemma_spec_parse_comment_bounds(src, st.next);
    }
}

/// The module read from position `i`, which stands just after the `module`
/// keyword: the header first, then the body; a header error ends the parse
/// at once.
pub open spec fn spec_parse_module(src: Seq<char>, i: int) -> (Result<
    ModuleModel,
    LexingErrorModel,
>, int) {
    let r = spec_parse_module_io(src, i);
    match r.0 {
        Ok(io) => spec_module_body(src, r.1, io, Seq::<VarModel>::empty()),
        Err(e) => (Err(e), r.1),
    }
}

pub proof fn lemma_spec_module_body_bounds(
    src: Seq<char>,
    i: int,
    io: ModuleIOModel,
    vars: Seq<VarModel>,
)
    requires
        0 <= i <= src.len(),
    ensures
        i <= spec_module_body(src, i, io, vars).1 <= src.len(),
    decreases src.len() - i,
{
    lemma_lex_step_bounds(src, i);
    let st = lex_step(src, i);
    match st.item {
        Some(Ok(t)) => match t {
            TokenModel::Wire => {
                lemma_spec_module_var_loop_bounds(src, st.next, VarType::Wire, 1);
                let r = spec_parse_module_var(src, st.next, VarType::Wire);
                match r.0 {
                    Ok(v) => lemma_spec_module_body_bounds(src, r.1, io, vars.push(v)),
                    Err(_) => {},
                }
            },
            TokenModel::Reg => {
                lemma_spec_module_var_loop_bounds(src, st.next, VarType::Reg, 1);
                let r = spec_parse_module_var(src, st.next, VarType::Reg);
                match r.0 {
                    Ok(v) => lemma_spec_module_body_bounds(src, r.1, io, vars.push(v)),
                    Err(_) => {},
                }
            },
            TokenModel::Comment => {
                lemma_spec_parse_comment_bounds(src, st.next);
                let r = spec_parse_comment(src, st.next);
                match r.0 {
                    Ok(_) => lemma_spec_module_body_bounds(src, r.1, io, vars),
                    Err(_) => {},
                }
            },
            TokenModel::EndModule => {},
            _ => lemma_spec_module_body_bounds(src, st.next, io, vars),
        },
        _ => {},
    }
}

pub proof fn lemma_spec_parse_module_bounds(src: Seq<char>, i: int)
    requires
        0 <= i <= src.len(),
    ensures
        i <= spec_parse_module(src, i).1 <= src.len(),
{
    lemma_spec_io_loop_bounds(
        src,
        i,
        HeaderState::Name,
        Seq::<char>::empty(),
        Seq::<InputModel>::empty(),
        Seq::<OutputModel>::empty(),
        Seq::<InoutModel>::empty(),
    );
    let r = spec_parse_module_io(src, i);
    match r.0 {
        Ok(io) => lemma_spec_module_body_bounds(src, r.1, io, Seq::<VarModel>::empty()),
        Err(_) => {},
    }
}

// ---------------------------------------------------------------------------
// Laws of the module-body parser
// ---------------------------------------------------------------------------

/// A `wire`/`reg` keyword with nothing but the end of the text after it is
/// a missing module wire, never a made-up signal.
pub proof fn lemma_module_var_at_end_of_text_rejected(
    src: Seq<char>,
    i: int,
    var_type: VarType,
    width: u64,
)
    requires
        0 <= i <= src.len(),
        lex_step(src, i).item is None,
    ensures
        spec_module_var_loop(src, i, var_type, width) == (
            Err::<VarModel, LexingErrorModel>(LexingErrorModel::ModuleWireNotFound),
            src.len() as int,
        ),
{
    lemma_lex_step_bounds(src, i);
}

/// A successfully parsed body signal never carries an empty name.
pub proof fn lemma_module_var_name_nonempty(src: Seq<char>, i: int, var_type: VarType, width: u64)
    requires
        0 <= i <= src.len(),
    ensures
        spec_module_var_loop(src, i, var_type, width).0 matches Ok(v) ==> v.name.len() >= 1,
    decreases src.len() - i,
{
    lemma_lex_step_bounds(src, i);
    crate::lexer::lemma_word_token_nonempty(src, i);
    let st = lex_step(src, i);
    match st.item {
        Some(Ok(t)) => match t {
            TokenModel::Word(w) => {
                crate::var_types::lemma_parse_name_grows(src, st.next, w);
            },
            TokenModel::OpenBracket => {
                lemma_spec_width_loop_bounds(src, st.next, 0, 0, false);
                let r = spec_parse_width(src, st.next);
                match r.0 {
                    Ok(v) => lemma_module_var_name_nonempty(src, r.1, var_type, v),
                    Err(_) => {},
                }
            },
            TokenModel::Comment => {
                lemma_spec_parse_comment_bounds(src, st.next);
                lemma_module_var_name_nonempty(
                    src,
                    spec_parse_comment(src, st.next).1,
                    var_type,
                    width,
                );
            },
            _ => lemma_module_var_name_nonempty(src, st.next, var_type, width),
        },
        _ => {},
    }
}

// ---------------------------------------------------------------------------
// Well-formedness of parsed modules
// ---------------------------------------------------------------------------

/// What holds of every header the parser hands out: each port, of each
/// direction, is well-formed.
pub open spec fn wf_parsed_module_io(io: ModuleIOModel) -> bool {
    &&& forall|k: int| 0 <= k < io.inputs.len() ==> wf_parsed_input(#[trigger] io.inputs[k])
    &&& forall|k: int| 0 <= k < io.outputs.len() ==> wf_parsed_output(#[trigger] io.outputs[k])
    &&& forall|k: int| 0 <= k < io.inouts.len() ==> wf_parsed_inout(#[trigger] io.inouts[k])
}

/// What holds of every module the parser hands out: its name duplicates the
/// header's, the header is well-formed, and so is each body signal.
pub open spec fn wf_parsed_module(m: ModuleModel) -> bool {
    &&& m.name == m.io.name
    &&& wf_parsed_module_io(m.io)
    &&& forall|k: int| 0 <= k < m.vars.len() ==> wf_parsed_var(#[trigger] m.vars[k])
}

/// A body signal the parser accepts starting from a positive width is
/// well-formed.
proof fn lemma_module_var_loop_wf(src: Seq<char>, i: int, var_type: VarType, width: u64)
    requires
        0 <= i <= src.len(),
        width >= 1,
    ensures
        spec_module_var_loop(src, i, var_type, width).0 matches Ok(v) ==> wf_parsed_var(v),
    decreases src.len() - i,
{
    lemma_lex_step_bounds(src, i);
    crate::lexer::lemma_word_token_nonempty(src, i);
    let st = lex_step(src, i);
    match st.item {
        Some(Ok(t)) => match t {
            TokenModel::Word(w) => {
                crate::var_types::lemma_parse_name_grows(src, st.next, w);
            },
            TokenModel::OpenBracket => {
                lemma_spec_width_loop_bounds(src, st.next, 0, 0, false);
                crate::var_types::lemma_width_result_positive(src, st.next, 0, 0, false);
                let r = spec_parse_width(src, st.next);
                match r.0 {
                    Ok(v) => lemma_module_var_loop_wf(src, r.1, var_type, v),
                    Err(_) => {},
                }
            },
            TokenModel::Comment => {
                lemma_spec_parse_comment_bounds(src, st.next);
                lemma_module_var_loop_wf(src, spec_parse_comment(src, st.next).1, var_type, width);
            },
            _ => lemma_module_var_loop_wf(src, st.next, var_type, width),
        },
        _ => {},
    }
}

/// A header the state machine accepts only ever gathers well-formed ports.
proof fn lemma_io_loop_wf(
    src: Seq<char>,
    i: int,
    state: HeaderState,
    name: Seq<char>,
    inputs: Seq<InputModel>,
    outputs: Seq<OutputModel>,
    inouts: Seq<InoutModel>,
)
    requires
        0 <= i <= src.len(),
        forall|k: int| 0 <= k < inputs.len() ==> wf_parsed_input(#[trigger] inputs[k]),
        forall|k: int| 0 <= k < outputs.len() ==> wf_parsed_output(#[trigger] outputs[k]),
        forall|k: int| 0 <= k < inouts.len() ==> wf_parsed_inout(#[trigger] inouts[k]),
    ensures
        spec_io_loop(src, i, state, name, inputs, outputs, inouts).0 matches Ok(io)
            ==> wf_parsed_module_io(io),
    decreases src.len() - i,
{
    lemma_lex_step_bounds(src, i);
    let st = lex_step(src, i);
    if st.item is Some {
        crate::var_types::lemma_parsed_ports_wf(src, st.next);
        lemma_spec_var_loop_bounds(src, st.next, VarType::Wire, 1);
        lemma_spec_parse_comment_bounds(src, st.next);
        let item = st.item->0;
        match state {
            HeaderState::Name => match item {
                Ok(TokenModel::Word(w)) => lemma_io_loop_wf(
                    src,
                    st.next,
                    HeaderState::Paren,
                    w,
                    inputs,
                    outputs,
                    inouts,
                ),
                Err(_) => {},
                Ok(_) => lemma_io_loop_wf(src, st.next, state, name, inputs, outputs, inouts),
            },
            HeaderState::Paren => match item {
                Ok(TokenModel::OpenParen) => lemma_io_loop_wf(
                    src,
                    st.next,
                    HeaderState::IO,
                    name,
                    inputs,
                    outputs,
                    inouts,
                ),
                Err(_) => {},
                Ok(_) => lemma_io_loop_wf(src, st.next, state, name, inputs, outputs, inouts),
            },
            HeaderState::IO => match item {
                Ok(TokenModel::Input) => {
                    let r = spec_parse_input(src, st.next);
                    match r.0 {
                        Ok(p) => lemma_io_loop_wf(
                            src,
                            r.1,
                            state,
                            name,
                            inputs.push(p),
                            outputs,
                            inouts,
                        ),
                        Err(_) => {},
                    }
                },
                Ok(TokenModel::Output) => {
                    let r = spec_parse_output(src, st.next);
                    match r.0 {
                        Ok(p) => lemma_io_loop_wf(
                            src,
                            r.1,
                            state,
                            name,
                            inputs,
                            outputs.push(p),
                            inouts,
                        ),
                        Err(_) => {},
                    }
                },
                Ok(TokenModel::Inout) => {
                    let r = spec_parse_inout(src, st.next);
                    match r.0 {
                        Ok(p) => lemma_io_loop_wf(
                            src,
                            r.1,
                            state,
                            name,
                            inputs,
                            outputs,
                            inouts.push(p),
                        ),
                        Err(_) => {},
                    }
                },
                Ok(TokenModel::Comment) => lemma_io_loop_wf(
                    src,
                    spec_parse_comment(src, st.next).1,
                    state,
                    name,
                    inputs,
                    outputs,
                    inouts,
                ),
                Ok(TokenModel::CloseParen) => lemma_io_loop_wf(
                    src,
                    st.next,
                    HeaderState::Semi,
                    name,
                    inputs,
                    outputs,
                    inouts,
                ),
                Err(_) => {},
                Ok(_) => lemma_io_loop_wf(src, st.next, state, name, inputs, outputs, inouts),
            },
            HeaderState::Semi => match item {
                Ok(TokenModel::Semicolon) => {},
                Ok(TokenModel::Comment) => lemma_io_loop_wf(
                    src,
                    spec_parse_comment(src, st.next).1,
                    state,
                    name,
                    inputs,
                    outputs,
                    inouts,
                ),
                Err(_) => {},
                Ok(_) => lemma_io_loop_wf(src, st.next, state, name, inputs, outputs, inouts),
            },
        }
    }
}

/// A body the parser accepts only ever gathers well-formed signals onto a
/// well-formed header.
proof fn lemma_module_body_wf(src: Seq<char>, i: int, io: ModuleIOModel, vars: Seq<VarModel>)
    requires
        0 <= i <= src.len(),
        wf_parsed_module_io(io),
        forall|k: int| 0 <= k < vars.len() ==> wf_parsed_var(#[trigger] vars[k]),
    ensures
        spec_module_body(src, i, io, vars).0 matches Ok(m) ==> wf_parsed_module(m),
    decreases src.len() - i,
{
    lemma_lex_step_bounds(src, i);
    let st = lex_step(src, i);
    match st.item {
        Some(Ok(t)) => match t {
            TokenModel::Wire => {
                lemma_spec_module_var_loop_bounds(src, st.next, VarType::Wire, 1);
                lemma_module_var_loop_wf(src, st.next, VarType::Wire, 1);
                let r = spec_parse_module_var(src, st.next, VarType::Wire);
                match r.0 {
                    Ok(v) => lemma_module_body_wf(src, r.1, io, vars.push(v)),
                    Err(_) => {},
                }
            },
            TokenModel::Reg => {
                lemma_spec_module_var_loop_bounds(src, st.next, VarType::Reg, 1);
                lemma_module_var_loop_wf(src, st.next, VarType::Reg, 1);
                let r = spec_parse_module_var(src, st.next, VarType::Reg);
                match r.0 {
                    Ok(v) => lemma_module_body_wf(src, r.1, io, vars.push(v)),
                    Err(_) => {},
                }
            },
            TokenModel::Comment => {
                lemma_spec_parse_comment_bounds(src, st.next);
                let r = spec_parse_comment(src, st.next);
                match r.0 {
                    Ok(_) => lemma_module_body_wf(src, r.1, io, vars),
                    Err(_) => {},
                }
            },
            TokenModel::EndModule => {},
            _ => lemma_module_body_wf(src, st.next, io, vars),
        },
        _ => {},
    }
}

/// Every module the parser accepts is well-formed: its name duplicates the
/// header's, and every port and body signal carries a nonempty name, a
/// width of at least one bit, and cleared simulation state.
pub proof fn lemma_parsed_module_wf(src: Seq<char>, i: int)
    requires
        0 <= i <= src.len(),
    ensures
        spec_parse_module(src, i).0 matches Ok(m) ==> wf_parsed_module(m),
{
    lemma_io_loop_wf(
        src,
        i,
        HeaderState::Name,
        Seq::<char>::empty(),
        Seq::<InputModel>::empty(),
        Seq::<OutputModel>::empty(),
        Seq::<InoutModel>::empty(),
    );
    lemma_spec_io_loop_bounds(
        src,
        i,
        HeaderState::Name,
        Seq::<char>::empty(),
        Seq::<InputModel>::empty(),
        Seq::<OutputModel>::empty(),
        Seq::<InoutModel>::empty(),
    );
    let r = spec_parse_module_io(src, i);
    match r.0 {
        Ok(io) => lemma_module_body_wf(src, r.1, io, Seq::<VarModel>::empty()),
        Err(_) => {},
    }
}

/// Parses a module to completion, header first and body second.
pub fn parse_module(lexer: &mut Lexer) -> (r: Result<Module, LexingError>)
    requires
        old(lexer).wf(),
    ensures
        final(lexer).wf(),
        final(lexer).src@ == old(lexer).src@,
        res_view(r) == spec_parse_module(old(lexer).src@, old(lexer).pos as int).0,
        final(lexer).pos as int == spec_parse_module(old(lexer).src@, old(lexer).pos as int).1,
{
    let ghost src = lexer.src@;
    let ghost p0 = lexer.pos as int;
    proof {
        lemma_spec_io_loop_bounds(
            src,
            p0,
            HeaderState::Name,
            Seq::<char>::empty(),
            Seq::<InputModel>::empty(),
            Seq::<OutputModel>::empty(),
            Seq::<InoutModel>::empty(),
        );
    }
    let io = match parse_module_io(lexer) {
        Ok(ret) => ret,
        Err(e) => {
            return Err(e);
        },
    };
    let mut vars: Vec<Var> = Vec::new();
    proof {
        assert(views_of_vars(vars@) =~= Seq::<VarModel>::empty());
    }
    loop
        invariant
            src == old(lexer).src@,
            p0 == old(lexer).pos as int,
            lexer.wf(),
            lexer.src@ == src,
            0 <= p0 <= lexer.pos as int <= src.len(),
            spec_parse_module_io(src, p0).0 == Ok::<ModuleIOModel, LexingErrorModel>(io@),
            spec_parse_module(src, p0) == spec_module_body(
                src,
                lexer.pos as int,
                io@,
                views_of_vars(vars@),
            ),
        decreases src.len() - lexer.pos as int,
    {
        let ghost p = lexer.pos as int;
        let ghost vs0 = views_of_vars(vars@);
        let token = lexer.next();
        proof {
            lemma_lex_step_bounds(src, p);
        }
        match token {
            None => {
                return Ok(Module { name: io.name.clone(), io, vars });
            },
            Some(Ok(Token::Wire)) => {
                proof {
                    lemma_spec_module_var_loop_bounds(src, lexer.pos as int, VarType::Wire, 1);
                }
                match parse_module_var(lexer, VarType::Wire) {
                    Ok(v) => {
                        proof {
                            lemma_views_of_vars_push(vars@, v);
                        }
                        vars.push(v);
                    },
                    Err(e) => {
                        return Err(e);
                    },
                }
            },
            Some(Ok(Token::Reg)) => {
                proof {
                    lemma_spec_module_var_loop_bounds(src, lexer.pos as int, VarType::Reg, 1);
                }
                match parse_module_var(lexer, VarType::Reg) {
                    Ok(v) => {
                        proof {
                            lemma_views_of_vars_push(vars@, v);
                        }
                        vars.push(v);
                    },
                    Err(e) => {
                        return Err(e);
                    },
                }
            },
            Some(Ok(Token::Comment)) => {
                proof {
                    lemma_spec_parse_comment_bounds(src, lexer.pos as int);
                }
                match parse_comment(lexer) {
                    Ok(_) => {},
                    Err(e) => {
                        return Err(e);
                    },
                }
            },
            Some(Ok(Token::WhiteSpace)) => {},
            Some(Ok(Token::EndModule)) => {
                return Ok(Module { name: io.name.clone(), io, vars });
            },
            Some(Err(e)) => {
                return Err(e);
            },
            Some(Ok(_)) => {},
        }
        proof {
            assert(spec_module_body(src, p, io@, vs0) == spec_module_body(
                src,
                lexer.pos as int,
                io@,
                views_of_vars(vars@),
            ));
        }
    }
}

} // verus!
