//! A structural SystemVerilog front end: a hand-rolled lexer and a family of
//! recursive-descent parsers that assemble modules, ports, signals and the
//! global timescale directive into an in-memory simulation object.

use vstd::prelude::*;

/// Lexical scanning: tokens, lexical errors, and the token stream.
pub mod lexer;

/// Simulation timing constraints and parsing.
pub mod sim_time;

/// Module type and parsing.
pub mod module;

/// Variable types and parsing.
pub mod var_types;

pub use lexer::{Diagnostic, Lexer, LexingError, Token};

use lexer::{lex_step, lemma_lex_step_bounds, res_view, LexingErrorModel, TokenModel};
use module::{
    lemma_spec_parse_module_bounds, lemma_views_of_modules_push, parse_module, spec_parse_module,
    views_of_modules, Module, ModuleModel,
};
use sim_time::{
    default_sim_time, lemma_spec_sim_time_loop_bounds, parse_sim_time, spec_parse_sim_time,
    zero_time_value, SimTime, SimTimeModel,
};

verus! {

// ---------------------------------------------------------------------------
// Comment skipping
// ---------------------------------------------------------------------------

/// What skipping a comment from position `i` yields: everything up to and
/// including the first newline is discarded; running off the end of the text
/// is tolerated; a lexical error inside the comment is a formatting error.
pub open spec fn spec_parse_comment(src: Seq<char>, i: int) -> (Result<(), LexingErrorModel>, int)
    decreases src.len() - i when 0 <= i <= src.len() via spec_parse_comment_dec
{
    let st = lex_step(src, i);
    match st.item {
        None => (Ok(()), st.next),
        Some(item) => match item {
            Ok(TokenModel::Newline) => (Ok(()), st.next),
            Err(_) => (Err(LexingErrorModel::ImproperCommentFormatting), st.next),
            Ok(_) => spec_parse_comment(src, st.next),
        },
    }
}

#[via_fn]
proof fn spec_parse_comment_dec(src: Seq<char>, i: int) {
    lemma_lex_step_bounds(src, i);
}

pub proof fn lemma_spec_parse_comment_bounds(src: Seq<char>, i: int)
    requires
        0 <= i <= src.len(),
    ensures
        i <= spec_parse_comment(src, i).1 <= src.len(),
    decreases src.len() - i,
{
    lemma_lex_step_bounds(src, i);
    let st = lex_step(src, i);
    match st.item {
        Some(Ok(t)) => {
            if !(t is Newline) {
                lemma_spec_parse_comment_bounds(src, st.next);
            }
        },
        _ => {},
    }
}

/// Consumes tokens up to and including the next newline, discarding them.
pub fn parse_comment(lexer: &mut Lexer) -> (r: Result<(), LexingError>)
    requires
        old(lexer).wf(),
    ensures
        final(lexer).wf(),
        final(lexer).src@ == old(lexer).src@,
        res_view(r) == spec_parse_comment(old(lexer).src@, old(lexer).pos as int).0,
        final(lexer).pos as int == spec_parse_comment(old(lexer).src@, old(lexer).pos as int).1,
{
    let ghost src = lexer.src@;
    let ghost p0 = lexer.pos as int;
    loop
        invariant
            src == old(lexer).src@,
            p0 == old(lexer).pos as int,
            lexer.wf(),
            lexer.src@ == src,
            0 <= p0 <= lexer.pos as int <= src.len(),
            spec_parse_comment(src, p0) == spec_parse_comment(src, lexer.pos as int),
        decreases src.len() - lexer.pos as int,
    {
        let ghost p = lexer.pos as int;
        let token = lexer.next();
        proof {
            lemma_lex_step_bounds(src, p);
        }
        match token {
            None => {
                return Ok(());
            },
            Some(Ok(Token::Newline)) => {
                return Ok(());
            },
            Some(Err(_)) => {
                return Err(LexingError::ImproperCommentFormatting);
            },
            Some(Ok(_)) => {
                proof {
                    assert(spec_parse_comment(src, p) == spec_parse_comment(
                        src,
                        lexer.pos as int,
                    ));
                }
            },
        }
    }
}

// ---------------------------------------------------------------------------
// The simulation object and the top-level parser
// ---------------------------------------------------------------------------

/// Mathematical model of a [`SimObject`].
pub ghost struct SimObjectModel {
    pub sim_time: SimTimeModel,
    pub mods: Seq<ModuleModel>,
}

/// Simulation object.
///
/// Contains file metadata and modules: the parse's final artifact.
#[derive(Debug, Clone)]
pub struct SimObject {
    /// Simulation timing information.
    pub sim_time: SimTime,

    /// Object modules.
    pub mods: Vec<Module>,
}

impl View for SimObject {
    type V = SimObjectModel;

    open spec fn view(&self) -> SimObjectModel {
        SimObjectModel { sim_time: self.sim_time@, mods: views_of_modules(self.mods@) }
    }
}

impl Default for SimObject {
    /// An empty object with the default timing scale.
    fn default() -> (r: Self)
        ensures
            r@.sim_time == default_sim_time(),
            r@.mods == Seq::<ModuleModel>::empty(),
    {
        let r = SimObject { sim_time: SimTime::default(), mods: Vec::new() };
        proof {
            assert(r@.mods =~= Seq::<ModuleModel>::empty());
        }
        r
    }
}

/// The object the token stream from position `i` assembles, threaded
/// through what has been gathered so far: the timing scale (a later
/// directive overwrites an earlier one) and the modules, in order.
///
/// A `module` keyword contributes a module, a backtick introduces a
/// timescale directive, comments are skipped, and every other recognized
/// token is recorded as not yet handled and skipped.  The first lexical or
/// structural error ends the whole parse.
pub open spec fn spec_top_loop(
    src: Seq<char>,
    i: int,
    sim_time: SimTimeModel,
    mods: Seq<ModuleModel>,
) -> (Result<SimObjectModel, LexingErrorModel>, int)
    decreases src.len() - i when 0 <= i <= src.len() via spec_top_loop_dec
{
    let st = lex_step(src, i);
    match st.item {
        None => (Ok(SimObjectModel { sim_time, mods }), st.next),
        Some(item) => match item {
            Ok(TokenModel::Module) => {
                let r = spec_parse_module(src, st.next);
                match r.0 {
                    Ok(m) => spec_top_loop(src, r.1, sim_time, mods.push(m)),
                    Err(e) => (Err(e), r.1),
                }
            },
            Ok(TokenModel::BTick) => {
                let r = spec_parse_sim_time(src, st.next);
                match r.0 {
                    Ok(t) => spec_top_loop(src, r.1, t, mods),
                    Err(e) => (Err(e), r.1),
                }
            },
            Ok(TokenModel::Comment) => {
                let r = spec_parse_comment(src, st.next);
                match r.0 {
                    Ok(_) => spec_top_loop(src, r.1, sim_time, mods),
                    Err(e) => (Err(e), r.1),
                }
            },
            Ok(TokenModel::Newline) => spec_top_loop(src, st.next, sim_time, mods),
            Ok(TokenModel::WhiteSpace) => spec_top_loop(src, st.next, sim_time, mods),
            Err(e) => (Err(e), st.next),
            Ok(_) => spec_top_loop(src, st.next, sim_time, mods),
        },
    }
}

#[via_fn]
proof fn spec_top_loop_dec(src: Seq<char>, i: int, sim_time: SimTimeModel, mods: Seq<ModuleModel>) {
    lemma_lex_step_bounds(src, i);
    let st = lex_step(src, i);
    if 0 <= i <= src.len() && st.item is Some {
        lemma_spec_parse_module_bounds(src, st.next);
        lemma_spec_sim_time_loop_bounds(
            src,
            st.next,
            zero_time_value(),
            zero_time_value(),
            false,
            false,
            true,
        );
        lemma_spec_parse_comment_bounds(src, st.next);
    }
}

/// The object the token stream from position `i` assembles, starting from
/// the default timing scale and no modules.
pub open spec fn spec_parse_sv_stream(src: Seq<char>, i: int) -> (Result<
    SimObjectModel,
    LexingErrorModel,
>, int) {
    spec_top_loop(src, i, default_sim_time(), Seq::<ModuleModel>::empty())
}

/// The object a whole source text parses to: what [`parse_sv_file`]
/// returns.
pub open spec fn spec_parse_sv_file(text: Seq<char>) -> Result<SimObjectModel, LexingErrorModel> {
    spec_parse_sv_stream(text, 0).0
}

/// Drives the token stream to completion, assembling the simulation object.
///
/// Soft anomalies land in the cursor's diagnostics; the first hard error
/// aborts the parse.
pub fn parse_sv_stream(lexer: &mut Lexer) -> (r: Result<SimObject, LexingError>)
    requires
        old(lexer).wf(),
    ensures
        final(lexer).wf(),
        final(lexer).src@ == old(lexer).src@,
        res_view(r) == spec_parse_sv_stream(old(lexer).src@, old(lexer).pos as int).0,
        final(lexer).pos as int == spec_parse_sv_stream(old(lexer).src@, old(lexer).pos as int).1,
{
    let ghost src = lexer.src@;
    let ghost p0 = lexer.pos as int;
    let mut sim_time = SimTime::default();
    let mut mods: Vec<Module> = Vec::new();
    proof {
        assert(views_of_modules(mods@) =~= Seq::<ModuleModel>::empty());
    }
    loop
        invariant
            src == old(lexer).src@,
            p0 == old(lexer).pos as int,
            lexer.wf(),
            lexer.src@ == src,
            0 <= p0 <= lexer.pos as int <= src.len(),
            spec_parse_sv_stream(src, p0) == spec_top_loop(
                src,
                lexer.pos as int,
                sim_time@,
                views_of_modules(mods@),
            ),
        decreases src.len() - lexer.pos as int,
    {
        let ghost p = lexer.pos as int;
        let ghost t0 = sim_time@;
        let ghost m0 = views_of_modules(mods@);
        let token = lexer.next();
        proof {
            lemma_lex_step_bounds(src, p);
        }
        match token {
            None => {
                return Ok(SimObject { sim_time, mods });
            },
            Some(Ok(Token::Module)) => {
                proof {
                    lemma_spec_parse_module_bounds(src, lexer.pos as int);
                }
                match parse_module(lexer) {
                    Ok(m) => {
                        proof {
                            lemma_views_of_modules_push(mods@, m);
                        }
                        mods.push(m);
                    },
                    Err(e) => {
                        return Err(e);
                    },
                }
            },
            Some(Ok(Token::BTick)) => {
                proof {
                    lemma_spec_sim_time_loop_bounds(
                        src,
                        lexer.pos as int,
                        zero_time_value(),
                        zero_time_value(),
                        false,
                        false,
                        true,
                    );
                }
                match parse_sim_time(lexer) {
                    Ok(t) => {
                        sim_time = t;
                    },
                    Err(e) => {
                        return Err(e);
                    },
                }
            },
            Some(Ok(Token::Comment)) => {
                proof {
                    lemma_spec_parse_comment_bounds(src, lexer.pos as int);
                }
                match parse_comment(lexer) {
                    Ok(_) => {},
                    Err(e) => {
                        return Err(e);
                    },
                }
            },
            Some(Ok(Token::Newline)) => {},
            Some(Ok(Token::WhiteSpace)) => {},
            Some(Err(e)) => {
                return Err(e);
            },
            Some(Ok(t)) => {
                lexer.diags.push(Diagnostic::NotImplemented(t));
            },
        }
        proof {
            assert(spec_top_loop(src, p, t0, m0) == spec_top_loop(
                src,
                lexer.pos as int,
                sim_time@,
                views_of_modules(mods@),
            ));
        }
    }
}

// ---------------------------------------------------------------------------
// Laws of the top-level parser
// ---------------------------------------------------------------------------

/// The timing scale the top-level loop carries is only ever replaced by a
/// backtick-introduced directive.
proof fn lemma_top_loop_sim_time_stable(
    src: Seq<char>,
    i: int,
    sim_time: SimTimeModel,
    mods: Seq<ModuleModel>,
)
    requires
        0 <= i <= src.len(),
        forall|k: int| i <= k < src.len() ==> (#[trigger] lex_step(src, k).item) != Some(
            Ok::<TokenModel, LexingErrorModel>(TokenModel::BTick),
        ),
    ensures
        spec_top_loop(src, i, sim_time, mods).0 matches Ok(o) ==> o.sim_time == sim_time,
    decreases src.len() - i,
{
    lemma_lex_step_bounds(src, i);
    let st = lex_step(src, i);
    match st.item {
        Some(Ok(t)) => match t {
            TokenModel::Module => {
                lemma_spec_parse_module_bounds(src, st.next);
                let r = spec_parse_module(src, st.next);
                match r.0 {
                    Ok(m) => lemma_top_loop_sim_time_stable(src, r.1, sim_time, mods.push(m)),
                    Err(_) => {},
                }
            },
            TokenModel::BTick => {
                assert(lex_step(src, i).item != Some(
                    Ok::<TokenModel, LexingErrorModel>(TokenModel::BTick),
                ));
            },
            TokenModel::Comment => {
                lemma_spec_parse_comment_bounds(src, st.next);
                let r = spec_parse_comment(src, st.next);
                match r.0 {
                    Ok(_) => lemma_top_loop_sim_time_stable(src, r.1, sim_time, mods),
                    Err(_) => {},
                }
            },
            _ => lemma_top_loop_sim_time_stable(src, st.next, sim_time, mods),
        },
        _ => {},
    }
}

/// A text in which no backtick token stands anywhere — no timescale
/// directive — parses to an object carrying the default timing scale.
pub proof fn lemma_no_directive_default_sim_time(text: Seq<char>)
    requires
        forall|k: int| 0 <= k < text.len() ==> (#[trigger] lex_step(text, k).item) != Some(
            Ok::<TokenModel, LexingErrorModel>(TokenModel::BTick),
        ),
    ensures
        spec_parse_sv_file(text) matches Ok(o) ==> o.sim_time == default_sim_time(),
{
    lemma_top_loop_sim_time_stable(text, 0, default_sim_time(), Seq::<ModuleModel>::empty());
}

/// A directive that parses successfully replaces whatever timing scale the
/// file carried up to it: the parse continues with the directive's scale,
/// and the earlier one is gone.  Each further directive does the same, so
/// the last one in the file wins.
pub proof fn lemma_directive_overwrites_sim_time(
    src: Seq<char>,
    i: int,
    sim_time: SimTimeModel,
    mods: Seq<ModuleModel>,
)
    requires
        0 <= i <= src.len(),
        lex_step(src, i).item == Some(Ok::<TokenModel, LexingErrorModel>(TokenModel::BTick)),
        spec_parse_sim_time(src, lex_step(src, i).next).0 is Ok,
    ensures
        spec_top_loop(src, i, sim_time, mods) == spec_top_loop(
            src,
            spec_parse_sim_time(src, lex_step(src, i).next).1,
            spec_parse_sim_time(src, lex_step(src, i).next).0->Ok_0,
            mods,
        ),
{
    lemma_lex_step_bounds(src, i);
    lemma_spec_sim_time_loop_bounds(
        src,
        lex_step(src, i).next,
        zero_time_value(),
        zero_time_value(),
        false,
        false,
        true,
    );
}

/// What holds of every object the parser hands out: each module is
/// well-formed, as [`module::wf_parsed_module`] states it.
pub open spec fn wf_parsed_object(o: SimObjectModel) -> bool {
    forall|k: int|
        0 <= k < o.mods.len() ==> module::wf_parsed_module(#[trigger] o.mods[k])
}

/// The top-level loop only ever gathers well-formed modules.
proof fn lemma_top_loop_wf(src: Seq<char>, i: int, sim_time: SimTimeModel, mods: Seq<ModuleModel>)
    requires
        0 <= i <= src.len(),
        forall|k: int| 0 <= k < mods.len() ==> module::wf_parsed_module(#[trigger] mods[k]),
    ensures
        spec_top_loop(src, i, sim_time, mods).0 matches Ok(o) ==> wf_parsed_object(o),
    decreases src.len() - i,
{
    lemma_lex_step_bounds(src, i);
    let st = lex_step(src, i);
    match st.item {
        Some(Ok(t)) => match t {
            TokenModel::Module => {
                lemma_spec_parse_module_bounds(src, st.next);
                module::lemma_parsed_module_wf(src, st.next);
                let r = spec_parse_module(src, st.next);
                match r.0 {
                    Ok(m) => lemma_top_loop_wf(src, r.1, sim_time, mods.push(m)),
                    Err(_) => {},
                }
            },
            TokenModel::BTick => {
                lemma_spec_sim_time_loop_bounds(
                    src,
                    st.next,
                    zero_time_value(),
                    zero_time_value(),
                    false,
                    false,
                    true,
                );
                let r = spec_parse_sim_time(src, st.next);
                match r.0 {
                    Ok(t2) => lemma_top_loop_wf(src, r.1, t2, mods),
                    Err(_) => {},
                }
            },
            TokenModel::Comment => {
                lemma_spec_parse_comment_bounds(src, st.next);
                let r = spec_parse_comment(src, st.next);
                match r.0 {
                    Ok(_) => lemma_top_loop_wf(src, r.1, sim_time, mods),
                    Err(_) => {},
                }
            },
            _ => lemma_top_loop_wf(src, st.next, sim_time, mods),
        },
        _ => {},
    }
}

/// Every object a whole-file parse accepts is well-formed: every port and
/// every body signal of every module carries a nonempty name, a width of at
/// least one bit, and cleared simulation state, and every name that the
/// data model duplicates agrees with its twin.
pub proof fn lemma_parsed_object_wf(text: Seq<char>)
    ensures
        spec_parse_sv_file(text) matches Ok(o) ==> wf_parsed_object(o),
{
    lemma_top_loop_wf(text, 0, default_sim_time(), Seq::<ModuleModel>::empty());
}

/// A comment is skipped whole: when the skip succeeds, the parse resumes
/// exactly after the newline token that ends the comment, or at the end of
/// the text when the comment runs off it.
pub proof fn lemma_comment_ends_at_newline(src: Seq<char>, i: int)
    requires
        0 <= i <= src.len(),
    ensures
        spec_parse_comment(src, i).0 is Ok ==> (spec_parse_comment(src, i).1 == src.len() || exists|
            k: int,
        |
            i <= k < src.len() && (#[trigger] lex_step(src, k)).item == Some(
                Ok::<TokenModel, LexingErrorModel>(TokenModel::Newline),
            ) && lex_step(src, k).next == spec_parse_comment(src, i).1),
    decreases src.len() - i,
{
    lemma_lex_step_bounds(src, i);
    let st = lex_step(src, i);
    match st.item {
        None => {},
        Some(Err(_)) => {},
        Some(Ok(t)) => {
            if t is Newline {
                assert(i < src.len() && lex_step(src, i).item == Some(
                    Ok::<TokenModel, LexingErrorModel>(TokenModel::Newline),
                ) && lex_step(src, i).next == spec_parse_comment(src, i).1);
            } else {
                lemma_comment_ends_at_newline(src, st.next);
                if spec_parse_comment(src, st.next).0 is Ok && spec_parse_comment(src, st.next).1
                    != src.len() {
                    let k = choose|k: int|
                        st.next <= k < src.len() && (#[trigger] lex_step(src, k)).item == Some(
                            Ok::<TokenModel, LexingErrorModel>(TokenModel::Newline),
                        ) && lex_step(src, k).next == spec_parse_comment(src, st.next).1;
                    assert(i <= k < src.len() && lex_step(src, k).item == Some(
                        Ok::<TokenModel, LexingErrorModel>(TokenModel::Newline),
                    ) && lex_step(src, k).next == spec_parse_comment(src, i).1);
                }
            }
        },
    }
}

/// Parses a read SystemVerilog file.
///
/// At this time, `parse_sv_file` can only return a single error.
pub fn parse_sv_file(file_contents: String) -> (r: Result<SimObject, LexingError>)
    ensures
        res_view(r) == spec_parse_sv_file(file_contents@),
{
    let mut lexer = Lexer::new(file_contents.as_str());
    parse_sv_stream(&mut lexer)
}

} // verus!
