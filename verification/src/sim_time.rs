//! Simulation timing values and the timescale-directive parser.

use vstd::prelude::*;
use vstd::string::*;
use crate::lexer::{
    lex_step, lemma_lex_step_bounds, res_view, Diagnostic, Lexer, LexingError, LexingErrorModel,
    Token, TokenModel,
};

verus! {

/// Unit suffix of a time literal.
///
/// The project's conversion rule turns a literal `<digits>ns` into the value
/// `<digits> * 1e-6` and a literal `<digits>ps` into `<digits> * 1e-9`; the
/// unit recorded here names which of the two scale factors applies.
#[derive(Clone, Copy, Debug, PartialEq, Eq, Structural)]
pub enum TimeUnit {
    Ns,
    Ps,
}

/// Mathematical model of a [`TimeValue`]: the digit sequence and the unit.
pub ghost struct TimeValueModel {
    pub digits: Seq<char>,
    pub unit: TimeUnit,
}

/// A decoded time literal.
///
/// `digits` is the decimal numeric prefix of the literal, kept exactly as
/// written; the value in seconds is `digits * 1e-6` for [`TimeUnit::Ns`] and
/// `digits * 1e-9` for [`TimeUnit::Ps`] under the project's conversion rule.
#[derive(Debug, Clone)]
pub struct TimeValue {
    pub digits: String,
    pub unit: TimeUnit,
}

impl View for TimeValue {
    type V = TimeValueModel;

    open spec fn view(&self) -> TimeValueModel {
        TimeValueModel { digits: self.digits@, unit: self.unit }
    }
}

/// The zero time value, used before a directive's literals have been read.
pub open spec fn zero_time_value() -> TimeValueModel {
    TimeValueModel { digits: "0"@, unit: TimeUnit::Ns }
}

/// Converts the numeric prefix of a `<digits>ns` literal into a time value.
pub fn nanosecond(digits: String) -> (t: TimeValue)
    ensures
        t@ == (TimeValueModel { digits: digits@, unit: TimeUnit::Ns }),
{
    TimeValue { digits, unit: TimeUnit::Ns }
}

/// Converts the numeric prefix of a `<digits>ps` literal into a time value.
pub fn picosecond(digits: String) -> (t: TimeValue)
    ensures
        t@ == (TimeValueModel { digits: digits@, unit: TimeUnit::Ps }),
{
    TimeValue { digits, unit: TimeUnit::Ps }
}

/// Mathematical model of a [`SimTime`].
pub ghost struct SimTimeModel {
    pub n_time: TimeValueModel,
    pub d_time: TimeValueModel,
}

/// Simulation time command.
///
/// Simulation time can be set by a directive such as `` `timescale 1ns/1ps ``.
#[derive(Debug, Clone)]
pub struct SimTime {
    /// Numerator time given in ns or ps.
    pub n_time: TimeValue,

    /// Denominator time given in ns or ps.
    pub d_time: TimeValue,
}

impl View for SimTime {
    type V = SimTimeModel;

    open spec fn view(&self) -> SimTimeModel {
        SimTimeModel { n_time: self.n_time@, d_time: self.d_time@ }
    }
}

/// The timing scale assumed when a file carries no timescale directive:
/// numerator `1ns` and denominator `1ps`, that is `1e-6` and `1e-9` under the
/// project's conversion rule.
pub open spec fn default_sim_time() -> SimTimeModel {
    SimTimeModel {
        n_time: TimeValueModel { digits: "1"@, unit: TimeUnit::Ns },
        d_time: TimeValueModel { digits: "1"@, unit: TimeUnit::Ps },
    }
}

impl Default for SimTime {
    /// Sets the numerator time to 1ns and the denominator time to 1ps.
    fn default() -> (r: Self)
        ensures
            r@ == default_sim_time(),
    {
        SimTime {
            n_time: TimeValue { digits: String::from_str("1"), unit: TimeUnit::Ns },
            d_time: TimeValue { digits: String::from_str("1"), unit: TimeUnit::Ps },
        }
    }
}

// ---------------------------------------------------------------------------
// The timescale-directive parser
// ---------------------------------------------------------------------------

/// The timing scale a directive yields once its introducing backtick has
/// been consumed, threaded through the loop state: the literals gathered so
/// far, whether the `timescale` keyword has been seen, whether the numerator
/// has been seen, and whether the numerator is still being sought (the
/// divider flips this off).
///
/// A second `timescale` keyword before completion is an unexpected token, as
/// is a time literal before the keyword; a second numerator before the
/// divider is a time formatting error; the denominator completes the
/// directive.
pub open spec fn spec_sim_time_loop(
    src: Seq<char>,
    i: int,
    n_time: TimeValueModel,
    d_time: TimeValueModel,
    started: bool,
    n_found: bool,
    n_search: bool,
) -> (Result<SimTimeModel, LexingErrorModel>, int)
    decreases src.len() - i when 0 <= i <= src.len() via spec_sim_time_loop_dec
{
    let st = lex_step(src, i);
    match st.item {
        None => (Ok(SimTimeModel { n_time, d_time }), st.next),
        Some(item) => match item {
            Ok(TokenModel::Timescale) => if started {
                (Err(LexingErrorModel::UnexpectedToken), st.next)
            } else {
                spec_sim_time_loop(src, st.next, n_time, d_time, true, n_found, n_search)
            },
            Ok(TokenModel::Time(tv)) => if !started {
                (Err(LexingErrorModel::UnexpectedToken), st.next)
            } else if n_search {
                if n_found {
                    (Err(LexingErrorModel::ImproperTimeFormatting), st.next)
                } else {
                    spec_sim_time_loop(src, st.next, tv, d_time, started, true, n_search)
                }
            } else {
                (Ok(SimTimeModel { n_time, d_time: tv }), st.next)
            },
            Ok(TokenModel::Divide) => spec_sim_time_loop(
                src,
                st.next,
                n_time,
                d_time,
                started,
                n_found,
                false,
            ),
            Ok(TokenModel::WhiteSpace) => spec_sim_time_loop(
                src,
                st.next,
                n_time,
                d_time,
                started,
                n_found,
                n_search,
            ),
            Err(e) => (Err(e), st.next),
            Ok(_) => spec_sim_time_loop(src, st.next, n_time, d_time, started, n_found, n_search),
        },
    }
}

#[via_fn]
proof fn spec_sim_time_loop_dec(
    src: Seq<char>,
    i: int,
    n_time: TimeValueModel,
    d_time: TimeValueModel,
    started: bool,
    n_found: bool,
    n_search: bool,
) {
    lemma_lex_step_bounds(src, i);
}

/// The timing scale a directive yields, from the position just after the
/// introducing backtick.
pub open spec fn spec_parse_sim_time(src: Seq<char>, i: int) -> (Result<
    SimTimeModel,
    LexingErrorModel,
>, int) {
    spec_sim_time_loop(src, i, zero_time_value(), zero_time_value(), false, false, true)
}

pub proof fn lemma_spec_sim_time_loop_bounds(
    src: Seq<char>,
    i: int,
    n_time: TimeValueModel,
    d_time: TimeValueModel,
    started: bool,
    n_found: bool,
    n_search: bool,
)
    requires
        0 <= i <= src.len(),
    ensures
        i <= spec_sim_time_loop(src, i, n_time, d_time, started, n_found, n_search).1 <= src.len(),
    decreases src.len() - i,
{
    lemma_lex_step_bounds(src, i);
    let st = lex_step(src, i);
    match st.item {
        Some(Ok(t)) => match t {
            TokenModel::Timescale => if !started {
                lemma_spec_sim_time_loop_bounds(src, st.next, n_time, d_time, true, n_found,
                    n_search)
            },
            TokenModel::Time(tv) => if started && n_search && !n_found {
                lemma_spec_sim_time_loop_bounds(src, st.next, tv, d_time, started, true, n_search)
            },
            TokenModel::Divide => lemma_spec_sim_time_loop_bounds(
                src,
                st.next,
                n_time,
                d_time,
                started,
                n_found,
                false,
            ),
            _ => lemma_spec_sim_time_loop_bounds(
                src,
                st.next,
                n_time,
                d_time,
                started,
                n_found,
                n_search,
            ),
        },
        _ => {},
    }
}

/// A `timescale` keyword met again before the directive completes — in any
/// state the directive can be in once the first keyword was seen — fails
/// with the generic unexpected-token error.
pub proof fn lemma_second_timescale_rejected(
    src: Seq<char>,
    i: int,
    n_time: TimeValueModel,
    d_time: TimeValueModel,
    n_found: bool,
    n_search: bool,
)
    requires
        0 <= i <= src.len(),
        lex_step(src, i).item == Some(
            Ok::<TokenModel, LexingErrorModel>(TokenModel::Timescale),
        ),
    ensures
        spec_sim_time_loop(src, i, n_time, d_time, true, n_found, n_search) == (
            Err::<SimTimeModel, LexingErrorModel>(LexingErrorModel::UnexpectedToken),
            lex_step(src, i).next,
        ),
{
    lemma_lex_step_bounds(src, i);
}

/// Parses a timescale directive to completion.
pub fn parse_sim_time(lexer: &mut Lexer) -> (r: Result<SimTime, LexingError>)
    requires
        old(lexer).wf(),
    ensures
        final(lexer).wf(),
        final(lexer).src@ == old(lexer).src@,
        res_view(r) == spec_parse_sim_time(old(lexer).src@, old(lexer).pos as int).0,
        final(lexer).pos as int == spec_parse_sim_time(old(lexer).src@, old(lexer).pos as int).1,
{
    let ghost src = lexer.src@;
    let ghost p0 = lexer.pos as int;
    let mut n_time = TimeValue { digits: String::from_str("0"), unit: TimeUnit::Ns };
    let mut d_time = TimeValue { digits: String::from_str("0"), unit: TimeUnit::Ns };
    let mut timescale_started = false;
    let mut n_found = false;
    let mut n_search = true;
    loop
        invariant
            src == old(lexer).src@,
            p0 == old(lexer).pos as int,
            lexer.wf(),
            lexer.src@ == src,
            0 <= p0 <= lexer.pos as int <= src.len(),
            spec_parse_sim_time(src, p0) == spec_sim_time_loop(
                src,
                lexer.pos as int,
                n_time@,
                d_time@,
                timescale_started,
                n_found,
                n_search,
            ),
        decreases src.len() - lexer.pos as int,
    {
        let ghost p = lexer.pos as int;
        let ghost n0 = n_time@;
        let ghost d0 = d_time@;
        let ghost ts0 = timescale_started;
        let ghost nf0 = n_found;
        let ghost ns0 = n_search;
        let token = lexer.next();
        proof {
            lemma_lex_step_bounds(src, p);
        }
        match token {
            None => {
                return Ok(SimTime { n_time, d_time });
            },
            Some(Ok(Token::Timescale)) => {
                if timescale_started {
                    return Err(LexingError::UnexpectedToken);
                }
                timescale_started = true;
            },
            Some(Ok(Token::Time(val))) => {
                if !timescale_started {
                    return Err(LexingError::UnexpectedToken);
                }
                if n_search {
                    if n_found {
                        return Err(LexingError::ImproperTimeFormatting);
                    }
                    n_time = val;
                    n_found = true;
                } else {
                    d_time = val;
                    return Ok(SimTime { n_time, d_time });
                }
            },
            Some(Ok(Token::Divide)) => {
                n_search = false;
            },
            Some(Ok(Token::WhiteSpace)) => {},
            Some(Err(e)) => {
                return Err(e);
            },
            Some(Ok(t)) => {
                lexer.diags.push(Diagnostic::UnexpectedInTimescale(t));
            },
        }
        proof {
            assert(spec_sim_time_loop(src, p, n0, d0, ts0, nf0, ns0) == spec_sim_time_loop(
                src,
                lexer.pos as int,
                n_time@,
                d_time@,
                timescale_started,
                n_found,
                n_search,
            ));
        }
    }
}

} // verus!
