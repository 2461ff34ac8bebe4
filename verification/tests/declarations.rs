use sv_sim::lexer::Diagnostic;
use sv_sim::sim_time::{parse_sim_time, TimeUnit};
use sv_sim::var_types::{parse_inout, parse_input, parse_output, parse_var, VarType};
use sv_sim::{Lexer, LexingError};

#[test]
fn var_with_range_has_width_high_minus_low_plus_one() {
    let mut lexer = Lexer::new("wire [7:0] data;");
    let (var_type, name, width) = parse_var(&mut lexer).unwrap();
    assert_eq!(var_type, VarType::Wire);
    assert_eq!(name, "data");
    assert_eq!(width, 8);
}

#[test]
fn var_range_tolerates_spaces() {
    let mut lexer = Lexer::new("reg [15 : 8] hi;");
    let (var_type, name, width) = parse_var(&mut lexer).unwrap();
    assert_eq!(var_type, VarType::Reg);
    assert_eq!(name, "hi");
    assert_eq!(width, 8);
}

#[test]
fn negative_range_is_rejected() {
    let mut lexer = Lexer::new("wire [0:7] x;");
    let err = parse_var(&mut lexer).unwrap_err();
    assert!(matches!(err, LexingError::NegativeBitWidth));
}

#[test]
fn var_without_range_has_width_one() {
    let mut lexer = Lexer::new("reg clk;");
    let (var_type, name, width) = parse_var(&mut lexer).unwrap();
    assert_eq!(var_type, VarType::Reg);
    assert_eq!(name, "clk");
    assert_eq!(width, 1);
}

#[test]
fn single_index_range_defaults_low_bound_to_zero() {
    let mut lexer = Lexer::new("wire [3] x;");
    let (_, _, width) = parse_var(&mut lexer).unwrap();
    assert_eq!(width, 4);
}

#[test]
fn unclosed_range_is_incomplete() {
    let mut lexer = Lexer::new("wire [7:0 x");
    let err = parse_var(&mut lexer).unwrap_err();
    assert!(matches!(err, LexingError::IncompleteWidth));
}

#[test]
fn keyword_at_end_of_text_without_name_fails() {
    let mut lexer = Lexer::new("wire");
    let err = parse_var(&mut lexer).unwrap_err();
    assert!(matches!(err, LexingError::UnexpectedToken));
}

#[test]
fn underscored_name_is_reassembled() {
    let mut lexer = Lexer::new("wire data_in;");
    let (_, name, _) = parse_var(&mut lexer).unwrap();
    assert_eq!(name, "data_in");
}

#[test]
fn out_of_place_tokens_in_a_name_are_soft_anomalies() {
    // `wire` inside the identifier lexes as a keyword; the name scan skips
    // it, records a diagnostic, and goes on.
    let mut lexer = Lexer::new("foo_wire_bar;");
    let (_, name, _) = parse_var(&mut lexer).unwrap();
    assert_eq!(name, "foo__bar");
    assert!(lexer
        .diags
        .iter()
        .any(|d| matches!(d, Diagnostic::UnexpectedInName(_))));
}

#[test]
fn later_storage_keyword_wins() {
    let mut lexer = Lexer::new("wire reg q;");
    let (var_type, name, _) = parse_var(&mut lexer).unwrap();
    assert_eq!(var_type, VarType::Reg);
    assert_eq!(name, "q");
}

#[test]
fn input_port_duplicates_its_name() {
    let mut lexer = Lexer::new("a,");
    let input = parse_input(&mut lexer).unwrap();
    assert_eq!(input.name, "a");
    assert_eq!(input.var.name, "a");
    assert_eq!(input.var.width, 1);
    assert_eq!(input.var.var_type, VarType::Wire);
    assert!(!input.var.state);
    assert!(!input.var.hi_z);
}

#[test]
fn output_port_takes_its_range() {
    let mut lexer = Lexer::new("[3:0] q;");
    let output = parse_output(&mut lexer).unwrap();
    assert_eq!(output.name, "q");
    assert_eq!(output.var.width, 4);
}

#[test]
fn inout_port_parses_like_the_others() {
    let mut lexer = Lexer::new("bus,");
    let inout = parse_inout(&mut lexer).unwrap();
    assert_eq!(inout.name, "bus");
    assert_eq!(inout.var.width, 1);
}

#[test]
fn var_type_from_keyword_text() {
    assert_eq!(VarType::from("wire"), VarType::Wire);
    assert_eq!(VarType::from("reg"), VarType::Reg);
    assert_eq!(VarType::from("anything"), VarType::Wire);
}

#[test]
fn var_type_defaults_to_wire() {
    assert_eq!(VarType::default(), VarType::Wire);
}

#[test]
fn timescale_directive_parses_both_literals() {
    let mut lexer = Lexer::new("timescale 1ns/1ps\n");
    let t = parse_sim_time(&mut lexer).unwrap();
    assert_eq!(t.n_time.digits, "1");
    assert_eq!(t.n_time.unit, TimeUnit::Ns);
    assert_eq!(t.d_time.digits, "1");
    assert_eq!(t.d_time.unit, TimeUnit::Ps);
}

#[test]
fn second_timescale_keyword_is_rejected() {
    let mut lexer = Lexer::new("timescale timescale 1ns/1ps\n");
    let err = parse_sim_time(&mut lexer).unwrap_err();
    assert!(matches!(err, LexingError::UnexpectedToken));
}

#[test]
fn time_literal_before_the_keyword_is_rejected() {
    let mut lexer = Lexer::new("1ns/1ps\n");
    let err = parse_sim_time(&mut lexer).unwrap_err();
    assert!(matches!(err, LexingError::UnexpectedToken));
}

#[test]
fn second_numerator_before_the_divider_is_rejected() {
    let mut lexer = Lexer::new("timescale 1ns 2ns/3ps\n");
    let err = parse_sim_time(&mut lexer).unwrap_err();
    assert!(matches!(err, LexingError::ImproperTimeFormatting));
}

#[test]
fn directive_cut_short_keeps_zero_times() {
    let mut lexer = Lexer::new("timescale");
    let t = parse_sim_time(&mut lexer).unwrap();
    assert_eq!(t.n_time.digits, "0");
    assert_eq!(t.d_time.digits, "0");
}
