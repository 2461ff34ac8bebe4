use sv_sim::lexer::Diagnostic;
use sv_sim::module::{parse_module, parse_module_io};
use sv_sim::sim_time::TimeUnit;
use sv_sim::var_types::VarType;
use sv_sim::{parse_sv_file, parse_sv_stream, Lexer, LexingError};

#[test]
fn full_file_parses_module_ports_signal_and_timescale() {
    let text = "`timescale 1ns/1ps\nmodule m(input a, output b);\n wire c;\nendmodule\n";
    let object = parse_sv_file(text.to_string()).unwrap();
    assert_eq!(object.sim_time.n_time.digits, "1");
    assert_eq!(object.sim_time.n_time.unit, TimeUnit::Ns);
    assert_eq!(object.sim_time.d_time.digits, "1");
    assert_eq!(object.sim_time.d_time.unit, TimeUnit::Ps);
    assert_eq!(object.mods.len(), 1);
    let m = &object.mods[0];
    assert_eq!(m.name, "m");
    assert_eq!(m.io.name, "m");
    assert_eq!(m.io.inputs.len(), 1);
    assert_eq!(m.io.inputs[0].name, "a");
    assert_eq!(m.io.inputs[0].var.width, 1);
    assert_eq!(m.io.inputs[0].var.var_type, VarType::Wire);
    assert_eq!(m.io.outputs.len(), 1);
    assert_eq!(m.io.outputs[0].name, "b");
    assert_eq!(m.io.outputs[0].var.width, 1);
    assert_eq!(m.io.outputs[0].var.var_type, VarType::Wire);
    assert!(m.io.inouts.is_empty());
    assert_eq!(m.vars.len(), 1);
    assert_eq!(m.vars[0].name, "c");
    assert_eq!(m.vars[0].width, 1);
    assert_eq!(m.vars[0].var_type, VarType::Wire);
}

#[test]
fn file_without_directive_keeps_default_sim_time() {
    let object = parse_sv_file("module m(input a);\nendmodule\n".to_string()).unwrap();
    assert_eq!(object.sim_time.n_time.digits, "1");
    assert_eq!(object.sim_time.n_time.unit, TimeUnit::Ns);
    assert_eq!(object.sim_time.d_time.digits, "1");
    assert_eq!(object.sim_time.d_time.unit, TimeUnit::Ps);
}

#[test]
fn later_directive_overwrites_the_earlier_one() {
    let text = "`timescale 1ns/1ps\n`timescale 5ns/2ps\n";
    let object = parse_sv_file(text.to_string()).unwrap();
    assert_eq!(object.sim_time.n_time.digits, "5");
    assert_eq!(object.sim_time.n_time.unit, TimeUnit::Ns);
    assert_eq!(object.sim_time.d_time.digits, "2");
    assert_eq!(object.sim_time.d_time.unit, TimeUnit::Ps);
}

#[test]
fn empty_file_yields_the_empty_object() {
    let object = parse_sv_file(String::new()).unwrap();
    assert!(object.mods.is_empty());
    assert_eq!(object.sim_time.n_time.digits, "1");
    assert_eq!(object.sim_time.d_time.digits, "1");
}

#[test]
fn comment_contents_never_reach_the_parser() {
    let text = "// wire bogus;\nmodule m();\nendmodule\n";
    let object = parse_sv_file(text.to_string()).unwrap();
    assert_eq!(object.mods.len(), 1);
    assert!(object.mods[0].vars.is_empty());
}

#[test]
fn parsing_resumes_right_after_the_comment_newline() {
    let text = "module m();\n// note\nwire c;\nendmodule\n";
    let object = parse_sv_file(text.to_string()).unwrap();
    assert_eq!(object.mods.len(), 1);
    assert_eq!(object.mods[0].vars.len(), 1);
    assert_eq!(object.mods[0].vars[0].name, "c");
}

#[test]
fn comment_may_end_the_file() {
    let object = parse_sv_file("// nothing more".to_string()).unwrap();
    assert!(object.mods.is_empty());
}

#[test]
fn oversized_integer_aborts_the_parse() {
    let err = parse_sv_file("99999999999999999999999\n".to_string()).unwrap_err();
    match err {
        LexingError::InvalidInteger(reason) => assert_eq!(reason, "overflow error"),
        other => panic!("expected an integer overflow, got {:?}", other),
    }
}

#[test]
fn wire_at_end_of_file_is_a_missing_module_wire() {
    let err = parse_sv_file("module m();\nwire".to_string()).unwrap_err();
    assert!(matches!(err, LexingError::ModuleWireNotFound));
}

#[test]
fn lexical_error_aborts_with_no_partial_object() {
    let err = parse_sv_file("module m();\nendmodule\n$\n".to_string()).unwrap_err();
    assert!(matches!(err, LexingError::UnexpectedToken));
}

#[test]
fn module_body_collects_wires_and_regs_in_order() {
    let text = "module m();\n wire [7:0] data;\n reg flag;\nendmodule\n";
    let object = parse_sv_file(text.to_string()).unwrap();
    let m = &object.mods[0];
    assert_eq!(m.vars.len(), 2);
    assert_eq!(m.vars[0].name, "data");
    assert_eq!(m.vars[0].width, 8);
    assert_eq!(m.vars[0].var_type, VarType::Wire);
    assert_eq!(m.vars[1].name, "flag");
    assert_eq!(m.vars[1].width, 1);
    assert_eq!(m.vars[1].var_type, VarType::Reg);
}

#[test]
fn two_modules_keep_declaration_order() {
    let text = "module a();\nendmodule\nmodule b();\nendmodule\n";
    let object = parse_sv_file(text.to_string()).unwrap();
    assert_eq!(object.mods.len(), 2);
    assert_eq!(object.mods[0].name, "a");
    assert_eq!(object.mods[1].name, "b");
}

#[test]
fn duplicate_names_are_kept_not_deduplicated() {
    let text = "module m(input x);\n wire x;\n wire x;\nendmodule\n";
    let object = parse_sv_file(text.to_string()).unwrap();
    let m = &object.mods[0];
    assert_eq!(m.io.inputs.len(), 1);
    assert_eq!(m.vars.len(), 2);
    assert_eq!(m.vars[0].name, "x");
    assert_eq!(m.vars[1].name, "x");
}

#[test]
fn parse_module_reads_header_and_body() {
    let mut lexer = Lexer::new(" m(inout bus);\n reg r;\nendmodule");
    let m = parse_module(&mut lexer).unwrap();
    assert_eq!(m.name, "m");
    assert_eq!(m.io.inouts.len(), 1);
    assert_eq!(m.io.inouts[0].name, "bus");
    assert_eq!(m.vars.len(), 1);
    assert_eq!(m.vars[0].name, "r");
    assert_eq!(m.vars[0].var_type, VarType::Reg);
}

#[test]
fn header_machine_walks_name_paren_io_semi() {
    let mut lexer = Lexer::new("adder(input [3:0] a, input [3:0] b, output [4:0] sum);");
    let io = parse_module_io(&mut lexer).unwrap();
    assert_eq!(io.name, "adder");
    assert_eq!(io.inputs.len(), 2);
    assert_eq!(io.inputs[0].name, "a");
    assert_eq!(io.inputs[0].var.width, 4);
    assert_eq!(io.inputs[1].name, "b");
    assert_eq!(io.outputs.len(), 1);
    assert_eq!(io.outputs[0].name, "sum");
    assert_eq!(io.outputs[0].var.width, 5);
    assert!(io.inouts.is_empty());
}

#[test]
fn header_machine_ignores_junk_between_states() {
    let mut lexer = Lexer::new("m : (input a) + ;");
    let io = parse_module_io(&mut lexer).unwrap();
    assert_eq!(io.name, "m");
    assert_eq!(io.inputs.len(), 1);
    assert!(lexer.diags.len() >= 2);
}

#[test]
fn unhandled_tokens_are_recorded_and_skipped() {
    let mut lexer = Lexer::new("assign x = 1;\n");
    let object = parse_sv_stream(&mut lexer).unwrap();
    assert!(object.mods.is_empty());
    assert!(lexer
        .diags
        .iter()
        .any(|d| matches!(d, Diagnostic::NotImplemented(_))));
}

#[test]
fn junk_before_the_module_name_is_a_soft_anomaly() {
    let mut lexer = Lexer::new("module 5 m();\nendmodule\n");
    let object = parse_sv_stream(&mut lexer).unwrap();
    assert_eq!(object.mods.len(), 1);
    assert_eq!(object.mods[0].name, "m");
    assert!(lexer
        .diags
        .iter()
        .any(|d| matches!(d, Diagnostic::ExpectedModuleName(_))));
}

#[test]
fn header_cut_short_keeps_what_it_gathered() {
    let object = parse_sv_file("module m(input a".to_string()).unwrap();
    assert_eq!(object.mods.len(), 1);
    assert_eq!(object.mods[0].name, "m");
    assert_eq!(object.mods[0].io.inputs.len(), 1);
    assert_eq!(object.mods[0].io.inputs[0].name, "a");
}

#[test]
fn sized_literals_at_top_level_are_not_yet_handled() {
    let mut lexer = Lexer::new("4'b1010\n1'bz\n");
    let object = parse_sv_stream(&mut lexer).unwrap();
    assert!(object.mods.is_empty());
    let n = lexer
        .diags
        .iter()
        .filter(|d| matches!(d, Diagnostic::NotImplemented(_)))
        .count();
    assert_eq!(n, 2);
}
