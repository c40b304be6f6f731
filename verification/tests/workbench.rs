use coreset::compile::{compile, scan_function_names, source_line_instruction_count};
use coreset::encode::compile_line;
use coreset::error::CompileError;
use coreset::memory::Memory;
use coreset::names::NameSet;
use coreset::session::{ControllerState, ExecutionMode, MemoryBank, Session, SessionError};

fn chars(s: &str) -> Vec<char> {
    s.chars().collect()
}

#[test]
fn scan_finds_declared_functions() {
    let names = scan_function_names("func foo\n  func  bar ; comment\nfunc\nfunc\tbaz\nfoo\n");
    assert!(names.contains(&chars("foo")));
    assert!(names.contains(&chars("bar")));
    assert!(!names.contains(&chars("baz")));
    assert!(!names.contains(&chars("")));
    assert_eq!(names.names.len(), 2);
}

#[test]
fn line_counts_follow_the_doc_table() {
    let mut names = NameSet::new();
    names.insert(chars("double"));
    assert_eq!(source_line_instruction_count("func double", &names), 0);
    assert_eq!(source_line_instruction_count("label loop", &names), 0);
    assert_eq!(source_line_instruction_count("label body", &names), 1);
    assert_eq!(source_line_instruction_count("double", &names), 3);
    assert_eq!(source_line_instruction_count("call", &names), 3);
    assert_eq!(source_line_instruction_count("ret", &names), 1);
    assert_eq!(source_line_instruction_count("let n 0-1 5", &names), 2);
    assert_eq!(source_line_instruction_count("let n 0-1", &names), 1);
    assert_eq!(source_line_instruction_count("load 5 ; comment", &names), 1);
    assert_eq!(source_line_instruction_count("   ; comment", &names), 0);
    assert_eq!(source_line_instruction_count("triple", &names), 1);
}

#[test]
fn dashes_and_spaces_separate_arguments_alike() {
    let a = compile_line("read 7-15-1").unwrap();
    assert_eq!(compile_line("read 7 15 1").unwrap(), a);
    assert_eq!(compile_line("read 7-15 1").unwrap(), a);
    assert_eq!(a, vec![67, 7, 15, 1]);
}

#[test]
fn banks_and_controllers() {
    let bank = MemoryBank::new("mem0".to_string(), 64);
    assert_eq!(bank.name, "mem0");
    assert_eq!(bank.memory.len(), 64);
    let st = ControllerState::new("ctrl0".to_string());
    assert_eq!(st.name, "ctrl0");
    assert!(st.bound_memories.is_empty());
    assert_eq!(st.controller.ip, 0);
}

#[test]
fn sync_keeps_existing_bound_banks() {
    let mut st = ControllerState::new("c".to_string());
    st.bound_memories = vec![2, 0, 5, 1];
    let banks = vec![Memory::new(1), Memory::new(1), Memory::new(1)];
    st.sync_memories(&banks);
    assert_eq!(st.controller.memories, vec![2, 0, 1]);
}

fn session_with(banks: usize, ctrls: usize) -> Session {
    let mut s = Session::new();
    for i in 0..banks {
        s.add_memory(MemoryBank::new(format!("mem{i}"), 8));
    }
    for i in 0..ctrls {
        s.add_controller(format!("ctrl{i}"));
    }
    s
}

#[test]
fn bind_and_unbind() {
    let mut s = session_with(3, 2);
    s.bind_memory(0, 2);
    s.bind_memory(0, 0);
    s.bind_memory(0, 2); // already bound
    s.bind_memory(0, 7); // no such bank
    s.bind_memory(5, 0); // no such controller
    assert_eq!(s.controllers[0].bound_memories, vec![2, 0]);
    assert_eq!(s.controllers[0].controller.memories, vec![2, 0]);
    assert!(s.controllers[1].bound_memories.is_empty());
    s.unbind_memory(0, 2);
    assert_eq!(s.controllers[0].bound_memories, vec![0]);
    assert_eq!(s.controllers[0].controller.memories, vec![0]);
}

#[test]
fn removing_a_bank_shifts_bindings() {
    let mut s = session_with(4, 2);
    s.bind_memory(0, 3);
    s.bind_memory(0, 1);
    s.bind_memory(0, 0);
    s.bind_memory(1, 1);
    s.bind_memory(1, 2);
    s.remove_memory(1);
    assert_eq!(s.memories.len(), 3);
    assert_eq!(s.memory_names, vec!["mem0".to_string(), "mem2".to_string(), "mem3".to_string()]);
    assert_eq!(s.controllers[0].bound_memories, vec![2, 0]);
    assert_eq!(s.controllers[1].bound_memories, vec![1]);
    assert_eq!(s.controllers[1].controller.memories, vec![1]);
    // the bindings still name the same banks
    assert_eq!(s.memory_names[2], "mem3");
    assert_eq!(s.memory_names[1], "mem2");
    s.remove_memory(9); // no such bank: nothing changes
    assert_eq!(s.memories.len(), 3);
}

#[test]
fn controllers_share_banks_while_running() {
    let mut s = session_with(1, 2);
    s.bind_memory(0, 0);
    s.bind_memory(1, 0);
    let program = compile("read 0-0\nincr\nwrite 0-0\nhalt").unwrap();
    s.load_program(program.clone());
    assert_eq!(s.bytecode, program);
    s.run();
    assert_eq!(s.mode, ExecutionMode::Running);
    for _ in 0..3 {
        assert_eq!(s.run_tick(), Ok(true));
    }
    // both controllers read the cell before either wrote it back
    assert_eq!(s.memories[0].read(0), 1);
    assert_eq!(s.run_tick(), Ok(true));
    assert!(s.all_halted());
    assert_eq!(s.run_tick(), Ok(false));
    assert_eq!(s.mode, ExecutionMode::Stopped);
    s.reset_all();
    assert!(!s.all_halted());
    assert_eq!(s.controllers[0].controller.ip, 0);
    assert_eq!(s.controllers[0].controller.program, program);
}

#[test]
fn new_controller_gets_current_program() {
    let mut s = session_with(0, 0);
    s.load_program(vec![96, 0]);
    s.add_controller("late".to_string());
    assert_eq!(s.controllers[0].controller.program, vec![96, 0]);
    assert_eq!(s.controllers[0].controller.instruction_pos, vec![0, 1]);
    s.clear_program();
    s.add_controller("later".to_string());
    assert!(s.controllers[1].controller.program.is_empty());
    s.remove_controller(0);
    assert_eq!(s.controllers.len(), 1);
    assert_eq!(s.controllers[0].name, "later");
    s.remove_controller(3);
    assert_eq!(s.controllers.len(), 1);
}

#[test]
fn step_all_reports_the_faulting_controller() {
    let mut s = session_with(1, 2);
    s.bind_memory(0, 0);
    s.bind_memory(1, 0);
    s.load_program(compile("div 0-0").unwrap());
    assert_eq!(s.step_all(), Err(0));
    s.pause();
    assert_eq!(s.mode, ExecutionMode::Stopped);
}

#[test]
fn execution_mode_defaults_to_stopped() {
    assert_eq!(ExecutionMode::default(), ExecutionMode::Stopped);
}

#[test]
fn compiling_the_source_restarts_controllers() {
    let mut s = session_with(0, 2);
    s.source = "load 5\nhalt".to_string();
    s.controllers[0].controller.register = 9;
    s.compile_source();
    assert_eq!(s.last_error, None);
    assert_eq!(s.bytecode, vec![57, 5, 0]);
    for c in &s.controllers {
        assert_eq!(c.controller.program, vec![57, 5, 0]);
        assert_eq!((c.controller.register, c.controller.ip, c.controller.halted), (0, 0, false));
    }
    // A source that does not compile keeps the program and records why.
    s.source = "bogus".to_string();
    s.compile_source();
    assert_eq!(
        s.last_error,
        Some(SessionError::Compile(CompileError::UnknownInstruction("bogus".to_string())))
    );
    assert_eq!(s.bytecode, vec![57, 5, 0]);
    assert_eq!(s.controllers[1].controller.program, vec![57, 5, 0]);
}

#[test]
fn opening_files() {
    let mut s = session_with(0, 1);
    s.open_source("a.cst".to_string(), Ok("incr\nhalt".to_string()));
    assert_eq!(s.current_path, Some("a.cst".to_string()));
    assert_eq!(s.source, "incr\nhalt");
    assert_eq!(s.bytecode, vec![96, 0]);
    s.open_binary(Ok(vec![57, 200, 0]));
    assert_eq!(s.current_path, None);
    assert_eq!(s.source, "load 200\nhalt\n");
    assert_eq!(s.bytecode, vec![57, 200, 0]);
    assert_eq!(s.controllers[0].controller.program, vec![57, 200, 0]);
    assert_eq!(s.last_error, None);
    s.new_file();
    assert!(s.source.is_empty());
    assert!(s.bytecode.is_empty());
    assert_eq!(s.controllers[0].controller.program, vec![57, 200, 0]);
}

fn message(text: &str) -> Option<SessionError> {
    Some(SessionError::Message(text.to_string()))
}

#[test]
fn file_failures_are_recorded() {
    let mut s = session_with(0, 1);
    s.open_source("a.cst".to_string(), Ok("load 1\nhalt".to_string()));
    s.open_source("b.cst".to_string(), Err("not found".to_string()));
    assert_eq!(s.last_error, message("Could not open file: not found"));
    assert_eq!(s.current_path, Some("a.cst".to_string()));
    assert_eq!(s.source, "load 1\nhalt");
    s.open_binary(Err("denied".to_string()));
    assert_eq!(s.last_error, message("Could not open binary: denied"));
    assert_eq!(s.bytecode, vec![57, 1, 0]);
    s.saved_source("c.cst".to_string(), Err("disk full".to_string()));
    assert_eq!(s.last_error, message("Could not save file: disk full"));
    assert_eq!(s.current_path, Some("a.cst".to_string()));
    s.saved_source("c.cst".to_string(), Ok(()));
    assert_eq!(s.current_path, Some("c.cst".to_string()));
    s.saved_binary(Err("read-only".to_string()));
    assert_eq!(s.last_error, message("Could not save binary: read-only"));
}

#[test]
fn saving_a_binary_needs_a_program() {
    let mut s = session_with(0, 0);
    s.open_source("a.cst".to_string(), Ok("halt".to_string()));
    assert_eq!(s.binary_to_save(), Some(vec![0]));
    assert_eq!(s.last_error, None);
    s.new_file();
    assert_eq!(s.current_path, None);
    assert_eq!(s.binary_to_save(), None);
    assert_eq!(s.last_error, message("Nothing compiled yet."));
}

#[test]
fn step_all_leaves_the_faulting_controller_and_later_ones() {
    let mut s = session_with(1, 3);
    for c in 0..3 {
        s.bind_memory(c, 0);
    }
    s.load_program(compile("read 0-0\ndiv 0-0\nhalt").unwrap());
    s.controllers[1].controller.ip = 1;
    s.controllers[2].controller.ip = 1;
    assert_eq!(s.step_all(), Err(1));
    assert_eq!(s.controllers[0].controller.ip, 1);
    assert_eq!(s.controllers[1].controller.ip, 1);
    assert_eq!(s.controllers[2].controller.ip, 1);
}

#[test]
fn default_file_names() {
    let mut s = session_with(0, 0);
    assert_eq!(s.save_target(), None);
    assert_eq!(s.save_as_name(), "program.cst");
    assert_eq!(s.binary_name(), "program.bin");
    s.saved_source("work/adder.cst".to_string(), Ok(()));
    assert_eq!(s.save_target(), Some("work/adder.cst".to_string()));
    assert_eq!(s.save_as_name(), "adder.cst");
    assert_eq!(s.binary_name(), "adder.bin");
    s.saved_source("..".to_string(), Ok(()));
    assert_eq!(s.save_as_name(), "program.cst");
    assert_eq!(s.binary_name(), "program.bin");
}
