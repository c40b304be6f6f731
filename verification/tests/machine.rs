use coreset::compile::compile;
use coreset::controller::Controller;
use coreset::encode::compile_line;
use coreset::memory::Memory;

fn run(src: &str, banks: usize) -> (Controller, Vec<Memory>) {
    let program = compile(src).unwrap();
    let mut pool: Vec<Memory> = Vec::new();
    let mut c = Controller::new();
    for i in 0..banks {
        pool.push(Memory::new(16));
        c.add_memory(i);
    }
    c.set_program(program);
    let mut steps = 0;
    while !c.halted && steps < 10_000 {
        assert!(!c.step_would_fault(&pool));
        c.step(&mut pool);
        steps += 1;
    }
    (c, pool)
}

#[test]
fn memory_sizes_and_cells() {
    assert_eq!(Memory::small().len(), 64);
    assert_eq!(Memory::medium().len(), 256);
    assert_eq!(Memory::large().len(), 1024);
    let mut m = Memory::new(4);
    assert_eq!(m.data(), &[0, 0, 0, 0]);
    m.write(2, 99);
    assert_eq!(m.read(2), 99);
    assert_eq!(m.read(1), 0);
    m.reset();
    assert_eq!(m.data(), &[0, 0, 0, 0]);
    assert_eq!(m.len(), 4);
}

#[test]
fn set_program_records_instruction_starts() {
    let mut c = Controller::new();
    // load 5 (2 bytes), read 1-5 (3 bytes), halt (1 byte)
    c.set_program(vec![57, 5, 66, 1, 5, 0]);
    assert_eq!(c.instruction_pos, vec![0, 2, 5]);
    // a truncated last instruction still starts
    c.set_program(vec![57]);
    assert_eq!(c.instruction_pos, vec![0]);
    c.set_program(vec![]);
    assert_eq!(c.instruction_pos, Vec::<usize>::new());
}

#[test]
fn addresses_pick_slot_and_cell() {
    let mut pool = vec![Memory::new(4), Memory::new(300)];
    let mut c = Controller::new();
    c.add_memory(1);
    c.add_memory(0);
    c.write_to(&mut pool, &[0, 1, 2], 7); // slot 0 -> bank 1, cell 258
    assert_eq!(pool[1].read(258), 7);
    assert_eq!(c.read_from(&pool, &[0, 1, 2]), 7);
    c.write_to(&mut pool, &[1, 3], 8); // slot 1 -> bank 0, cell 3
    assert_eq!(pool[0].read(3), 8);
    // missing slot, cell past the end, empty address: ignored / zero
    c.write_to(&mut pool, &[2, 0], 9);
    c.write_to(&mut pool, &[1, 4], 9);
    c.write_to(&mut pool, &[], 9);
    assert_eq!(c.read_from(&pool, &[2, 0]), 0);
    assert_eq!(c.read_from(&pool, &[1, 4]), 0);
    assert_eq!(c.read_from(&pool, &[]), 0);
    assert_eq!(pool[0].data(), &[0, 0, 0, 8]);
}

#[test]
fn shared_bank_is_seen_by_both_controllers() {
    let mut pool = vec![Memory::new(8)];
    let mut a = Controller::new();
    let mut b = Controller::new();
    a.add_memory(0);
    b.add_memory(0);
    a.write_to(&mut pool, &[0, 5], 42);
    assert_eq!(b.read_from(&pool, &[0, 5]), 42);
}

#[test]
fn execute_arithmetic_and_logic() {
    let mut pool = vec![Memory::new(4)];
    let mut c = Controller::new();
    c.add_memory(0);
    c.write_to(&mut pool, &[0, 1], 6);
    c.execute(&mut pool, vec![57, 10]); // load 10
    assert_eq!(c.register, 10);
    c.execute(&mut pool, vec![130, 0, 1]); // add 0-1
    assert_eq!(c.register, 16);
    c.execute(&mut pool, vec![138, 0, 1]); // sub 0-1
    assert_eq!(c.register, 10);
    c.execute(&mut pool, vec![146, 0, 1]); // mul 0-1
    assert_eq!(c.register, 60);
    c.execute(&mut pool, vec![154, 0, 1]); // div 0-1
    assert_eq!(c.register, 10);
    c.execute(&mut pool, vec![200, 3]); // andi 3 (25 << 3 = 200, 1 byte => 201)
    c.execute(&mut pool, vec![201, 3]);
    assert_eq!(c.register, 2);
    c.execute(&mut pool, vec![184]); // lshift
    assert_eq!(c.register, 4);
    c.execute(&mut pool, vec![192]); // rshift
    assert_eq!(c.register, 2);
    c.execute(&mut pool, vec![96]); // incr
    assert_eq!(c.register, 3);
    c.execute(&mut pool, vec![104]); // decr
    assert_eq!(c.register, 2);
    c.execute(&mut pool, vec![120]); // not
    assert_eq!(c.register, 0);
    c.execute(&mut pool, vec![120]); // not
    assert_eq!(c.register, 1);
    c.execute(&mut pool, vec![112]); // neg (bitwise)
    assert_eq!(c.register, !1u64);
    c.execute(&mut pool, vec![57, 3]);
    c.execute(&mut pool, vec![226, 0, 1]); // comp 0-1: 3 < 6
    assert_eq!(c.register, 0xFFFF_FFFF_FFFF_FFFF);
    c.execute(&mut pool, vec![57, 9]);
    c.execute(&mut pool, vec![226, 0, 1]);
    assert_eq!(c.register, 1);
    c.execute(&mut pool, vec![57, 6]);
    c.execute(&mut pool, vec![226, 0, 1]);
    assert_eq!(c.register, 0);
    assert!(!c.halted);
    c.execute(&mut pool, vec![232, 1]); // compi is not executed: halts
    assert!(c.halted);
}

#[test]
fn faults_are_reported_before_execution() {
    let pool = vec![Memory::new(4)];
    let mut c = Controller::new();
    c.add_memory(0);
    assert!(c.faults(&pool, &[154, 0, 1])); // div by the zero in cell 1
    c.register = u64::MAX;
    assert!(c.faults(&pool, &[96])); // incr overflows
    c.register = 0;
    assert!(c.faults(&pool, &[104])); // decr underflows
    assert!(!c.faults(&pool, &[96]));
}

#[test]
fn indirect_read_and_write() {
    let mut pool = vec![Memory::new(8)];
    let mut c = Controller::new();
    c.add_memory(0);
    // cell 1 holds an address: slot 0 (top byte), cell 6
    c.write_to(&mut pool, &[0, 1], 6);
    c.register = 77;
    c.execute(&mut pool, vec![90, 0, 1]); // writeind 0-1
    assert_eq!(pool[0].read(6), 77);
    c.register = 0;
    c.execute(&mut pool, vec![82, 0, 1]); // readind 0-1
    assert_eq!(c.register, 77);
}

#[test]
fn jumps_move_the_instruction_pointer() {
    let mut pool: Vec<Memory> = Vec::new();
    let mut c = Controller::new();
    c.execute(&mut pool, vec![9, 4]); // jump 4
    assert_eq!(c.ip, 4);
    c.execute(&mut pool, vec![17, 1]); // jumpz 1 with register 0
    assert_eq!(c.ip, 1);
    c.execute(&mut pool, vec![25, 2]); // jumpnz 2 with register 0: no jump
    assert_eq!(c.ip, 1);
    c.register = 3;
    c.execute(&mut pool, vec![32]); // jumpreg
    assert_eq!(c.ip, 3);
    c.execute(&mut pool, vec![48]); // line
    assert_eq!(c.register, 3);
}

#[test]
fn run_counting_loop() {
    // count cell 0-0 up to 5
    let src = "load 0\nwrite 0-0\nlabel top\nread 0-0\nincr\nwrite 0-0\ncompi 5\nhalt";
    let (c, pool) = run(src, 1);
    assert!(c.halted);
    assert_eq!(pool[0].read(0), 1);
    let src2 = "let n 0-0 0\nlabel top\nread n\nincr\nwrite n\nxori 5\njumpnz top\nhalt";
    let (c2, pool2) = run(src2, 1);
    assert!(c2.halted);
    assert_eq!(pool2[0].read(0), 5);
}

#[test]
fn function_call_returns() {
    let src = "jump main\nfunc double\nlet retad 0-10\nlet callad 0-11\nlabel body\nread 0-1\nadd 0-1\nwrite 0-1\nret\nlabel main\nload 21\nwrite 0-1\ndouble\ncall\nread 0-1\nwrite 0-2\nhalt\n";
    let (c, pool) = run(src, 1);
    assert!(c.halted);
    assert_eq!(pool[0].read(1), 42);
    assert_eq!(pool[0].read(2), 42);
}

#[test]
fn step_stops_past_the_end() {
    let mut pool: Vec<Memory> = Vec::new();
    let mut c = Controller::new();
    c.step(&mut pool); // no program: nothing happens
    assert!(!c.halted);
    c.set_program(compile_line("incr").unwrap());
    c.step(&mut pool);
    assert_eq!(c.register, 1);
    assert!(c.halted);
    c.step(&mut pool);
    assert_eq!(c.register, 1);
    c.reset();
    assert!(!c.halted);
    assert_eq!(c.ip, 0);
    assert_eq!(c.register, 0);
    assert_eq!(c.program, vec![96]);
}
