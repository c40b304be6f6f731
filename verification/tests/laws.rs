use coreset::controller::Controller;
use coreset::decompile::decompile;
use coreset::encode::{args_to_byte, compile_line};
use coreset::error::CompileError;
use coreset::memory::Memory;

#[test]
fn numbers_written_are_numbers_loaded() {
    for n in [0u64, 1, 255, 256, 65535, 65536, 1 << 40, u64::MAX - 1] {
        let line = format!("load {n}");
        let bytes = compile_line(&line).unwrap();
        let mut c = Controller::new();
        let mut pool: Vec<Memory> = Vec::new();
        if bytes.len() <= 8 {
            c.set_program(bytes.clone());
            assert_eq!(c.instruction_pos, vec![0]);
        }
        c.execute(&mut pool, bytes);
        assert_eq!(c.register, n);
    }
    assert_eq!(args_to_byte(vec!["4660"]), Ok(vec![0x12, 0x34]));
}

#[test]
fn compiled_line_is_one_instruction() {
    for line in ["halt", "load 70000", "read 1-300", "andi 65535", "jump 3"] {
        let bytes = compile_line(line).unwrap();
        let mut c = Controller::new();
        c.set_program(bytes.clone());
        assert_eq!(c.instruction_pos, vec![0]);
        assert_eq!(bytes[0] & 7, (bytes.len() - 1) as u8);
    }
}

#[test]
fn halted_controller_stays() {
    let mut pool: Vec<Memory> = Vec::new();
    let mut c = Controller::new();
    c.set_program(vec![0, 96]);
    c.step(&mut pool);
    assert!(c.halted);
    let (r, ip) = (c.register, c.ip);
    c.step(&mut pool);
    c.step(&mut pool);
    assert_eq!((c.register, c.ip, c.halted), (r, ip, true));
}

#[test]
fn disassembly_reassembles() {
    let programs: Vec<Vec<u8>> = vec![
        vec![],
        vec![0],
        vec![96],
        vec![57, 200],
        vec![59, 1, 2, 1],
        vec![65, 3],
        vec![66, 3, 9],
        vec![67, 7, 5, 5],
        vec![9, 4],
        vec![233, 0],
    ];
    for bytes in programs {
        let text = decompile(&bytes);
        assert_eq!(compile_line(&text), Ok(bytes));
    }
    assert_eq!(decompile(&[59, 1, 2, 1]), "load 66049\n");
    assert_eq!(decompile(&[67, 7, 5, 5]), "read 7-1285\n");
}

#[test]
fn disassembly_differs_where_bytes_read_differently() {
    // Least significant first when printed, most significant first when written.
    assert_eq!(decompile(&[58, 44, 1]), "load 300\n");
    assert_eq!(compile_line("load 300"), Ok(vec![58, 1, 44]));
    // The indirect reads are printed under names the assembler does not take.
    assert_eq!(decompile(&[81, 2]), "readind 2\n");
    assert_eq!(
        compile_line("readind 2"),
        Err(CompileError::UnknownInstruction("readind".to_string()))
    );
}

#[test]
fn disassembly_has_one_line_per_instruction() {
    let programs: Vec<Vec<u8>> = vec![vec![], vec![0], vec![57, 1, 0, 250, 2], vec![66, 3], vec![9]];
    for bytes in programs {
        let text = decompile(&bytes);
        let mut c = Controller::new();
        c.set_program(bytes.clone());
        assert_eq!(text.matches('\n').count(), c.instruction_pos.len());
        assert!(text.is_empty() || text.ends_with('\n'));
    }
}

#[test]
fn loading_a_number_sets_the_register_only() {
    for n in [0u64, 7, 300, 1 << 40, (1u64 << 56) - 1] {
        let bytes = compile_line(&format!("load {n}")).unwrap();
        let mut c = Controller::new();
        c.ip = 4;
        let mut pool: Vec<Memory> = vec![Memory::new(2)];
        c.add_memory(0);
        c.execute(&mut pool, bytes);
        assert_eq!((c.register, c.ip, c.halted), (n, 4, false));
        assert_eq!(pool[0].data(), &[0, 0]);
    }
}

#[test]
fn comments_and_blank_lines_do_not_change_the_program() {
    let a = coreset::compile::compile("load 3\nincr\nhalt").unwrap();
    let b = coreset::compile::compile("\n  load 3   ; three\n\n; only a comment\n\tincr\nhalt ;end\n").unwrap();
    assert_eq!(a, b);
}

#[test]
fn compiled_lines_with_small_arguments_reassemble() {
    for line in ["load 200", "read 3-9", "add 1 2", "jump 0", "incr", "compi 255"] {
        let bytes = compile_line(line).unwrap();
        assert_eq!(compile_line(&decompile(&bytes)), Ok(bytes));
    }
}

#[test]
fn plain_programs_compile_line_by_line() {
    let src = "load 300 ; start\n\n  add 0-1\nwrite 0-2\njumpz 7\nhalt\n";
    let mut expected: Vec<u8> = Vec::new();
    for line in src.lines() {
        expected.extend(compile_line(line.trim()).unwrap());
    }
    assert_eq!(coreset::compile::compile(src), Ok(expected));
    assert_eq!(
        coreset::compile::compile("load 1\nbogus 2\nfoo"),
        Err(CompileError::UnknownInstruction("bogus".to_string()))
    );
}

#[test]
fn compiled_instructions_follow_the_line_counts() {
    let src = "func double\nlet retad 0-0\nlet callad 0-1\nlet x 0-2\nlabel body\nread x\nadd x\nwrite x\nret\n\
               \nload 3\nwrite 0-2\ndouble\nincr\ncall\nlet y 0-3 9\nhalt\n";
    let names = coreset::compile::scan_function_names(src);
    let bytes = coreset::compile::compile(src).unwrap();
    let mut c = Controller::new();
    c.set_program(bytes);
    let total: usize = src
        .lines()
        .map(|l| coreset::compile::source_line_instruction_count(l.trim(), &names))
        .sum();
    assert_eq!(c.instruction_pos.len(), total);
}
