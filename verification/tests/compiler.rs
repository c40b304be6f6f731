use coreset::compile::compile;
use coreset::decompile::decompile;
use coreset::encode::{args_to_byte, compile_line, get_opcode};
use coreset::error::CompileError;

#[test]
fn opcode_table_entries() {
    assert_eq!(get_opcode("halt"), Some((0, 0)));
    assert_eq!(get_opcode("jz"), Some((16, 1)));
    assert_eq!(get_opcode("jump-not-zero"), Some((24, 1)));
    assert_eq!(get_opcode("compi"), Some((232, 1)));
    assert_eq!(get_opcode("readind"), None);
    assert_eq!(get_opcode("foo"), None);
}

#[test]
fn args_are_big_endian_and_minimal() {
    assert_eq!(args_to_byte(vec!["1", "256", "70000"]), Ok(vec![1, 1, 0, 1, 17, 112]));
    assert_eq!(args_to_byte(vec!["+5"]), Ok(vec![5]));
    assert_eq!(args_to_byte(vec!["0"]), Ok(vec![0]));
    assert_eq!(args_to_byte(vec!["x"]), Err(CompileError::BadArgument("x".to_string())));
    assert_eq!(
        args_to_byte(vec!["18446744073709551616"]),
        Err(CompileError::BadArgument("18446744073709551616".to_string()))
    );
}

#[test]
fn single_lines() {
    assert_eq!(compile_line("load 5"), Ok(vec![57, 5]));
    assert_eq!(compile_line("read 1-5"), Ok(vec![66, 1, 5]));
    assert_eq!(compile_line("halt"), Ok(vec![0]));
    assert_eq!(compile_line("  ; only a comment"), Ok(vec![]));
    assert_eq!(compile_line("halt 1"), Err(CompileError::TakesNoParameters("halt".to_string())));
    assert_eq!(compile_line("jump"), Err(CompileError::MissingParameters("jump".to_string(), 1)));
    assert_eq!(
        compile_line("load 1 2 3 4 5 6 7 8 9"),
        Err(CompileError::TooManyParameters("load".to_string()))
    );
    assert_eq!(compile_line("bogus 1"), Err(CompileError::UnknownInstruction("bogus".to_string())));
    assert_eq!(
        compile_line("load 18446744073709551615"),
        Ok(vec![56, 255, 255, 255, 255, 255, 255, 255, 255])
    );
}

#[test]
fn decompile_examples() {
    assert_eq!(decompile(&[57, 5]), "load 5\n");
    assert_eq!(decompile(&[66, 1, 5]), "read 1-5\n");
    assert_eq!(decompile(&[58, 1, 2]), "load 513\n");
    assert_eq!(decompile(&[0]), "halt\n");
    assert_eq!(decompile(&[0xF8]), "unknown\n");
    assert_eq!(decompile(&[2, 7, 9]), "halt 7 9\n");
    assert_eq!(decompile(&[57]), "load\n");
    assert_eq!(decompile(&[83, 1, 2, 3]), "readind 1-770\n");
}

#[test]
fn compile_programs() {
    assert_eq!(compile("load 5\nwrite 0-1\nhalt"), Ok(vec![57, 5, 74, 0, 1, 0]));
    assert_eq!(compile("label start\nincr\njump start"), Ok(vec![96, 9, 0]));
    assert_eq!(compile("let x 0-3 7\nread x"), Ok(vec![57, 7, 74, 0, 3, 66, 0, 3]));
    let src = "func double\nlet retad 0-10\nlet callad 0-11\nlabel body\nadd 0-0\nret\ndouble\nload 3\ncall\nhalt\n";
    assert_eq!(
        compile(src),
        Ok(vec![
            74, 0, 10, 74, 0, 11, 42, 0, 11, 130, 0, 0, 42, 0, 10, 57, 8, 74, 0, 11, 9, 0, 57, 3,
            57, 12, 74, 0, 10, 9, 3, 0
        ])
    );
}

#[test]
fn compile_errors() {
    assert_eq!(compile("call"), Err(CompileError::CallWithoutBlock));
    assert_eq!(compile("label body"), Err(CompileError::LabelBodyOutsideFunction));
    assert_eq!(compile("ret"), Err(CompileError::RetOutsideFunction));
    assert_eq!(compile("func f\nf\n"), Err(CompileError::UnclosedCallBlock));
    assert_eq!(compile("func f\nf\nf"), Err(CompileError::NestedCallBlock));
    assert_eq!(compile("let x"), Err(CompileError::LetArity));
    assert_eq!(compile("func f\nlabel body"), Err(CompileError::MissingCallad("f".to_string())));
    assert_eq!(
        compile("func f\nlet callad 1\nf\ncall"),
        Err(CompileError::MissingRetad("f".to_string()))
    );
    assert_eq!(
        compile("func f\nlet callad 1\nlet retad 2\nf\ncall"),
        Err(CompileError::MissingBody("f".to_string()))
    );
}
