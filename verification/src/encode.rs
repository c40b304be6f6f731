//! The instruction set and the encoding of one source line into bytecode.
use vstd::prelude::*;

use crate::error::{bytes_result, CompileError, Fault};
use crate::text::{
    arg_words, before_comment, before_comment_chars, eq_str, keyword, parse_u64, parse_u64_chars,
    rest_of, split_keyword, split_tokens, str_chars, string_from_chars, trim, trim_chars, views,
};

verus! {

/// The opcode number and the least number of parameters of each mnemonic.
pub open spec fn mnemonic(name: Seq<char>) -> Option<(u8, u8)> {
    if name == "halt"@ || name == "hlt"@ {
        Some((0u8, 0u8))
    } else if name == "jump"@ {
        Some((1u8, 1u8))
    } else if name == "jumpz"@ || name == "jump-zero"@ || name == "jz"@ {
        Some((2u8, 1u8))
    } else if name == "jumpnz"@ || name == "jump-not-zero"@ || name == "jnz"@ {
        Some((3u8, 1u8))
    } else if name == "jumpreg"@ || name == "jump-reg"@ || name == "jr"@ {
        Some((4u8, 0u8))
    } else if name == "jumpi"@ || name == "jump-ind"@ || name == "ji"@ {
        Some((5u8, 1u8))
    } else if name == "line"@ || name == "ln"@ {
        Some((6u8, 0u8))
    } else if name == "load"@ {
        Some((7u8, 1u8))
    } else if name == "read"@ {
        Some((8u8, 1u8))
    } else if name == "write"@ {
        Some((9u8, 1u8))
    } else if name == "readi"@ || name == "read-ind"@ || name == "ri"@ {
        Some((10u8, 1u8))
    } else if name == "writei"@ || name == "write-ind"@ || name == "wi"@ {
        Some((11u8, 1u8))
    } else if name == "incr"@ {
        Some((12u8, 0u8))
    } else if name == "decr"@ {
        Some((13u8, 0u8))
    } else if name == "neg"@ {
        Some((14u8, 0u8))
    } else if name == "not"@ {
        Some((15u8, 0u8))
    } else if name == "add"@ {
        Some((16u8, 1u8))
    } else if name == "sub"@ {
        Some((17u8, 1u8))
    } else if name == "mul"@ {
        Some((18u8, 1u8))
    } else if name == "div"@ {
        Some((19u8, 1u8))
    } else if name == "and"@ {
        Some((20u8, 1u8))
    } else if name == "or"@ {
        Some((21u8, 1u8))
    } else if name == "xor"@ {
        Some((22u8, 1u8))
    } else if name == "lshift"@ || name == "lsh"@ {
        Some((23u8, 0u8))
    } else if name == "rshift"@ || name == "rsh"@ {
        Some((24u8, 0u8))
    } else if name == "andi"@ {
        Some((25u8, 1u8))
    } else if name == "ori"@ {
        Some((26u8, 1u8))
    } else if name == "xori"@ {
        Some((27u8, 1u8))
    } else if name == "comp"@ {
        Some((28u8, 1u8))
    } else if name == "compi"@ {
        Some((29u8, 1u8))
    } else {
        None
    }
}

/// The opcode byte of a mnemonic (its number shifted past the three
/// argument-length bits) and its least number of parameters.
pub open spec fn opcode_of(name: Seq<char>) -> Option<(u8, u8)> {
    match mnemonic(name) {
        Some((op, min)) => Some(((op * 8) as u8, min)),
        None => None,
    }
}

pub fn opcode_chars(name: &Vec<char>) -> (r: Option<(u8, u8)>)
    ensures
        r == opcode_of(name@),
{
    if eq_str(name, "halt") || eq_str(name, "hlt") {
        Some((0u8, 0u8))
    } else if eq_str(name, "jump") {
        Some((8u8, 1u8))
    } else if eq_str(name, "jumpz") || eq_str(name, "jump-zero") || eq_str(name, "jz") {
        Some((16u8, 1u8))
    } else if eq_str(name, "jumpnz") || eq_str(name, "jump-not-zero") || eq_str(name, "jnz") {
        Some((24u8, 1u8))
    } else if eq_str(name, "jumpreg") || eq_str(name, "jump-reg") || eq_str(name, "jr") {
        Some((32u8, 0u8))
    } else if eq_str(name, "jumpi") || eq_str(name, "jump-ind") || eq_str(name, "ji") {
        Some((40u8, 1u8))
    } else if eq_str(name, "line") || eq_str(name, "ln") {
        Some((48u8, 0u8))
    } else if eq_str(name, "load") {
        Some((56u8, 1u8))
    } else if eq_str(name, "read") {
        Some((64u8, 1u8))
    } else if eq_str(name, "write") {
        Some((72u8, 1u8))
    } else if eq_str(name, "readi") || eq_str(name, "read-ind") || eq_str(name, "ri") {
        Some((80u8, 1u8))
    } else if eq_str(name, "writei") || eq_str(name, "write-ind") || eq_str(name, "wi") {
        Some((88u8, 1u8))
    } else if eq_str(name, "incr") {
        Some((96u8, 0u8))
    } else if eq_str(name, "decr") {
        Some((104u8, 0u8))
    } else if eq_str(name, "neg") {
        Some((112u8, 0u8))
    } else if eq_str(name, "not") {
        Some((120u8, 0u8))
    } else if eq_str(name, "add") {
        Some((128u8, 1u8))
    } else if eq_str(name, "sub") {
        Some((136u8, 1u8))
    } else if eq_str(name, "mul") {
        Some((144u8, 1u8))
    } else if eq_str(name, "div") {
        Some((152u8, 1u8))
    } else if eq_str(name, "and") {
        Some((160u8, 1u8))
    } else if eq_str(name, "or") {
        Some((168u8, 1u8))
    } else if eq_str(name, "xor") {
        Some((176u8, 1u8))
    } else if eq_str(name, "lshift") || eq_str(name, "lsh") {
        Some((184u8, 0u8))
    } else if eq_str(name, "rshift") || eq_str(name, "rsh") {
        Some((192u8, 0u8))
    } else if eq_str(name, "andi") {
        Some((200u8, 1u8))
    } else if eq_str(name, "ori") {
        Some((208u8, 1u8))
    } else if eq_str(name, "xori") {
        Some((216u8, 1u8))
    } else if eq_str(name, "comp") {
        Some((224u8, 1u8))
    } else if eq_str(name, "compi") {
        Some((232u8, 1u8))
    } else {
        None
    }
}

/// The opcode byte and least parameter count of a mnemonic, `None` for an
/// unknown one.
pub fn get_opcode(instruction: &str) -> (r: Option<(u8, u8)>)
    ensures
        r == opcode_of(instruction@),
{
    let name = str_chars(instruction);
    opcode_chars(&name)
}

// ---------------------------------------------------------------------------
// Arguments
// ---------------------------------------------------------------------------

/// How many bytes a number is written in: the fewest that hold it.
pub open spec fn byte_width(n: u64) -> nat {
    if n <= 0xff {
        1
    } else if n <= 0xffff {
        2
    } else if n <= 0xff_ffff {
        3
    } else if n <= 0xffff_ffff {
        4
    } else if n <= 0xff_ffff_ffff {
        5
    } else if n <= 0xffff_ffff_ffff {
        6
    } else if n <= 0xff_ffff_ffff_ffff {
        7
    } else {
        8
    }
}

/// The low `w` bytes of `n`, most significant first.
pub open spec fn be_bytes(n: u64, w: nat) -> Seq<u8> {
    Seq::new(w, |i: int| ((n >> ((8 * (w - 1 - i)) as u64)) & 0xffu64) as u8)
}

/// A number as an argument: its `byte_width` bytes, most significant first.
pub open spec fn encode_number(n: u64) -> Seq<u8> {
    be_bytes(n, byte_width(n))
}

/// The bytes of a list of arguments, or the first one that is not a number.
pub open spec fn encode_args(args: Seq<Seq<char>>) -> Result<Seq<u8>, Fault>
    decreases args.len(),
{
    if args.len() == 0 {
        Ok(Seq::empty())
    } else {
        match encode_args(args.drop_last()) {
            Err(e) => Err(e),
            Ok(b) => match parse_u64(args.last()) {
                None => Err(Fault::BadArgument(args.last())),
                Some(n) => Ok(b + encode_number(n)),
            },
        }
    }
}

proof fn lemma_encode_args_err(args: Seq<Seq<char>>, k: int)
    requires
        0 <= k <= args.len(),
        encode_args(args.take(k)) is Err,
    ensures
        encode_args(args) == encode_args(args.take(k)),
    decreases args.len(),
{
    if k < args.len() {
        assert(args.drop_last().take(k) =~= args.take(k));
        lemma_encode_args_err(args.drop_last(), k);
    } else {
        assert(args.take(k) =~= args);
    }
}

fn encode_number_into(out: &mut Vec<u8>, n: u64)
    ensures
        final(out)@ == old(out)@ + encode_number(n),
{
    let w: u64 = if n <= 0xff {
        1
    } else if n <= 0xffff {
        2
    } else if n <= 0xff_ffff {
        3
    } else if n <= 0xffff_ffff {
        4
    } else if n <= 0xff_ffff_ffff {
        5
    } else if n <= 0xffff_ffff_ffff {
        6
    } else if n <= 0xff_ffff_ffff_ffff {
        7
    } else {
        8
    };
    let ghost bs = be_bytes(n, w as nat);
    let mut k: u64 = w;
    assert(bs.take(0) =~= Seq::<u8>::empty());
    while k > 0
        invariant
            k <= w <= 8,
            w == byte_width(n),
            bs == be_bytes(n, w as nat),
            out@ == old(out)@ + bs.take(w - k),
        decreases k,
    {
        k = k - 1;
        let b = ((n >> (k * 8)) & 0xff) as u8;
        assert(bs[w - 1 - k] == b);
        assert(bs.take(w - k) =~= bs.take(w - k - 1).push(b));
        out.push(b);
    }
    assert(bs.take(w as int) =~= bs);
}

fn encode_args_chars(args: &Vec<Vec<char>>) -> (r: Result<Vec<u8>, CompileError>)
    ensures
        bytes_result(r) == encode_args(views(args@)),
{
    let mut out: Vec<u8> = Vec::new();
    let mut i: usize = 0;
    assert(views(args@).take(0) =~= Seq::<Seq<char>>::empty());
    while i < args.len()
        invariant
            i <= args@.len(),
            encode_args(views(args@).take(i as int)) == Ok::<Seq<u8>, Fault>(out@),
        decreases args@.len() - i,
    {
        let ghost pre = views(args@).take(i as int);
        let ghost next = views(args@).take(i + 1);
        assert(next.drop_last() =~= pre);
        assert(next.last() == args@[i as int]@);
        match parse_u64_chars(&args[i]) {
            None => {
                let name = string_from_chars(args[i].clone());
                proof {
                    lemma_encode_args_err(views(args@), i + 1);
                }
                return Err(CompileError::BadArgument(name));
            },
            Some(n) => {
                encode_number_into(&mut out, n);
            },
        }
        i = i + 1;
    }
    assert(views(args@).take(args@.len() as int) =~= views(args@));
    Ok(out)
}

/// The bytes of the arguments, each written in as few bytes as hold it, most
/// significant first; the first argument that is not a decimal `u64` is
/// refused.
pub fn args_to_byte(args: Vec<&str>) -> (r: Result<Vec<u8>, CompileError>)
    ensures
        bytes_result(r) == encode_args(args@.map_values(|a: &str| a@)),
{
    let mut cs: Vec<Vec<char>> = Vec::new();
    let mut i: usize = 0;
    while i < args.len()
        invariant
            i <= args@.len(),
            views(cs@) == args@.map_values(|a: &str| a@).take(i as int),
        decreases args@.len() - i,
    {
        let ghost before = cs@;
        cs.push(str_chars(args[i]));
        assert(views(cs@) =~= views(before).push(args@[i as int]@));
        assert(args@.map_values(|a: &str| a@).take(i + 1) =~= args@.map_values(|a: &str| a@).take(
            i as int,
        ).push(args@[i as int]@));
        i = i + 1;
    }
    assert(args@.map_values(|a: &str| a@).take(args@.len() as int) =~= args@.map_values(
        |a: &str| a@,
    ));
    encode_args_chars(&cs)
}

// ---------------------------------------------------------------------------
// Lines
// ---------------------------------------------------------------------------

/// The bytecode of one line: nothing for an empty or comment line, else the
/// opcode byte, whose low three bits are or-ed with the number of argument
/// bytes, followed by the argument bytes.
pub open spec fn encode_line(line: Seq<char>) -> Result<Seq<u8>, Fault> {
    let l = trim(before_comment(line));
    if l.len() == 0 {
        Ok(Seq::empty())
    } else {
        let instr = keyword(l);
        match opcode_of(instr) {
            None => Err(Fault::UnknownInstruction(instr)),
            Some((op, min)) => {
                let args = arg_words(rest_of(l));
                if min == 0 {
                    if args.len() > 0 {
                        Err(Fault::TakesNoParameters(instr))
                    } else {
                        Ok(seq![op])
                    }
                } else if args.len() < min {
                    Err(Fault::MissingParameters(instr, min))
                } else if args.len() > 8 {
                    Err(Fault::TooManyParameters(instr))
                } else {
                    match encode_args(args) {
                        Err(e) => Err(e),
                        Ok(b) => Ok(seq![op | (b.len() as u8)] + b),
                    }
                }
            },
        }
    }
}

pub fn encode_line_chars(line: &Vec<char>) -> (r: Result<Vec<u8>, CompileError>)
    ensures
        bytes_result(r) == encode_line(line@),
{
    let b = before_comment_chars(line);
    let l = trim_chars(&b);
    if l.len() == 0 {
        return Ok(Vec::new());
    }
    let (instr, rest) = split_keyword(&l);
    match opcode_chars(&instr) {
        None => Err(CompileError::UnknownInstruction(string_from_chars(instr))),
        Some((op, min)) => {
            let args = split_tokens(&rest, true);
            if min == 0 {
                if args.len() > 0 {
                    Err(CompileError::TakesNoParameters(string_from_chars(instr)))
                } else {
                    let mut v: Vec<u8> = Vec::new();
                    v.push(op);
                    assert(v@ =~= seq![op]);
                    Ok(v)
                }
            } else if args.len() < min as usize {
                Err(CompileError::MissingParameters(string_from_chars(instr), min))
            } else if args.len() > 8 {
                Err(CompileError::TooManyParameters(string_from_chars(instr)))
            } else {
                match encode_args_chars(&args) {
                    Err(e) => Err(e),
                    Ok(ab) => {
                        let mut v: Vec<u8> = Vec::new();
                        v.push(op | (ab.len() as u8));
                        let ghost head = v@;
                        let mut ab2 = ab;
                        let ghost abv = ab2@;
                        v.append(&mut ab2);
                        assert(v@ =~= seq![op | (abv.len() as u8)] + abv);
                        Ok(v)
                    },
                }
            }
        },
    }
}

/// Compiles one line of assembly into bytecode.
pub fn compile_line(line: &str) -> (r: Result<Vec<u8>, CompileError>)
    ensures
        bytes_result(r) == encode_line(line@),
{
    let cs = str_chars(line);
    encode_line_chars(&cs)
}

} // verus!
