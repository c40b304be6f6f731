//! Bytecode back to assembly text.
use vstd::prelude::*;

use crate::text::{decimal, push_decimal, push_str, string_from_chars};

verus! {

/// The mnemonic printed for an opcode number, and the kind of its argument:
/// 0 none, 1 data, 2 address, 3 instruction number.
pub open spec fn opcode_name(op: u8) -> (Seq<char>, u8) {
    if op == 0 {
        ("halt"@, 0u8)
    } else if op == 1 {
        ("jump"@, 3u8)
    } else if op == 2 {
        ("jump-zero"@, 3u8)
    } else if op == 3 {
        ("jump-not-zero"@, 3u8)
    } else if op == 4 {
        ("jump-reg"@, 0u8)
    } else if op == 5 {
        ("jump-ind"@, 2u8)
    } else if op == 6 {
        ("line"@, 0u8)
    } else if op == 7 {
        ("load"@, 1u8)
    } else if op == 8 {
        ("read"@, 2u8)
    } else if op == 9 {
        ("write"@, 2u8)
    } else if op == 10 {
        ("readind"@, 2u8)
    } else if op == 11 {
        ("writeind"@, 2u8)
    } else if op == 12 {
        ("incr"@, 0u8)
    } else if op == 13 {
        ("decr"@, 0u8)
    } else if op == 14 {
        ("neg"@, 0u8)
    } else if op == 15 {
        ("not"@, 0u8)
    } else if op == 16 {
        ("add"@, 2u8)
    } else if op == 17 {
        ("sub"@, 2u8)
    } else if op == 18 {
        ("mul"@, 2u8)
    } else if op == 19 {
        ("div"@, 2u8)
    } else if op == 20 {
        ("and"@, 2u8)
    } else if op == 21 {
        ("or"@, 2u8)
    } else if op == 22 {
        ("xor"@, 2u8)
    } else if op == 23 {
        ("lshift"@, 0u8)
    } else if op == 24 {
        ("rshift"@, 0u8)
    } else if op == 25 {
        ("andi"@, 1u8)
    } else if op == 26 {
        ("ori"@, 1u8)
    } else if op == 27 {
        ("xori"@, 1u8)
    } else if op == 28 {
        ("comp"@, 2u8)
    } else if op == 29 {
        ("compi"@, 1u8)
    } else {
        ("unknown"@, 0u8)
    }
}

fn opcode_name_exec(op: u8) -> (r: (&'static str, u8))
    ensures
        (r.0@, r.1) == opcode_name(op),
{
    if op == 0 {
        ("halt", 0u8)
    } else if op == 1 {
        ("jump", 3u8)
    } else if op == 2 {
        ("jump-zero", 3u8)
    } else if op == 3 {
        ("jump-not-zero", 3u8)
    } else if op == 4 {
        ("jump-reg", 0u8)
    } else if op == 5 {
        ("jump-ind", 2u8)
    } else if op == 6 {
        ("line", 0u8)
    } else if op == 7 {
        ("load", 1u8)
    } else if op == 8 {
        ("read", 2u8)
    } else if op == 9 {
        ("write", 2u8)
    } else if op == 10 {
        ("readind", 2u8)
    } else if op == 11 {
        ("writeind", 2u8)
    } else if op == 12 {
        ("incr", 0u8)
    } else if op == 13 {
        ("decr", 0u8)
    } else if op == 14 {
        ("neg", 0u8)
    } else if op == 15 {
        ("not", 0u8)
    } else if op == 16 {
        ("add", 2u8)
    } else if op == 17 {
        ("sub", 2u8)
    } else if op == 18 {
        ("mul", 2u8)
    } else if op == 19 {
        ("div", 2u8)
    } else if op == 20 {
        ("and", 2u8)
    } else if op == 21 {
        ("or", 2u8)
    } else if op == 22 {
        ("xor", 2u8)
    } else if op == 23 {
        ("lshift", 0u8)
    } else if op == 24 {
        ("rshift", 0u8)
    } else if op == 25 {
        ("andi", 1u8)
    } else if op == 26 {
        ("ori", 1u8)
    } else if op == 27 {
        ("xori", 1u8)
    } else if op == 28 {
        ("comp", 2u8)
    } else if op == 29 {
        ("compi", 1u8)
    } else {
        ("unknown", 0u8)
    }
}

/// Powers of 256.
pub open spec fn pow256(k: nat) -> nat
    decreases k,
{
    if k == 0 {
        1
    } else {
        256 * pow256((k - 1) as nat)
    }
}

/// The number that bytes denote least significant first.
pub open spec fn le_value(s: Seq<u8>) -> nat
    decreases s.len(),
{
    if s.len() == 0 {
        0
    } else {
        s[0] as nat + 256 * le_value(s.drop_first())
    }
}

proof fn lemma_pow256_small(k: nat)
    requires
        k <= 7,
    ensures
        pow256(k) <= 0x100_0000_0000_0000,
{
    reveal_with_fuel(pow256, 8);
}

proof fn lemma_pow256_mono(a: nat, b: nat)
    requires
        a <= b,
    ensures
        pow256(a) <= pow256(b),
    decreases b,
{
    if a < b {
        lemma_pow256_mono(a, (b - 1) as nat);
    }
}

/// A list of bytes, each printed after a space.
pub open spec fn byte_list(s: Seq<u8>) -> Seq<char>
    decreases s.len(),
{
    if s.len() == 0 {
        Seq::empty()
    } else {
        byte_list(s.drop_last()) + seq![' '] + decimal(s.last() as nat)
    }
}

/// The argument text of one instruction: data and instruction numbers as one
/// number read least significant byte first; an address as its first byte,
/// then a dash and the rest read least significant byte first.
pub open spec fn arg_text(kind: u8, args: Seq<u8>) -> Seq<char> {
    if args.len() == 0 {
        Seq::empty()
    } else if kind == 1 || kind == 3 {
        seq![' '] + decimal(le_value(args))
    } else if kind == 2 {
        if args.len() == 1 {
            seq![' '] + decimal(args[0] as nat)
        } else {
            seq![' '] + decimal(args[0] as nat) + seq!['-'] + decimal(le_value(args.drop_first()))
        }
    } else {
        byte_list(args)
    }
}

/// Where the instruction that starts at `i` ends: after its opcode byte and
/// as many argument bytes as its low three bits say, or at the end.
pub open spec fn instr_end(bytes: Seq<u8>, i: int) -> int {
    let n = (bytes[i] & 7u8) as int;
    if i + 1 + n <= bytes.len() {
        i + 1 + n
    } else {
        bytes.len() as int
    }
}

/// The text of the instruction that starts at `i`, with its newline.
pub open spec fn instr_text(bytes: Seq<u8>, i: int) -> Seq<char> {
    let (name, kind) = opcode_name(bytes[i] >> 3u8);
    name + arg_text(kind, bytes.subrange(i + 1, instr_end(bytes, i))) + seq!['\n']
}

/// The text of the instructions from byte `i` on.
pub open spec fn decompile_from(bytes: Seq<u8>, i: int) -> Seq<char>
    decreases bytes.len() - i,
{
    if 0 <= i < bytes.len() {
        instr_text(bytes, i) + decompile_from(bytes, instr_end(bytes, i))
    } else {
        Seq::empty()
    }
}

/// The decompiled text of a whole program.
pub open spec fn disassemble(bytes: Seq<u8>) -> Seq<char> {
    decompile_from(bytes, 0)
}

fn le_value_exec(bytes: &[u8], from: usize, to: usize) -> (v: u64)
    requires
        from <= to <= bytes@.len(),
        to - from <= 7,
    ensures
        v == le_value(bytes@.subrange(from as int, to as int)),
{
    let mut v: u64 = 0;
    let mut j: usize = to;
    proof {
        lemma_pow256_small((to - from) as nat);
    }
    while j > from
        invariant
            from <= j <= to <= bytes@.len(),
            to - from <= 7,
            v == le_value(bytes@.subrange(j as int, to as int)),
            v < pow256((to - j) as nat),
            pow256((to - from) as nat) <= 0x100_0000_0000_0000,
        decreases j,
    {
        j = j - 1;
        proof {
            lemma_pow256_mono((to - j) as nat, (to - from) as nat);
            assert(bytes@.subrange(j as int, to as int).drop_first() =~= bytes@.subrange(
                j + 1,
                to as int,
            ));
        }
        assert(v * 256 + 255 < 0x100_0000_0000_0000) by (nonlinear_arith)
            requires
                v < pow256((to - j - 1) as nat),
                pow256((to - j) as nat) == 256 * pow256((to - j - 1) as nat),
                pow256((to - j) as nat) <= 0x100_0000_0000_0000,
        ;
        v = bytes[j] as u64 + 256 * v;
    }
    v
}

fn push_byte_list(out: &mut Vec<char>, bytes: &[u8], from: usize, to: usize)
    requires
        from <= to <= bytes@.len(),
    ensures
        final(out)@ == old(out)@ + byte_list(bytes@.subrange(from as int, to as int)),
{
    let mut j = from;
    assert(bytes@.subrange(from as int, from as int) =~= Seq::<u8>::empty());
    while j < to
        invariant
            from <= j <= to <= bytes@.len(),
            out@ == old(out)@ + byte_list(bytes@.subrange(from as int, j as int)),
        decreases to - j,
    {
        let ghost prev = out@;
        out.push(' ');
        push_decimal(out, bytes[j] as u64);
        assert(bytes@.subrange(from as int, j + 1).drop_last() =~= bytes@.subrange(
            from as int,
            j as int,
        ));
        j = j + 1;
        assert(out@ =~= old(out)@ + byte_list(bytes@.subrange(from as int, j as int)));
    }
}

/// Turns bytecode back into one line of assembly per instruction.
pub fn decompile(bytes: &[u8]) -> (source: String)
    ensures
        source@ == disassemble(bytes@),
{
    let mut out: Vec<char> = Vec::new();
    let mut i: usize = 0;
    while i < bytes.len()
        invariant
            i <= bytes@.len(),
            out@ + decompile_from(bytes@, i as int) == disassemble(bytes@),
        decreases bytes@.len() - i,
    {
        let b = bytes[i];
        let n = (b & 7) as usize;
        assert(b & 7u8 <= 7) by (bit_vector);
        let end = if n <= bytes.len() - i - 1 {
            i + 1 + n
        } else {
            bytes.len()
        };
        assert(end == instr_end(bytes@, i as int));
        let (name, kind) = opcode_name_exec(b >> 3);
        let ghost start_len = out@.len();
        let ghost before = out@;
        push_str(&mut out, name);
        let ghost args = bytes@.subrange(i + 1, end as int);
        if end > i + 1 {
            if kind == 1 || kind == 3 {
                let v = le_value_exec(bytes, i + 1, end);
                out.push(' ');
                push_decimal(&mut out, v);
            } else if kind == 2 {
                out.push(' ');
                push_decimal(&mut out, bytes[i + 1] as u64);
                if end > i + 2 {
                    out.push('-');
                    let v = le_value_exec(bytes, i + 2, end);
                    assert(bytes@.subrange(i + 2, end as int) =~= args.drop_first());
                    push_decimal(&mut out, v);
                }
            } else {
                push_byte_list(&mut out, bytes, i + 1, end);
            }
        }
        out.push('\n');
        assert(out@ =~= before + instr_text(bytes@, i as int));
        i = end;
    }
    string_from_chars(out)
}

} // verus!
