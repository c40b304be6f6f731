//! What the disassembler prints, read back by the assembler; and a `load`
//! line, assembled and run by the controller.
use vstd::prelude::*;

use crate::controller::{execute_effect, execute_faults, instruction_starts, starts_from, Effect};
use crate::decompile::{
    arg_text, byte_list, decompile_from, disassemble, instr_end, instr_text, le_value, opcode_name, pow256,
};
use crate::encode::{be_bytes, byte_width, encode_args, encode_line, encode_number, mnemonic, opcode_of};
use crate::error::Fault;
use crate::text::{
    all_digits, arg_words, before_comment, decimal, digit_char, digit_value, digits_value, is_digit,
    is_ws, keyword, lemma_find_first, lemma_token_state_append, lemma_token_state_plain, parse_u64,
    rest_of, semi_sep, token_state, trim, trim_end, trim_start, ws_or_dash_sep, ws_sep,
};

verus! {

/// The characters of the mnemonics: lower-case letters and dashes.
spec fn name_char(c: char) -> bool {
    let u = c as u32;
    (97 <= u <= 122) || u == 45
}

/// Every mnemonic the disassembler prints is lower-case letters and dashes;
/// each one, but for the two indirect ones, is one the assembler reads as
/// the same opcode.
proof fn lemma_printed_name(op: u8)
    ensures
        opcode_name(op).0.len() > 0,
        forall|i: int|
            0 <= i < opcode_name(op).0.len() ==> name_char(#[trigger] opcode_name(op).0[i]),
        op <= 29 && op != 10 && op != 11 ==> mnemonic(opcode_name(op).0) == Some(
            (op, if opcode_name(op).1 == 0 { 0u8 } else { 1u8 }),
        ),
{
    let name = opcode_name(op).0;
    let min: u8 = if opcode_name(op).1 == 0 { 0 } else { 1 };
    reveal_strlit("add");
    assert("add"@ =~= seq!['a', 'd', 'd']);
    reveal_strlit("and");
    assert("and"@ =~= seq!['a', 'n', 'd']);
    reveal_strlit("andi");
    assert("andi"@ =~= seq!['a', 'n', 'd', 'i']);
    reveal_strlit("comp");
    assert("comp"@ =~= seq!['c', 'o', 'm', 'p']);
    reveal_strlit("compi");
    assert("compi"@ =~= seq!['c', 'o', 'm', 'p', 'i']);
    reveal_strlit("decr");
    assert("decr"@ =~= seq!['d', 'e', 'c', 'r']);
    reveal_strlit("div");
    assert("div"@ =~= seq!['d', 'i', 'v']);
    reveal_strlit("halt");
    assert("halt"@ =~= seq!['h', 'a', 'l', 't']);
    reveal_strlit("hlt");
    assert("hlt"@ =~= seq!['h', 'l', 't']);
    reveal_strlit("incr");
    assert("incr"@ =~= seq!['i', 'n', 'c', 'r']);
    reveal_strlit("ji");
    assert("ji"@ =~= seq!['j', 'i']);
    reveal_strlit("jnz");
    assert("jnz"@ =~= seq!['j', 'n', 'z']);
    reveal_strlit("jr");
    assert("jr"@ =~= seq!['j', 'r']);
    reveal_strlit("jump");
    assert("jump"@ =~= seq!['j', 'u', 'm', 'p']);
    reveal_strlit("jump-ind");
    assert("jump-ind"@ =~= seq!['j', 'u', 'm', 'p', '-', 'i', 'n', 'd']);
    reveal_strlit("jump-not-zero");
    assert("jump-not-zero"@ =~= seq!['j', 'u', 'm', 'p', '-', 'n', 'o', 't', '-', 'z', 'e', 'r', 'o']);
    reveal_strlit("jump-reg");
    assert("jump-reg"@ =~= seq!['j', 'u', 'm', 'p', '-', 'r', 'e', 'g']);
    reveal_strlit("jump-zero");
    assert("jump-zero"@ =~= seq!['j', 'u', 'm', 'p', '-', 'z', 'e', 'r', 'o']);
    reveal_strlit("jumpi");
    assert("jumpi"@ =~= seq!['j', 'u', 'm', 'p', 'i']);
    reveal_strlit("jumpnz");
    assert("jumpnz"@ =~= seq!['j', 'u', 'm', 'p', 'n', 'z']);
    reveal_strlit("jumpreg");
    assert("jumpreg"@ =~= seq!['j', 'u', 'm', 'p', 'r', 'e', 'g']);
    reveal_strlit("jumpz");
    assert("jumpz"@ =~= seq!['j', 'u', 'm', 'p', 'z']);
    reveal_strlit("jz");
    assert("jz"@ =~= seq!['j', 'z']);
    reveal_strlit("line");
    assert("line"@ =~= seq!['l', 'i', 'n', 'e']);
    reveal_strlit("ln");
    assert("ln"@ =~= seq!['l', 'n']);
    reveal_strlit("load");
    assert("load"@ =~= seq!['l', 'o', 'a', 'd']);
    reveal_strlit("lsh");
    assert("lsh"@ =~= seq!['l', 's', 'h']);
    reveal_strlit("lshift");
    assert("lshift"@ =~= seq!['l', 's', 'h', 'i', 'f', 't']);
    reveal_strlit("mul");
    assert("mul"@ =~= seq!['m', 'u', 'l']);
    reveal_strlit("neg");
    assert("neg"@ =~= seq!['n', 'e', 'g']);
    reveal_strlit("not");
    assert("not"@ =~= seq!['n', 'o', 't']);
    reveal_strlit("or");
    assert("or"@ =~= seq!['o', 'r']);
    reveal_strlit("ori");
    assert("ori"@ =~= seq!['o', 'r', 'i']);
    reveal_strlit("read");
    assert("read"@ =~= seq!['r', 'e', 'a', 'd']);
    reveal_strlit("read-ind");
    assert("read-ind"@ =~= seq!['r', 'e', 'a', 'd', '-', 'i', 'n', 'd']);
    reveal_strlit("readi");
    assert("readi"@ =~= seq!['r', 'e', 'a', 'd', 'i']);
    reveal_strlit("readind");
    assert("readind"@ =~= seq!['r', 'e', 'a', 'd', 'i', 'n', 'd']);
    reveal_strlit("ri");
    assert("ri"@ =~= seq!['r', 'i']);
    reveal_strlit("rsh");
    assert("rsh"@ =~= seq!['r', 's', 'h']);
    reveal_strlit("rshift");
    assert("rshift"@ =~= seq!['r', 's', 'h', 'i', 'f', 't']);
    reveal_strlit("sub");
    assert("sub"@ =~= seq!['s', 'u', 'b']);
    reveal_strlit("unknown");
    assert("unknown"@ =~= seq!['u', 'n', 'k', 'n', 'o', 'w', 'n']);
    reveal_strlit("wi");
    assert("wi"@ =~= seq!['w', 'i']);
    reveal_strlit("write");
    assert("write"@ =~= seq!['w', 'r', 'i', 't', 'e']);
    reveal_strlit("write-ind");
    assert("write-ind"@ =~= seq!['w', 'r', 'i', 't', 'e', '-', 'i', 'n', 'd']);
    reveal_strlit("writei");
    assert("writei"@ =~= seq!['w', 'r', 'i', 't', 'e', 'i']);
    reveal_strlit("writeind");
    assert("writeind"@ =~= seq!['w', 'r', 'i', 't', 'e', 'i', 'n', 'd']);
    reveal_strlit("xor");
    assert("xor"@ =~= seq!['x', 'o', 'r']);
    reveal_strlit("xori");
    assert("xori"@ =~= seq!['x', 'o', 'r', 'i']);
    if op == 0 {
        assert(mnemonic(name) == Some((op, min)));
    }
    if op == 1 {
        assert(mnemonic(name) == Some((op, min)));
    }
    if op == 2 {
        assert(mnemonic(name) == Some((op, min)));
    }
    if op == 3 {
        assert(mnemonic(name) == Some((op, min)));
    }
    if op == 4 {
        assert(mnemonic(name) == Some((op, min)));
    }
    if op == 5 {
        assert(mnemonic(name) == Some((op, min)));
    }
    if op == 6 {
        assert(mnemonic(name) == Some((op, min)));
    }
    if op == 7 {
        assert(mnemonic(name) == Some((op, min)));
    }
    if op == 8 {
        assert(mnemonic(name) == Some((op, min)));
    }
    if op == 9 {
        assert(mnemonic(name) == Some((op, min)));
    }
    if op == 12 {
        assert(mnemonic(name) == Some((op, min)));
    }
    if op == 13 {
        assert(mnemonic(name) == Some((op, min)));
    }
    if op == 14 {
        assert(mnemonic(name) == Some((op, min)));
    }
    if op == 15 {
        assert(mnemonic(name) == Some((op, min)));
    }
    if op == 16 {
        assert(mnemonic(name) == Some((op, min)));
    }
    if op == 17 {
        assert(mnemonic(name) == Some((op, min)));
    }
    if op == 18 {
        assert(mnemonic(name) == Some((op, min)));
    }
    if op == 19 {
        assert(mnemonic(name) == Some((op, min)));
    }
    if op == 20 {
        assert(mnemonic(name) == Some((op, min)));
    }
    if op == 21 {
        assert(mnemonic(name) == Some((op, min)));
    }
    if op == 22 {
        assert(mnemonic(name) == Some((op, min)));
    }
    if op == 23 {
        assert(mnemonic(name) == Some((op, min)));
    }
    if op == 24 {
        assert(mnemonic(name) == Some((op, min)));
    }
    if op == 25 {
        assert(mnemonic(name) == Some((op, min)));
    }
    if op == 26 {
        assert(mnemonic(name) == Some((op, min)));
    }
    if op == 27 {
        assert(mnemonic(name) == Some((op, min)));
    }
    if op == 28 {
        assert(mnemonic(name) == Some((op, min)));
    }
    if op == 29 {
        assert(mnemonic(name) == Some((op, min)));
    }
}

/// The decimal digits of a number are digits and denote it.
proof fn lemma_decimal(n: nat)
    ensures
        decimal(n).len() > 0,
        all_digits(decimal(n)),
        digits_value(decimal(n)) == n,
    decreases n,
{
    let c = digit_char(n % 10);
    assert(is_digit(c) && digit_value(c) == n % 10);
    if n >= 10 {
        lemma_decimal(n / 10);
        let s = decimal(n);
        assert(s.drop_last() =~= decimal(n / 10));
        assert forall|i: int| 0 <= i < s.len() implies is_digit(s[i]) by {
            if i < s.len() - 1 {
                assert(s[i] == decimal(n / 10)[i]);
            }
        }
        assert(s.last() == c);
        assert(digits_value(s) == digits_value(decimal(n / 10)) * 10 + n % 10);
        assert((n / 10) * 10 + n % 10 == n) by (nonlinear_arith);
        assert(digits_value(decimal(n)) == n);
    } else {
        assert(n % 10 == n);
        assert(decimal(n).last() == c);
        assert(decimal(n).drop_last() =~= Seq::<char>::empty());
        assert(digits_value(Seq::<char>::empty()) == 0);
    }
}

/// A number printed in decimal reads back as itself.
proof fn lemma_parse_decimal(x: u64)
    ensures
        parse_u64(decimal(x as nat)) == Some(x),
{
    lemma_decimal(x as nat);
    assert(is_digit(decimal(x as nat)[0]));
}

/// Text that neither starts nor ends with whitespace is its own trim.
proof fn lemma_trim_unchanged(s: Seq<char>)
    requires
        s.len() > 0,
        !is_ws(s[0]),
        !is_ws(s.last()),
    ensures
        trim(s) == s,
{
    assert(trim_start(s) == s);
    assert(trim_end(s) == s);
}

proof fn lemma_pow256_values()
    ensures
        pow256(0) == 1,
        pow256(1) == 0x100,
        pow256(2) == 0x1_0000,
        pow256(3) == 0x100_0000,
        pow256(4) == 0x1_0000_0000,
        pow256(5) == 0x100_0000_0000,
        pow256(6) == 0x1_0000_0000_0000,
        pow256(7) == 0x100_0000_0000_0000,
{
    reveal_with_fuel(pow256, 8);
}

/// The bytes of a number read least significant first are the number's
/// bytes, lowest first.
proof fn lemma_le_value_bytes(g: Seq<u8>)
    requires
        g.len() <= 7,
    ensures
        le_value(g) < pow256(g.len()),
        forall|j: int|
            0 <= j < g.len() ==> (((le_value(g) as u64) >> ((8 * j) as u64)) & 0xffu64) as u8
                == #[trigger] g[j],
    decreases g.len(),
{
    lemma_pow256_values();
    if g.len() > 0 {
        let r = g.drop_first();
        lemma_le_value_bytes(r);
        let w = le_value(r);
        let v = le_value(g);
        assert(v == g[0] + 256 * w);
        assert(pow256(g.len()) == 256 * pow256(r.len()));
        assert(w < 0x1_0000_0000_0000);
        let wu = w as u64;
        let vu = v as u64;
        let g0 = g[0] as u64;
        assert(vu == g0 + 256 * wu);
        assert((vu >> 8u64) == wu && (vu & 0xffu64) == g0) by (bit_vector)
            requires
                vu == g0 + 256 * wu,
                g0 < 256,
                wu < 0x1_0000_0000_0000,
        ;
        assert forall|j: int| 0 <= j < g.len() implies (((v as u64) >> ((8 * j) as u64)) & 0xffu64) as u8
            == #[trigger] g[j] by {
            if j == 0 {
                assert((vu >> 0u64) == vu) by (bit_vector);
                let h = g[0];
                assert((g0 & 0xffu64) as u8 == h) by (bit_vector)
                    requires
                        g0 == h as u64,
                ;
            } else {
                let s: u64 = (8 * (j - 1)) as u64;
                let t: u64 = (8 * j) as u64;
                assert(t == s + 8);
                assert((vu >> t) == ((vu >> 8u64) >> s)) by (bit_vector)
                    requires
                        t == s + 8,
                        s <= 48,
                ;
                assert(g[j] == r[j - 1]);
            }
        }
    }
}

/// A number that takes `k` bytes, its top byte not zero, is written in `k`
/// bytes.
proof fn lemma_byte_width(v: u64, k: nat)
    requires
        1 <= k <= 7,
        v < pow256(k),
        k >= 2 ==> v >= pow256((k - 1) as nat),
    ensures
        byte_width(v) == k,
{
    lemma_pow256_values();
}

/// The least-significant-first value is at least the top byte's weight.
proof fn lemma_le_value_top(g: Seq<u8>)
    requires
        g.len() >= 1,
    ensures
        le_value(g) >= g.last() * pow256((g.len() - 1) as nat),
    decreases g.len(),
{
    if g.len() >= 2 {
        let r = g.drop_first();
        lemma_le_value_top(r);
        assert(r.last() == g.last());
        let k = (g.len() - 1) as nat;
        assert(pow256(k) == 256 * pow256((k - 1) as nat));
        let x = g.last() as int;
        let p = pow256((k - 1) as nat) as int;
        assert(le_value(g) == g[0] + 256 * le_value(r));
        assert(256 * le_value(r) >= 256 * (x * p)) by (nonlinear_arith)
            requires
                le_value(r) >= x * p,
        ;
        assert(x * (256 * p) == 256 * (x * p)) by (nonlinear_arith);
        assert(le_value(g) >= x * pow256(k));
    } else {
        assert(g.drop_first() =~= Seq::<u8>::empty());
        assert(le_value(g.drop_first()) == 0);
        assert(pow256(0) == 1);
        assert(g.last() * pow256(0) == g.last());
    }
}

/// Argument bytes that read the same least significant first, as the
/// disassembler prints them, and most significant first, as the assembler
/// writes them: a palindrome whose top byte is not zero, or a single byte.
pub open spec fn symmetric_number(g: Seq<u8>) -> bool {
    &&& 1 <= g.len() <= 7
    &&& forall|i: int| 0 <= i < g.len() ==> #[trigger] g[i] == g[g.len() - 1 - i]
    &&& (g.len() == 1 || g.last() != 0)
}

proof fn lemma_symmetric_number(g: Seq<u8>)
    requires
        symmetric_number(g),
    ensures
        le_value(g) <= u64::MAX,
        encode_number(le_value(g) as u64) == g,
{
    let k = g.len();
    lemma_le_value_bytes(g);
    lemma_pow256_values();
    let v = le_value(g) as u64;
    if k >= 2 {
        lemma_le_value_top(g);
        assert(g.last() * pow256((k - 1) as nat) >= pow256((k - 1) as nat)) by (nonlinear_arith)
            requires
                g.last() >= 1,
        ;
    }
    lemma_byte_width(v, k);
    let e = be_bytes(v, k);
    assert forall|i: int| 0 <= i < k implies e[i] == g[i] by {
        let j = k - 1 - i;
        assert(g[j] == g[i]);
        assert(e[i] == (((le_value(g) as u64) >> ((8 * j) as u64)) & 0xffu64) as u8);
    }
    assert(e =~= g);
}


/// Text printed for arguments: digits and dashes, starting and ending with
/// a digit.
spec fn number_text(r: Seq<char>) -> bool {
    &&& r.len() > 0
    &&& is_digit(r[0])
    &&& is_digit(r.last())
    &&& forall|i: int| 0 <= i < r.len() ==> is_digit(#[trigger] r[i]) || r[i] == '-'
}

/// A printed line, a mnemonic then possibly a space and numbers, reads back
/// as that mnemonic and those numbers.
proof fn lemma_printed_line(name: Seq<char>, r: Seq<char>)
    requires
        name.len() > 0,
        forall|i: int| 0 <= i < name.len() ==> name_char(#[trigger] name[i]),
        r.len() == 0 || number_text(r),
    ensures
        ({
            let l = if r.len() == 0 { name } else { name + seq![' '] + r };
            &&& trim(before_comment(l + seq!['\n'])) == l
            &&& trim(before_comment(l)) == l
            &&& keyword(l) == name
            &&& rest_of(l) == r
        }),
{
    let a: Seq<char> = if r.len() == 0 { Seq::empty() } else { seq![' '] + r };
    let l = name + a;
    assert(l =~= if r.len() == 0 { name } else { name + seq![' '] + r });
    let line = l + seq!['\n'];
    assert forall|i: int| 0 <= i < line.len() implies !semi_sep()(#[trigger] line[i]) by {
        if i < name.len() {
            assert(line[i] == name[i]);
        } else if i < l.len() {
            assert(line[i] == a[i - name.len()]);
            if i > name.len() {
                assert(a[i - name.len()] == r[i - name.len() - 1]);
            }
        }
    }
    lemma_find_first(line, semi_sep(), line.len() as int);
    assert(before_comment(line) =~= line);
    assert forall|i: int| 0 <= i < l.len() implies !semi_sep()(#[trigger] l[i]) by {
        assert(l[i] == line[i]);
    }
    lemma_find_first(l, semi_sep(), l.len() as int);
    assert(before_comment(l) =~= l);
    assert(line.drop_last() =~= l);
    assert(!is_ws(l[0]));
    assert(!is_ws(l.last())) by {
        if r.len() > 0 {
            assert(l.last() == r.last());
        } else {
            assert(l.last() == name.last());
        }
    }
    assert(trim_start(line) == line);
    assert(trim_end(line) == trim_end(l));
    lemma_trim_unchanged(l);
    assert forall|j: int| 0 <= j < name.len() implies !ws_sep()(#[trigger] l[j]) by {
        assert(l[j] == name[j]);
    }
    lemma_find_first(l, ws_sep(), name.len() as int);
    assert(keyword(l) =~= name);
    if r.len() > 0 {
        assert(l.skip(name.len() + 1int) =~= r);
        lemma_trim_unchanged(r);
    }
}

/// The argument words of one number, or of two joined by a dash.
proof fn lemma_number_words(d1: Seq<char>, d2: Seq<char>)
    requires
        d1.len() > 0,
        d2.len() > 0,
        all_digits(d1),
        all_digits(d2),
    ensures
        arg_words(d1) == seq![d1],
        arg_words(d1 + seq!['-'] + d2) == seq![d1, d2],
{
    lemma_token_state_plain(d1, ws_or_dash_sep());
    let h = d1 + seq!['-'];
    assert(h.drop_last() =~= d1);
    assert(token_state(h, ws_or_dash_sep()) == (seq![d1], Seq::<char>::empty()));
    lemma_token_state_plain(d2, ws_or_dash_sep());
    lemma_token_state_append(h, d2, ws_or_dash_sep());
    assert(seq![d1] + Seq::<Seq<char>>::empty() =~= seq![d1]);
    assert(Seq::<Seq<char>>::empty().push(d1) =~= seq![d1]);
    assert(seq![d1].push(d2) =~= seq![d1, d2]);
}

/// The bytes of the arguments one number or two numbers are written in.
proof fn lemma_number_args(v1: u64, v2: u64)
    ensures
        encode_args(seq![decimal(v1 as nat)]) == Ok::<Seq<u8>, Fault>(encode_number(v1)),
        encode_args(seq![decimal(v1 as nat), decimal(v2 as nat)]) == Ok::<Seq<u8>, Fault>(
            encode_number(v1) + encode_number(v2),
        ),
{
    let d1 = decimal(v1 as nat);
    let d2 = decimal(v2 as nat);
    lemma_parse_decimal(v1);
    lemma_parse_decimal(v2);
    assert(encode_args(Seq::<Seq<char>>::empty()) == Ok::<Seq<u8>, Fault>(Seq::empty()));
    assert(seq![d1].drop_last() =~= Seq::<Seq<char>>::empty());
    assert(seq![d1].last() == d1);
    assert(Seq::<u8>::empty() + encode_number(v1) =~= encode_number(v1));
    assert(seq![d1, d2].drop_last() =~= seq![d1]);
    assert(seq![d1, d2].last() == d2);
}


/// An instruction that the disassembler prints in the assembler's own
/// syntax: a known opcode whose printed mnemonic the assembler accepts, with
/// as many argument bytes as its low three bits say; none for an opcode
/// without arguments; for data and instruction numbers one number whose
/// bytes read the same either way round; for an address one byte, then
/// possibly such a number.
pub open spec fn plain_instruction(b: Seq<u8>) -> bool {
    let op = b[0] >> 3u8;
    let n = b[0] & 7u8;
    let kind = opcode_name(op).1;
    let args = b.subrange(1, b.len() as int);
    &&& b.len() >= 1
    &&& op <= 29
    &&& op != 10
    &&& op != 11
    &&& b.len() == 1 + n
    &&& kind == 0 ==> n == 0
    &&& (kind == 1 || kind == 3) ==> symmetric_number(args)
    &&& kind == 2 ==> n >= 1 && (n == 1 || symmetric_number(args.drop_first()))
}

/// The disassembly of a plain instruction: its mnemonic, then a space and
/// the numbers, one for a data or instruction number, and one or two joined
/// by a dash for an address.
proof fn lemma_plain_text(b: Seq<u8>)
    requires
        plain_instruction(b),
    ensures
        ({
            let op = b[0] >> 3u8;
            let n = b[0] & 7u8;
            let kind = opcode_name(op).1;
            let args = b.subrange(1, b.len() as int);
            let g1: Seq<u8> = if kind == 2 { seq![args[0]] } else { args };
            let g2 = args.drop_first();
            let d1 = decimal(le_value(g1));
            let d2 = decimal(le_value(g2));
            let r: Seq<char> = if n == 0 {
                Seq::empty()
            } else if kind == 2 && n >= 2 {
                d1 + seq!['-'] + d2
            } else {
                d1
            };
            &&& n > 0 ==> symmetric_number(g1)
            &&& kind == 2 && n >= 2 ==> symmetric_number(g2)
            &&& disassemble(b) == (if n == 0 { opcode_name(op).0 } else { opcode_name(op).0
                + seq![' '] + r }) + seq!['\n']
        }),
{
    let op = b[0] >> 3u8;
    let n = b[0] & 7u8;
    let kind = opcode_name(op).1;
    let args = b.subrange(1, b.len() as int);
    assert(instr_end(b, 0) == b.len());
    assert(decompile_from(b, b.len() as int) == Seq::<char>::empty());
    assert(disassemble(b) == instr_text(b, 0) + decompile_from(b, b.len() as int));
    if kind == 2 && n >= 1 {
        assert(seq![args[0]].drop_first() =~= Seq::<u8>::empty());
        assert(le_value(Seq::<u8>::empty()) == 0);
        assert(le_value(seq![args[0]]) == args[0] as nat);
        assert(seq![args[0]].len() == 1);
    }
    let name = opcode_name(op).0;
    assert(disassemble(b) =~= name + arg_text(kind, args) + seq!['\n']);
}

/// Assembling the disassembly of an instruction gives the instruction back,
/// whenever the disassembler prints it in the assembler's own syntax; and
/// no bytes disassemble to no text, which assembles to no bytes.
pub proof fn law_disassembly_reassembles(b: Seq<u8>)
    requires
        b.len() == 0 || plain_instruction(b),
    ensures
        encode_line(disassemble(b)) == Ok::<Seq<u8>, Fault>(b),
{
    if b.len() == 0 {
        assert(disassemble(b) == Seq::<char>::empty());
        lemma_find_first(Seq::<char>::empty(), semi_sep(), 0);
        assert(before_comment(Seq::<char>::empty()) =~= Seq::<char>::empty());
        assert(trim(Seq::<char>::empty()) == Seq::<char>::empty());
        assert(b =~= Seq::<u8>::empty());
    } else {
        let b0 = b[0];
        let op = b0 >> 3u8;
        let n = b0 & 7u8;
        let name = opcode_name(op).0;
        let kind = opcode_name(op).1;
        let args = b.subrange(1, b.len() as int);
        let two = kind == 2 && n >= 2;
        let g1: Seq<u8> = if kind == 2 { seq![args[0]] } else { args };
        let g2 = args.drop_first();
        lemma_plain_text(b);
        lemma_printed_name(op);
        let min: u8 = if kind == 0 { 0 } else { 1 };
        assert(mnemonic(name) == Some((op, min)));
        if n > 0 {
            lemma_symmetric_number(g1);
        }
        if two {
            lemma_symmetric_number(g2);
        }
        let v1 = le_value(g1) as u64;
        let v2 = le_value(g2) as u64;
        let d1 = decimal(v1 as nat);
        let d2 = decimal(v2 as nat);
        lemma_decimal(v1 as nat);
        lemma_decimal(v2 as nat);
        lemma_number_words(d1, d2);
        lemma_number_args(v1, v2);
        let r: Seq<char> = if n == 0 {
            Seq::empty()
        } else if two {
            d1 + seq!['-'] + d2
        } else {
            d1
        };
        assert(r.len() == 0 || number_text(r)) by {
            if two {
                assert forall|i: int| 0 <= i < r.len() implies is_digit(#[trigger] r[i]) || r[i]
                    == '-' by {
                    if i >= d1.len() + 1 {
                        assert(r[i] == d2[i - d1.len() - 1]);
                    } else if i < d1.len() {
                        assert(r[i] == d1[i]);
                    }
                }
            }
        }
        lemma_printed_line(name, r);
        let l = if r.len() == 0 { name } else { name + seq![' '] + r };
        assert(disassemble(b) == l + seq!['\n']);
        assert(trim(before_comment(disassemble(b))) == l);
        assert(keyword(l) == name);
        assert(rest_of(l) == r);
        assert(opcode_of(name) == Some((((op * 8) as u8), min)));
        assert(((b0 >> 3u8) * 8) as u8 | (b0 & 7u8) == b0) by (bit_vector);
        if n == 0 {
            assert((b0 & 7u8) == 0 ==> ((b0 >> 3u8) * 8) as u8 == b0) by (bit_vector);
            assert(arg_words(Seq::<char>::empty()) == Seq::<Seq<char>>::empty());
            assert(b =~= seq![b0]);
        } else if two {
            assert(b =~= seq![b0] + (g1 + g2));
        } else {
            assert(b =~= seq![b0] + g1);
        }
    }
}

/// A `load` line with a number below 2^56, assembled and then executed,
/// sets the register to that number and changes nothing else; it never
/// overflows or divides by zero.
pub proof fn law_load_sets_register(
    n: u64,
    register: u64,
    ip: usize,
    halted: bool,
    memories: Seq<usize>,
    pool: Seq<Seq<u64>>,
)
    requires
        n < 0x100_0000_0000_0000,
    ensures
        encode_line("load "@ + decimal(n as nat)) matches Ok(b) && {
            &&& b.len() > 0
            &&& !execute_faults(register, memories, pool, b)
            &&& execute_effect(register, ip, halted, memories, pool, b) == Effect {
                register: n,
                ip,
                halted,
                pool,
            }
        },
{
    reveal_strlit("load ");
    reveal_strlit("load");
    let name = opcode_name(7).0;
    assert(name == "load"@);
    lemma_printed_name(7);
    let d = decimal(n as nat);
    lemma_decimal(n as nat);
    assert(number_text(d));
    lemma_printed_line(name, d);
    let l = name + seq![' '] + d;
    assert("load "@ + d =~= l);
    lemma_number_words(d, d);
    lemma_number_args(n, n);
    let w = byte_width(n);
    assert(w <= 7);
    let e = encode_number(n);
    let first = (56u8 | (w as u8)) as u8;
    let b = seq![first] + e;
    assert(opcode_of(name) == Some((56u8, 1u8)));
    assert(encode_line(l) == Ok::<Seq<u8>, Fault>(b));
    let wb = w as u8;
    assert(wb <= 7 ==> (56u8 | wb) >> 3u8 == 7u8) by (bit_vector);
    assert(b[0] >> 3u8 == 7u8);
    assert(b.drop_first() =~= e);
    crate::laws::law_number_round_trip(n);
}

/// The opcode numbers the assembler knows, and which of them take
/// parameters, agree with the disassembler's table.
proof fn lemma_mnemonic_kind(name: Seq<char>)
    requires
        mnemonic(name) is Some,
    ensures
        ({
            let (o, min) = mnemonic(name)->0;
            &&& o <= 29
            &&& (min == 0) == (opcode_name(o).1 == 0)
        }),
{
}

/// Arguments below 256 are written one byte each.
proof fn lemma_small_args(args: Seq<Seq<char>>)
    requires
        encode_args(args) is Ok,
        forall|i: int|
            0 <= i < args.len() ==> (parse_u64(#[trigger] args[i]) matches Some(v) ==> v < 256),
    ensures
        encode_args(args)->Ok_0.len() == args.len(),
    decreases args.len(),
{
    if args.len() > 0 {
        let a = args.drop_last();
        assert forall|i: int| 0 <= i < a.len() implies (parse_u64(#[trigger] a[i]) matches Some(
            v,
        ) ==> v < 256) by {
            assert(a[i] == args[i]);
        }
        lemma_small_args(a);
        assert(args.last() == args[args.len() - 1]);
    }
}

/// A line the assembler accepts, whose arguments are each below 256 and
/// are at most one for a data or instruction number and at most two for an
/// address, and whose instruction is not an indirect read or write,
/// disassembles to text that assembles back to the same bytes.
pub proof fn law_compiled_line_reassembles(line: Seq<char>, b: Seq<u8>)
    requires
        encode_line(line) == Ok::<Seq<u8>, Fault>(b),
        b.len() > 0,
        b[0] >> 3u8 != 10,
        b[0] >> 3u8 != 11,
        ({
            let args = arg_words(rest_of(trim(before_comment(line))));
            let kind = opcode_name(b[0] >> 3u8).1;
            &&& forall|i: int|
                0 <= i < args.len() ==> (parse_u64(#[trigger] args[i]) matches Some(v) ==> v
                    < 256)
            &&& args.len() <= (if kind == 1 || kind == 3 {
                1int
            } else {
                2int
            })
        }),
    ensures
        encode_line(disassemble(b)) == Ok::<Seq<u8>, Fault>(b),
{
    let t = trim(before_comment(line));
    let instr = keyword(t);
    let args = arg_words(rest_of(t));
    lemma_mnemonic_kind(instr);
    let (o, min) = mnemonic(instr)->0;
    let op8 = (o * 8) as u8;
    let kind = opcode_name(o).1;
    if min == 0 {
        assert(b =~= seq![op8]);
        assert(o <= 29 ==> ((o * 8) as u8) >> 3u8 == o && ((o * 8) as u8) & 7u8 == 0)
            by (bit_vector);
    } else {
        lemma_small_args(args);
        let ab = encode_args(args)->Ok_0;
        let k = ab.len() as u8;
        assert(k <= 2);
        assert(b =~= seq![op8 | k] + ab);
        assert(o <= 29 && k <= 7 ==> ((o * 8) as u8 | k) >> 3u8 == o && ((o * 8) as u8 | k)
            & 7u8 == k) by (bit_vector);
        assert(b.subrange(1, b.len() as int) =~= ab);
        if ab.len() == 2 {
            assert(ab.drop_first().len() == 1);
        }
    }
    assert(plain_instruction(b));
    law_disassembly_reassembles(b);
}

/// The number of newline characters in a text.
pub open spec fn newlines(s: Seq<char>) -> nat
    decreases s.len(),
{
    if s.len() == 0 {
        0
    } else {
        newlines(s.drop_last()) + if s.last() == '\n' {
            1nat
        } else {
            0nat
        }
    }
}

proof fn lemma_newlines_concat(a: Seq<char>, b: Seq<char>)
    ensures
        newlines(a + b) == newlines(a) + newlines(b),
    decreases b.len(),
{
    if b.len() == 0 {
        assert(a + b =~= a);
    } else {
        assert((a + b).drop_last() =~= a + b.drop_last());
        assert((a + b).last() == b.last());
        lemma_newlines_concat(a, b.drop_last());
    }
}

proof fn lemma_no_newlines(s: Seq<char>)
    requires
        forall|i: int| 0 <= i < s.len() ==> #[trigger] s[i] != '\n',
    ensures
        newlines(s) == 0,
    decreases s.len(),
{
    if s.len() > 0 {
        assert(s.last() == s[s.len() - 1]);
        assert forall|i: int| 0 <= i < s.drop_last().len() implies #[trigger] s.drop_last()[i]
            != '\n' by {
            assert(s.drop_last()[i] == s[i]);
        }
        lemma_no_newlines(s.drop_last());
    }
}

/// A list of bytes is printed as spaces and digits.
proof fn lemma_byte_list_chars(s: Seq<u8>)
    ensures
        forall|i: int|
            0 <= i < byte_list(s).len() ==> #[trigger] byte_list(s)[i] == ' ' || is_digit(
                byte_list(s)[i],
            ),
    decreases s.len(),
{
    if s.len() > 0 {
        lemma_byte_list_chars(s.drop_last());
        let p = byte_list(s.drop_last());
        let d = decimal(s.last() as nat);
        lemma_decimal(s.last() as nat);
        let t = byte_list(s);
        assert(t == p + seq![' '] + d);
        assert forall|i: int| 0 <= i < t.len() implies #[trigger] t[i] == ' ' || is_digit(t[i]) by {
            if i < p.len() {
                assert(t[i] == p[i]);
            } else if i > p.len() {
                assert(t[i] == d[i - p.len() - 1]);
            }
        }
    }
}

/// The text of one instruction is one line: a single newline, at its end.
proof fn lemma_instr_text_line(bytes: Seq<u8>, i: int)
    requires
        0 <= i < bytes.len(),
    ensures
        newlines(instr_text(bytes, i)) == 1,
        instr_text(bytes, i).last() == '\n',
{
    let op = bytes[i] >> 3u8;
    let name = opcode_name(op).0;
    let kind = opcode_name(op).1;
    lemma_printed_name(op);
    let args = bytes.subrange(i + 1, instr_end(bytes, i));
    let a = arg_text(kind, args);
    assert forall|j: int| 0 <= j < name.len() implies #[trigger] name[j] != '\n' by {
        assert(name_char(name[j]));
    }
    lemma_no_newlines(name);
    let d0 = decimal(le_value(args));
    let d1 = decimal(args[0] as nat);
    let d2 = decimal(le_value(args.drop_first()));
    lemma_decimal(le_value(args));
    lemma_decimal(args[0] as nat);
    lemma_decimal(le_value(args.drop_first()));
    lemma_byte_list_chars(args);
    assert forall|j: int| 0 <= j < a.len() implies #[trigger] a[j] != '\n' by {
        if args.len() > 0 {
            if kind == 1 || kind == 3 {
                if j > 0 {
                    assert(a[j] == d0[j - 1]);
                }
            } else if kind == 2 {
                if j > 0 && j <= d1.len() {
                    assert(a[j] == d1[j - 1]);
                } else if j > d1.len() + 1 {
                    assert(a[j] == d2[j - d1.len() - 2]);
                }
            } else {
                assert(a[j] == byte_list(args)[j]);
            }
        }
    }
    lemma_no_newlines(a);
    lemma_newlines_concat(name, a);
    lemma_newlines_concat(name + a, seq!['\n']);
    assert(seq!['\n'].drop_last() =~= Seq::<char>::empty());
    assert(newlines(Seq::<char>::empty()) == 0);
    assert(seq!['\n'].last() == '\n');
    assert(newlines(seq!['\n']) == 1);
}

proof fn lemma_decompile_lines(bytes: Seq<u8>, i: int)
    requires
        0 <= i,
    ensures
        decompile_from(bytes, i).len() == 0 || decompile_from(bytes, i).last() == '\n',
        newlines(decompile_from(bytes, i)) == starts_from(bytes, i).len(),
    decreases bytes.len() - i,
{
    if i < bytes.len() {
        let e = instr_end(bytes, i);
        let b = bytes[i];
        assert(b & 7u8 == b % 8) by (bit_vector);
        lemma_decompile_lines(bytes, e);
        let next = i + 1 + (bytes[i] % 8) as int;
        if next > bytes.len() {
            assert(e == bytes.len());
            assert(starts_from(bytes, next) == Seq::<int>::empty());
            assert(starts_from(bytes, e) == Seq::<int>::empty());
        } else {
            assert(e == next);
        }
        lemma_instr_text_line(bytes, i);
        lemma_newlines_concat(instr_text(bytes, i), decompile_from(bytes, e));
        assert(starts_from(bytes, i) == seq![i] + starts_from(bytes, next));
    }
}

/// The disassembly is one line per instruction the controller finds in the
/// same bytes: it has as many newlines as the program has instruction
/// starts, and it is empty or ends with a newline.
pub proof fn law_disassembly_lines(bytes: Seq<u8>)
    ensures
        disassemble(bytes).len() == 0 || disassemble(bytes).last() == '\n',
        newlines(disassemble(bytes)) == instruction_starts(bytes).len(),
{
    lemma_decompile_lines(bytes, 0);
}

/// Operations without an argument: halt, jump-reg, line, incr, decr, neg,
/// not, lshift, rshift.
pub open spec fn no_operand(op: u8) -> bool {
    op == 0 || op == 4 || op == 6 || op == 12 || op == 13 || op == 14 || op == 15 || op == 23
        || op == 24
}

/// Operations whose argument is a number: the jumps to an instruction
/// number, load, andi, ori, xori, compi.
pub open spec fn number_operand(op: u8) -> bool {
    op == 1 || op == 2 || op == 3 || op == 7 || op == 25 || op == 26 || op == 27 || op == 29
}

/// Operations whose argument is a memory address: jump-ind, read, write,
/// add, sub, mul, div, and, or, xor, comp.
pub open spec fn address_operand(op: u8) -> bool {
    op == 5 || op == 8 || op == 9 || (16 <= op <= 22) || op == 28
}

/// Every instruction the assembler writes from one small argument, or, for
/// an operation on memory, from an address of one or two small parts,
/// disassembles to text that assembles back to it: the disassembler names
/// every operation (but the two indirect ones) as the assembler does and
/// prints each kind of argument in the assembler's syntax.
pub proof fn law_every_operation_reassembles(b: Seq<u8>)
    requires
        b.len() >= 1,
        b.len() == 1 + (b[0] & 7u8),
        ({
            let op = b[0] >> 3u8;
            let n = b[0] & 7u8;
            ||| no_operand(op) && n == 0
            ||| number_operand(op) && n == 1
            ||| address_operand(op) && (n == 1 || n == 2)
        }),
    ensures
        encode_line(disassemble(b)) == Ok::<Seq<u8>, Fault>(b),
{
    let op = b[0] >> 3u8;
    let n = b[0] & 7u8;
    let args = b.subrange(1, b.len() as int);
    if n >= 1 {
        assert(args.len() >= 1);
        assert(symmetric_number(seq![args[args.len() - 1]]));
        if n == 1 {
            assert(args =~= seq![args[0]]);
        } else {
            assert(args.drop_first() =~= seq![args[1]]);
        }
    }
    assert(plain_instruction(b));
    law_disassembly_reassembles(b);
}

/// What the disassembler prints for a name the assembler accepts: the name
/// itself, or for an abbreviation the name it stands for (the indirect read
/// and write printed as `readind` and `writeind`).
pub open spec fn spelled_out(n: Seq<char>) -> Seq<char> {
    if n == "hlt"@ {
        "halt"@
    } else if n == "jumpz"@ || n == "jz"@ {
        "jump-zero"@
    } else if n == "jumpnz"@ || n == "jnz"@ {
        "jump-not-zero"@
    } else if n == "jumpreg"@ || n == "jr"@ {
        "jump-reg"@
    } else if n == "jumpi"@ || n == "ji"@ {
        "jump-ind"@
    } else if n == "ln"@ {
        "line"@
    } else if n == "readi"@ || n == "read-ind"@ || n == "ri"@ {
        "readind"@
    } else if n == "writei"@ || n == "write-ind"@ || n == "wi"@ {
        "writeind"@
    } else if n == "lsh"@ {
        "lshift"@
    } else if n == "rsh"@ {
        "rshift"@
    } else {
        n
    }
}

/// A name the assembler accepts stands for the operation the disassembler
/// prints under that name (or under the name it abbreviates), and takes
/// parameters exactly when that operation has an argument.
pub open spec fn agrees(n: Seq<char>) -> bool {
    mnemonic(n) matches Some((o, m)) ==> {
        &&& opcode_name(o).0 == spelled_out(n)
        &&& (m == 0) == (opcode_name(o).1 == 0)
    }
}

/// Every name and abbreviation the assembler accepts means the operation
/// the disassembler prints under that name or the name it abbreviates; so
/// all abbreviations of one name mean one operation.
pub proof fn law_names_agree(n: Seq<char>)
    ensures
        agrees(n),
{
    reveal_strlit("add");
    assert("add"@ =~= seq!['a', 'd', 'd']);
    reveal_strlit("and");
    assert("and"@ =~= seq!['a', 'n', 'd']);
    reveal_strlit("andi");
    assert("andi"@ =~= seq!['a', 'n', 'd', 'i']);
    reveal_strlit("comp");
    assert("comp"@ =~= seq!['c', 'o', 'm', 'p']);
    reveal_strlit("compi");
    assert("compi"@ =~= seq!['c', 'o', 'm', 'p', 'i']);
    reveal_strlit("decr");
    assert("decr"@ =~= seq!['d', 'e', 'c', 'r']);
    reveal_strlit("div");
    assert("div"@ =~= seq!['d', 'i', 'v']);
    reveal_strlit("halt");
    assert("halt"@ =~= seq!['h', 'a', 'l', 't']);
    reveal_strlit("hlt");
    assert("hlt"@ =~= seq!['h', 'l', 't']);
    reveal_strlit("incr");
    assert("incr"@ =~= seq!['i', 'n', 'c', 'r']);
    reveal_strlit("ji");
    assert("ji"@ =~= seq!['j', 'i']);
    reveal_strlit("jnz");
    assert("jnz"@ =~= seq!['j', 'n', 'z']);
    reveal_strlit("jr");
    assert("jr"@ =~= seq!['j', 'r']);
    reveal_strlit("jump");
    assert("jump"@ =~= seq!['j', 'u', 'm', 'p']);
    reveal_strlit("jump-ind");
    assert("jump-ind"@ =~= seq!['j', 'u', 'm', 'p', '-', 'i', 'n', 'd']);
    reveal_strlit("jump-not-zero");
    assert("jump-not-zero"@ =~= seq!['j', 'u', 'm', 'p', '-', 'n', 'o', 't', '-', 'z', 'e', 'r', 'o']);
    reveal_strlit("jump-reg");
    assert("jump-reg"@ =~= seq!['j', 'u', 'm', 'p', '-', 'r', 'e', 'g']);
    reveal_strlit("jump-zero");
    assert("jump-zero"@ =~= seq!['j', 'u', 'm', 'p', '-', 'z', 'e', 'r', 'o']);
    reveal_strlit("jumpi");
    assert("jumpi"@ =~= seq!['j', 'u', 'm', 'p', 'i']);
    reveal_strlit("jumpnz");
    assert("jumpnz"@ =~= seq!['j', 'u', 'm', 'p', 'n', 'z']);
    reveal_strlit("jumpreg");
    assert("jumpreg"@ =~= seq!['j', 'u', 'm', 'p', 'r', 'e', 'g']);
    reveal_strlit("jumpz");
    assert("jumpz"@ =~= seq!['j', 'u', 'm', 'p', 'z']);
    reveal_strlit("jz");
    assert("jz"@ =~= seq!['j', 'z']);
    reveal_strlit("line");
    assert("line"@ =~= seq!['l', 'i', 'n', 'e']);
    reveal_strlit("ln");
    assert("ln"@ =~= seq!['l', 'n']);
    reveal_strlit("load");
    assert("load"@ =~= seq!['l', 'o', 'a', 'd']);
    reveal_strlit("lsh");
    assert("lsh"@ =~= seq!['l', 's', 'h']);
    reveal_strlit("lshift");
    assert("lshift"@ =~= seq!['l', 's', 'h', 'i', 'f', 't']);
    reveal_strlit("mul");
    assert("mul"@ =~= seq!['m', 'u', 'l']);
    reveal_strlit("neg");
    assert("neg"@ =~= seq!['n', 'e', 'g']);
    reveal_strlit("not");
    assert("not"@ =~= seq!['n', 'o', 't']);
    reveal_strlit("or");
    assert("or"@ =~= seq!['o', 'r']);
    reveal_strlit("ori");
    assert("ori"@ =~= seq!['o', 'r', 'i']);
    reveal_strlit("read");
    assert("read"@ =~= seq!['r', 'e', 'a', 'd']);
    reveal_strlit("read-ind");
    assert("read-ind"@ =~= seq!['r', 'e', 'a', 'd', '-', 'i', 'n', 'd']);
    reveal_strlit("readi");
    assert("readi"@ =~= seq!['r', 'e', 'a', 'd', 'i']);
    reveal_strlit("readind");
    assert("readind"@ =~= seq!['r', 'e', 'a', 'd', 'i', 'n', 'd']);
    reveal_strlit("ri");
    assert("ri"@ =~= seq!['r', 'i']);
    reveal_strlit("rsh");
    assert("rsh"@ =~= seq!['r', 's', 'h']);
    reveal_strlit("rshift");
    assert("rshift"@ =~= seq!['r', 's', 'h', 'i', 'f', 't']);
    reveal_strlit("sub");
    assert("sub"@ =~= seq!['s', 'u', 'b']);
    reveal_strlit("unknown");
    assert("unknown"@ =~= seq!['u', 'n', 'k', 'n', 'o', 'w', 'n']);
    reveal_strlit("wi");
    assert("wi"@ =~= seq!['w', 'i']);
    reveal_strlit("write");
    assert("write"@ =~= seq!['w', 'r', 'i', 't', 'e']);
    reveal_strlit("write-ind");
    assert("write-ind"@ =~= seq!['w', 'r', 'i', 't', 'e', '-', 'i', 'n', 'd']);
    reveal_strlit("writei");
    assert("writei"@ =~= seq!['w', 'r', 'i', 't', 'e', 'i']);
    reveal_strlit("writeind");
    assert("writeind"@ =~= seq!['w', 'r', 'i', 't', 'e', 'i', 'n', 'd']);
    reveal_strlit("xor");
    assert("xor"@ =~= seq!['x', 'o', 'r']);
    reveal_strlit("xori");
    assert("xori"@ =~= seq!['x', 'o', 'r', 'i']);
    if n == "halt"@ {
        assert(agrees(n));
    }
    if n == "hlt"@ {
        assert(agrees(n));
    }
    if n == "jump"@ {
        assert(agrees(n));
    }
    if n == "jumpz"@ {
        assert(agrees(n));
    }
    if n == "jump-zero"@ {
        assert(agrees(n));
    }
    if n == "jz"@ {
        assert(agrees(n));
    }
    if n == "jumpnz"@ {
        assert(agrees(n));
    }
    if n == "jump-not-zero"@ {
        assert(agrees(n));
    }
    if n == "jnz"@ {
        assert(agrees(n));
    }
    if n == "jumpreg"@ {
        assert(agrees(n));
    }
    if n == "jump-reg"@ {
        assert(agrees(n));
    }
    if n == "jr"@ {
        assert(agrees(n));
    }
    if n == "jumpi"@ {
        assert(agrees(n));
    }
    if n == "jump-ind"@ {
        assert(agrees(n));
    }
    if n == "ji"@ {
        assert(agrees(n));
    }
    if n == "line"@ {
        assert(agrees(n));
    }
    if n == "ln"@ {
        assert(agrees(n));
    }
    if n == "load"@ {
        assert(agrees(n));
    }
    if n == "read"@ {
        assert(agrees(n));
    }
    if n == "write"@ {
        assert(agrees(n));
    }
    if n == "readi"@ {
        assert(agrees(n));
    }
    if n == "read-ind"@ {
        assert(agrees(n));
    }
    if n == "ri"@ {
        assert(agrees(n));
    }
    if n == "writei"@ {
        assert(agrees(n));
    }
    if n == "write-ind"@ {
        assert(agrees(n));
    }
    if n == "wi"@ {
        assert(agrees(n));
    }
    if n == "incr"@ {
        assert(agrees(n));
    }
    if n == "decr"@ {
        assert(agrees(n));
    }
    if n == "neg"@ {
        assert(agrees(n));
    }
    if n == "not"@ {
        assert(agrees(n));
    }
    if n == "add"@ {
        assert(agrees(n));
    }
    if n == "sub"@ {
        assert(agrees(n));
    }
    if n == "mul"@ {
        assert(agrees(n));
    }
    if n == "div"@ {
        assert(agrees(n));
    }
    if n == "and"@ {
        assert(agrees(n));
    }
    if n == "or"@ {
        assert(agrees(n));
    }
    if n == "xor"@ {
        assert(agrees(n));
    }
    if n == "lshift"@ {
        assert(agrees(n));
    }
    if n == "lsh"@ {
        assert(agrees(n));
    }
    if n == "rshift"@ {
        assert(agrees(n));
    }
    if n == "rsh"@ {
        assert(agrees(n));
    }
    if n == "andi"@ {
        assert(agrees(n));
    }
    if n == "ori"@ {
        assert(agrees(n));
    }
    if n == "xori"@ {
        assert(agrees(n));
    }
    if n == "comp"@ {
        assert(agrees(n));
    }
    if n == "compi"@ {
        assert(agrees(n));
    }
}

} // verus!
