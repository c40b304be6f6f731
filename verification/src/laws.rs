//! Laws that tie the assembler's output to what the controller reads.
use vstd::prelude::*;

use crate::controller::{be_fold_u64, instruction_starts, starts_from};
use crate::encode::{be_bytes, byte_width, encode_line, encode_number, mnemonic};
use crate::text::{before_comment, keyword, trim};

verus! {

proof fn lemma_be_bytes_drop_last(n: u64, w: nat)
    requires
        2 <= w <= 8,
    ensures
        be_bytes(n, w).drop_last() == be_bytes(n >> 8u64, (w - 1) as nat),
        be_bytes(n, w).last() == (n & 0xffu64) as u8,
{
    let a = be_bytes(n, w).drop_last();
    let b = be_bytes(n >> 8u64, (w - 1) as nat);
    assert forall|i: int| 0 <= i < a.len() implies a[i] == b[i] by {
        let s: u64 = (8 * ((w - 1) as nat - 1 - i)) as u64;
        assert(s <= 48);
        let t: u64 = (8 * (w - 1 - i)) as u64;
        assert(t == s + 8);
        assert((n >> t) == ((n >> 8u64) >> s)) by (bit_vector)
            requires
                t == s + 8,
                s <= 48,
        ;
    }
    assert(a =~= b);
    let z: u64 = (8 * (w - 1 - (w - 1))) as u64;
    assert(z == 0);
    assert((n >> 0u64) == n) by (bit_vector);
}

/// Bytes written most significant first fold back to the number, when the
/// number fits in them.
proof fn lemma_be_fold_be_bytes(n: u64, w: nat)
    requires
        1 <= w <= 8,
        w < 8 ==> n >> ((8 * w) as u64) == 0,
    ensures
        be_fold_u64(be_bytes(n, w)) == n,
    decreases w,
{
    let s = be_bytes(n, w);
    if w == 1 {
        assert(s.drop_last() =~= Seq::<u8>::empty());
        assert(be_fold_u64(s.drop_last()) == 0);
        assert(s.len() == 1);
        let z: u64 = (8 * (1 - 1 - 0)) as u64;
        assert(z == 0);
        assert(s.last() == ((n >> 0u64) & 0xffu64) as u8);
        assert(be_fold_u64(s) == (0u64 << 8u64) | (s.last() as u64));
        assert(n >> 8u64 == 0 ==> (0u64 << 8u64) | ((((n >> 0u64) & 0xffu64) as u8) as u64) == n)
            by (bit_vector);
    } else {
        lemma_be_bytes_drop_last(n, w);
        let m = n >> 8u64;
        if w < 8 {
            let k: u64 = (8 * (w - 1)) as u64;
            assert(k + 8 == (8 * w) as u64);
            assert(n >> (k + 8) == 0 ==> m >> k == 0) by (bit_vector)
                requires
                    m == n >> 8u64,
                    k <= 48,
            ;
        } else {
            assert(m >> 56u64 == 0) by (bit_vector)
                requires
                    m == n >> 8u64,
            ;
        }
        lemma_be_fold_be_bytes(m, (w - 1) as nat);
        assert(be_fold_u64(s) == (be_fold_u64(s.drop_last()) << 8u64) | (s.last() as u64));
        assert(((n >> 8u64) << 8u64) | (((n & 0xffu64) as u8) as u64) == n) by (bit_vector);
    }
}

/// A number the assembler writes as an argument is the number the controller
/// reads back from those bytes (most significant first).
pub proof fn law_number_round_trip(n: u64)
    ensures
        be_fold_u64(encode_number(n)) == n,
{
    let w = byte_width(n);
    if w < 8 {
        let k: u64 = (8 * w) as u64;
        assert(w == 1 ==> k == 8);
        assert(w == 2 ==> k == 16);
        assert(w == 3 ==> k == 24);
        assert(w == 4 ==> k == 32);
        assert(w == 5 ==> k == 40);
        assert(w == 6 ==> k == 48);
        assert(w == 7 ==> k == 56);
        assert(n <= 0xff ==> n >> 8u64 == 0) by (bit_vector);
        assert(n <= 0xffff ==> n >> 16u64 == 0) by (bit_vector);
        assert(n <= 0xff_ffff ==> n >> 24u64 == 0) by (bit_vector);
        assert(n <= 0xffff_ffff ==> n >> 32u64 == 0) by (bit_vector);
        assert(n <= 0xff_ffff_ffff ==> n >> 40u64 == 0) by (bit_vector);
        assert(n <= 0xffff_ffff_ffff ==> n >> 48u64 == 0) by (bit_vector);
        assert(n <= 0xff_ffff_ffff_ffff ==> n >> 56u64 == 0) by (bit_vector);
    }
    lemma_be_fold_be_bytes(n, w);
}

/// A line the assembler accepts, whose arguments take at most seven bytes,
/// is exactly one instruction to the controller: one instruction starts, at
/// the first byte, its low three bits count the bytes after it, and its
/// opcode is the mnemonic's.
pub proof fn law_line_is_one_instruction(line: Seq<char>)
    ensures
        match encode_line(line) {
            Ok(b) => (0 < b.len() <= 8) ==> {
                &&& instruction_starts(b) == seq![0int]
                &&& b[0] % 8 == b.len() - 1
                &&& mnemonic(keyword(trim(before_comment(line)))) matches Some((op, _))
                &&& b[0] >> 3u8 == op
            },
            Err(_) => true,
        },
{
    match encode_line(line) {
        Ok(b) => {
            if 0 < b.len() <= 8 {
                let l = trim(before_comment(line));
                let instr = keyword(l);
                let (o, min) = mnemonic(instr)->0;
                let op = (o * 8) as u8;
                assert(o <= 29);
                let n = (b.len() - 1) as u8;
                assert(n <= 7);
                assert(b[0] == op | n) by {
                    if min == 0 {
                        assert(op | 0u8 == op) by (bit_vector);
                    }
                }
                assert(op == o * 8);
                assert(o <= 29 && op == o * 8 && n <= 7 ==> ((op | n) % 8 == n && (op | n) >> 3u8
                    == o)) by (bit_vector);
                let s = starts_from(b, 0);
                assert(s == seq![0int] + starts_from(b, 1 + (b[0] % 8) as int));
                assert(starts_from(b, b.len() as int) =~= Seq::<int>::empty());
                assert(s =~= seq![0int]);
            }
        },
        Err(_) => {},
    }
}

} // verus!
