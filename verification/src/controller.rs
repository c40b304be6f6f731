//! The controller: a one-register machine that runs bytecode against memory
//! banks.
//!
//! Banks live in a pool owned by the caller (a `Vec<Memory>`); a controller
//! holds, for each of its memory slots, the index of a bank in that pool, so
//! that several controllers can share one bank. The first byte of an address
//! picks the slot, the remaining bytes the cell.
use vstd::prelude::*;

use crate::memory::{pool_view, Memory};

verus! {

// ---------------------------------------------------------------------------
// Program layout
// ---------------------------------------------------------------------------

/// The byte positions at which instructions start, from position `i` on: an
/// instruction is its opcode byte and as many argument bytes as the opcode's
/// low three bits (its value modulo 8) say.
pub open spec fn starts_from(p: Seq<u8>, i: int) -> Seq<int>
    decreases p.len() + 8 - i,
{
    if 0 <= i < p.len() {
        seq![i] + starts_from(p, i + 1 + (p[i] % 8) as int)
    } else {
        Seq::empty()
    }
}

/// The byte positions at which the instructions of a program start.
pub open spec fn instruction_starts(p: Seq<u8>) -> Seq<int> {
    starts_from(p, 0)
}

/// Start positions lie inside the program and strictly increase.
pub proof fn lemma_starts_from(p: Seq<u8>, i: int)
    requires
        0 <= i,
    ensures
        forall|k: int| 0 <= k < starts_from(p, i).len() ==> i <= #[trigger] starts_from(p, i)[k] < p.len(),
        forall|k: int, j: int|
            0 <= k < j < starts_from(p, i).len() ==> #[trigger] starts_from(p, i)[k] < #[trigger] starts_from(p, i)[j],
    decreases p.len() + 8 - i,
{
    if 0 <= i < p.len() {
        let next = i + 1 + (p[i] % 8) as int;
        lemma_starts_from(p, next);
        let s = starts_from(p, i);
        assert(s == seq![i] + starts_from(p, next));
        assert forall|k: int| 0 <= k < s.len() implies i <= #[trigger] s[k] < p.len() by {
            if k > 0 {
                assert(s[k] == starts_from(p, next)[k - 1]);
            }
        }
        assert forall|k: int, j: int| 0 <= k < j < s.len() implies #[trigger] s[k] < #[trigger] s[j] by {
            assert(s[j] == starts_from(p, next)[j - 1]);
            if k > 0 {
                assert(s[k] == starts_from(p, next)[k - 1]);
            }
        }
    }
}

/// The bytes of instruction number `ip`: from its start to the next start, or
/// to the end of the program.
pub open spec fn instruction_bytes(p: Seq<u8>, starts: Seq<int>, ip: int) -> Seq<u8> {
    let end = if ip + 1 < starts.len() {
        starts[ip + 1]
    } else {
        p.len() as int
    };
    p.subrange(starts[ip], end)
}

// ---------------------------------------------------------------------------
// Addresses and numbers
// ---------------------------------------------------------------------------

/// Bytes folded into a `usize`, most significant first; bits shifted past the
/// top are lost.
pub open spec fn be_fold_usize(s: Seq<u8>) -> usize
    decreases s.len(),
{
    if s.len() == 0 {
        0usize
    } else {
        (be_fold_usize(s.drop_last()) << 8usize) | (s.last() as usize)
    }
}

/// Bytes folded into a `u64`, most significant first; bits shifted past the
/// top are lost.
pub open spec fn be_fold_u64(s: Seq<u8>) -> u64
    decreases s.len(),
{
    if s.len() == 0 {
        0u64
    } else {
        (be_fold_u64(s.drop_last()) << 8u64) | (s.last() as u64)
    }
}

/// `u64::to_be_bytes`.
pub open spec fn be8(v: u64) -> Seq<u8> {
    Seq::new(8, |i: int| ((v >> ((8 * (7 - i)) as u64)) & 0xffu64) as u8)
}

/// The bank and cell an address names, if any: the first byte picks the
/// controller's memory slot, the rest is the cell number; an empty address,
/// a missing slot or a cell past the end of the bank name nothing.
pub open spec fn cell_of(memories: Seq<usize>, pool: Seq<Seq<u64>>, address: Seq<u8>) -> Option<
    (int, int),
> {
    if address.len() == 0 {
        None
    } else if address[0] as int >= memories.len() {
        None
    } else {
        let bank = memories[address[0] as int] as int;
        let cell = be_fold_usize(address.drop_first()) as int;
        if cell >= pool[bank].len() {
            None
        } else {
            Some((bank, cell))
        }
    }
}

/// What a read from an address gives: the cell's value, or 0.
pub open spec fn read_cell(memories: Seq<usize>, pool: Seq<Seq<u64>>, address: Seq<u8>) -> u64 {
    match cell_of(memories, pool, address) {
        Some((bank, cell)) => pool[bank][cell],
        None => 0,
    }
}

/// The pool after a write to an address: the cell updated, or nothing changed.
pub open spec fn write_cell(
    memories: Seq<usize>,
    pool: Seq<Seq<u64>>,
    address: Seq<u8>,
    value: u64,
) -> Seq<Seq<u64>> {
    match cell_of(memories, pool, address) {
        Some((bank, cell)) => pool.update(bank, pool[bank].update(cell, value)),
        None => pool,
    }
}

// ---------------------------------------------------------------------------
// Instruction semantics
// ---------------------------------------------------------------------------

/// The part of a controller's state that an instruction changes.
pub struct Effect {
    pub register: u64,
    pub ip: usize,
    pub halted: bool,
    pub pool: Seq<Seq<u64>>,
}

/// What executing one instruction does, by the opcode in its top five bits;
/// the bytes after the first are its argument.
pub open spec fn execute_effect(
    register: u64,
    ip: usize,
    halted: bool,
    memories: Seq<usize>,
    pool: Seq<Seq<u64>>,
    instr: Seq<u8>,
) -> Effect {
    let op = instr[0] >> 3u8;
    let arg = instr.drop_first();
    let value = read_cell(memories, pool, arg);
    let same = Effect { register, ip, halted, pool };
    let set_reg = |r: u64| Effect { register: r, ip, halted, pool };
    let set_ip = |i: usize| Effect { register, ip: i, halted, pool };
    let set_pool = |p: Seq<Seq<u64>>| Effect { register, ip, halted, pool: p };
    if op == 1 {
        set_ip(be_fold_usize(arg))
    } else if op == 2 {
        if register == 0 {
            set_ip(be_fold_usize(arg))
        } else {
            same
        }
    } else if op == 3 {
        if register != 0 {
            set_ip(be_fold_usize(arg))
        } else {
            same
        }
    } else if op == 4 {
        set_ip(register as usize)
    } else if op == 5 {
        set_ip(value as usize)
    } else if op == 6 {
        set_reg(ip as u64)
    } else if op == 7 {
        set_reg(be_fold_u64(arg))
    } else if op == 8 {
        set_reg(value)
    } else if op == 9 {
        set_pool(write_cell(memories, pool, arg, register))
    } else if op == 10 {
        set_reg(read_cell(memories, pool, be8(value)))
    } else if op == 11 {
        set_pool(write_cell(memories, pool, be8(value), register))
    } else if op == 12 {
        set_reg((register + 1) as u64)
    } else if op == 13 {
        set_reg((register - 1) as u64)
    } else if op == 14 {
        set_reg(!register)
    } else if op == 15 {
        set_reg(
            if register == 0 {
                1
            } else {
                0
            },
        )
    } else if op == 16 {
        set_reg((register + value) as u64)
    } else if op == 17 {
        set_reg((register - value) as u64)
    } else if op == 18 {
        set_reg((register * value) as u64)
    } else if op == 19 {
        set_reg(register / value)
    } else if op == 20 {
        set_reg(register & value)
    } else if op == 21 {
        set_reg(register | value)
    } else if op == 22 {
        set_reg(register ^ value)
    } else if op == 23 {
        set_reg(register << 1u64)
    } else if op == 24 {
        set_reg(register >> 1u64)
    } else if op == 25 {
        set_reg(register & be_fold_u64(arg))
    } else if op == 26 {
        set_reg(register | be_fold_u64(arg))
    } else if op == 27 {
        set_reg(register ^ be_fold_u64(arg))
    } else if op == 28 {
        set_reg(
            if register < value {
                0xFFFF_FFFF_FFFF_FFFFu64
            } else if register > value {
                1
            } else {
                0
            },
        )
    } else {
        Effect { register, ip, halted: true, pool }
    }
}

/// Whether executing an instruction overflows the register or divides by
/// zero (where integer arithmetic panics).
pub open spec fn execute_faults(
    register: u64,
    memories: Seq<usize>,
    pool: Seq<Seq<u64>>,
    instr: Seq<u8>,
) -> bool {
    let op = instr[0] >> 3u8;
    let value = read_cell(memories, pool, instr.drop_first());
    ||| op == 12 && register == u64::MAX
    ||| op == 13 && register == 0
    ||| op == 16 && register + value > u64::MAX
    ||| op == 17 && register < value
    ||| op == 18 && register * value > u64::MAX
    ||| op == 19 && value == 0
}

// ---------------------------------------------------------------------------
// Exec helpers
// ---------------------------------------------------------------------------

fn fold_usize(s: &[u8], from: usize) -> (r: usize)
    requires
        from <= s@.len(),
    ensures
        r == be_fold_usize(s@.skip(from as int)),
{
    let mut acc: usize = 0;
    let mut j = from;
    assert(s@.subrange(from as int, from as int) =~= Seq::<u8>::empty());
    while j < s.len()
        invariant
            from <= j <= s@.len(),
            acc == be_fold_usize(s@.subrange(from as int, j as int)),
        decreases s@.len() - j,
    {
        assert(s@.subrange(from as int, j + 1).drop_last() =~= s@.subrange(from as int, j as int));
        acc = (acc << 8usize) | (s[j] as usize);
        j = j + 1;
    }
    assert(s@.subrange(from as int, s@.len() as int) =~= s@.skip(from as int));
    acc
}

fn fold_u64(s: &[u8], from: usize) -> (r: u64)
    requires
        from <= s@.len(),
    ensures
        r == be_fold_u64(s@.skip(from as int)),
{
    let mut acc: u64 = 0;
    let mut j = from;
    assert(s@.subrange(from as int, from as int) =~= Seq::<u8>::empty());
    while j < s.len()
        invariant
            from <= j <= s@.len(),
            acc == be_fold_u64(s@.subrange(from as int, j as int)),
        decreases s@.len() - j,
    {
        assert(s@.subrange(from as int, j + 1).drop_last() =~= s@.subrange(from as int, j as int));
        acc = (acc << 8u64) | (s[j] as u64);
        j = j + 1;
    }
    assert(s@.subrange(from as int, s@.len() as int) =~= s@.skip(from as int));
    acc
}

fn to_be_bytes(v: u64) -> (r: Vec<u8>)
    ensures
        r@ == be8(v),
{
    let mut r: Vec<u8> = Vec::new();
    let mut k: u64 = 8;
    while k > 0
        invariant
            k <= 8,
            r@ == be8(v).take(8 - k),
        decreases k,
    {
        k = k - 1;
        let b = ((v >> (k * 8)) & 0xff) as u8;
        assert(be8(v)[7 - k] == b);
        assert(be8(v).take(8 - k) =~= be8(v).take(7 - k).push(b));
        r.push(b);
    }
    assert(be8(v).take(8) =~= be8(v));
    r
}

// ---------------------------------------------------------------------------
// The controller
// ---------------------------------------------------------------------------

pub struct Controller {
    pub register: u64,
    /// Instruction pointer: the number of the next instruction.
    pub ip: usize,
    /// The program's bytes.
    pub program: Vec<u8>,
    /// The byte position at which each instruction starts.
    pub instruction_pos: Vec<usize>,
    /// Whether the controller has stopped.
    pub halted: bool,
    /// For each memory slot, the index of its bank in the pool.
    pub memories: Vec<usize>,
}

impl Controller {
    /// The instruction start positions as integers.
    pub open spec fn positions(&self) -> Seq<int> {
        self.instruction_pos@.map_values(|x: usize| x as int)
    }

    /// The instruction start positions are those of the program.
    pub open spec fn wf(&self) -> bool {
        self.positions() == instruction_starts(self.program@)
    }

    /// Every memory slot names a bank of a pool of `n` banks.
    pub open spec fn slots_within(&self, n: nat) -> bool {
        forall|i: int| 0 <= i < self.memories@.len() ==> self.memories@[i] < n
    }

    /// The bytes of the next instruction.
    pub open spec fn next_instruction(&self) -> Seq<u8> {
        instruction_bytes(self.program@, self.positions(), self.ip as int)
    }

    /// Whether the next step runs an instruction, rather than doing nothing or
    /// only halting.
    pub open spec fn runs_instruction(&self) -> bool {
        !self.halted && self.instruction_pos@.len() > 0 && self.ip < self.instruction_pos@.len()
    }

    /// Whether the next step would overflow the register or divide by zero.
    pub open spec fn step_faults(&self, pool: Seq<Seq<u64>>) -> bool {
        self.runs_instruction() && execute_faults(
            self.register,
            self.memories@,
            pool,
            self.next_instruction(),
        )
    }

    /// What one step does: nothing when halted or without a program; halting
    /// when the instruction pointer is past the end; else the next
    /// instruction runs, the pointer moves on by one unless the instruction
    /// changed it, and the controller halts once the pointer is past the end.
    pub open spec fn step_effect(&self, pool: Seq<Seq<u64>>) -> Effect {
        let same = Effect { register: self.register, ip: self.ip, halted: self.halted, pool };
        let n = self.instruction_pos@.len();
        if self.halted || n == 0 {
            same
        } else if self.ip >= n {
            Effect { halted: true, ..same }
        } else {
            let e = execute_effect(
                self.register,
                self.ip,
                self.halted,
                self.memories@,
                pool,
                self.next_instruction(),
            );
            let ip = if e.ip == self.ip {
                (self.ip + 1) as usize
            } else {
                e.ip
            };
            Effect { register: e.register, ip, halted: e.halted || ip >= n, pool: e.pool }
        }
    }

    /// A controller with no program and no memory.
    pub fn new() -> (c: Self)
        ensures
            c.register == 0,
            c.ip == 0,
            c.program@ == Seq::<u8>::empty(),
            c.instruction_pos@ == Seq::<usize>::empty(),
            !c.halted,
            c.memories@ == Seq::<usize>::empty(),
            c.wf(),
    {
        let c = Controller {
            register: 0,
            ip: 0,
            program: Vec::new(),
            instruction_pos: Vec::new(),
            halted: false,
            memories: Vec::new(),
        };
        assert(c.positions() =~= instruction_starts(c.program@));
        c
    }

    /// Clears the register and the instruction pointer and resumes; the
    /// program and the memory slots stay.
    pub fn reset(&mut self)
        ensures
            final(self).register == 0,
            final(self).ip == 0,
            !final(self).halted,
            final(self).program == old(self).program,
            final(self).instruction_pos == old(self).instruction_pos,
            final(self).memories == old(self).memories,
    {
        self.register = 0;
        self.ip = 0;
        self.halted = false;
    }

    /// Loads a program and records where its instructions start; the
    /// register, instruction pointer, halt flag and memory slots stay.
    pub fn set_program(&mut self, program: Vec<u8>)
        ensures
            final(self).program@ == program@,
            final(self).wf(),
            final(self).register == old(self).register,
            final(self).ip == old(self).ip,
            final(self).halted == old(self).halted,
            final(self).memories == old(self).memories,
    {
        let ghost p = program@;
        self.program = program;
        self.instruction_pos = Vec::new();
        let mut i: usize = 0;
        while i < self.program.len()
            invariant
                p == self.program@,
                self.register == old(self).register,
                self.ip == old(self).ip,
                self.halted == old(self).halted,
                self.memories == old(self).memories,
                i <= p.len(),
                self.positions() + starts_from(p, i as int) == instruction_starts(p),
            decreases p.len() - i,
        {
            let ghost before = self.positions();
            self.instruction_pos.push(i);
            assert(self.positions() =~= before.push(i as int));
            let b = self.program[i];
            let param_count = (b & 0b111) as usize;
            assert(b & 7u8 == b % 8) by (bit_vector);
            let step = 1 + param_count;
            assert(starts_from(p, i as int) == seq![i as int] + starts_from(p, i + step));
            if step >= self.program.len() - i {
                assert(starts_from(p, i + step) == Seq::<int>::empty());
                assert(self.positions() + starts_from(p, p.len() as int) =~= instruction_starts(p));
                i = self.program.len();
            } else {
                assert(self.positions() + starts_from(p, i + step) =~= instruction_starts(p));
                i = i + step;
            }
        }
        assert(self.positions() =~= instruction_starts(p));
    }

    /// Adds a memory slot that names bank `bank` of the pool.
    pub fn add_memory(&mut self, bank: usize)
        ensures
            final(self).memories@ == old(self).memories@.push(bank),
            final(self).register == old(self).register,
            final(self).ip == old(self).ip,
            final(self).halted == old(self).halted,
            final(self).program == old(self).program,
            final(self).instruction_pos == old(self).instruction_pos,
    {
        self.memories.push(bank);
    }

    fn cell_at(&self, pool: &Vec<Memory>, address: &[u8], from: usize) -> (r: Option<(usize, usize)>)
        requires
            from <= address@.len(),
            self.slots_within(pool@.len()),
        ensures
            match cell_of(self.memories@, pool_view(pool@), address@.skip(from as int)) {
                Some((b, c)) => r == Some((b as usize, c as usize)) && b < pool@.len(),
                None => r is None,
            },
    {
        let ghost a = address@.skip(from as int);
        if from >= address.len() {
            return None;
        }
        let mem_id = address[from] as usize;
        assert(a[0] == address@[from as int]);
        if mem_id >= self.memories.len() {
            return None;
        }
        let bank = self.memories[mem_id];
        let cell = fold_usize(address, from + 1);
        assert(address@.skip(from + 1) =~= a.drop_first());
        if cell >= pool[bank].len() {
            return None;
        }
        Some((bank, cell))
    }

    fn read_at(&self, pool: &Vec<Memory>, address: &[u8], from: usize) -> (v: u64)
        requires
            from <= address@.len(),
            self.slots_within(pool@.len()),
        ensures
            v == read_cell(self.memories@, pool_view(pool@), address@.skip(from as int)),
    {
        match self.cell_at(pool, address, from) {
            Some((bank, cell)) => pool[bank].read(cell as u64),
            None => 0,
        }
    }

    fn write_at(&self, pool: &mut Vec<Memory>, address: &[u8], from: usize, value: u64)
        requires
            from <= address@.len(),
            self.slots_within(old(pool)@.len()),
        ensures
            final(pool)@.len() == old(pool)@.len(),
            pool_view(final(pool)@) == write_cell(
                self.memories@,
                pool_view(old(pool)@),
                address@.skip(from as int),
                value,
            ),
    {
        match self.cell_at(pool, address, from) {
            Some((bank, cell)) => {
                let ghost before = pool_view(pool@);
                pool[bank].write(cell as u64, value);
                assert(pool_view(pool@) =~= before.update(
                    bank as int,
                    before[bank as int].update(cell as int, value),
                ));
            },
            None => {},
        }
    }

    /// Stores `value` at an address; an address that names no cell is
    /// ignored.
    pub fn write_to(&self, pool: &mut Vec<Memory>, address: &[u8], value: u64)
        requires
            self.slots_within(old(pool)@.len()),
        ensures
            final(pool)@.len() == old(pool)@.len(),
            pool_view(final(pool)@) == write_cell(
                self.memories@,
                pool_view(old(pool)@),
                address@,
                value,
            ),
    {
        assert(address@.skip(0) =~= address@);
        self.write_at(pool, address, 0, value)
    }

    /// The value at an address, or 0 if it names no cell.
    pub fn read_from(&self, pool: &Vec<Memory>, address: &[u8]) -> (v: u64)
        requires
            self.slots_within(pool@.len()),
        ensures
            v == read_cell(self.memories@, pool_view(pool@), address@),
    {
        assert(address@.skip(0) =~= address@);
        self.read_at(pool, address, 0)
    }

    /// Whether executing `instruction` would overflow the register or divide
    /// by zero.
    pub fn faults(&self, pool: &Vec<Memory>, instruction: &[u8]) -> (r: bool)
        requires
            instruction@.len() > 0,
            self.slots_within(pool@.len()),
        ensures
            r == execute_faults(self.register, self.memories@, pool_view(pool@), instruction@),
    {
        let op = instruction[0] >> 3;
        assert(instruction@.skip(1) =~= instruction@.drop_first());
        let value = self.read_at(pool, instruction, 1);
        let r = self.register;
        if op == 12 {
            r == u64::MAX
        } else if op == 13 {
            r == 0
        } else if op == 16 {
            r > u64::MAX - value
        } else if op == 17 {
            r < value
        } else if op == 18 {
            if value == 0 {
                assert(r * value == 0) by (nonlinear_arith)
                    requires
                        value == 0,
                ;
                false
            } else {
                let big = r > u64::MAX / value;
                assert(big == (r * value > u64::MAX)) by (nonlinear_arith)
                    requires
                        value > 0,
                        big == (r > u64::MAX / value),
                ;
                big
            }
        } else if op == 19 {
            value == 0
        } else {
            false
        }
    }

    /// Executes one instruction: its top five bits pick the operation, the
    /// following bytes are its argument.
    pub fn execute(&mut self, pool: &mut Vec<Memory>, instruction: Vec<u8>)
        requires
            instruction@.len() > 0,
            old(self).slots_within(old(pool)@.len()),
            !execute_faults(
                old(self).register,
                old(self).memories@,
                pool_view(old(pool)@),
                instruction@,
            ),
        ensures
            ({
                let e = execute_effect(
                    old(self).register,
                    old(self).ip,
                    old(self).halted,
                    old(self).memories@,
                    pool_view(old(pool)@),
                    instruction@,
                );
                &&& final(self).register == e.register
                &&& final(self).ip == e.ip
                &&& final(self).halted == e.halted
                &&& pool_view(final(pool)@) == e.pool
            }),
            final(self).program == old(self).program,
            final(self).instruction_pos == old(self).instruction_pos,
            final(self).memories == old(self).memories,
            final(pool)@.len() == old(pool)@.len(),
    {
        let s = instruction.as_slice();
        let op = s[0] >> 3;
        assert(s@.skip(1) =~= s@.drop_first());
        let ghost value = read_cell(self.memories@, pool_view(pool@), s@.drop_first());
        if op == 1 {
            self.ip = fold_usize(s, 1);
        } else if op == 2 {
            if self.register == 0 {
                self.ip = fold_usize(s, 1);
            }
        } else if op == 3 {
            if self.register != 0 {
                self.ip = fold_usize(s, 1);
            }
        } else if op == 4 {
            self.ip = self.register as usize;
        } else if op == 5 {
            self.ip = self.read_at(pool, s, 1) as usize;
        } else if op == 6 {
            self.register = self.ip as u64;
        } else if op == 7 {
            self.register = fold_u64(s, 1);
        } else if op == 8 {
            self.register = self.read_at(pool, s, 1);
        } else if op == 9 {
            self.write_at(pool, s, 1, self.register);
        } else if op == 10 {
            let a = self.read_at(pool, s, 1);
            let bytes = to_be_bytes(a);
            assert(bytes@.skip(0) =~= bytes@);
            self.register = self.read_at(pool, bytes.as_slice(), 0);
        } else if op == 11 {
            let a = self.read_at(pool, s, 1);
            let bytes = to_be_bytes(a);
            assert(bytes@.skip(0) =~= bytes@);
            let r = self.register;
            self.write_at(pool, bytes.as_slice(), 0, r);
        } else if op == 12 {
            self.register = self.register + 1;
        } else if op == 13 {
            self.register = self.register - 1;
        } else if op == 14 {
            self.register = !self.register;
        } else if op == 15 {
            if self.register == 0 {
                self.register = 1;
            } else {
                self.register = 0;
            }
        } else if op == 16 {
            let v = self.read_at(pool, s, 1);
            self.register = self.register + v;
        } else if op == 17 {
            let v = self.read_at(pool, s, 1);
            self.register = self.register - v;
        } else if op == 18 {
            let v = self.read_at(pool, s, 1);
            self.register = self.register * v;
        } else if op == 19 {
            let v = self.read_at(pool, s, 1);
            self.register = self.register / v;
        } else if op == 20 {
            let v = self.read_at(pool, s, 1);
            self.register = self.register & v;
        } else if op == 21 {
            let v = self.read_at(pool, s, 1);
            self.register = self.register | v;
        } else if op == 22 {
            let v = self.read_at(pool, s, 1);
            self.register = self.register ^ v;
        } else if op == 23 {
            self.register = self.register << 1u64;
        } else if op == 24 {
            self.register = self.register >> 1u64;
        } else if op == 25 {
            self.register = self.register & fold_u64(s, 1);
        } else if op == 26 {
            self.register = self.register | fold_u64(s, 1);
        } else if op == 27 {
            self.register = self.register ^ fold_u64(s, 1);
        } else if op == 28 {
            let v = self.read_at(pool, s, 1);
            self.register = if self.register < v {
                0xFFFF_FFFF_FFFF_FFFF
            } else if self.register > v {
                1
            } else {
                0
            };
        } else {
            self.halted = true;
        }
    }

    /// Whether the next step would overflow the register or divide by zero.
    pub fn step_would_fault(&self, pool: &Vec<Memory>) -> (r: bool)
        requires
            self.wf(),
            self.slots_within(pool@.len()),
        ensures
            r == self.step_faults(pool_view(pool@)),
    {
        if self.halted || self.instruction_pos.len() == 0 || self.ip >= self.instruction_pos.len() {
            return false;
        }
        let instruction = self.current_instruction();
        self.faults(pool, instruction.as_slice())
    }

    fn current_instruction(&self) -> (r: Vec<u8>)
        requires
            self.wf(),
            self.runs_instruction(),
        ensures
            r@ == self.next_instruction(),
            r@.len() > 0,
    {
        proof {
            lemma_starts_from(self.program@, 0);
        }
        let n = self.instruction_pos.len();
        let start = self.instruction_pos[self.ip];
        assert(self.positions()[self.ip as int] == start);
        let end = if self.ip + 1 < n {
            assert(self.positions()[self.ip + 1] == self.instruction_pos@[self.ip + 1]);
            self.instruction_pos[self.ip + 1]
        } else {
            self.program.len()
        };
        let mut r: Vec<u8> = Vec::new();
        let mut j = start;
        while j < end
            invariant
                start <= j <= end <= self.program@.len(),
                r@ == self.program@.subrange(start as int, j as int),
            decreases end - j,
        {
            r.push(self.program[j]);
            j = j + 1;
        }
        r
    }

    /// Runs one step (see `step_effect`).
    pub fn step(&mut self, pool: &mut Vec<Memory>)
        requires
            old(self).wf(),
            old(self).slots_within(old(pool)@.len()),
            !old(self).step_faults(pool_view(old(pool)@)),
        ensures
            ({
                let e = old(self).step_effect(pool_view(old(pool)@));
                &&& final(self).register == e.register
                &&& final(self).ip == e.ip
                &&& final(self).halted == e.halted
                &&& pool_view(final(pool)@) == e.pool
            }),
            final(self).program == old(self).program,
            final(self).instruction_pos == old(self).instruction_pos,
            final(self).memories == old(self).memories,
            final(pool)@.len() == old(pool)@.len(),
    {
        if self.halted || self.instruction_pos.len() == 0 {
            return;
        }
        if self.ip >= self.instruction_pos.len() {
            self.halted = true;
            return;
        }
        let instruction = self.current_instruction();
        let prev_ip = self.ip;
        self.execute(pool, instruction);
        if self.ip == prev_ip {
            self.ip = self.ip + 1;
        }
        if self.ip >= self.instruction_pos.len() {
            self.halted = true;
        }
    }
}

// ---------------------------------------------------------------------------
// Laws
// ---------------------------------------------------------------------------

/// A write through one controller's address is what a read through any
/// address that names the same cell gives back, through the same controller
/// or another one bound to the same bank; a cell that the write does not
/// name keeps its value; and a write changes no bank's size.
pub proof fn law_read_after_write(
    writer: Seq<usize>,
    reader: Seq<usize>,
    pool: Seq<Seq<u64>>,
    waddr: Seq<u8>,
    raddr: Seq<u8>,
    value: u64,
)
    requires
        forall|i: int| 0 <= i < writer.len() ==> writer[i] < pool.len(),
        forall|i: int| 0 <= i < reader.len() ==> reader[i] < pool.len(),
    ensures
        ({
            let after = write_cell(writer, pool, waddr, value);
            &&& after.len() == pool.len()
            &&& forall|b: int| 0 <= b < pool.len() ==> after[b].len() == pool[b].len()
            &&& cell_of(reader, after, raddr) == cell_of(reader, pool, raddr)
            &&& (cell_of(writer, pool, waddr) is Some && cell_of(writer, pool, waddr) == cell_of(
                reader,
                pool,
                raddr,
            )) ==> read_cell(reader, after, raddr) == value
            &&& cell_of(writer, pool, waddr) != cell_of(reader, pool, raddr) ==> read_cell(
                reader,
                after,
                raddr,
            ) == read_cell(reader, pool, raddr)
        }),
{
    let after = write_cell(writer, pool, waddr, value);
    assert forall|b: int| 0 <= b < pool.len() implies after[b].len() == pool[b].len() by {
        match cell_of(writer, pool, waddr) {
            Some((wb, wc)) => {
                if b == wb {
                } else {
                }
            },
            None => {},
        }
    }
}

/// The instruction starts of a program lie inside it and strictly increase,
/// and the first one is the first byte.
pub proof fn law_instruction_starts(p: Seq<u8>)
    ensures
        forall|k: int|
            0 <= k < instruction_starts(p).len() ==> 0 <= #[trigger] instruction_starts(p)[k]
                < p.len(),
        forall|k: int, j: int|
            0 <= k < j < instruction_starts(p).len() ==> #[trigger] instruction_starts(p)[k]
                < #[trigger] instruction_starts(p)[j],
        p.len() > 0 ==> instruction_starts(p).len() > 0 && instruction_starts(p)[0] == 0,
        p.len() == 0 ==> instruction_starts(p).len() == 0,
{
    lemma_starts_from(p, 0);
}

/// A halted controller stays as it is: a step changes nothing.
pub proof fn law_halted_is_final(c: Controller, pool: Seq<Seq<u64>>)
    requires
        c.halted,
    ensures
        c.step_effect(pool) == (Effect { register: c.register, ip: c.ip, halted: true, pool }),
{
}

/// The register arithmetic: increment, decrement, add, subtract, multiply
/// and divide give the exact integer result, and an instruction faults
/// exactly when that result does not fit in a `u64` (or it divides by zero);
/// every other instruction never faults. These operations change only the
/// register.
pub proof fn law_register_arithmetic(
    register: u64,
    ip: usize,
    halted: bool,
    memories: Seq<usize>,
    pool: Seq<Seq<u64>>,
    instr: Seq<u8>,
)
    requires
        instr.len() > 0,
    ensures
        ({
            let op = instr[0] >> 3u8;
            let v = read_cell(memories, pool, instr.drop_first());
            let e = execute_effect(register, ip, halted, memories, pool, instr);
            let faults = execute_faults(register, memories, pool, instr);
            let r = register as int;
            &&& op == 12 ==> (faults <==> r + 1 > u64::MAX) && (!faults ==> e.register == r + 1)
            &&& op == 13 ==> (faults <==> r - 1 < 0) && (!faults ==> e.register == r - 1)
            &&& op == 16 ==> (faults <==> r + v > u64::MAX) && (!faults ==> e.register == r + v)
            &&& op == 17 ==> (faults <==> r - v < 0) && (!faults ==> e.register == r - v)
            &&& op == 18 ==> (faults <==> r * v > u64::MAX) && (!faults ==> e.register == r * v)
            &&& op == 19 ==> (faults <==> v == 0) && (!faults ==> e.register * v <= r
                < (e.register + 1) * v)
            &&& (op != 12 && op != 13 && op != 16 && op != 17 && op != 18 && op != 19) ==> !faults
            &&& (12 <= op <= 28 || op == 6 || op == 7 || op == 8 || op == 10) ==> {
                &&& e.ip == ip
                &&& e.halted == halted
                &&& e.pool == pool
            }
        }),
{
    let op = instr[0] >> 3u8;
    let v = read_cell(memories, pool, instr.drop_first());
    let e = execute_effect(register, ip, halted, memories, pool, instr);
    if op == 19 && v != 0 {
        let q = register / v;
        assert(q * v <= register < (q + 1) * v) by (nonlinear_arith)
            requires
                v > 0,
                q == register / v,
        ;
    }
    if op == 18 {
        let r = register;
        assert(r * v <= u64::MAX ==> ((r * v) as u64) == r * v);
    }
}

/// The bitwise and shifting operations: `neg` flips every bit, `not` gives
/// 1 for zero and 0 otherwise, `and`, `or` and `xor` combine the register
/// with the value at the address (`andi`, `ori`, `xori` with the number
/// given), `lshift` doubles (dropping the top bit) and `rshift` halves,
/// and `comp` gives the sign of the comparison (all ones for less).
pub proof fn law_register_bits(
    register: u64,
    ip: usize,
    halted: bool,
    memories: Seq<usize>,
    pool: Seq<Seq<u64>>,
    instr: Seq<u8>,
)
    requires
        instr.len() > 0,
    ensures
        ({
            let op = instr[0] >> 3u8;
            let v = read_cell(memories, pool, instr.drop_first());
            let n = be_fold_u64(instr.drop_first());
            let x = execute_effect(register, ip, halted, memories, pool, instr).register;
            &&& op == 14 ==> x + register == u64::MAX
            &&& op == 15 ==> x == (if register == 0 { 1u64 } else { 0u64 })
            &&& op == 20 ==> x == register & v && x & v == x && x & register == x
            &&& op == 21 ==> x == register | v && x | v == x && x | register == x
            &&& op == 22 ==> x == register ^ v && x ^ v == register
            &&& op == 23 ==> x == (2 * register) % 0x1_0000_0000_0000_0000
            &&& op == 24 ==> x == register / 2
            &&& op == 25 ==> x == register & n
            &&& op == 26 ==> x == register | n
            &&& op == 27 ==> x == register ^ n && x ^ n == register
            &&& op == 28 ==> x == (if register < v {
                u64::MAX
            } else if register > v {
                1u64
            } else {
                0u64
            })
        }),
{
    let r = register;
    let v = read_cell(memories, pool, instr.drop_first());
    let n = be_fold_u64(instr.drop_first());
    assert(!r + r == u64::MAX) by (bit_vector);
    assert((r & v) & v == r & v && (r & v) & r == r & v) by (bit_vector);
    assert((r | v) | v == r | v && (r | v) | r == r | v) by (bit_vector);
    assert((r ^ v) ^ v == r) by (bit_vector);
    assert((r ^ n) ^ n == r) by (bit_vector);
    assert(r << 1u64 == (2 * r) % 0x1_0000_0000_0000_0000) by (bit_vector);
    assert(r >> 1u64 == r / 2) by (bit_vector);
}

/// `xor` with the same address twice gives the register back.
pub proof fn law_xor_twice(
    register: u64,
    ip: usize,
    halted: bool,
    memories: Seq<usize>,
    pool: Seq<Seq<u64>>,
    instr: Seq<u8>,
)
    requires
        instr.len() > 0,
        instr[0] >> 3u8 == 22,
    ensures
        ({
            let e1 = execute_effect(register, ip, halted, memories, pool, instr);
            let e2 = execute_effect(e1.register, e1.ip, e1.halted, memories, e1.pool, instr);
            e2.register == register && e2.pool == pool && e2.ip == ip
        }),
{
    let v = read_cell(memories, pool, instr.drop_first());
    assert((register ^ v) ^ v == register) by (bit_vector);
}

/// `read` loads the value at its address into the register; `write` stores
/// the register at its address, so reading that address afterwards gives
/// the register; `load` loads the number given.
pub proof fn law_read_write_load(
    register: u64,
    ip: usize,
    halted: bool,
    memories: Seq<usize>,
    pool: Seq<Seq<u64>>,
    instr: Seq<u8>,
)
    requires
        instr.len() > 0,
        forall|i: int| 0 <= i < memories.len() ==> memories[i] < pool.len(),
    ensures
        ({
            let op = instr[0] >> 3u8;
            let a = instr.drop_first();
            let e = execute_effect(register, ip, halted, memories, pool, instr);
            &&& op == 8 ==> e.register == read_cell(memories, pool, a) && e.pool == pool
            &&& op == 9 ==> {
                &&& e.register == register
                &&& cell_of(memories, pool, a) is Some ==> read_cell(memories, e.pool, a)
                    == register
                &&& e.ip == ip
            }
            &&& op == 7 ==> e.register == be_fold_u64(a)
        }),
{
    let op = instr[0] >> 3u8;
    if op == 9 {
        law_read_after_write(
            memories,
            memories,
            pool,
            instr.drop_first(),
            instr.drop_first(),
            register,
        );
    }
}

/// The jumps: `jump` goes to the instruction number given, `jump-zero` only
/// when the register is zero and `jump-not-zero` only when it is not,
/// `jump-reg` to the register's value, `jump-ind` to the value at the
/// address; `line` loads the instruction pointer. None touches memory.
pub proof fn law_jumps(
    register: u64,
    ip: usize,
    halted: bool,
    memories: Seq<usize>,
    pool: Seq<Seq<u64>>,
    instr: Seq<u8>,
)
    requires
        instr.len() > 0,
    ensures
        ({
            let op = instr[0] >> 3u8;
            let a = instr.drop_first();
            let e = execute_effect(register, ip, halted, memories, pool, instr);
            &&& op == 1 ==> e.ip == be_fold_usize(a)
            &&& op == 2 ==> e.ip == (if register == 0 { be_fold_usize(a) } else { ip })
            &&& op == 3 ==> e.ip == (if register != 0 { be_fold_usize(a) } else { ip })
            &&& op == 4 ==> e.ip == register as usize
            &&& op == 5 ==> e.ip == read_cell(memories, pool, a) as usize
            &&& op == 6 ==> e.register == ip as u64 && e.ip == ip
            &&& 1 <= op <= 6 ==> e.pool == pool && e.halted == halted
            &&& 1 <= op <= 5 ==> e.register == register
        }),
{
}

/// A step that runs an instruction which does not jump moves on to the next
/// instruction, halting once past the last; a halted controller, or one
/// without a program, stays as it is.
pub proof fn law_step_moves_on(c: Controller, pool: Seq<Seq<u64>>)
    ensures
        ({
            let e = c.step_effect(pool);
            let n = c.instruction_pos@.len();
            let op = c.next_instruction()[0] >> 3u8;
            &&& (c.halted || n == 0) ==> e == (Effect {
                register: c.register,
                ip: c.ip,
                halted: c.halted,
                pool,
            })
            &&& (c.runs_instruction() && c.next_instruction().len() > 0 && 6 <= op <= 28)
                ==> e.ip == (c.ip + 1) as usize && e.halted == (e.ip >= n)
        }),
{
    let n = c.instruction_pos@.len();
    if c.runs_instruction() && c.next_instruction().len() > 0 {
        let i = c.next_instruction();
        let op = i[0] >> 3u8;
        if 6 <= op <= 28 {
            law_register_arithmetic(c.register, c.ip, c.halted, c.memories@, pool, i);
            let x = execute_effect(c.register, c.ip, c.halted, c.memories@, pool, i);
            assert(x.ip == c.ip && x.halted == c.halted);
            assert(!c.halted);
            assert(c.ip < n);
        }
    }
}

} // verus!
