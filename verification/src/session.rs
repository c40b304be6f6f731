//! The workbench around the machine: named memory banks, named controllers
//! bound to banks, the compiled program, and running them together.
//!
//! Banks live in one pool; a controller binds banks by their index in the
//! pool, and its memory slots are its bound banks that exist, in binding
//! order.
use vstd::prelude::*;

use crate::compile::{assemble, compile};
use crate::controller::{instruction_starts, Controller, Effect};
use crate::decompile::{decompile, disassemble};
use crate::error::CompileError;
use crate::text::{push_str, string_from_chars};
use crate::memory::{pool_view, zeros, Memory};

verus! {

// ---------------------------------------------------------------------------
// Memory bank
// ---------------------------------------------------------------------------

/// A named memory bank.
pub struct MemoryBank {
    pub name: String,
    pub memory: Memory,
}

impl MemoryBank {
    /// A bank of `size` zero cells.
    pub fn new(name: String, size: usize) -> (b: Self)
        ensures
            b.name@ == name@,
            b.memory@ == zeros(size as nat),
    {
        MemoryBank { name, memory: Memory::new(size) }
    }
}

// ---------------------------------------------------------------------------
// Controller state
// ---------------------------------------------------------------------------

/// The bound banks that exist in a pool of `n` banks, in order.
pub open spec fn slots(bound: Seq<usize>, n: nat) -> Seq<usize>
    decreases bound.len(),
{
    if bound.len() == 0 {
        Seq::empty()
    } else {
        let r = slots(bound.drop_last(), n);
        if bound.last() < n {
            r.push(bound.last())
        } else {
            r
        }
    }
}

proof fn lemma_slots_within(bound: Seq<usize>, n: nat)
    ensures
        forall|i: int| 0 <= i < slots(bound, n).len() ==> slots(bound, n)[i] < n,
    decreases bound.len(),
{
    if bound.len() > 0 {
        lemma_slots_within(bound.drop_last(), n);
        let r = slots(bound.drop_last(), n);
        assert forall|i: int| 0 <= i < slots(bound, n).len() implies slots(bound, n)[i] < n by {
            if i < r.len() {
                assert(slots(bound, n)[i] == r[i]);
            }
        }
    }
}

pub struct ControllerState {
    pub name: String,
    pub controller: Controller,
    /// Indices into the pool of the banks bound to this controller.
    pub bound_memories: Vec<usize>,
}

/// A controller with no program, no memory and the state `Controller::new`
/// gives.
pub open spec fn is_fresh(c: Controller) -> bool {
    &&& c.register == 0
    &&& c.ip == 0
    &&& c.program@ == Seq::<u8>::empty()
    &&& c.instruction_pos@ == Seq::<usize>::empty()
    &&& !c.halted
    &&& c.memories@ == Seq::<usize>::empty()
}

impl ControllerState {
    /// A named controller with nothing bound.
    pub fn new(name: String) -> (s: Self)
        ensures
            s.name@ == name@,
            is_fresh(s.controller),
            s.bound_memories@ == Seq::<usize>::empty(),
    {
        ControllerState { name, controller: Controller::new(), bound_memories: Vec::new() }
    }

    /// Rebuilds the controller's memory slots from the bound banks that exist
    /// in `banks`.
    pub fn sync_memories(&mut self, banks: &Vec<Memory>)
        ensures
            final(self).controller.memories@ == slots(old(self).bound_memories@, banks@.len()),
            final(self).controller.slots_within(banks@.len()),
            final(self).bound_memories == old(self).bound_memories,
            final(self).name == old(self).name,
            final(self).controller.register == old(self).controller.register,
            final(self).controller.ip == old(self).controller.ip,
            final(self).controller.halted == old(self).controller.halted,
            final(self).controller.program == old(self).controller.program,
            final(self).controller.instruction_pos == old(self).controller.instruction_pos,
    {
        let n = banks.len();
        let mut mems: Vec<usize> = Vec::new();
        let mut i: usize = 0;
        assert(self.bound_memories@.take(0) =~= Seq::<usize>::empty());
        while i < self.bound_memories.len()
            invariant
                i <= self.bound_memories@.len(),
                n == banks@.len(),
                mems@ == slots(self.bound_memories@.take(i as int), n as nat),
            decreases self.bound_memories@.len() - i,
        {
            let idx = self.bound_memories[i];
            assert(self.bound_memories@.take(i + 1).drop_last() =~= self.bound_memories@.take(
                i as int,
            ));
            if idx < n {
                mems.push(idx);
            }
            i = i + 1;
        }
        assert(self.bound_memories@.take(self.bound_memories@.len() as int)
            =~= self.bound_memories@);
        proof {
            lemma_slots_within(self.bound_memories@, n as nat);
        }
        self.controller.memories = mems;
    }
}

// ---------------------------------------------------------------------------
// Execution mode
// ---------------------------------------------------------------------------

#[derive(Clone, Copy, PartialEq, Eq, Structural, Debug)]
pub enum ExecutionMode {
    Stopped,
    Running,
}

impl Default for ExecutionMode {
    fn default() -> (m: Self)
        ensures
            m == ExecutionMode::Stopped,
    {
        ExecutionMode::Stopped
    }
}

// ---------------------------------------------------------------------------
// Session
// ---------------------------------------------------------------------------

/// A controller after a step with effect `e`.
pub open spec fn after_effect(c: ControllerState, e: Effect) -> ControllerState {
    ControllerState {
        controller: Controller { register: e.register, ip: e.ip, halted: e.halted, ..c.controller },
        ..c
    }
}

/// Every controller stepped once, in order, each on the pool as the ones
/// before it left it.
pub open spec fn round(cs: Seq<ControllerState>, pool: Seq<Seq<u64>>) -> (
    Seq<ControllerState>,
    Seq<Seq<u64>>,
)
    decreases cs.len(),
{
    if cs.len() == 0 {
        (Seq::empty(), pool)
    } else {
        let (done, p) = round(cs.drop_last(), pool);
        let e = cs.last().controller.step_effect(p);
        (done.push(after_effect(cs.last(), e)), e.pool)
    }
}

/// The first controller whose step in a round would overflow or divide by
/// zero, if any.
pub open spec fn round_fault(cs: Seq<ControllerState>, pool: Seq<Seq<u64>>) -> Option<int>
    decreases cs.len(),
{
    if cs.len() == 0 {
        None
    } else {
        match round_fault(cs.drop_last(), pool) {
            Some(k) => Some(k),
            None => if cs.last().controller.step_faults(round(cs.drop_last(), pool).1) {
                Some(cs.len() - 1)
            } else {
                None
            },
        }
    }
}

/// A bank list with one bank unbound.
pub open spec fn without(s: Seq<usize>, m: usize) -> Seq<usize>
    decreases s.len(),
{
    if s.len() == 0 {
        Seq::empty()
    } else {
        let r = without(s.drop_last(), m);
        if s.last() == m {
            r
        } else {
            r.push(s.last())
        }
    }
}

/// A bank list after bank `m` is removed from the pool: bindings to it go,
/// and indices past it move down by one.
pub open spec fn after_removal(s: Seq<usize>, m: usize) -> Seq<usize> {
    without(s, m).map_values(
        |x: usize|
            if x > m {
                (x - 1) as usize
            } else {
                x
            },
    )
}

/// What went wrong last: the source did not compile, or a file could not
/// be read or written, or there was nothing to save.
#[derive(Debug, PartialEq, Eq)]
pub enum SessionError {
    Compile(CompileError),
    Message(String),
}

/// A message: a fixed text followed by a detail.
fn message(text: &str, detail: &str) -> (m: String)
    ensures
        m@ == text@ + detail@,
{
    let mut out: Vec<char> = Vec::new();
    push_str(&mut out, text);
    push_str(&mut out, detail);
    string_from_chars(out)
}

/// A fixed text as a `String`.
fn text_of(text: &str) -> (m: String)
    ensures
        m@ == text@,
{
    let m = message(text, "");
    proof {
        reveal_strlit("");
        assert(text@ + ""@ =~= text@);
    }
    m
}

/// The last component of a path, as `std::path::Path::file_name` gives it
/// (none for a path that ends in `..` or is only a root or a prefix).
pub uninterp spec fn path_file_name(path: Seq<char>) -> Option<Seq<char>>;

/// The last component of a path without its extension, as
/// `std::path::Path::file_stem` gives it.
pub uninterp spec fn path_file_stem(path: Seq<char>) -> Option<Seq<char>>;

/// `std::path::Path::file_name` of a path held as a string; the result is
/// `path_file_name` of it. Nothing more of the standard library's path rules
/// is stated.
#[verifier::external_body]
fn file_name_of(path: &String) -> (r: Option<String>)
    ensures
        match r {
            Some(n) => path_file_name(path@) == Some(n@),
            None => path_file_name(path@) is None,
        },
{
    match std::path::Path::new(path.as_str()).file_name() {
        Some(n) => match n.to_str() {
            Some(t) => Some(t.to_string()),
            None => None,
        },
        None => None,
    }
}

/// `std::path::Path::file_stem` of a path held as a string; the result is
/// `path_file_stem` of it. Nothing more of the standard library's path rules
/// is stated.
#[verifier::external_body]
fn file_stem_of(path: &String) -> (r: Option<String>)
    ensures
        match r {
            Some(n) => path_file_stem(path@) == Some(n@),
            None => path_file_stem(path@) is None,
        },
{
    match std::path::Path::new(path.as_str()).file_stem() {
        Some(n) => match n.to_str() {
            Some(t) => Some(t.to_string()),
            None => None,
        },
        None => None,
    }
}

pub struct Session {
    /// The assembly source being edited.
    pub source: String,
    /// What went wrong last, if anything did.
    pub last_error: Option<SessionError>,
    /// Where the source was last read from or saved to, if anywhere.
    pub current_path: Option<String>,
    pub memory_names: Vec<String>,
    pub memories: Vec<Memory>,
    pub controllers: Vec<ControllerState>,
    /// The last program loaded.
    pub bytecode: Vec<u8>,
    pub mode: ExecutionMode,
}

/// A controller restarted on `program`: the program loaded, register and
/// instruction pointer at zero, running; its name and banks as before.
pub open spec fn restarted(c0: ControllerState, c1: ControllerState, program: Seq<u8>) -> bool {
    &&& c1.controller.program@ == program
    &&& c1.controller.register == 0
    &&& c1.controller.ip == 0
    &&& !c1.controller.halted
    &&& c1.controller.memories == c0.controller.memories
    &&& c1.bound_memories == c0.bound_memories
    &&& c1.name == c0.name
}

/// A controller is consistent with a pool of `n` banks: its instruction
/// layout matches its program, its bound banks exist, each is bound once,
/// and its memory slots are its bound banks.
pub open spec fn state_ok(c: ControllerState, n: nat) -> bool {
    &&& c.controller.wf()
    &&& forall|i: int| 0 <= i < c.bound_memories@.len() ==> c.bound_memories@[i] < n
    &&& c.bound_memories@.no_duplicates()
    &&& c.controller.memories@ == c.bound_memories@
}

impl Session {
    pub open spec fn wf(&self) -> bool {
        &&& self.memory_names@.len() == self.memories@.len()
        &&& forall|k: int|
            0 <= k < self.controllers@.len() ==> state_ok(
                #[trigger] self.controllers@[k],
                self.memories@.len(),
            )
    }

    /// No banks, no controllers, no program, stopped.
    pub fn new() -> (s: Self)
        ensures
            s.wf(),
            s.memory_names@.len() == 0,
            s.memories@.len() == 0,
            s.controllers@.len() == 0,
            s.bytecode@.len() == 0,
            s.mode == ExecutionMode::Stopped,
            s.source@.len() == 0,
            s.last_error is None,
            s.current_path is None,
    {
        Session {
            source: String::new(),
            last_error: None,
            current_path: None,
            memory_names: Vec::new(),
            memories: Vec::new(),
            controllers: Vec::new(),
            bytecode: Vec::new(),
            mode: ExecutionMode::Stopped,
        }
    }

    /// Adds a bank at the end of the pool.
    pub fn add_memory(&mut self, bank: MemoryBank)
        requires
            old(self).wf(),
        ensures
            final(self).wf(),
            final(self).source == old(self).source,
            final(self).last_error == old(self).last_error,
            final(self).current_path == old(self).current_path,
            final(self).memory_names@ == old(self).memory_names@.push(bank.name),
            final(self).memories@ == old(self).memories@.push(bank.memory),
            final(self).controllers == old(self).controllers,
            final(self).bytecode == old(self).bytecode,
            final(self).mode == old(self).mode,
    {
        let MemoryBank { name, memory } = bank;
        self.memory_names.push(name);
        self.memories.push(memory);
        assert forall|k: int| 0 <= k < self.controllers@.len() implies state_ok(
            #[trigger] self.controllers@[k],
            self.memories@.len(),
        ) by {
            assert(state_ok(old(self).controllers@[k], old(self).memories@.len()));
        }
    }

    /// Binds bank `memory` to controller `controller`, if both exist and it is
    /// not bound already.
    pub fn bind_memory(&mut self, controller: usize, memory: usize)
        requires
            old(self).wf(),
        ensures
            final(self).wf(),
            final(self).source == old(self).source,
            final(self).last_error == old(self).last_error,
            final(self).current_path == old(self).current_path,
            final(self).memory_names == old(self).memory_names,
            final(self).memories == old(self).memories,
            final(self).bytecode == old(self).bytecode,
            final(self).mode == old(self).mode,
            final(self).controllers@.len() == old(self).controllers@.len(),
            forall|k: int|
                0 <= k < old(self).controllers@.len() && k != controller
                    ==> final(self).controllers@[k] == old(self).controllers@[k],
            controller < old(self).controllers@.len() ==> {
                let c0 = old(self).controllers@[controller as int];
                let c1 = final(self).controllers@[controller as int];
                if memory < old(self).memories@.len() && !c0.bound_memories@.contains(memory) {
                    &&& c1.bound_memories@ == c0.bound_memories@.push(memory)
                    &&& c1.controller.memories@ == c0.bound_memories@.push(memory)
                    &&& c1.name == c0.name
                    &&& c1.controller.register == c0.controller.register
                    &&& c1.controller.ip == c0.controller.ip
                    &&& c1.controller.halted == c0.controller.halted
                    &&& c1.controller.program == c0.controller.program
                    &&& c1.controller.instruction_pos == c0.controller.instruction_pos
                } else {
                    c1 == c0
                }
            },
    {
        if controller >= self.controllers.len() || memory >= self.memories.len() {
            return;
        }
        let mut present = false;
        let mut i: usize = 0;
        let ghost b = self.controllers@[controller as int].bound_memories@;
        while i < self.controllers[controller].bound_memories.len()
            invariant
                controller < self.controllers@.len(),
                b == self.controllers@[controller as int].bound_memories@,
                i <= b.len(),
                present <==> (exists|j: int| 0 <= j < i && b[j] == memory),
            decreases b.len() - i,
        {
            if self.controllers[controller].bound_memories[i] == memory {
                present = true;
            }
            i = i + 1;
        }
        if present {
            return;
        }
        let ghost c0 = self.controllers@[controller as int];
        self.controllers[controller].bound_memories.push(memory);
        self.controllers[controller].controller.memories.push(memory);
        assert forall|k: int| 0 <= k < self.controllers@.len() implies state_ok(
            #[trigger] self.controllers@[k],
            self.memories@.len(),
        ) by {
            assert(state_ok(old(self).controllers@[k], old(self).memories@.len()));
            if k == controller {
                assert(self.controllers@[k].controller.positions() == c0.controller.positions());
            }
        }
    }

    /// Unbinds bank `memory` from controller `controller`, if it exists.
    pub fn unbind_memory(&mut self, controller: usize, memory: usize)
        requires
            old(self).wf(),
        ensures
            final(self).wf(),
            final(self).source == old(self).source,
            final(self).last_error == old(self).last_error,
            final(self).current_path == old(self).current_path,
            final(self).memory_names == old(self).memory_names,
            final(self).memories == old(self).memories,
            final(self).bytecode == old(self).bytecode,
            final(self).mode == old(self).mode,
            final(self).controllers@.len() == old(self).controllers@.len(),
            forall|k: int|
                0 <= k < old(self).controllers@.len() && k != controller
                    ==> final(self).controllers@[k] == old(self).controllers@[k],
            controller < old(self).controllers@.len() ==> {
                let c0 = old(self).controllers@[controller as int];
                let c1 = final(self).controllers@[controller as int];
                &&& c1.bound_memories@ == without(c0.bound_memories@, memory)
                &&& c1.controller.memories@ == without(c0.bound_memories@, memory)
                &&& c1.name == c0.name
                &&& c1.controller.register == c0.controller.register
                &&& c1.controller.ip == c0.controller.ip
                &&& c1.controller.halted == c0.controller.halted
                &&& c1.controller.program == c0.controller.program
                &&& c1.controller.instruction_pos == c0.controller.instruction_pos
            },
    {
        if controller >= self.controllers.len() {
            return;
        }
        let ghost c0 = self.controllers@[controller as int];
        let kept = without_exec(&self.controllers[controller].bound_memories, memory);
        proof {
            lemma_without_subset(c0.bound_memories@, memory, self.memories@.len());
            lemma_without_distinct(c0.bound_memories@, memory);
        }
        self.controllers[controller].bound_memories = kept.clone();
        self.controllers[controller].controller.memories = kept;
        assert forall|k: int| 0 <= k < self.controllers@.len() implies state_ok(
            #[trigger] self.controllers@[k],
            self.memories@.len(),
        ) by {
            assert(state_ok(old(self).controllers@[k], old(self).memories@.len()));
            if k == controller {
                assert(self.controllers@[k].controller.positions() == c0.controller.positions());
            }
        }
    }
}

impl Session {
    /// Removes bank `index` from the pool, if it exists: every binding to it
    /// goes, and bindings to later banks follow them down by one.
    pub fn remove_memory(&mut self, index: usize)
        requires
            old(self).wf(),
        ensures
            final(self).wf(),
            final(self).source == old(self).source,
            final(self).last_error == old(self).last_error,
            final(self).current_path == old(self).current_path,
            final(self).bytecode == old(self).bytecode,
            final(self).mode == old(self).mode,
            final(self).controllers@.len() == old(self).controllers@.len(),
            index < old(self).memories@.len() ==> {
                &&& final(self).memory_names@ == old(self).memory_names@.remove(index as int)
                &&& final(self).memories@ == old(self).memories@.remove(index as int)
                &&& forall|k: int|
                    0 <= k < old(self).controllers@.len() ==> {
                        let c0 = old(self).controllers@[k];
                        let c1 = #[trigger] final(self).controllers@[k];
                        &&& c1.bound_memories@ == after_removal(c0.bound_memories@, index)
                        &&& c1.controller.memories@ == after_removal(c0.bound_memories@, index)
                        &&& c1.name == c0.name
                        &&& c1.controller.register == c0.controller.register
                        &&& c1.controller.ip == c0.controller.ip
                        &&& c1.controller.halted == c0.controller.halted
                        &&& c1.controller.program == c0.controller.program
                        &&& c1.controller.instruction_pos == c0.controller.instruction_pos
                    }
            },
            index >= old(self).memories@.len() ==> {
                &&& final(self).memory_names == old(self).memory_names
                &&& final(self).memories == old(self).memories
                &&& final(self).controllers == old(self).controllers
            },
    {
        if index >= self.memories.len() {
            return;
        }
        let ghost n = self.memories@.len();
        self.memory_names.remove(index);
        self.memories.remove(index);
        let mut i: usize = 0;
        while i < self.controllers.len()
            invariant
                n == old(self).memories@.len(),
                index < n,
                self.memories@ == old(self).memories@.remove(index as int),
                self.memory_names@ == old(self).memory_names@.remove(index as int),
                self.source == old(self).source,
                self.last_error == old(self).last_error,
                self.current_path == old(self).current_path,
                self.bytecode == old(self).bytecode,
                self.mode == old(self).mode,
                self.controllers@.len() == old(self).controllers@.len(),
                i <= self.controllers@.len(),
                forall|k: int|
                    i <= k < self.controllers@.len() ==> #[trigger] self.controllers@[k]
                        == old(self).controllers@[k],
                forall|k: int|
                    0 <= k < old(self).controllers@.len() ==> state_ok(
                        #[trigger] old(self).controllers@[k],
                        n,
                    ),
                forall|k: int|
                    0 <= k < i ==> {
                        let c0 = old(self).controllers@[k];
                        let c1 = #[trigger] self.controllers@[k];
                        &&& c1.bound_memories@ == after_removal(c0.bound_memories@, index)
                        &&& c1.controller.memories@ == after_removal(c0.bound_memories@, index)
                        &&& c1.name == c0.name
                        &&& c1.controller.register == c0.controller.register
                        &&& c1.controller.ip == c0.controller.ip
                        &&& c1.controller.halted == c0.controller.halted
                        &&& c1.controller.program == c0.controller.program
                        &&& c1.controller.instruction_pos == c0.controller.instruction_pos
                        &&& state_ok(c1, (n - 1) as nat)
                    },
            decreases self.controllers@.len() - i,
        {
            let ghost c0 = self.controllers@[i as int];
            assert(state_ok(c0, n));
            let kept = without_exec(&self.controllers[i].bound_memories, index);
            proof {
                lemma_without_subset(c0.bound_memories@, index, n);
                lemma_after_removal_distinct(c0.bound_memories@, index);
            }
            let mut shifted: Vec<usize> = Vec::new();
            let mut j: usize = 0;
            while j < kept.len()
                invariant
                    j <= kept@.len(),
                    kept@ == without(c0.bound_memories@, index),
                    shifted@ == kept@.take(j as int).map_values(
                        |x: usize|
                            if x > index {
                                (x - 1) as usize
                            } else {
                                x
                            },
                    ),
                decreases kept@.len() - j,
            {
                let x = kept[j];
                let y = if x > index {
                    x - 1
                } else {
                    x
                };
                shifted.push(y);
                assert(kept@.take(j + 1) =~= kept@.take(j as int).push(x));
                j = j + 1;
                assert(shifted@ =~= kept@.take(j as int).map_values(
                    |x: usize|
                        if x > index {
                            (x - 1) as usize
                        } else {
                            x
                        },
                ));
            }
            assert(kept@.take(kept@.len() as int) =~= kept@);
            self.controllers[i].bound_memories = shifted.clone();
            self.controllers[i].controller.memories = shifted;
            assert(self.controllers@[i as int].controller.positions() == c0.controller.positions());
            i = i + 1;
        }
        assert forall|k: int| 0 <= k < self.controllers@.len() implies state_ok(
            #[trigger] self.controllers@[k],
            self.memories@.len(),
        ) by {
            assert(state_ok(self.controllers@[k], (n - 1) as nat));
        }
    }

    /// Adds a controller; it gets the current program if there is one.
    pub fn add_controller(&mut self, name: String)
        requires
            old(self).wf(),
        ensures
            final(self).wf(),
            final(self).source == old(self).source,
            final(self).last_error == old(self).last_error,
            final(self).current_path == old(self).current_path,
            final(self).memory_names == old(self).memory_names,
            final(self).memories == old(self).memories,
            final(self).bytecode == old(self).bytecode,
            final(self).mode == old(self).mode,
            final(self).controllers@.len() == old(self).controllers@.len() + 1,
            forall|k: int|
                0 <= k < old(self).controllers@.len() ==> #[trigger] final(self).controllers@[k]
                    == old(self).controllers@[k],
            ({
                let c = final(self).controllers@.last();
                &&& c.name@ == name@
                &&& c.bound_memories@ == Seq::<usize>::empty()
                &&& c.controller.memories@ == Seq::<usize>::empty()
                &&& c.controller.register == 0
                &&& c.controller.ip == 0
                &&& !c.controller.halted
                &&& c.controller.program@ == (if old(self).bytecode@.len() > 0 {
                    old(self).bytecode@
                } else {
                    Seq::<u8>::empty()
                })
            }),
    {
        let mut cs = ControllerState::new(name);
        assert(cs.controller.positions() =~= instruction_starts(cs.controller.program@));
        if self.bytecode.len() > 0 {
            cs.controller.set_program(self.bytecode.clone());
        }
        assert(cs.controller.memories@ =~= cs.bound_memories@);
        assert(state_ok(cs, self.memories@.len()));
        self.controllers.push(cs);
        assert forall|k: int| 0 <= k < self.controllers@.len() implies state_ok(
            #[trigger] self.controllers@[k],
            self.memories@.len(),
        ) by {
            if k < old(self).controllers@.len() {
                assert(state_ok(old(self).controllers@[k], old(self).memories@.len()));
            } else {
                assert(self.controllers@[k].bound_memories@ =~= Seq::<usize>::empty());
            }
        }
    }

    /// Removes controller `index`, if it exists.
    pub fn remove_controller(&mut self, index: usize)
        requires
            old(self).wf(),
        ensures
            final(self).wf(),
            final(self).source == old(self).source,
            final(self).last_error == old(self).last_error,
            final(self).current_path == old(self).current_path,
            final(self).memory_names == old(self).memory_names,
            final(self).memories == old(self).memories,
            final(self).bytecode == old(self).bytecode,
            final(self).mode == old(self).mode,
            final(self).controllers@ == (if index < old(self).controllers@.len() {
                old(self).controllers@.remove(index as int)
            } else {
                old(self).controllers@
            }),
    {
        if index < self.controllers.len() {
            self.controllers.remove(index);
            assert forall|k: int| 0 <= k < self.controllers@.len() implies state_ok(
                #[trigger] self.controllers@[k],
                self.memories@.len(),
            ) by {
                if k < index {
                    assert(state_ok(old(self).controllers@[k], old(self).memories@.len()));
                } else {
                    assert(state_ok(old(self).controllers@[k + 1], old(self).memories@.len()));
                }
            }
        }
    }

    /// Makes `program` the current program and loads it into every
    /// controller, which restarts.
    pub fn load_program(&mut self, program: Vec<u8>)
        requires
            old(self).wf(),
        ensures
            final(self).wf(),
            final(self).source == old(self).source,
            final(self).last_error == old(self).last_error,
            final(self).current_path == old(self).current_path,
            final(self).bytecode@ == program@,
            final(self).memory_names == old(self).memory_names,
            final(self).memories == old(self).memories,
            final(self).mode == old(self).mode,
            final(self).controllers@.len() == old(self).controllers@.len(),
            forall|k: int|
                0 <= k < old(self).controllers@.len() ==> restarted(
                    old(self).controllers@[k],
                    #[trigger] final(self).controllers@[k],
                    program@,
                ),
    {
        self.bytecode = program;
        let mut i: usize = 0;
        while i < self.controllers.len()
            invariant
                self.wf(),
                self.bytecode@ == program@,
                self.memory_names == old(self).memory_names,
                self.source == old(self).source,
                self.last_error == old(self).last_error,
                self.current_path == old(self).current_path,
                self.memories == old(self).memories,
                self.mode == old(self).mode,
                self.controllers@.len() == old(self).controllers@.len(),
                i <= self.controllers@.len(),
                forall|k: int|
                    i <= k < self.controllers@.len() ==> #[trigger] self.controllers@[k]
                        == old(self).controllers@[k],
                forall|k: int|
                    0 <= k < i ==> restarted(
                        old(self).controllers@[k],
                        #[trigger] self.controllers@[k],
                        program@,
                    ),
            decreases self.controllers@.len() - i,
        {
            let p = self.bytecode.clone();
            assert(state_ok(self.controllers@[i as int], self.memories@.len()));
            self.controllers[i].controller.set_program(p);
            self.controllers[i].controller.reset();
            assert(state_ok(self.controllers@[i as int], self.memories@.len()));
            i = i + 1;
        }
    }

    /// Compiles the source. A source that compiles gives the current
    /// program, every controller restarts on it, and the error is cleared;
    /// otherwise the compile error is recorded and nothing else changes.
    pub fn compile_source(&mut self)
        requires
            old(self).wf(),
            old(self).source@.len() < usize::MAX / 8,
        ensures
            final(self).wf(),
            final(self).source == old(self).source,
            final(self).current_path == old(self).current_path,
            final(self).memory_names == old(self).memory_names,
            final(self).memories == old(self).memories,
            final(self).mode == old(self).mode,
            final(self).controllers@.len() == old(self).controllers@.len(),
            match assemble(old(self).source@) {
                Ok(b) => {
                    &&& final(self).last_error is None
                    &&& final(self).bytecode@ == b
                    &&& forall|k: int|
                        0 <= k < old(self).controllers@.len() ==> restarted(
                            old(self).controllers@[k],
                            #[trigger] final(self).controllers@[k],
                            b,
                        )
                },
                Err(f) => {
                    &&& final(self).last_error matches Some(SessionError::Compile(e)) && e@ == f
                    &&& final(self).bytecode == old(self).bytecode
                    &&& final(self).controllers == old(self).controllers
                },
            },
    {
        match compile(self.source.as_str()) {
            Ok(program) => {
                self.load_program(program);
                self.last_error = None;
            },
            Err(e) => {
                self.last_error = Some(SessionError::Compile(e));
            },
        }
    }

    /// Takes the outcome of reading a source file at `path`. Text that was
    /// read becomes the source, `path` the current path, and it is compiled
    /// as `compile_source` does; a failed read is recorded as
    /// "Could not open file: " and the reason, and nothing else changes.
    pub fn open_source(&mut self, path: String, read: Result<String, String>)
        requires
            old(self).wf(),
            read matches Ok(text) ==> text@.len() < usize::MAX / 8,
        ensures
            final(self).wf(),
            final(self).memory_names == old(self).memory_names,
            final(self).memories == old(self).memories,
            final(self).mode == old(self).mode,
            final(self).controllers@.len() == old(self).controllers@.len(),
            match read {
                Ok(text) => {
                    &&& final(self).source@ == text@
                    &&& final(self).current_path == Some(path)
                    &&& match assemble(text@) {
                        Ok(b) => {
                            &&& final(self).last_error is None
                            &&& final(self).bytecode@ == b
                            &&& forall|k: int|
                                0 <= k < old(self).controllers@.len() ==> restarted(
                                    old(self).controllers@[k],
                                    #[trigger] final(self).controllers@[k],
                                    b,
                                )
                        },
                        Err(f) => {
                            &&& final(self).last_error matches Some(SessionError::Compile(e))
                                && e@ == f
                            &&& final(self).bytecode == old(self).bytecode
                            &&& final(self).controllers == old(self).controllers
                        },
                    }
                },
                Err(why) => {
                    &&& final(self).last_error matches Some(SessionError::Message(m)) && m@
                        == "Could not open file: "@ + why@
                    &&& final(self).source == old(self).source
                    &&& final(self).current_path == old(self).current_path
                    &&& final(self).bytecode == old(self).bytecode
                    &&& final(self).controllers == old(self).controllers
                },
            },
    {
        match read {
            Ok(text) => {
                self.source = text;
                self.current_path = Some(path);
                self.compile_source();
            },
            Err(why) => {
                self.last_error = Some(SessionError::Message(message("Could not open file: ", &why)));
            },
        }
    }

    /// Takes the outcome of saving the source to `path`: on success `path`
    /// becomes the current path; a failure is recorded as
    /// "Could not save file: " and the reason. Nothing else changes.
    pub fn saved_source(&mut self, path: String, result: Result<(), String>)
        requires
            old(self).wf(),
        ensures
            final(self).wf(),
            final(self).source == old(self).source,
            final(self).bytecode == old(self).bytecode,
            final(self).memory_names == old(self).memory_names,
            final(self).memories == old(self).memories,
            final(self).controllers == old(self).controllers,
            final(self).mode == old(self).mode,
            match result {
                Ok(()) => {
                    &&& final(self).current_path == Some(path)
                    &&& final(self).last_error == old(self).last_error
                },
                Err(why) => {
                    &&& final(self).current_path == old(self).current_path
                    &&& final(self).last_error matches Some(SessionError::Message(m)) && m@
                        == "Could not save file: "@ + why@
                },
            },
    {
        match result {
            Ok(()) => {
                self.current_path = Some(path);
            },
            Err(why) => {
                self.last_error = Some(SessionError::Message(message("Could not save file: ", &why)));
            },
        }
    }

    /// The program to write to a binary file: the current program, or, when
    /// nothing has been compiled, `None` with "Nothing compiled yet."
    /// recorded. Nothing else changes.
    pub fn binary_to_save(&mut self) -> (r: Option<Vec<u8>>)
        requires
            old(self).wf(),
        ensures
            final(self).wf(),
            final(self).source == old(self).source,
            final(self).current_path == old(self).current_path,
            final(self).bytecode == old(self).bytecode,
            final(self).memory_names == old(self).memory_names,
            final(self).memories == old(self).memories,
            final(self).controllers == old(self).controllers,
            final(self).mode == old(self).mode,
            old(self).bytecode@.len() == 0 ==> {
                &&& r is None
                &&& final(self).last_error matches Some(SessionError::Message(m)) && m@
                    == "Nothing compiled yet."@
            },
            old(self).bytecode@.len() > 0 ==> {
                &&& r matches Some(b) && b@ == old(self).bytecode@
                &&& final(self).last_error == old(self).last_error
            },
    {
        if self.bytecode.len() == 0 {
            let m = message("Nothing compiled yet.", "");
            proof {
                reveal_strlit("");
                assert("Nothing compiled yet."@ + ""@ =~= "Nothing compiled yet."@);
            }
            self.last_error = Some(SessionError::Message(m));
            None
        } else {
            Some(self.bytecode.clone())
        }
    }

    /// Takes the outcome of writing the program to a binary file: a failure
    /// is recorded as "Could not save binary: " and the reason. Nothing else
    /// changes.
    pub fn saved_binary(&mut self, result: Result<(), String>)
        requires
            old(self).wf(),
        ensures
            final(self).wf(),
            final(self).source == old(self).source,
            final(self).current_path == old(self).current_path,
            final(self).bytecode == old(self).bytecode,
            final(self).memory_names == old(self).memory_names,
            final(self).memories == old(self).memories,
            final(self).controllers == old(self).controllers,
            final(self).mode == old(self).mode,
            match result {
                Ok(()) => final(self).last_error == old(self).last_error,
                Err(why) => final(self).last_error matches Some(SessionError::Message(m)) && m@
                    == "Could not save binary: "@ + why@,
            },
    {
        if let Err(why) = result {
            self.last_error = Some(SessionError::Message(message("Could not save binary: ", &why)));
        }
    }

    /// Where Save writes the source: the current path, if there is one;
    /// otherwise the user is to be asked, offering `save_as_name`.
    pub fn save_target(&self) -> (r: Option<String>)
        ensures
            match self.current_path {
                Some(p) => r matches Some(q) && q@ == p@,
                None => r is None,
            },
    {
        match &self.current_path {
            Some(p) => Some(p.clone()),
            None => None,
        }
    }

    /// The file name offered when saving the source under a new name: the
    /// current file's name, or `program.cst`.
    pub fn save_as_name(&self) -> (n: String)
        ensures
            n@ == match self.current_path {
                Some(p) => match path_file_name(p@) {
                    Some(f) => f,
                    None => "program.cst"@,
                },
                None => "program.cst"@,
            },
    {
        match &self.current_path {
            Some(p) => match file_name_of(p) {
                Some(f) => f,
                None => text_of("program.cst"),
            },
            None => text_of("program.cst"),
        }
    }

    /// The file name offered when saving the program: the current file's
    /// stem with `.bin`, or `program.bin`.
    pub fn binary_name(&self) -> (n: String)
        ensures
            n@ == match self.current_path {
                Some(p) => match path_file_stem(p@) {
                    Some(s) => s + ".bin"@,
                    None => "program.bin"@,
                },
                None => "program.bin"@,
            },
    {
        match &self.current_path {
            Some(p) => match file_stem_of(p) {
                Some(stem) => message(stem.as_str(), ".bin"),
                None => text_of("program.bin"),
            },
            None => text_of("program.bin"),
        }
    }

    /// Starts a new, empty source: no source, no current program, no error,
    /// no current path; the controllers keep their programs.
    pub fn new_file(&mut self)
        requires
            old(self).wf(),
        ensures
            final(self).wf(),
            final(self).source@.len() == 0,
            final(self).last_error is None,
            final(self).current_path is None,
            final(self).bytecode@.len() == 0,
            final(self).memory_names == old(self).memory_names,
            final(self).memories == old(self).memories,
            final(self).controllers == old(self).controllers,
            final(self).mode == old(self).mode,
    {
        self.source = String::new();
        self.bytecode = Vec::new();
        self.last_error = None;
        self.current_path = None;
    }

    /// Takes the outcome of reading a binary file. A program that was read:
    /// its disassembly becomes the source, it becomes the current program,
    /// every controller restarts on it, the error is cleared and there is no
    /// current path. A failed read is recorded as "Could not open binary: "
    /// and the reason, and nothing else changes.
    pub fn open_binary(&mut self, read: Result<Vec<u8>, String>)
        requires
            old(self).wf(),
        ensures
            final(self).wf(),
            final(self).memory_names == old(self).memory_names,
            final(self).memories == old(self).memories,
            final(self).mode == old(self).mode,
            final(self).controllers@.len() == old(self).controllers@.len(),
            match read {
                Ok(bytes) => {
                    &&& final(self).source@ == disassemble(bytes@)
                    &&& final(self).last_error is None
                    &&& final(self).current_path is None
                    &&& final(self).bytecode@ == bytes@
                    &&& forall|k: int|
                        0 <= k < old(self).controllers@.len() ==> restarted(
                            old(self).controllers@[k],
                            #[trigger] final(self).controllers@[k],
                            bytes@,
                        )
                },
                Err(why) => {
                    &&& final(self).last_error matches Some(SessionError::Message(m)) && m@
                        == "Could not open binary: "@ + why@
                    &&& final(self).source == old(self).source
                    &&& final(self).current_path == old(self).current_path
                    &&& final(self).bytecode == old(self).bytecode
                    &&& final(self).controllers == old(self).controllers
                },
            },
    {
        match read {
            Ok(bytes) => {
                self.source = decompile(bytes.as_slice());
                self.last_error = None;
                self.current_path = None;
                self.load_program(bytes);
            },
            Err(why) => {
                self.last_error = Some(SessionError::Message(message("Could not open binary: ", &why)));
            },
        }
    }

    /// Forgets the current program (the controllers keep theirs).
    pub fn clear_program(&mut self)
        requires
            old(self).wf(),
        ensures
            final(self).wf(),
            final(self).source == old(self).source,
            final(self).last_error == old(self).last_error,
            final(self).current_path == old(self).current_path,
            final(self).bytecode@ == Seq::<u8>::empty(),
            final(self).memory_names == old(self).memory_names,
            final(self).memories == old(self).memories,
            final(self).controllers == old(self).controllers,
            final(self).mode == old(self).mode,
    {
        self.bytecode.clear();
    }

    /// Starts continuous running.
    pub fn run(&mut self)
        ensures
            final(self).mode == ExecutionMode::Running,
            final(self).source == old(self).source,
            final(self).last_error == old(self).last_error,
            final(self).current_path == old(self).current_path,
            final(self).memory_names == old(self).memory_names,
            final(self).memories == old(self).memories,
            final(self).controllers == old(self).controllers,
            final(self).bytecode == old(self).bytecode,
    {
        self.mode = ExecutionMode::Running;
    }

    /// Stops continuous running; every controller keeps its state.
    pub fn pause(&mut self)
        ensures
            final(self).mode == ExecutionMode::Stopped,
            final(self).source == old(self).source,
            final(self).last_error == old(self).last_error,
            final(self).current_path == old(self).current_path,
            final(self).memory_names == old(self).memory_names,
            final(self).memories == old(self).memories,
            final(self).controllers == old(self).controllers,
            final(self).bytecode == old(self).bytecode,
    {
        self.mode = ExecutionMode::Stopped;
    }

    /// Stops running and resets every controller (register and instruction
    /// pointer to zero); programs and memories stay.
    pub fn reset_all(&mut self)
        requires
            old(self).wf(),
        ensures
            final(self).wf(),
            final(self).source == old(self).source,
            final(self).last_error == old(self).last_error,
            final(self).current_path == old(self).current_path,
            final(self).mode == ExecutionMode::Stopped,
            final(self).memory_names == old(self).memory_names,
            final(self).memories == old(self).memories,
            final(self).bytecode == old(self).bytecode,
            final(self).controllers@.len() == old(self).controllers@.len(),
            forall|k: int|
                0 <= k < old(self).controllers@.len() ==> {
                    let c0 = old(self).controllers@[k];
                    let c1 = #[trigger] final(self).controllers@[k];
                    &&& c1.controller.register == 0
                    &&& c1.controller.ip == 0
                    &&& !c1.controller.halted
                    &&& c1.controller.program == c0.controller.program
                    &&& c1.controller.instruction_pos == c0.controller.instruction_pos
                    &&& c1.controller.memories == c0.controller.memories
                    &&& c1.bound_memories == c0.bound_memories
                    &&& c1.name == c0.name
                },
    {
        self.mode = ExecutionMode::Stopped;
        let mut i: usize = 0;
        while i < self.controllers.len()
            invariant
                self.wf(),
                self.mode == ExecutionMode::Stopped,
                self.memory_names == old(self).memory_names,
                self.source == old(self).source,
                self.last_error == old(self).last_error,
                self.current_path == old(self).current_path,
                self.memories == old(self).memories,
                self.bytecode == old(self).bytecode,
                self.controllers@.len() == old(self).controllers@.len(),
                i <= self.controllers@.len(),
                forall|k: int|
                    i <= k < self.controllers@.len() ==> #[trigger] self.controllers@[k]
                        == old(self).controllers@[k],
                forall|k: int|
                    0 <= k < i ==> {
                        let c0 = old(self).controllers@[k];
                        let c1 = #[trigger] self.controllers@[k];
                        &&& c1.controller.register == 0
                        &&& c1.controller.ip == 0
                        &&& !c1.controller.halted
                        &&& c1.controller.program == c0.controller.program
                        &&& c1.controller.instruction_pos == c0.controller.instruction_pos
                        &&& c1.controller.memories == c0.controller.memories
                        &&& c1.bound_memories == c0.bound_memories
                        &&& c1.name == c0.name
                    },
            decreases self.controllers@.len() - i,
        {
            assert(state_ok(self.controllers@[i as int], self.memories@.len()));
            self.controllers[i].controller.reset();
            assert(state_ok(self.controllers@[i as int], self.memories@.len()));
            i = i + 1;
        }
    }

    /// Whether every controller has halted (true when there are none).
    pub fn all_halted(&self) -> (r: bool)
        ensures
            r == (forall|k: int|
                0 <= k < self.controllers@.len() ==> (#[trigger] self.controllers@[k]).controller.halted),
    {
        let mut i: usize = 0;
        while i < self.controllers.len()
            invariant
                i <= self.controllers@.len(),
                forall|k: int| 0 <= k < i ==> (#[trigger] self.controllers@[k]).controller.halted,
            decreases self.controllers@.len() - i,
        {
            if !self.controllers[i].controller.halted {
                return false;
            }
            i = i + 1;
        }
        true
    }
}

proof fn lemma_round_fault_persists(cs: Seq<ControllerState>, pool: Seq<Seq<u64>>, k: int)
    requires
        0 <= k <= cs.len(),
        round_fault(cs.take(k), pool) is Some,
    ensures
        round_fault(cs, pool) == round_fault(cs.take(k), pool),
    decreases cs.len(),
{
    if k < cs.len() {
        assert(cs.drop_last().take(k) =~= cs.take(k));
        lemma_round_fault_persists(cs.drop_last(), pool, k);
    } else {
        assert(cs.take(k) =~= cs);
    }
}

impl Session {
    /// Steps every controller once, in order, each on the pool as the ones
    /// before it left it (see `round`). Before a controller's step would
    /// overflow its register or divide by zero, stops and returns that
    /// controller's index; the controllers before it have stepped, it and
    /// the ones after it have not.
    pub fn step_all(&mut self) -> (r: Result<(), usize>)
        requires
            old(self).wf(),
        ensures
            final(self).wf(),
            final(self).source == old(self).source,
            final(self).last_error == old(self).last_error,
            final(self).current_path == old(self).current_path,
            final(self).memory_names == old(self).memory_names,
            final(self).bytecode == old(self).bytecode,
            final(self).mode == old(self).mode,
            ({
                let rd = round(old(self).controllers@, pool_view(old(self).memories@));
                let fault = round_fault(old(self).controllers@, pool_view(old(self).memories@));
                match r {
                    Ok(()) => {
                        &&& fault is None
                        &&& final(self).controllers@ == rd.0
                        &&& pool_view(final(self).memories@) == rd.1
                    },
                    Err(k) => {
                        let before = round(
                            old(self).controllers@.take(k as int),
                            pool_view(old(self).memories@),
                        );
                        &&& fault == Some(k as int)
                        &&& k < old(self).controllers@.len()
                        &&& final(self).controllers@.len() == old(self).controllers@.len()
                        &&& final(self).controllers@.take(k as int) == before.0
                        &&& pool_view(final(self).memories@) == before.1
                        &&& forall|j: int|
                            k <= j < old(self).controllers@.len()
                                ==> #[trigger] final(self).controllers@[j]
                                == old(self).controllers@[j]
                    },
                }
            }),
    {
        let ghost cs0 = self.controllers@;
        let ghost p0 = pool_view(self.memories@);
        let mut i: usize = 0;
        assert(cs0.take(0) =~= Seq::<ControllerState>::empty());
        assert(self.controllers@.take(0) =~= Seq::<ControllerState>::empty());
        while i < self.controllers.len()
            invariant
                self.wf(),
                cs0 == old(self).controllers@,
                p0 == pool_view(old(self).memories@),
                self.memory_names == old(self).memory_names,
                self.source == old(self).source,
                self.last_error == old(self).last_error,
                self.current_path == old(self).current_path,
                self.bytecode == old(self).bytecode,
                self.mode == old(self).mode,
                self.controllers@.len() == cs0.len(),
                i <= cs0.len(),
                self.controllers@.take(i as int) == round(cs0.take(i as int), p0).0,
                pool_view(self.memories@) == round(cs0.take(i as int), p0).1,
                round_fault(cs0.take(i as int), p0) is None,
                forall|k: int| i <= k < cs0.len() ==> #[trigger] self.controllers@[k] == cs0[k],
            decreases cs0.len() - i,
        {
            let ghost pre = cs0.take(i as int);
            assert(cs0.take(i + 1).drop_last() =~= pre);
            assert(cs0.take(i + 1).last() == cs0[i as int]);
            assert(state_ok(self.controllers@[i as int], self.memories@.len()));
            proof {
                lemma_state_slots(self.controllers@[i as int], self.memories@.len());
            }
            if self.controllers[i].controller.step_would_fault(&self.memories) {
                proof {
                    lemma_round_fault_persists(cs0, p0, i + 1);
                }
                return Err(i);
            }
            let ghost before = self.controllers@;
            self.controllers[i].controller.step(&mut self.memories);
            assert(self.controllers@[i as int] == after_effect(
                cs0[i as int],
                cs0[i as int].controller.step_effect(round(pre, p0).1),
            ));
            assert(self.controllers@.take(i + 1) =~= before.take(i as int).push(
                self.controllers@[i as int],
            ));
            assert forall|k: int| 0 <= k < self.controllers@.len() implies state_ok(
                #[trigger] self.controllers@[k],
                self.memories@.len(),
            ) by {
                assert(state_ok(before[k], self.memories@.len()));
                if k == i {
                    assert(self.controllers@[k].controller.positions()
                        == before[k].controller.positions());
                }
            }
            i = i + 1;
        }
        assert(cs0.take(cs0.len() as int) =~= cs0);
        assert(self.controllers@.take(cs0.len() as int) =~= self.controllers@);
        Ok(())
    }

    /// One tick of continuous running: when every controller has halted,
    /// running stops and nothing steps (`Ok(false)`); otherwise every
    /// controller steps as `step_all` does (`Ok(true)`, or the faulting
    /// controller).
    pub fn run_tick(&mut self) -> (r: Result<bool, usize>)
        requires
            old(self).wf(),
        ensures
            final(self).wf(),
            final(self).source == old(self).source,
            final(self).last_error == old(self).last_error,
            final(self).current_path == old(self).current_path,
            final(self).memory_names == old(self).memory_names,
            final(self).bytecode == old(self).bytecode,
            ({
                let halted = forall|k: int|
                    0 <= k < old(self).controllers@.len()
                        ==> (#[trigger] old(self).controllers@[k]).controller.halted;
                let rd = round(old(self).controllers@, pool_view(old(self).memories@));
                let fault = round_fault(old(self).controllers@, pool_view(old(self).memories@));
                if halted {
                    &&& r == Ok::<bool, usize>(false)
                    &&& final(self).mode == ExecutionMode::Stopped
                    &&& final(self).controllers == old(self).controllers
                    &&& final(self).memories == old(self).memories
                } else {
                    &&& final(self).mode == old(self).mode
                    &&& match r {
                        Ok(b) => {
                            &&& b
                            &&& fault is None
                            &&& final(self).controllers@ == rd.0
                            &&& pool_view(final(self).memories@) == rd.1
                        },
                        Err(k) => {
                            let before = round(
                                old(self).controllers@.take(k as int),
                                pool_view(old(self).memories@),
                            );
                            &&& fault == Some(k as int)
                            &&& k < old(self).controllers@.len()
                            &&& final(self).controllers@.len() == old(self).controllers@.len()
                            &&& final(self).controllers@.take(k as int) == before.0
                            &&& pool_view(final(self).memories@) == before.1
                            &&& forall|j: int|
                                k <= j < old(self).controllers@.len()
                                    ==> #[trigger] final(self).controllers@[j]
                                    == old(self).controllers@[j]
                        },
                    }
                }
            }),
    {
        if self.all_halted() {
            self.mode = ExecutionMode::Stopped;
            return Ok(false);
        }
        match self.step_all() {
            Ok(()) => Ok(true),
            Err(k) => Err(k),
        }
    }
}

/// A consistent controller's slots name banks of the pool.
proof fn lemma_state_slots(c: ControllerState, n: nat)
    requires
        state_ok(c, n),
    ensures
        c.controller.slots_within(n),
{
}

fn without_exec(s: &Vec<usize>, m: usize) -> (r: Vec<usize>)
    ensures
        r@ == without(s@, m),
{
    let mut r: Vec<usize> = Vec::new();
    let mut i: usize = 0;
    assert(s@.take(0) =~= Seq::<usize>::empty());
    while i < s.len()
        invariant
            i <= s@.len(),
            r@ == without(s@.take(i as int), m),
        decreases s@.len() - i,
    {
        assert(s@.take(i + 1).drop_last() =~= s@.take(i as int));
        if s[i] != m {
            r.push(s[i]);
        }
        i = i + 1;
    }
    assert(s@.take(s@.len() as int) =~= s@);
    r
}

/// Unbinding keeps only entries of the list, so bounds carry over.
proof fn lemma_without_subset(s: Seq<usize>, m: usize, n: nat)
    requires
        forall|i: int| 0 <= i < s.len() ==> s[i] < n,
    ensures
        forall|i: int| 0 <= i < without(s, m).len() ==> without(s, m)[i] < n && without(s, m)[i] != m,
    decreases s.len(),
{
    if s.len() > 0 {
        lemma_without_subset(s.drop_last(), m, n);
        let r = without(s.drop_last(), m);
        assert forall|i: int| 0 <= i < without(s, m).len() implies without(s, m)[i] < n
            && without(s, m)[i] != m by {
            if i < r.len() {
                assert(without(s, m)[i] == r[i]);
            }
        }
    }
}

/// Unbinding keeps only entries of the list, each once if each was once.
proof fn lemma_without_distinct(s: Seq<usize>, m: usize)
    requires
        s.no_duplicates(),
    ensures
        without(s, m).no_duplicates(),
        forall|i: int| 0 <= i < without(s, m).len() ==> s.contains(#[trigger] without(s, m)[i]),
    decreases s.len(),
{
    if s.len() > 0 {
        let t = s.drop_last();
        let x = s.last();
        lemma_without_distinct(t, m);
        let r = without(t, m);
        assert forall|i: int| 0 <= i < r.len() implies #[trigger] r[i] != x by {
            assert(t.contains(r[i]));
            let j = choose|j: int| 0 <= j < t.len() && t[j] == r[i];
            assert(s[j] == t[j]);
            assert(s[s.len() - 1] == x);
        }
        assert forall|i: int| 0 <= i < without(s, m).len() implies s.contains(
            #[trigger] without(s, m)[i],
        ) by {
            if i < r.len() {
                assert(t.contains(r[i]));
                let j = choose|j: int| 0 <= j < t.len() && t[j] == r[i];
                assert(s[j] == t[j]);
            } else {
                assert(s[s.len() - 1] == x);
            }
        }
    }
}

/// After a bank leaves the pool, a controller still binds each bank once.
proof fn lemma_after_removal_distinct(s: Seq<usize>, m: usize)
    requires
        s.no_duplicates(),
    ensures
        after_removal(s, m).no_duplicates(),
{
    lemma_without_distinct(s, m);
    lemma_without_subset(s, m, (usize::MAX + 1) as nat);
    let w = without(s, m);
    let a = after_removal(s, m);
    assert forall|i: int, j: int|
        0 <= i < a.len() && 0 <= j < a.len() && i != j implies a[i] != a[j] by {
        assert(w[i] != w[j]);
        assert(w[i] != m && w[j] != m);
    }
}

/// Removing bank `m` from a pool keeps every other binding on the bank it
/// named: the bindings left are those not to `m`, in order, and each names,
/// in the pool without `m`, the same bank as before.
pub proof fn law_removal_keeps_banks<A>(pool: Seq<A>, bound: Seq<usize>, m: usize)
    requires
        m < pool.len(),
        forall|i: int| 0 <= i < bound.len() ==> bound[i] < pool.len(),
    ensures
        after_removal(bound, m).len() == without(bound, m).len(),
        forall|j: int|
            0 <= j < without(bound, m).len() ==> {
                &&& without(bound, m)[j] != m
                &&& #[trigger] after_removal(bound, m)[j] < pool.len() - 1
                &&& pool.remove(m as int)[after_removal(bound, m)[j] as int] == pool[without(
                    bound,
                    m,
                )[j] as int]
            },
{
    lemma_without_subset(bound, m, pool.len());
    let w = without(bound, m);
    assert forall|j: int| 0 <= j < w.len() implies {
        &&& w[j] != m
        &&& #[trigger] after_removal(bound, m)[j] < pool.len() - 1
        &&& pool.remove(m as int)[after_removal(bound, m)[j] as int] == pool[w[j] as int]
    } by {
        let x = w[j];
        if x > m {
            assert(after_removal(bound, m)[j] == x - 1);
        } else {
            assert(after_removal(bound, m)[j] == x);
        }
    }
}

} // verus!
