//! The assembler: source text with functions, call blocks, variables and
//! labels, compiled to bytecode.
//!
//! A program is compiled in three scans over its lines. The first collects
//! each function's header bindings (`let` lines between `func` and
//! `label body`). The second lays out instruction numbers: where each label
//! and function starts, and where each function body starts. The third emits
//! bytecode, substituting variables and labels into instruction arguments and
//! expanding `ret`, `let`, `label body` and call blocks into instructions.
use vstd::prelude::*;

use crate::controller::{instruction_starts, starts_from};
use crate::encode::{encode_line, encode_line_chars};
use crate::error::{bytes_result, CompileError, Fault};
use crate::names::{entries_map, NameMap, NameSet};
use crate::text::{
    before_comment, clean, clean_chars, decimal, eq_str, keyword, lines, push_chars, push_decimal,
    push_str, rest_of, split_keyword, split_lines, split_tokens, str_chars, string_from_chars,
    trim, views, words,
};

verus! {

// ---------------------------------------------------------------------------
// Lines
// ---------------------------------------------------------------------------

/// How many instructions a source line compiles to, given the declared
/// function names: none for `func` and plain labels, one for `label body`
/// (the hidden jump back into the call block), three for a call-block opener
/// (a function's name alone) and for `call` alone, two for `let` with an
/// initial value, and one for anything else that is not empty.
pub open spec fn line_instructions(line: Seq<char>, names: Set<Seq<char>>) -> nat {
    let s = trim(before_comment(line));
    let kw = keyword(s);
    let rest = rest_of(s);
    if s.len() == 0 {
        0
    } else if kw == "func"@ {
        0
    } else if kw == "label"@ {
        if rest == "body"@ {
            1
        } else {
            0
        }
    } else if kw == "ret"@ {
        1
    } else if rest.len() == 0 && names.contains(kw) {
        3
    } else if kw == "call"@ && rest.len() == 0 {
        3
    } else if kw == "let"@ {
        if words(s).len() >= 4 {
            2
        } else {
            1
        }
    } else {
        1
    }
}

/// The name a line declares with `func ` (the word `func` and a space), if it
/// declares a non-empty one.
pub open spec fn declared_name(raw: Seq<char>) -> Option<Seq<char>> {
    let s = clean(raw);
    if s.len() >= 5 && s.take(5) == "func "@ && trim(s.skip(5)).len() > 0 {
        Some(trim(s.skip(5)))
    } else {
        None
    }
}

/// The names declared with `func ` in some lines.
pub open spec fn declared_names(ls: Seq<Seq<char>>) -> Set<Seq<char>>
    decreases ls.len(),
{
    if ls.len() == 0 {
        Set::empty()
    } else {
        let s = declared_names(ls.drop_last());
        match declared_name(ls.last()) {
            Some(n) => s.insert(n),
            None => s,
        }
    }
}

// ---------------------------------------------------------------------------
// First scan: function headers
// ---------------------------------------------------------------------------

/// What the compiler knows of a function from its header.
pub struct FuncSpec {
    /// Where the return address is stored (`let retad <address>`).
    pub retad: Option<Seq<char>>,
    /// Where the call-block return address is stored (`let callad <address>`).
    pub callad: Option<Seq<char>>,
    /// Every `let` binding of the header: name to address.
    pub bindings: Map<Seq<char>, Seq<char>>,
}

pub open spec fn fresh_func() -> FuncSpec {
    FuncSpec { retad: None, callad: None, bindings: Map::empty() }
}

pub struct HeaderScan {
    pub funcs: Map<Seq<char>, FuncSpec>,
    pub current: Option<Seq<char>>,
    pub collecting: bool,
}

/// One line of the header scan: `func` declares a function (again, if it was
/// declared before) and opens its header; in the header, `let name address`
/// records a binding; `label body` or any line other than `func`, `label` or
/// a header `let` closes the header.
pub open spec fn header_step(h: HeaderScan, raw: Seq<char>) -> HeaderScan {
    let t = clean(raw);
    let kw = keyword(t);
    let rest = rest_of(t);
    if t.len() == 0 {
        h
    } else if kw == "func"@ {
        HeaderScan { funcs: h.funcs.insert(rest, fresh_func()), current: Some(rest), collecting: true }
    } else if kw == "let"@ && h.collecting {
        match h.current {
            Some(f) => {
                let toks = words(rest);
                if toks.len() >= 2 {
                    let b = toks[0];
                    let a = toks[1];
                    let d = h.funcs[f];
                    let d2 = FuncSpec {
                        retad: if b == "retad"@ {
                            Some(a)
                        } else {
                            d.retad
                        },
                        callad: if b == "callad"@ {
                            Some(a)
                        } else {
                            d.callad
                        },
                        bindings: d.bindings.insert(b, a),
                    };
                    HeaderScan { funcs: h.funcs.insert(f, d2), ..h }
                } else {
                    h
                }
            },
            None => h,
        }
    } else if kw == "label"@ && rest == "body"@ {
        HeaderScan { collecting: false, ..h }
    } else if kw != "label"@ && kw != "func"@ {
        HeaderScan { collecting: false, ..h }
    } else {
        h
    }
}

pub open spec fn scan_headers(ls: Seq<Seq<char>>) -> HeaderScan
    decreases ls.len(),
{
    if ls.len() == 0 {
        HeaderScan { funcs: Map::empty(), current: None, collecting: false }
    } else {
        header_step(scan_headers(ls.drop_last()), ls.last())
    }
}

// ---------------------------------------------------------------------------
// Second scan: layout
// ---------------------------------------------------------------------------

pub struct Layout {
    /// Instruction number of each label and function.
    pub labels: Map<Seq<char>, int>,
    /// Instruction number of each function's body.
    pub bodies: Map<Seq<char>, int>,
    /// Instruction number of the next instruction.
    pub ip: int,
    pub in_block: bool,
    pub current: Option<Seq<char>>,
    pub fault: Option<Fault>,
}

/// One line of the layout scan.
pub open spec fn layout_step(names: Set<Seq<char>>, st: Layout, raw: Seq<char>) -> Layout {
    let t = clean(raw);
    let kw = keyword(t);
    let rest = rest_of(t);
    if st.fault is Some || t.len() == 0 {
        st
    } else if kw == "func"@ {
        Layout { labels: st.labels.insert(rest, st.ip), current: Some(rest), ..st }
    } else if kw == "label"@ {
        if rest == "body"@ {
            match st.current {
                Some(f) => Layout {
                    ip: st.ip + 1,
                    bodies: st.bodies.insert(f, st.ip + 1),
                    labels: st.labels.insert("body"@, st.ip + 1),
                    ..st
                },
                None => Layout { fault: Some(Fault::LabelBodyOutsideFunction), ..st },
            }
        } else {
            Layout { labels: st.labels.insert(rest, st.ip), ..st }
        }
    } else if names.contains(kw) && rest.len() == 0 {
        if st.in_block {
            Layout { fault: Some(Fault::NestedCallBlock), ..st }
        } else {
            Layout { in_block: true, ip: st.ip + 3, ..st }
        }
    } else if kw == "call"@ && rest.len() == 0 {
        if !st.in_block {
            Layout { fault: Some(Fault::CallWithoutBlock), ..st }
        } else {
            Layout { in_block: false, ip: st.ip + 3, ..st }
        }
    } else {
        Layout { ip: st.ip + line_instructions(t, names), ..st }
    }
}

pub open spec fn start_layout() -> Layout {
    Layout {
        labels: Map::empty(),
        bodies: Map::empty(),
        ip: 0,
        in_block: false,
        current: None,
        fault: None,
    }
}

pub open spec fn scan_layout(names: Set<Seq<char>>, ls: Seq<Seq<char>>) -> Layout
    decreases ls.len(),
{
    if ls.len() == 0 {
        start_layout()
    } else {
        layout_step(names, scan_layout(names, ls.drop_last()), ls.last())
    }
}

/// The layout of all lines; a call block still open at the end is refused.
pub open spec fn layout(names: Set<Seq<char>>, ls: Seq<Seq<char>>) -> Layout {
    let st = scan_layout(names, ls);
    if st.fault is None && st.in_block {
        Layout { fault: Some(Fault::UnclosedCallBlock), ..st }
    } else {
        st
    }
}

// ---------------------------------------------------------------------------
// Third scan: emission
// ---------------------------------------------------------------------------

/// An open call block: the function, the instruction number of its opener,
/// and the bytes and instruction count of its body so far.
pub struct Block {
    pub func: Seq<char>,
    pub opened_at: int,
    pub body: Seq<u8>,
    pub count: int,
}

pub struct Emit {
    pub bytes: Seq<u8>,
    pub vars: Map<Seq<char>, Seq<char>>,
    pub block: Option<Block>,
    pub context: Option<Seq<char>>,
    pub ip: int,
    pub fault: Option<Fault>,
}

/// Bytes go into the open call block's body, or else to the output.
pub open spec fn push_out(st: Emit, b: Seq<u8>, n: int) -> Emit {
    match st.block {
        Some(blk) => Emit {
            block: Some(Block { body: blk.body + b, count: blk.count + n, ..blk }),
            ..st
        },
        None => Emit { bytes: st.bytes + b, ..st },
    }
}

/// An instruction line built from a mnemonic and one argument.
pub open spec fn with_arg(name: Seq<char>, arg: Seq<char>) -> Seq<char> {
    name + seq![' '] + arg
}

/// Pieces each written after a space.
pub open spec fn spaced(s: Seq<Seq<char>>) -> Seq<char>
    decreases s.len(),
{
    if s.len() == 0 {
        Seq::empty()
    } else {
        spaced(s.drop_last()) + seq![' '] + s.last()
    }
}

/// An argument word with a variable replaced by its address and a label by
/// its instruction number.
pub open spec fn substitute(
    vars: Map<Seq<char>, Seq<char>>,
    labels: Map<Seq<char>, int>,
    tok: Seq<char>,
) -> Seq<char> {
    if vars.contains_key(tok) {
        vars[tok]
    } else if labels.contains_key(tok) {
        decimal(labels[tok] as nat)
    } else {
        tok
    }
}

/// An ordinary instruction line with its arguments substituted.
pub open spec fn substituted(
    vars: Map<Seq<char>, Seq<char>>,
    labels: Map<Seq<char>, int>,
    t: Seq<char>,
) -> Seq<char> {
    keyword(t) + spaced(words(t).skip(1).map_values(|tok: Seq<char>| substitute(vars, labels, tok)))
}

/// Encodes lines one after another; the first refusal wins.
pub open spec fn encode_all(ls: Seq<Seq<char>>) -> Result<Seq<u8>, Fault>
    decreases ls.len(),
{
    if ls.len() == 0 {
        Ok(Seq::empty())
    } else {
        match encode_all(ls.drop_last()) {
            Err(e) => Err(e),
            Ok(b) => match encode_line(ls.last()) {
                Err(e) => Err(e),
                Ok(c) => Ok(b + c),
            },
        }
    }
}

/// Encodes an instruction line and emits its bytes as `n` instructions.
pub open spec fn emit_line(st: Emit, line: Seq<char>, n: int) -> Emit {
    match encode_line(line) {
        Err(e) => Emit { fault: Some(e), ..st },
        Ok(b) => {
            let s2 = push_out(st, b, n);
            Emit { ip: s2.ip + n, ..s2 }
        },
    }
}

/// The three instructions that open a call: load the address where the
/// block body starts, store it at `callad`, jump to the function.
pub open spec fn opener_lines(start: int, callad: Seq<char>, entry: int) -> Seq<Seq<char>> {
    seq![
        with_arg("load"@, decimal(start as nat)),
        with_arg("write"@, callad),
        with_arg("jump"@, decimal(entry as nat)),
    ]
}

/// The three instructions that close a call: load the return address, store
/// it at `retad`, jump to the function body.
pub open spec fn closer_lines(ret: int, retad: Seq<char>, body: int) -> Seq<Seq<char>> {
    seq![
        with_arg("load"@, decimal(ret as nat)),
        with_arg("write"@, retad),
        with_arg("jump"@, decimal(body as nat)),
    ]
}

/// `call` closing the open block `blk`: the opener, the body, then the closer
/// are written out.
pub open spec fn close_block(
    funcs: Map<Seq<char>, FuncSpec>,
    labels: Map<Seq<char>, int>,
    bodies: Map<Seq<char>, int>,
    st: Emit,
    blk: Block,
) -> Emit {
    let f = blk.func;
    let d = funcs[f];
    let st0 = Emit { block: None, ..st };
    match d.retad {
        None => Emit { fault: Some(Fault::MissingRetad(f)), ..st0 },
        Some(retad) => match d.callad {
            None => Emit { fault: Some(Fault::MissingCallad(f)), ..st0 },
            Some(callad) => if !bodies.contains_key(f) {
                Emit { fault: Some(Fault::MissingBody(f)), ..st0 }
            } else {
                let start = blk.opened_at + 3;
                let ret = blk.opened_at + 3 + blk.count + 3;
                match encode_all(opener_lines(start, callad, labels[f])) {
                    Err(e) => Emit { fault: Some(e), ..st0 },
                    Ok(o) => match encode_all(closer_lines(ret, retad, bodies[f])) {
                        Err(e) => Emit { fault: Some(e), ..st0 },
                        Ok(c) => Emit { bytes: st.bytes + o + blk.body + c, ip: st.ip + 3, ..st0 },
                    },
                }
            },
        },
    }
}

/// One line of the emission scan.
#[verifier::opaque]
pub open spec fn emit_step(
    funcs: Map<Seq<char>, FuncSpec>,
    labels: Map<Seq<char>, int>,
    bodies: Map<Seq<char>, int>,
    st: Emit,
    raw: Seq<char>,
) -> Emit {
    let t = clean(raw);
    let kw = keyword(t);
    let rest = rest_of(t);
    if st.fault is Some || t.len() == 0 {
        st
    } else if kw == "func"@ {
        Emit { context: Some(rest), ..st }
    } else if kw == "label"@ {
        if rest == "body"@ {
            match st.context {
                None => Emit { fault: Some(Fault::LabelBodyOutsideFunction), ..st },
                Some(f) => {
                    let callad = if funcs.contains_key(f) {
                        funcs[f].callad
                    } else {
                        None
                    };
                    match callad {
                        None => Emit { fault: Some(Fault::MissingCallad(f)), ..st },
                        Some(c) => emit_line(st, with_arg("ji"@, c), 1),
                    }
                },
            }
        } else {
            st
        }
    } else if kw == "ret"@ {
        match st.context {
            None => Emit { fault: Some(Fault::RetOutsideFunction), ..st },
            Some(f) => {
                let retad = if funcs.contains_key(f) {
                    funcs[f].retad
                } else {
                    None
                };
                match retad {
                    None => Emit { fault: Some(Fault::MissingRetad(f)), ..st },
                    Some(r) => emit_line(st, with_arg("ji"@, r), 1),
                }
            },
        }
    } else if kw == "let"@ {
        let toks = words(rest);
        if toks.len() < 2 || toks.len() > 3 {
            Emit { fault: Some(Fault::LetArity), ..st }
        } else {
            let st1 = Emit { vars: st.vars.insert(toks[0], toks[1]), ..st };
            if toks.len() == 3 {
                match encode_line(with_arg("load"@, toks[2])) {
                    Err(e) => Emit { fault: Some(e), ..st1 },
                    Ok(b1) => match encode_line(with_arg("write"@, toks[1])) {
                        Err(e) => Emit { fault: Some(e), ..st1 },
                        Ok(b2) => {
                            let s2 = push_out(st1, b1 + b2, 2);
                            Emit { ip: s2.ip + 2, ..s2 }
                        },
                    },
                }
            } else {
                emit_line(st1, with_arg("write"@, toks[1]), 1)
            }
        }
    } else if funcs.contains_key(kw) && rest.len() == 0 {
        if st.block is Some {
            Emit { fault: Some(Fault::NestedCallBlock), ..st }
        } else {
            Emit {
                vars: st.vars.union_prefer_right(funcs[kw].bindings),
                block: Some(Block { func: kw, opened_at: st.ip, body: Seq::empty(), count: 0 }),
                ip: st.ip + 3,
                ..st
            }
        }
    } else if kw == "call"@ && rest.len() == 0 {
        match st.block {
            None => Emit { fault: Some(Fault::CallWithoutBlock), ..st },
            Some(blk) => close_block(funcs, labels, bodies, st, blk),
        }
    } else {
        emit_line(st, substituted(st.vars, labels, t), 1)
    }
}

pub open spec fn start_emit() -> Emit {
    Emit {
        bytes: Seq::empty(),
        vars: Map::empty(),
        block: None,
        context: None,
        ip: 0,
        fault: None,
    }
}

pub open spec fn scan_emit(
    funcs: Map<Seq<char>, FuncSpec>,
    labels: Map<Seq<char>, int>,
    bodies: Map<Seq<char>, int>,
    ls: Seq<Seq<char>>,
) -> Emit
    decreases ls.len(),
{
    if ls.len() == 0 {
        start_emit()
    } else {
        emit_step(funcs, labels, bodies, scan_emit(funcs, labels, bodies, ls.drop_last()), ls.last())
    }
}

/// The bytecode of a source text, or the first refusal.
pub open spec fn assemble(src: Seq<char>) -> Result<Seq<u8>, Fault> {
    let ls = lines(src);
    let funcs = scan_headers(ls).funcs;
    let lay = layout(funcs.dom(), ls);
    match lay.fault {
        Some(e) => Err(e),
        None => {
            let em = scan_emit(funcs, lay.labels, lay.bodies, ls);
            match em.fault {
                Some(e) => Err(e),
                None => if em.block is Some {
                    Err(Fault::UnclosedCallBlock)
                } else {
                    Ok(em.bytes)
                },
            }
        },
    }
}

// ---------------------------------------------------------------------------
// Exec: lines and names
// ---------------------------------------------------------------------------

fn line_instructions_chars(line: &Vec<char>, names: &NameSet) -> (n: usize)
    ensures
        n == line_instructions(line@, names@),
        n <= 3,
{
    let b = crate::text::before_comment_chars(line);
    let s = crate::text::trim_chars(&b);
    if s.len() == 0 {
        return 0;
    }
    let (kw, rest) = split_keyword(&s);
    if eq_str(&kw, "func") {
        0
    } else if eq_str(&kw, "label") {
        if eq_str(&rest, "body") {
            1
        } else {
            0
        }
    } else if eq_str(&kw, "ret") {
        1
    } else if rest.len() == 0 && names.contains(&kw) {
        3
    } else if eq_str(&kw, "call") && rest.len() == 0 {
        3
    } else if eq_str(&kw, "let") {
        let ws = split_tokens(&s, false);
        assert(views(ws@).len() == ws@.len());
        if ws.len() >= 4 {
            2
        } else {
            1
        }
    } else {
        1
    }
}

/// The number of bytecode instructions a source line compiles to (see
/// `line_instructions`); `func_names` are the declared function names, which
/// tell call-block openers from other lines.
pub fn source_line_instruction_count(trimmed: &str, func_names: &NameSet) -> (n: usize)
    ensures
        n == line_instructions(trimmed@, func_names@),
{
    let cs = str_chars(trimmed);
    line_instructions_chars(&cs, func_names)
}

fn declared_name_chars(raw: &Vec<char>) -> (r: Option<Vec<char>>)
    ensures
        match declared_name(raw@) {
            Some(n) => r is Some && r->0@ == n,
            None => r is None,
        },
{
    let s = clean_chars(raw);
    if s.len() < 5 {
        return None;
    }
    let head = crate::text::subrange(&s, 0, 5);
    if !eq_str(&head, "func ") {
        return None;
    }
    let tail = crate::text::subrange(&s, 5, s.len());
    assert(tail@ =~= s@.skip(5));
    let name = crate::text::trim_chars(&tail);
    if name.len() == 0 {
        None
    } else {
        Some(name)
    }
}

/// The names that `func ` lines declare (a line that starts with the word
/// `func` and a space, comment removed), for telling call-block openers from
/// other lines.
pub fn scan_function_names(source: &str) -> (names: NameSet)
    ensures
        names@ == declared_names(lines(source@)),
{
    let cs = str_chars(source);
    let ls = split_lines(&cs);
    let mut names = NameSet::new();
    let mut i: usize = 0;
    assert(views(ls@).take(0) =~= Seq::<Seq<char>>::empty());
    while i < ls.len()
        invariant
            i <= ls@.len(),
            names@ == declared_names(views(ls@).take(i as int)),
        decreases ls@.len() - i,
    {
        assert(views(ls@).take(i + 1).drop_last() =~= views(ls@).take(i as int));
        assert(views(ls@).take(i + 1).last() == ls@[i as int]@);
        match declared_name_chars(&ls[i]) {
            Some(n) => {
                names.insert(n);
            },
            None => {},
        }
        i = i + 1;
    }
    assert(views(ls@).take(ls@.len() as int) =~= views(ls@));
    names
}

// ---------------------------------------------------------------------------
// Exec: function headers
// ---------------------------------------------------------------------------

pub open spec fn opt_view(o: Option<Vec<char>>) -> Option<Seq<char>> {
    match o {
        Some(v) => Some(v@),
        None => None,
    }
}

/// A function's header bindings.
struct FuncDef {
    /// Memory address of the `retad` binding (where the return address is stored).
    retad_cell: Option<Vec<char>>,
    /// Memory address of the `callad` binding (where the call-block return address is stored).
    callad_cell: Option<Vec<char>>,
    /// All `let` bindings declared in the function header (name -> address).
    bindings: NameMap<Vec<char>>,
}

impl View for FuncDef {
    type V = FuncSpec;

    closed spec fn view(&self) -> FuncSpec {
        FuncSpec {
            retad: opt_view(self.retad_cell),
            callad: opt_view(self.callad_cell),
            bindings: self.bindings@,
        }
    }
}

fn fresh_def() -> (d: FuncDef)
    ensures
        d@ == fresh_func(),
{
    FuncDef { retad_cell: None, callad_cell: None, bindings: NameMap::new() }
}

spec fn header_view(
    committed: Map<Seq<char>, FuncSpec>,
    cur: Option<Vec<char>>,
    def: FuncSpec,
) -> Map<Seq<char>, FuncSpec> {
    match cur {
        Some(n) => committed.insert(n@, def),
        None => committed,
    }
}

fn collect_headers(ls: &Vec<Vec<char>>) -> (funcs: NameMap<FuncDef>)
    ensures
        funcs@ == scan_headers(views(ls@)).funcs,
{
    let mut committed: NameMap<FuncDef> = NameMap::new();
    let mut cur: Option<Vec<char>> = None;
    let mut def = fresh_def();
    let mut collecting = false;
    let mut i: usize = 0;
    assert(views(ls@).take(0) =~= Seq::<Seq<char>>::empty());
    while i < ls.len()
        invariant
            i <= ls@.len(),
            header_view(committed@, cur, def@) == scan_headers(views(ls@).take(i as int)).funcs,
            opt_view(cur) == scan_headers(views(ls@).take(i as int)).current,
            collecting == scan_headers(views(ls@).take(i as int)).collecting,
        decreases ls@.len() - i,
    {
        let ghost h = scan_headers(views(ls@).take(i as int));
        assert(views(ls@).take(i + 1).drop_last() =~= views(ls@).take(i as int));
        assert(views(ls@).take(i + 1).last() == ls@[i as int]@);
        let t = clean_chars(&ls[i]);
        if t.len() > 0 {
            let (kw, rest) = split_keyword(&t);
            if eq_str(&kw, "func") {
                match cur {
                    Some(n) => {
                        committed.insert(n, def);
                    },
                    None => {},
                }
                proof {
                    assert(committed@.insert(rest@, fresh_func()) =~= h.funcs.insert(
                        rest@,
                        fresh_func(),
                    ));
                }
                cur = Some(rest);
                def = fresh_def();
                collecting = true;
            } else if eq_str(&kw, "let") && collecting {
                if cur.is_some() {
                    let toks = split_tokens(&rest, false);
                    assert(views(toks@).len() == toks@.len());
                    if toks.len() >= 2 {
                        let ghost d0 = def@;
                        let b = toks[0].clone();
                        let a = toks[1].clone();
                        assert(b@ == views(toks@)[0] && a@ == views(toks@)[1]);
                        let a2 = a.clone();
                        assert(a2@ == a@);
                        if eq_str(&b, "retad") {
                            def.retad_cell = Some(a2);
                        } else if eq_str(&b, "callad") {
                            def.callad_cell = Some(a2);
                        }
                        def.bindings.insert(b, a);
                        proof {
                            let f = cur->0@;
                            assert(h.funcs[f] == d0);
                            reveal_strlit("retad");
                            reveal_strlit("callad");
                            assert("retad"@.len() == 5);
                            assert("callad"@.len() == 6);
                            assert(committed@.insert(f, def@) =~= h.funcs.insert(f, def@));
                        }
                    }
                }
            } else if eq_str(&kw, "label") && eq_str(&rest, "body") {
                collecting = false;
            } else if !eq_str(&kw, "label") && !eq_str(&kw, "func") {
                collecting = false;
            }
        }
        i = i + 1;
    }
    assert(views(ls@).take(ls@.len() as int) =~= views(ls@));
    match cur {
        Some(n) => {
            committed.insert(n, def);
        },
        None => {},
    }
    committed
}

// ---------------------------------------------------------------------------
// Exec: layout
// ---------------------------------------------------------------------------

pub open spec fn int_map(m: Map<Seq<char>, usize>) -> Map<Seq<char>, int> {
    m.map_values(|v: usize| v as int)
}

proof fn lemma_int_map_insert(m: Map<Seq<char>, usize>, k: Seq<char>, v: usize)
    ensures
        int_map(m.insert(k, v)) == int_map(m).insert(k, v as int),
{
    assert(int_map(m.insert(k, v)) =~= int_map(m).insert(k, v as int));
}

/// Once a scan has refused a line, later lines change nothing.
proof fn lemma_layout_fault_persists(names: Set<Seq<char>>, ls: Seq<Seq<char>>, k: int)
    requires
        0 <= k <= ls.len(),
        scan_layout(names, ls.take(k)).fault is Some,
    ensures
        scan_layout(names, ls) == scan_layout(names, ls.take(k)),
    decreases ls.len(),
{
    if k < ls.len() {
        assert(ls.drop_last().take(k) =~= ls.take(k));
        lemma_layout_fault_persists(names, ls.drop_last(), k);
    } else {
        assert(ls.take(k) =~= ls);
    }
}

fn word(lit: &str) -> (v: Vec<char>)
    ensures
        v@ == lit@,
{
    let mut v: Vec<char> = Vec::new();
    push_str(&mut v, lit);
    assert(v@ =~= lit@);
    v
}

fn layout_exec(ls: &Vec<Vec<char>>, names: &NameSet) -> (r: Result<
    (NameMap<usize>, NameMap<usize>),
    CompileError,
>)
    requires
        ls@.len() < usize::MAX / 4,
    ensures
        match r {
            Err(e) => layout(names@, views(ls@)).fault == Some(e@),
            Ok((labels, bodies)) => {
                &&& layout(names@, views(ls@)).fault is None
                &&& int_map(labels@) == layout(names@, views(ls@)).labels
                &&& int_map(bodies@) == layout(names@, views(ls@)).bodies
            },
        },
{
    let ghost all = views(ls@);
    let mut labels: NameMap<usize> = NameMap::new();
    let mut bodies: NameMap<usize> = NameMap::new();
    let mut ip: usize = 0;
    let mut in_block = false;
    let mut current: Option<Vec<char>> = None;
    let mut i: usize = 0;
    assert(all.take(0) =~= Seq::<Seq<char>>::empty());
    assert(int_map(labels@) =~= Map::<Seq<char>, int>::empty());
    assert(int_map(bodies@) =~= Map::<Seq<char>, int>::empty());
    while i < ls.len()
        invariant
            all == views(ls@),
            ls@.len() < usize::MAX / 4,
            i <= ls@.len(),
            ip <= 3 * i,
            scan_layout(names@, all.take(i as int)).fault is None,
            int_map(labels@) == scan_layout(names@, all.take(i as int)).labels,
            int_map(bodies@) == scan_layout(names@, all.take(i as int)).bodies,
            ip == scan_layout(names@, all.take(i as int)).ip,
            in_block == scan_layout(names@, all.take(i as int)).in_block,
            opt_view(current) == scan_layout(names@, all.take(i as int)).current,
        decreases ls@.len() - i,
    {
        assert(all.take(i + 1).drop_last() =~= all.take(i as int));
        assert(all.take(i + 1).last() == ls@[i as int]@);
        let t = clean_chars(&ls[i]);
        if t.len() > 0 {
            let (kw, rest) = split_keyword(&t);
            if eq_str(&kw, "func") {
                proof {
                    lemma_int_map_insert(labels@, rest@, ip);
                }
                labels.insert(rest.clone(), ip);
                current = Some(rest);
            } else if eq_str(&kw, "label") {
                if eq_str(&rest, "body") {
                    match &current {
                        Some(f) => {
                            ip = ip + 1;
                            proof {
                                lemma_int_map_insert(bodies@, f@, ip);
                                lemma_int_map_insert(labels@, "body"@, ip);
                            }
                            bodies.insert(f.clone(), ip);
                            labels.insert(word("body"), ip);
                        },
                        None => {
                            proof {
                                lemma_layout_fault_persists(names@, all, i + 1);
                            }
                            return Err(CompileError::LabelBodyOutsideFunction);
                        },
                    }
                } else {
                    proof {
                        lemma_int_map_insert(labels@, rest@, ip);
                    }
                    labels.insert(rest, ip);
                }
            } else if rest.len() == 0 && names.contains(&kw) {
                if in_block {
                    proof {
                        lemma_layout_fault_persists(names@, all, i + 1);
                    }
                    return Err(CompileError::NestedCallBlock);
                }
                in_block = true;
                ip = ip + 3;
            } else if eq_str(&kw, "call") && rest.len() == 0 {
                if !in_block {
                    proof {
                        lemma_layout_fault_persists(names@, all, i + 1);
                    }
                    return Err(CompileError::CallWithoutBlock);
                }
                in_block = false;
                ip = ip + 3;
            } else {
                let n = line_instructions_chars(&t, names);
                ip = ip + n;
            }
        }
        i = i + 1;
    }
    assert(all.take(ls@.len() as int) =~= all);
    if in_block {
        return Err(CompileError::UnclosedCallBlock);
    }
    Ok((labels, bodies))
}

proof fn lemma_header_current(ls: Seq<Seq<char>>)
    ensures
        scan_headers(ls).current is Some ==> scan_headers(ls).funcs.contains_key(
            scan_headers(ls).current->0,
        ),
    decreases ls.len(),
{
    if ls.len() > 0 {
        lemma_header_current(ls.drop_last());
    }
}

/// After a layout scan without refusal, every declared function has a label.
proof fn lemma_labels_cover_funcs(names: Set<Seq<char>>, ls: Seq<Seq<char>>)
    requires
        scan_layout(names, ls).fault is None,
    ensures
        forall|f: Seq<char>|
            scan_headers(ls).funcs.contains_key(f) ==> scan_layout(names, ls).labels.contains_key(f),
    decreases ls.len(),
{
    if ls.len() > 0 {
        let pre = ls.drop_last();
        if scan_layout(names, pre).fault is Some {
            assert(ls.take(ls.len() - 1) =~= pre);
            lemma_layout_fault_persists(names, ls, ls.len() - 1);
        }
        lemma_labels_cover_funcs(names, pre);
        lemma_header_current(pre);
    }
}

// ---------------------------------------------------------------------------
// Exec: emission
// ---------------------------------------------------------------------------

/// An open call block: function name, instruction number of the opener,
/// body bytes, body instruction count.
type CallBlock = Option<(Vec<char>, usize, Vec<u8>, usize)>;

pub open spec fn block_view(b: Option<(Vec<char>, usize, Vec<u8>, usize)>) -> Option<Block> {
    match b {
        Some((f, o, body, c)) => Some(
            Block { func: f@, opened_at: o as int, body: body@, count: c as int },
        ),
        None => None,
    }
}

/// Push `b` into the call-block body buffer when inside a call block,
/// or directly into the main output otherwise.
/// `count` is the number of bytecode instructions in `b`.
fn push_bytes(out: &mut Vec<u8>, call_block: &mut CallBlock, b: Vec<u8>, count: usize)
    requires
        match *old(call_block) {
            Some((_, _, _, c)) => c + count <= usize::MAX,
            None => true,
        },
    ensures
        ({
            let st = Emit {
                bytes: old(out)@,
                vars: Map::empty(),
                block: block_view(*old(call_block)),
                context: None,
                ip: 0,
                fault: None,
            };
            let st2 = push_out(st, b@, count as int);
            final(out)@ == st2.bytes && block_view(*final(call_block)) == st2.block
        }),
        match *final(call_block) {
            Some((f, o, _, c)) => match *old(call_block) {
                Some((f0, o0, _, c0)) => f == f0 && o == o0 && c == c0 + count,
                None => false,
            },
            None => *old(call_block) is None,
        },
{
    let mut b = b;
    match call_block.take() {
        Some((f, o, mut body, c)) => {
            let ghost body0 = body@;
            let ghost bv = b@;
            body.append(&mut b);
            assert(body@ == body0 + bv);
            *call_block = Some((f, o, body, c + count));
        },
        None => {
            out.append(&mut b);
        },
    }
}

struct Emitter {
    bytes: Vec<u8>,
    vars: NameMap<Vec<char>>,
    block: CallBlock,
    context: Option<Vec<char>>,
    ip: usize,
}

impl Emitter {
    spec fn state(&self) -> Emit {
        Emit {
            bytes: self.bytes@,
            vars: self.vars@,
            block: block_view(self.block),
            context: opt_view(self.context),
            ip: self.ip as int,
            fault: None,
        }
    }

    /// The instruction count of an open block matches the instruction
    /// pointer, and its function is declared.
    spec fn block_ok(&self, funcs: Map<Seq<char>, FuncSpec>) -> bool {
        match self.block {
            Some((f, o, _, c)) => o + 3 + c == self.ip && funcs.contains_key(f@),
            None => true,
        }
    }
}

fn encode_with(name: &str, arg: &Vec<char>) -> (r: Result<Vec<u8>, CompileError>)
    ensures
        bytes_result(r) == encode_line(with_arg(name@, arg@)),
{
    let mut line = word(name);
    line.push(' ');
    push_chars(&mut line, arg);
    assert(line@ =~= with_arg(name@, arg@));
    encode_line_chars(&line)
}

fn encode_with_number(name: &str, n: usize) -> (r: Result<Vec<u8>, CompileError>)
    ensures
        bytes_result(r) == encode_line(with_arg(name@, decimal(n as nat))),
{
    let mut line = word(name);
    line.push(' ');
    push_decimal(&mut line, n as u64);
    assert(line@ =~= with_arg(name@, decimal(n as nat)));
    encode_line_chars(&line)
}

fn substituted_chars(t: &Vec<char>, vars: &NameMap<Vec<char>>, labels: &NameMap<usize>) -> (r: Vec<
    char,
>)
    requires
        words(t@).len() > 0,
    ensures
        r@ == substituted(vars@, int_map(labels@), t@),
{
    let ws = split_tokens(t, false);
    let (kw, _) = split_keyword(t);
    let mut line = kw;
    let ghost all = words(t@);
    let ghost subs = all.skip(1).map_values(
        |tok: Seq<char>| substitute(vars@, int_map(labels@), tok),
    );
    assert(views(ws@) == all);
    assert(all.len() == ws@.len());
    assert(subs.take(0) =~= Seq::<Seq<char>>::empty());
    let mut j: usize = 1;
    while j < ws.len()
        invariant
            1 <= j <= ws@.len(),
            views(ws@) == all,
            subs == all.skip(1).map_values(
                |tok: Seq<char>| substitute(vars@, int_map(labels@), tok),
            ),
            line@ == keyword(t@) + spaced(subs.take(j - 1)),
        decreases ws@.len() - j,
    {
        line.push(' ');
        let tok = &ws[j];
        assert(tok@ == all[j as int]);
        assert(subs[j - 1] == substitute(vars@, int_map(labels@), tok@));
        match vars.get(tok) {
            Some(loc) => {
                push_chars(&mut line, loc);
            },
            None => match labels.get(tok) {
                Some(idx) => {
                    push_decimal(&mut line, *idx as u64);
                },
                None => {
                    push_chars(&mut line, tok);
                },
            },
        }
        assert(subs.take(j as int).drop_last() =~= subs.take(j - 1));
        assert(line@ =~= keyword(t@) + spaced(subs.take(j as int)));
        j = j + 1;
    }
    assert(subs.take(ws@.len() - 1) =~= subs);
    line
}

proof fn lemma_encode_three(a: Seq<char>, b: Seq<char>, c: Seq<char>)
    ensures
        encode_all(seq![a, b, c]) == match encode_line(a) {
            Err(e) => Err(e),
            Ok(x) => match encode_line(b) {
                Err(e) => Err(e),
                Ok(y) => match encode_line(c) {
                    Err(e) => Err(e),
                    Ok(z) => Ok(x + y + z),
                },
            },
        },
{
    let s3 = seq![a, b, c];
    let s2 = seq![a, b];
    let s1 = seq![a];
    let s0 = Seq::<Seq<char>>::empty();
    assert(s3.drop_last() =~= s2 && s3.last() == c);
    assert(s2.drop_last() =~= s1 && s2.last() == b);
    assert(s1.drop_last() =~= s0 && s1.last() == a);
    assert(encode_all(s0) == Ok::<Seq<u8>, Fault>(Seq::empty()));
    match encode_line(a) {
        Ok(x) => {
            assert(Seq::<u8>::empty() + x =~= x);
            assert(encode_all(s1) == Ok::<Seq<u8>, Fault>(x));
            match encode_line(b) {
                Ok(y) => {
                    assert(encode_all(s2) == Ok::<Seq<u8>, Fault>(x + y));
                    match encode_line(c) {
                        Ok(z) => {
                            assert(encode_all(s3) == Ok::<Seq<u8>, Fault>(x + y + z));
                        },
                        Err(e) => {
                            assert(encode_all(s3) == Err::<Seq<u8>, Fault>(e));
                        },
                    }
                },
                Err(e) => {
                    assert(encode_all(s2) == Err::<Seq<u8>, Fault>(e));
                    assert(encode_all(s3) == Err::<Seq<u8>, Fault>(e));
                },
            }
        },
        Err(e) => {
            assert(encode_all(s1) == Err::<Seq<u8>, Fault>(e));
            assert(encode_all(s2) == Err::<Seq<u8>, Fault>(e));
            assert(encode_all(s3) == Err::<Seq<u8>, Fault>(e));
        },
    }
}

fn three(a: Vec<u8>, b: Vec<u8>, c: Vec<u8>) -> (r: Vec<u8>)
    ensures
        r@ == a@ + b@ + c@,
{
    let mut r = a;
    let mut b = b;
    let mut c = c;
    r.append(&mut b);
    r.append(&mut c);
    r
}

#[verifier::rlimit(40)]
fn emit_one(
    em: &mut Emitter,
    funcs: &NameMap<FuncDef>,
    labels: &NameMap<usize>,
    bodies: &NameMap<usize>,
    raw: &Vec<char>,
) -> (r: Result<(), CompileError>)
    requires
        old(em).ip + 8 <= usize::MAX,
        old(em).block_ok(funcs@),
        forall|f: Seq<char>| funcs@.contains_key(f) ==> labels@.contains_key(f),
    ensures
        ({
            let st2 = emit_step(funcs@, int_map(labels@), int_map(bodies@), old(em).state(), raw@);
            match r {
                Ok(()) => {
                    &&& final(em).state() == st2
                    &&& final(em).block_ok(funcs@)
                    &&& final(em).ip <= old(em).ip + 3
                },
                Err(e) => st2.fault == Some(e@),
            }
        }),
{
    let ghost F = funcs@;
    let ghost L = int_map(labels@);
    let ghost B = int_map(bodies@);
    let ghost st = old(em).state();
    reveal(emit_step);
    let t = clean_chars(raw);
    if t.len() == 0 {
        return Ok(());
    }
    let (kw, rest) = split_keyword(&t);
    if eq_str(&kw, "func") {
        em.context = Some(rest);
        return Ok(());
    }
    if eq_str(&kw, "label") {
        if !eq_str(&rest, "body") {
            return Ok(());
        }
        let f = match &em.context {
            None => {
                return Err(CompileError::LabelBodyOutsideFunction);
            },
            Some(f) => f.clone(),
        };
        let callad = match funcs.get(&f) {
            Some(d) => d.callad_cell.clone(),
            None => None,
        };
        match callad {
            None => {
                return Err(CompileError::MissingCallad(string_from_chars(f)));
            },
            Some(c) => {
                match encode_with("ji", &c) {
                    Err(e) => {
                        return Err(e);
                    },
                    Ok(b) => {
                        push_bytes(&mut em.bytes, &mut em.block, b, 1);
                        em.ip = em.ip + 1;
                        return Ok(());
                    },
                }
            },
        }
    }
    if eq_str(&kw, "ret") {
        let f = match &em.context {
            None => {
                return Err(CompileError::RetOutsideFunction);
            },
            Some(f) => f.clone(),
        };
        let retad = match funcs.get(&f) {
            Some(d) => d.retad_cell.clone(),
            None => None,
        };
        match retad {
            None => {
                return Err(CompileError::MissingRetad(string_from_chars(f)));
            },
            Some(c) => {
                match encode_with("ji", &c) {
                    Err(e) => {
                        return Err(e);
                    },
                    Ok(b) => {
                        push_bytes(&mut em.bytes, &mut em.block, b, 1);
                        em.ip = em.ip + 1;
                        return Ok(());
                    },
                }
            },
        }
    }
    if eq_str(&kw, "let") {
        let toks = split_tokens(&rest, false);
        assert(views(toks@).len() == toks@.len());
        if toks.len() < 2 || toks.len() > 3 {
            return Err(CompileError::LetArity);
        }
        assert(toks@[0]@ == words(rest@)[0] && toks@[1]@ == words(rest@)[1]);
        em.vars.insert(toks[0].clone(), toks[1].clone());
        if toks.len() == 3 {
            assert(toks@[2]@ == words(rest@)[2]);
            let b1 = match encode_with("load", &toks[2]) {
                Err(e) => {
                    return Err(e);
                },
                Ok(b) => b,
            };
            let b2 = match encode_with("write", &toks[1]) {
                Err(e) => {
                    return Err(e);
                },
                Ok(b) => b,
            };
            let mut v = b1;
            let mut b2 = b2;
            v.append(&mut b2);
            push_bytes(&mut em.bytes, &mut em.block, v, 2);
            em.ip = em.ip + 2;
            return Ok(());
        } else {
            match encode_with("write", &toks[1]) {
                Err(e) => {
                    return Err(e);
                },
                Ok(b) => {
                    push_bytes(&mut em.bytes, &mut em.block, b, 1);
                    em.ip = em.ip + 1;
                    return Ok(());
                },
            }
        }
    }
    if rest.len() == 0 && funcs.contains_key(&kw) {
        if em.block.is_some() {
            return Err(CompileError::NestedCallBlock);
        }
        match funcs.get(&kw) {
            Some(d) => {
                em.vars.insert_all(&d.bindings);
            },
            None => {},
        }
        let ip = em.ip;
        em.block = Some((kw, ip, Vec::new(), 0));
        em.ip = ip + 3;
        assert(em.state().vars == st.vars.union_prefer_right(F[kw@].bindings));
        return Ok(());
    }
    if eq_str(&kw, "call") && rest.len() == 0 {
        let (f, opened, body, count) = match em.block.take() {
            None => {
                return Err(CompileError::CallWithoutBlock);
            },
            Some(b) => b,
        };
        let ghost blk = Block { func: f@, opened_at: opened as int, body: body@, count: count as int };
        let d = match funcs.get(&f) {
            Some(d) => d,
            None => {
                proof {
                    assert(false);
                }
                return Err(CompileError::CallWithoutBlock);
            },
        };
        let retad = match &d.retad_cell {
            Some(r) => r.clone(),
            None => {
                return Err(CompileError::MissingRetad(string_from_chars(f)));
            },
        };
        let callad = match &d.callad_cell {
            Some(c) => c.clone(),
            None => {
                return Err(CompileError::MissingCallad(string_from_chars(f)));
            },
        };
        let entry = match labels.get(&f) {
            Some(e) => *e,
            None => {
                proof {
                    assert(false);
                }
                return Err(CompileError::CallWithoutBlock);
            },
        };
        let body_ip = match bodies.get(&f) {
            Some(b) => *b,
            None => {
                return Err(CompileError::MissingBody(string_from_chars(f)));
            },
        };
        let start = opened + 3;
        let ret = opened + 3 + count + 3;
        proof {
            lemma_encode_three(
                with_arg("load"@, decimal(start as nat)),
                with_arg("write"@, callad@),
                with_arg("jump"@, decimal(entry as nat)),
            );
            lemma_encode_three(
                with_arg("load"@, decimal(ret as nat)),
                with_arg("write"@, retad@),
                with_arg("jump"@, decimal(body_ip as nat)),
            );
        }
        let o1 = match encode_with_number("load", start) {
            Err(e) => {
                return Err(e);
            },
            Ok(b) => b,
        };
        let o2 = match encode_with("write", &callad) {
            Err(e) => {
                return Err(e);
            },
            Ok(b) => b,
        };
        let o3 = match encode_with_number("jump", entry) {
            Err(e) => {
                return Err(e);
            },
            Ok(b) => b,
        };
        let c1 = match encode_with_number("load", ret) {
            Err(e) => {
                return Err(e);
            },
            Ok(b) => b,
        };
        let c2 = match encode_with("write", &retad) {
            Err(e) => {
                return Err(e);
            },
            Ok(b) => b,
        };
        let c3 = match encode_with_number("jump", body_ip) {
            Err(e) => {
                return Err(e);
            },
            Ok(b) => b,
        };
        let mut o = three(o1, o2, o3);
        let mut c = three(c1, c2, c3);
        let mut body = body;
        em.bytes.append(&mut o);
        em.bytes.append(&mut body);
        em.bytes.append(&mut c);
        em.ip = em.ip + 3;
        return Ok(());
    }
    proof {
        crate::text::lemma_trimmed_has_word(before_comment(crate::text::trim(raw@)));
    }
    let line = substituted_chars(&t, &em.vars, labels);
    match encode_line_chars(&line) {
        Err(e) => Err(e),
        Ok(b) => {
            push_bytes(&mut em.bytes, &mut em.block, b, 1);
            em.ip = em.ip + 1;
            Ok(())
        },
    }
}

proof fn lemma_emit_fault_persists(
    funcs: Map<Seq<char>, FuncSpec>,
    labels: Map<Seq<char>, int>,
    bodies: Map<Seq<char>, int>,
    ls: Seq<Seq<char>>,
    k: int,
)
    requires
        0 <= k <= ls.len(),
        scan_emit(funcs, labels, bodies, ls.take(k)).fault is Some,
    ensures
        scan_emit(funcs, labels, bodies, ls) == scan_emit(funcs, labels, bodies, ls.take(k)),
    decreases ls.len(),
{
    if k < ls.len() {
        assert(ls.drop_last().take(k) =~= ls.take(k));
        lemma_emit_fault_persists(funcs, labels, bodies, ls.drop_last(), k);
        reveal(emit_step);
    } else {
        assert(ls.take(k) =~= ls);
    }
}

fn emit_all(
    ls: &Vec<Vec<char>>,
    funcs: &NameMap<FuncDef>,
    labels: &NameMap<usize>,
    bodies: &NameMap<usize>,
) -> (r: Result<Vec<u8>, CompileError>)
    requires
        ls@.len() < usize::MAX / 4,
        forall|f: Seq<char>| funcs@.contains_key(f) ==> labels@.contains_key(f),
    ensures
        ({
            let em = scan_emit(funcs@, int_map(labels@), int_map(bodies@), views(ls@));
            bytes_result(r) == match em.fault {
                Some(e) => Err(e),
                None => if em.block is Some {
                    Err(Fault::UnclosedCallBlock)
                } else {
                    Ok(em.bytes)
                },
            }
        }),
{
    let ghost all = views(ls@);
    let ghost F = funcs@;
    let ghost L = int_map(labels@);
    let ghost B = int_map(bodies@);
    let mut em = Emitter {
        bytes: Vec::new(),
        vars: NameMap::new(),
        block: None,
        context: None,
        ip: 0,
    };
    let mut i: usize = 0;
    assert(all.take(0) =~= Seq::<Seq<char>>::empty());
    assert(em.state() == start_emit());
    while i < ls.len()
        invariant
            all == views(ls@),
            F == funcs@,
            L == int_map(labels@),
            B == int_map(bodies@),
            ls@.len() < usize::MAX / 4,
            forall|f: Seq<char>| funcs@.contains_key(f) ==> labels@.contains_key(f),
            i <= ls@.len(),
            em.ip <= 3 * i,
            em.block_ok(F),
            em.state() == scan_emit(F, L, B, all.take(i as int)),
        decreases ls@.len() - i,
    {
        assert(all.take(i + 1).drop_last() =~= all.take(i as int));
        assert(all.take(i + 1).last() == ls@[i as int]@);
        match emit_one(&mut em, funcs, labels, bodies, &ls[i]) {
            Err(e) => {
                proof {
                    lemma_emit_fault_persists(F, L, B, all, i + 1);
                }
                return Err(e);
            },
            Ok(()) => {},
        }
        i = i + 1;
    }
    assert(all.take(ls@.len() as int) =~= all);
    if em.block.is_some() {
        return Err(CompileError::UnclosedCallBlock);
    }
    Ok(em.bytes)
}

/// The declared function names: the keys of the header map.
fn key_set(funcs: &NameMap<FuncDef>) -> (names: NameSet)
    ensures
        names@ == funcs@.dom(),
{
    let mut names = NameSet::new();
    let mut i: usize = 0;
    assert(funcs.entries@.take(0) =~= Seq::<(Vec<char>, FuncDef)>::empty());
    assert(entries_map(funcs.entries@.take(0)).dom() =~= Set::<Seq<char>>::empty());
    while i < funcs.entries.len()
        invariant
            i <= funcs.entries@.len(),
            names@ == entries_map(funcs.entries@.take(i as int)).dom(),
        decreases funcs.entries@.len() - i,
    {
        assert(funcs.entries@.take(i + 1).drop_last() =~= funcs.entries@.take(i as int));
        assert(funcs.entries@.take(i + 1).last() == funcs.entries@[i as int]);
        names.insert(funcs.entries[i].0.clone());
        assert(names@ =~= entries_map(funcs.entries@.take(i + 1)).dom());
        i = i + 1;
    }
    assert(funcs.entries@.take(funcs.entries@.len() as int) =~= funcs.entries@);
    names
}

/// Compiles an assembly source text into bytecode (see `assemble` for what
/// it produces and which texts it refuses).
pub fn compile(source: &str) -> (r: Result<Vec<u8>, CompileError>)
    requires
        source@.len() < usize::MAX / 8,
    ensures
        bytes_result(r) == assemble(source@),
{
    let cs = str_chars(source);
    let ls = split_lines(&cs);
    proof {
        crate::text::lemma_lines_len(cs@);
    }
    let funcs = collect_headers(&ls);
    let names = key_set(&funcs);
    match layout_exec(&ls, &names) {
        Err(e) => Err(e),
        Ok((labels, bodies)) => {
            proof {
                let lay = scan_layout(names@, views(ls@));
                lemma_labels_cover_funcs(names@, views(ls@));
                assert forall|f: Seq<char>| funcs@.contains_key(f) implies labels@.contains_key(f) by {
                    assert(int_map(labels@).contains_key(f));
                }
            }
            emit_all(&ls, &funcs, &labels, &bodies)
        },
    }
}

// ---------------------------------------------------------------------------
// Laws
// ---------------------------------------------------------------------------

proof fn lemma_declared_is_func_line(raw: Seq<char>)
    ensures
        declared_name(raw) matches Some(n) ==> {
            let t = clean(raw);
            &&& t.len() > 0
            &&& keyword(t) == "func"@
            &&& rest_of(t) == n
        },
{
    if let Some(n) = declared_name(raw) {
        let t = clean(raw);
        reveal_strlit("func ");
        reveal_strlit("func");
        assert(t.take(5) == "func "@);
        assert("func "@ =~= seq!['f', 'u', 'n', 'c', ' ']);
        assert("func"@ =~= seq!['f', 'u', 'n', 'c']);
        assert(t.take(5)[0] == t[0] && t.take(5)[4] == t[4]);
        assert(t[0] == 'f' && t[1] == 'u' && t[2] == 'n' && t[3] == 'c' && t[4] == ' ');
        crate::text::lemma_find_first(t, crate::text::ws_sep(), 4);
        assert(keyword(t) =~= "func"@);
    }
}

/// Every name that the gutter scan reports as a function is a function the
/// compiler knows: `func ` lines are function declarations to both.
pub proof fn law_scanned_names_are_functions(src: Seq<char>)
    ensures
        declared_names(lines(src)).subset_of(scan_headers(lines(src)).funcs.dom()),
{
    lemma_declared_subset(lines(src));
}

proof fn lemma_declared_subset(ls: Seq<Seq<char>>)
    ensures
        declared_names(ls).subset_of(scan_headers(ls).funcs.dom()),
    decreases ls.len(),
{
    if ls.len() > 0 {
        lemma_declared_subset(ls.drop_last());
        lemma_declared_is_func_line(ls.last());
        lemma_header_current(ls.drop_last());
    }
}

proof fn lemma_keywords_distinct()
    ensures
        "func"@ != "label"@,
        "func"@ != "ret"@,
        "func"@ != "let"@,
        "func"@ != "call"@,
        "label"@ != "ret"@,
        "label"@ != "let"@,
        "label"@ != "call"@,
        "ret"@ != "let"@,
        "ret"@ != "call"@,
        "let"@ != "call"@,
{
    reveal_strlit("func");
    reveal_strlit("label");
    reveal_strlit("ret");
    reveal_strlit("let");
    reveal_strlit("call");
    assert("func"@ =~= seq!['f', 'u', 'n', 'c']);
    assert("label"@ =~= seq!['l', 'a', 'b', 'e', 'l']);
    assert("ret"@ =~= seq!['r', 'e', 't']);
    assert("let"@ =~= seq!['l', 'e', 't']);
    assert("call"@ =~= seq!['c', 'a', 'l', 'l']);
    assert("func"@[0] != "call"@[0]);
    assert("ret"@[0] != "let"@[0]);
}

proof fn lemma_emit_step_count(
    funcs: Map<Seq<char>, FuncSpec>,
    labels: Map<Seq<char>, int>,
    bodies: Map<Seq<char>, int>,
    st: Emit,
    raw: Seq<char>,
)
    requires
        st.fault is None,
        emit_step(funcs, labels, bodies, st, raw).fault is None,
    ensures
        emit_step(funcs, labels, bodies, st, raw).ip == st.ip + line_instructions(
            clean(raw),
            funcs.dom(),
        ),
{
    reveal(emit_step);
    lemma_keywords_distinct();
    crate::text::lemma_clean_stable(raw);
    crate::text::lemma_words_empty();
    let t = clean(raw);
    if t.len() > 0 {
        crate::text::lemma_words_split(t);
    }
}

proof fn lemma_layout_step_count(names: Set<Seq<char>>, st: Layout, raw: Seq<char>)
    requires
        st.fault is None,
        layout_step(names, st, raw).fault is None,
        !names.contains("ret"@),
    ensures
        layout_step(names, st, raw).ip == st.ip + line_instructions(clean(raw), names),
{
    lemma_keywords_distinct();
    crate::text::lemma_clean_stable(raw);
}

/// A line counts the same trimmed as cleaned: the count drops the comment
/// and trims by itself.
proof fn lemma_count_trimmed(raw: Seq<char>, names: Set<Seq<char>>)
    ensures
        line_instructions(trim(raw), names) == line_instructions(clean(raw), names),
{
    crate::text::lemma_clean_stable(raw);
}

/// For a text that compiles, every line adds to the emitted code exactly the
/// number of instructions that `source_line_instruction_count` gives for the
/// trimmed line.
pub proof fn law_emitted_counts(src: Seq<char>)
    requires
        assemble(src) is Ok,
    ensures
        ({
            let ls = lines(src);
            let funcs = scan_headers(ls).funcs;
            let lay = layout(funcs.dom(), ls);
            forall|k: int|
                0 <= k < ls.len() ==> #[trigger] scan_emit(
                    funcs,
                    lay.labels,
                    lay.bodies,
                    ls.take(k + 1),
                ).ip == scan_emit(funcs, lay.labels, lay.bodies, ls.take(k)).ip
                    + line_instructions(trim(ls[k]), funcs.dom())
        }),
{
    let ls = lines(src);
    let funcs = scan_headers(ls).funcs;
    let lay = layout(funcs.dom(), ls);
    assert forall|k: int| 0 <= k < ls.len() implies #[trigger] scan_emit(
        funcs,
        lay.labels,
        lay.bodies,
        ls.take(k + 1),
    ).ip == scan_emit(funcs, lay.labels, lay.bodies, ls.take(k)).ip + line_instructions(
        trim(ls[k]),
        funcs.dom(),
    ) by {
        lemma_count_trimmed(ls[k], funcs.dom());
        let pre = ls.take(k);
        let cur = ls.take(k + 1);
        assert(cur.drop_last() =~= pre);
        assert(cur.last() == ls[k]);
        if scan_emit(funcs, lay.labels, lay.bodies, cur).fault is Some {
            lemma_emit_fault_persists(funcs, lay.labels, lay.bodies, ls, k + 1);
        }
        if scan_emit(funcs, lay.labels, lay.bodies, pre).fault is Some {
            lemma_emit_fault_persists(funcs, lay.labels, lay.bodies, ls, k);
        }
        lemma_emit_step_count(
            funcs,
            lay.labels,
            lay.bodies,
            scan_emit(funcs, lay.labels, lay.bodies, pre),
            ls[k],
        );
    }
}

/// For a text that compiles and declares no function named `ret`, the layout
/// scan counts every line as `source_line_instruction_count` does for the
/// trimmed line, so labels are numbered as the emitted code is laid out.
pub proof fn law_layout_counts(src: Seq<char>)
    requires
        assemble(src) is Ok,
        !scan_headers(lines(src)).funcs.contains_key("ret"@),
    ensures
        ({
            let ls = lines(src);
            let names = scan_headers(ls).funcs.dom();
            forall|k: int|
                0 <= k < ls.len() ==> #[trigger] scan_layout(names, ls.take(k + 1)).ip
                    == scan_layout(names, ls.take(k)).ip + line_instructions(trim(ls[k]), names)
        }),
{
    let ls = lines(src);
    let names = scan_headers(ls).funcs.dom();
    assert forall|k: int| 0 <= k < ls.len() implies #[trigger] scan_layout(
        names,
        ls.take(k + 1),
    ).ip == scan_layout(names, ls.take(k)).ip + line_instructions(trim(ls[k]), names) by {
        lemma_count_trimmed(ls[k], names);
        let pre = ls.take(k);
        let cur = ls.take(k + 1);
        assert(cur.drop_last() =~= pre);
        assert(cur.last() == ls[k]);
        if scan_layout(names, cur).fault is Some {
            lemma_layout_fault_persists(names, ls, k + 1);
        }
        if scan_layout(names, pre).fault is Some {
            lemma_layout_fault_persists(names, ls, k);
        }
        lemma_layout_step_count(names, scan_layout(names, pre), ls[k]);
    }
}

/// The lines that hold code: each line cleaned (comment cut off, trimmed),
/// lines left empty dropped.
pub open spec fn code_lines(ls: Seq<Seq<char>>) -> Seq<Seq<char>>
    decreases ls.len(),
{
    if ls.len() == 0 {
        Seq::empty()
    } else {
        let r = code_lines(ls.drop_last());
        if clean(ls.last()).len() == 0 {
            r
        } else {
            r.push(clean(ls.last()))
        }
    }
}

proof fn lemma_scans_on_code_lines(
    ls: Seq<Seq<char>>,
    names: Set<Seq<char>>,
    funcs: Map<Seq<char>, FuncSpec>,
    labels: Map<Seq<char>, int>,
    bodies: Map<Seq<char>, int>,
)
    ensures
        scan_headers(ls) == scan_headers(code_lines(ls)),
        scan_layout(names, ls) == scan_layout(names, code_lines(ls)),
        scan_emit(funcs, labels, bodies, ls) == scan_emit(funcs, labels, bodies, code_lines(ls)),
    decreases ls.len(),
{
    reveal(emit_step);
    if ls.len() > 0 {
        let raw = ls.last();
        let c = code_lines(ls.drop_last());
        lemma_scans_on_code_lines(ls.drop_last(), names, funcs, labels, bodies);
        crate::text::lemma_clean_idempotent(raw);
        if clean(raw).len() > 0 {
            let d = c.push(clean(raw));
            assert(d.drop_last() =~= c);
            assert(d.last() == clean(raw));
        }
    }
}

/// Comments, blank lines and the whitespace around lines do not change
/// what a text compiles to: two texts with the same cleaned, non-empty
/// lines compile alike (to the same bytes, or with the same refusal).
pub proof fn law_only_code_lines_count(s1: Seq<char>, s2: Seq<char>)
    requires
        code_lines(lines(s1)) == code_lines(lines(s2)),
    ensures
        assemble(s1) == assemble(s2),
{
    let l1 = lines(s1);
    let l2 = lines(s2);
    let f1 = scan_headers(l1).funcs;
    lemma_scans_on_code_lines(l1, f1.dom(), f1, Map::empty(), Map::empty());
    lemma_scans_on_code_lines(l2, f1.dom(), f1, Map::empty(), Map::empty());
    assert(scan_headers(l2).funcs == f1);
    let lay = layout(f1.dom(), l1);
    assert(layout(f1.dom(), l2) == lay);
    lemma_scans_on_code_lines(l1, f1.dom(), f1, lay.labels, lay.bodies);
    lemma_scans_on_code_lines(l2, f1.dom(), f1, lay.labels, lay.bodies);
}

// ---------------------------------------------------------------------------
// Programs of plain instructions
// ---------------------------------------------------------------------------

proof fn lemma_spaced_chars(w: Seq<Seq<char>>, p: spec_fn(char) -> bool)
    requires
        p(' '),
        forall|j: int, i: int| 0 <= j < w.len() && 0 <= i < w[j].len() ==> p(#[trigger] w[j][i]),
    ensures
        forall|i: int| 0 <= i < spaced(w).len() ==> p(#[trigger] spaced(w)[i]),
        w.len() > 0 ==> spaced(w)[0] == ' ',
    decreases w.len(),
{
    if w.len() > 0 {
        let v = w.drop_last();
        assert forall|j: int, i: int| 0 <= j < v.len() && 0 <= i < v[j].len() implies p(
            #[trigger] v[j][i],
        ) by {
            assert(v[j] == w[j]);
        }
        lemma_spaced_chars(v, p);
        let a = spaced(v);
        let x = w.last();
        assert(spaced(w) == a + seq![' '] + x);
        assert forall|i: int| 0 <= i < spaced(w).len() implies p(#[trigger] spaced(w)[i]) by {
            if i < a.len() {
                assert(spaced(w)[i] == a[i]);
            } else if i > a.len() {
                assert(spaced(w)[i] == x[i - a.len() - 1]);
                assert(x == w[w.len() - 1]);
            }
        }
        if v.len() == 0 {
            assert(a == Seq::<char>::empty());
        }
    }
}

/// Pieces written with a space before each split into the tokens of each
/// piece, when a space separates tokens.
proof fn lemma_tokens_spaced(w: Seq<Seq<char>>, sep: spec_fn(char) -> bool)
    requires
        sep(' '),
    ensures
        crate::text::tokens(spaced(w), sep) == crate::text::flat_tokens(w, sep),
    decreases w.len(),
{
    if w.len() > 0 {
        let v = w.drop_last();
        lemma_tokens_spaced(v, sep);
        let a = spaced(v) + seq![' '];
        assert(a.drop_last() =~= spaced(v));
        assert(a.last() == ' ');
        assert(crate::text::token_state(a, sep) == (
            crate::text::tokens(spaced(v), sep),
            Seq::<char>::empty(),
        ));
        crate::text::lemma_token_state_append(a, w.last(), sep);
        let st = crate::text::token_state(w.last(), sep);
        if st.1.len() > 0 {
            assert((crate::text::tokens(spaced(v), sep) + st.0).push(st.1) =~= crate::text::tokens(
                spaced(v),
                sep,
            ) + st.0.push(st.1));
        }
    } else {
        assert(crate::text::tokens(Seq::<char>::empty(), sep) =~= Seq::<Seq<char>>::empty());
    }
}

/// A cleaned instruction line with no variables or labels to substitute
/// encodes as it stands.
proof fn lemma_substituted_plain(t: Seq<char>)
    requires
        t.len() > 0,
        clean(t) == t,
    ensures
        encode_line(substituted(Map::empty(), Map::empty(), t)) == encode_line(t),
{
    let dash = crate::text::ws_or_dash_sep();
    let ws = crate::text::ws_sep();
    assert(crate::text::splits_on_ws(dash));
    crate::text::lemma_clean_stable(t);
    let kw = keyword(t);
    let r = rest_of(t);
    crate::text::lemma_words_split(t);
    let w = words(r);
    assert(words(t).skip(1) =~= w);
    let subst = words(t).skip(1).map_values(
        |tok: Seq<char>| substitute(Map::empty(), Map::empty(), tok),
    );
    assert(subst =~= w);
    let u = kw + spaced(w);
    assert(substituted(Map::empty(), Map::empty(), t) == u);
    // No comment marker anywhere.
    let nosemi = |c: char| c != ';';
    crate::text::lemma_find_first_bounds(t, crate::text::semi_sep());
    assert(crate::text::find_first(t, crate::text::semi_sep()) == t.len()) by {
        crate::text::lemma_trim_len(before_comment(t));
        assert(before_comment(t).len() == t.len());
    }
    assert forall|i: int| 0 <= i < t.len() implies nosemi(#[trigger] t[i]) by {
        assert(!crate::text::semi_sep()(t[i]));
    }
    crate::text::lemma_token_chars(t, ws, nosemi);
    assert forall|j: int, i: int| 0 <= j < w.len() && 0 <= i < w[j].len() implies nosemi(
        #[trigger] w[j][i],
    ) by {
        assert(w[j] == words(t)[j + 1]);
    }
    lemma_spaced_chars(w, nosemi);
    let k = crate::text::find_first(t, ws);
    crate::text::lemma_find_first_bounds(t, ws);
    assert(k > 0);
    assert(kw.len() == k);
    assert forall|i: int| 0 <= i < u.len() implies !crate::text::semi_sep()(#[trigger] u[i]) by {
        if i < kw.len() {
            assert(u[i] == t[i]);
        } else {
            assert(u[i] == spaced(w)[i - kw.len()]);
        }
    }
    crate::text::lemma_find_first(u, crate::text::semi_sep(), u.len() as int);
    assert(before_comment(u) =~= u);
    // Trimmed already.
    assert(!crate::text::is_ws(u[0])) by {
        assert(u[0] == t[0]);
    }
    assert(!crate::text::is_ws(u.last())) by {
        if w.len() > 0 {
            let x = w.last();
            assert(x == words(t)[w.len() as int]);
            assert(spaced(w) == spaced(w.drop_last()) + seq![' '] + x);
            assert(u.last() == x.last());
            assert(!ws(x[x.len() - 1]));
        } else {
            assert(spaced(w) == Seq::<char>::empty());
            assert(u.last() == t[k - 1]);
        }
    }
    assert(crate::text::trim_start(u) == u);
    assert(crate::text::trim_end(u) == u);
    assert(trim(before_comment(u)) == u);
    // The mnemonic, and the arguments.
    assert forall|j: int| 0 <= j < kw.len() implies !ws(#[trigger] u[j]) by {
        assert(u[j] == t[j]);
    }
    if w.len() > 0 {
        assert(u[kw.len() as int] == spaced(w)[0]);
    } else {
        assert(spaced(w) == Seq::<char>::empty());
    }
    crate::text::lemma_find_first(u, ws, kw.len() as int);
    assert(keyword(u) =~= kw);
    lemma_tokens_spaced(w, dash);
    crate::text::lemma_tokens_of_words(r, dash);
    if w.len() > 0 {
        let y = spaced(w);
        assert(u.skip(kw.len() + 1int) =~= y.drop_first());
        crate::text::lemma_tokens_trim(y.drop_first(), dash);
        let one = seq![y[0]];
        assert(one.drop_last() =~= Seq::<char>::empty());
        assert(one.last() == ' ');
        assert(dash(' '));
        assert(crate::text::token_state(Seq::<char>::empty(), dash) == (
            Seq::<Seq<char>>::empty(),
            Seq::<char>::empty(),
        ));
        assert(crate::text::token_state(one, dash) == (
            Seq::<Seq<char>>::empty(),
            Seq::<char>::empty(),
        ));
        crate::text::lemma_token_state_append(one, y.drop_first(), dash);
        assert(one + y.drop_first() =~= y);
        assert(Seq::<Seq<char>>::empty() + crate::text::token_state(y.drop_first(), dash).0
            =~= crate::text::token_state(y.drop_first(), dash).0);
        assert(crate::text::arg_words(rest_of(u)) == crate::text::arg_words(r));
    } else {
        assert(rest_of(u) == Seq::<char>::empty());
        assert(crate::text::flat_tokens(w, dash) == Seq::<Seq<char>>::empty());
    }
}

/// A line that is an instruction to the assembler and nothing else: not a
/// function, label, return, variable or call line.
pub open spec fn plain_line(t: Seq<char>) -> bool {
    let kw = keyword(t);
    kw != "func"@ && kw != "label"@ && kw != "ret"@ && kw != "let"@ && kw != "call"@
}

proof fn lemma_code_lines_clean(ls: Seq<Seq<char>>)
    ensures
        forall|k: int|
            0 <= k < code_lines(ls).len() ==> clean(#[trigger] code_lines(ls)[k])
                == code_lines(ls)[k] && code_lines(ls)[k].len() > 0,
    decreases ls.len(),
{
    if ls.len() > 0 {
        lemma_code_lines_clean(ls.drop_last());
        crate::text::lemma_clean_idempotent(ls.last());
        let r = code_lines(ls.drop_last());
        assert forall|k: int| 0 <= k < code_lines(ls).len() implies clean(
            #[trigger] code_lines(ls)[k],
        ) == code_lines(ls)[k] && code_lines(ls)[k].len() > 0 by {
            if k < r.len() {
                assert(code_lines(ls)[k] == r[k]);
            }
        }
    }
}

/// Scanning plain lines: no functions, no labels, no call block, no
/// variables, and the bytes are those of the lines encoded in order.
proof fn lemma_plain_scans(c: Seq<Seq<char>>, bodies: Map<Seq<char>, int>)
    requires
        forall|k: int| 0 <= k < c.len() ==> plain_line(#[trigger] c[k]),
        forall|k: int| 0 <= k < c.len() ==> clean(#[trigger] c[k]) == c[k] && c[k].len() > 0,
    ensures
        scan_headers(c).funcs == Map::<Seq<char>, FuncSpec>::empty(),
        scan_layout(Set::empty(), c).fault is None,
        !scan_layout(Set::empty(), c).in_block,
        scan_layout(Set::empty(), c).labels == Map::<Seq<char>, int>::empty(),
        ({
            let em = scan_emit(Map::empty(), Map::empty(), bodies, c);
            &&& em.block is None
            &&& em.vars == Map::<Seq<char>, Seq<char>>::empty()
            &&& match encode_all(c) {
                Ok(b) => em.fault is None && em.bytes == b,
                Err(e) => em.fault == Some(e),
            }
        }),
    decreases c.len(),
{
    reveal(emit_step);
    if c.len() > 0 {
        let v = c.drop_last();
        let t = c.last();
        assert(plain_line(c[c.len() - 1]) && clean(c[c.len() - 1]) == c[c.len() - 1]);
        assert forall|k: int| 0 <= k < v.len() implies plain_line(#[trigger] v[k]) by {
            assert(v[k] == c[k]);
        }
        assert forall|k: int| 0 <= k < v.len() implies clean(#[trigger] v[k]) == v[k] && v[k].len()
            > 0 by {
            assert(v[k] == c[k]);
        }
        lemma_plain_scans(v, bodies);
        lemma_substituted_plain(t);
        let em = scan_emit(Map::empty(), Map::empty(), bodies, v);
        if em.fault is None {
            assert(substituted(em.vars, Map::empty(), t) == substituted(
                Map::empty(),
                Map::empty(),
                t,
            ));
        }
    }
}

/// A line encodes as its cleaned form does.
proof fn lemma_encode_clean(raw: Seq<char>)
    ensures
        encode_line(raw) == encode_line(clean(raw)),
{
    crate::text::lemma_cut_then_trim(raw);
    crate::text::lemma_clean_stable(raw);
}

/// Encoding every line is encoding the code lines: the others encode to
/// nothing.
proof fn lemma_encode_all_code_lines(ls: Seq<Seq<char>>)
    ensures
        encode_all(ls) == encode_all(code_lines(ls)),
    decreases ls.len(),
{
    if ls.len() > 0 {
        let raw = ls.last();
        lemma_encode_all_code_lines(ls.drop_last());
        lemma_encode_clean(raw);
        crate::text::lemma_cut_then_trim(raw);
        let r = code_lines(ls.drop_last());
        if clean(raw).len() == 0 {
            assert(trim(before_comment(raw)).len() == 0);
            assert(encode_line(raw) == Ok::<Seq<u8>, Fault>(Seq::empty()));
            match encode_all(r) {
                Ok(b) => {
                    assert(b + Seq::<u8>::empty() =~= b);
                },
                Err(_) => {},
            }
        } else {
            let c = r.push(clean(raw));
            assert(c.drop_last() =~= r);
            assert(c.last() == clean(raw));
        }
    }
}

/// A program of plain instruction lines compiles line by line: its bytes
/// are those of its lines, each encoded as `compile_line` encodes it, one
/// after another (comment and blank lines giving none); or the first
/// refusal among them.
pub proof fn law_plain_program(src: Seq<char>)
    requires
        forall|k: int|
            0 <= k < code_lines(lines(src)).len() ==> plain_line(
                #[trigger] code_lines(lines(src))[k],
            ),
    ensures
        assemble(src) == encode_all(lines(src)),
        assemble(src) == encode_all(code_lines(lines(src))),
{
    lemma_encode_all_code_lines(lines(src));
    let ls = lines(src);
    let c = code_lines(ls);
    lemma_code_lines_clean(ls);
    lemma_plain_scans(c, Map::empty());
    let e: Map<Seq<char>, FuncSpec> = Map::empty();
    assert(e.dom() =~= Set::<Seq<char>>::empty());
    lemma_scans_on_code_lines(ls, Set::empty(), e, Map::empty(), Map::empty());
    let lay = layout(Set::empty(), ls);
    assert(lay.labels == Map::<Seq<char>, int>::empty());
    lemma_plain_scans(c, lay.bodies);
    lemma_scans_on_code_lines(ls, Set::empty(), e, Map::empty(), lay.bodies);
}

// ---------------------------------------------------------------------------
// Counting the instructions written
// ---------------------------------------------------------------------------

/// From byte `i` on, the instructions as the controller splits them end
/// exactly at the end of the bytes.
pub open spec fn exact_from(b: Seq<u8>, i: int) -> bool
    decreases b.len() + 8 - i,
{
    if i >= b.len() {
        i == b.len()
    } else if i < 0 {
        false
    } else {
        exact_from(b, i + 1 + (b[i] % 8) as int)
    }
}

/// Bytes that are whole instructions, the last one ending at the end.
pub open spec fn exact(b: Seq<u8>) -> bool {
    exact_from(b, 0)
}

proof fn lemma_exact_shift(a: Seq<u8>, c: Seq<u8>, j: int)
    requires
        0 <= j,
    ensures
        starts_from(a + c, a.len() + j).len() == starts_from(c, j).len(),
        exact_from(a + c, a.len() + j) == exact_from(c, j),
    decreases c.len() + 8 - j,
{
    if j < c.len() {
        assert((a + c)[a.len() + j] == c[j]);
        lemma_exact_shift(a, c, j + 1 + (c[j] % 8) as int);
    }
}

proof fn lemma_exact_concat_from(a: Seq<u8>, c: Seq<u8>, i: int)
    requires
        0 <= i <= a.len(),
        exact_from(a, i),
    ensures
        starts_from(a + c, i).len() == starts_from(a, i).len() + starts_from(c, 0).len(),
        exact_from(a + c, i) == exact_from(c, 0),
    decreases a.len() + 8 - i,
{
    if i == a.len() {
        lemma_exact_shift(a, c, 0);
    } else {
        assert((a + c)[i] == a[i]);
        let next = i + 1 + (a[i] % 8) as int;
        assert(exact_from(a, next));
        assert(next <= a.len());
        lemma_exact_concat_from(a, c, next);
    }
}

/// Whole instructions followed by more bytes: the controller finds the
/// instructions of each part, and the whole is whole if the rest is.
proof fn lemma_exact_concat(a: Seq<u8>, c: Seq<u8>)
    requires
        exact(a),
    ensures
        instruction_starts(a + c).len() == instruction_starts(a).len() + instruction_starts(
            c,
        ).len(),
        exact(a + c) == exact(c),
{
    lemma_exact_concat_from(a, c, 0);
}

/// Every instruction line the assembler writes takes at most eight bytes,
/// so its low three bits can count its argument bytes.
pub open spec fn short_line(l: Seq<char>) -> bool {
    encode_line(l) matches Ok(b) ==> b.len() <= 8
}

/// A short line with something in it is one whole instruction.
proof fn lemma_short_chunk(l: Seq<char>)
    requires
        short_line(l),
        encode_line(l) is Ok,
        trim(before_comment(l)).len() > 0,
    ensures
        exact(encode_line(l)->Ok_0),
        instruction_starts(encode_line(l)->Ok_0).len() == 1,
{
    let b = encode_line(l)->Ok_0;
    assert(b.len() > 0);
    crate::laws::law_line_is_one_instruction(l);
    assert(exact_from(b, b.len() as int));
}

/// Short lines with something in each encode one after another to as many
/// whole instructions.
proof fn lemma_encode_all_exact(ls: Seq<Seq<char>>)
    requires
        encode_all(ls) is Ok,
        forall|k: int|
            0 <= k < ls.len() ==> short_line(#[trigger] ls[k]) && trim(before_comment(ls[k])).len()
                > 0,
    ensures
        exact(encode_all(ls)->Ok_0),
        instruction_starts(encode_all(ls)->Ok_0).len() == ls.len(),
    decreases ls.len(),
{
    if ls.len() == 0 {
        assert(exact_from(Seq::<u8>::empty(), 0));
        assert(instruction_starts(Seq::<u8>::empty()) == Seq::<int>::empty());
    } else {
        let v = ls.drop_last();
        assert forall|k: int| 0 <= k < v.len() implies short_line(#[trigger] v[k]) && trim(
            before_comment(v[k]),
        ).len() > 0 by {
            assert(v[k] == ls[k]);
        }
        lemma_encode_all_exact(v);
        let l = ls.last();
        assert(l == ls[ls.len() - 1]);
        lemma_short_chunk(l);
        lemma_exact_concat(encode_all(v)->Ok_0, encode_line(l)->Ok_0);
    }
}

/// The instruction lines that one line of the emission scan encodes, in
/// order: the hidden jump of `label body` and of `ret`, the store (and load)
/// of `let`, the opener and closer of a call block at `call`, or the line
/// itself with its arguments substituted.
pub open spec fn step_lines(
    funcs: Map<Seq<char>, FuncSpec>,
    labels: Map<Seq<char>, int>,
    bodies: Map<Seq<char>, int>,
    st: Emit,
    raw: Seq<char>,
) -> Seq<Seq<char>> {
    let t = clean(raw);
    let kw = keyword(t);
    let rest = rest_of(t);
    let none = Seq::<Seq<char>>::empty();
    if st.fault is Some || t.len() == 0 || kw == "func"@ {
        none
    } else if kw == "label"@ {
        match st.context {
            Some(f) => if rest == "body"@ && funcs.contains_key(f) {
                match funcs[f].callad {
                    Some(c) => seq![with_arg("ji"@, c)],
                    None => none,
                }
            } else {
                none
            },
            None => none,
        }
    } else if kw == "ret"@ {
        match st.context {
            Some(f) => if funcs.contains_key(f) {
                match funcs[f].retad {
                    Some(r) => seq![with_arg("ji"@, r)],
                    None => none,
                }
            } else {
                none
            },
            None => none,
        }
    } else if kw == "let"@ {
        let toks = words(rest);
        if toks.len() == 3 {
            seq![with_arg("load"@, toks[2]), with_arg("write"@, toks[1])]
        } else if toks.len() == 2 {
            seq![with_arg("write"@, toks[1])]
        } else {
            none
        }
    } else if funcs.contains_key(kw) && rest.len() == 0 {
        none
    } else if kw == "call"@ && rest.len() == 0 {
        match st.block {
            Some(blk) => {
                let f = blk.func;
                match (funcs[f].retad, funcs[f].callad) {
                    (Some(retad), Some(callad)) => if bodies.contains_key(f) {
                        opener_lines(blk.opened_at + 3, callad, labels[f]) + closer_lines(
                            blk.opened_at + 3 + blk.count + 3,
                            retad,
                            bodies[f],
                        )
                    } else {
                        none
                    },
                    _ => none,
                }
            },
            None => none,
        }
    } else {
        seq![substituted(st.vars, labels, t)]
    }
}

/// The emission state counts what it has written: the bytes so far are
/// whole instructions, as many as the instruction pointer says, less those
/// of an open call block (its three opener instructions and its body, also
/// whole instructions).
pub open spec fn emit_ok(st: Emit) -> bool {
    st.fault is None ==> {
        &&& exact(st.bytes)
        &&& match st.block {
            None => instruction_starts(st.bytes).len() == st.ip,
            Some(blk) => {
                &&& exact(blk.body)
                &&& instruction_starts(st.bytes).len() + 3 + instruction_starts(blk.body).len()
                    == st.ip
            },
        }
    }
}

proof fn lemma_with_arg_content(name: Seq<char>, arg: Seq<char>)
    requires
        name.len() > 0,
        !crate::text::is_ws(name[0]),
        name[0] != ';',
    ensures
        trim(before_comment(with_arg(name, arg))).len() > 0,
{
    assert(with_arg(name, arg)[0] == name[0]);
    crate::text::lemma_line_has_content(with_arg(name, arg));
}

proof fn lemma_literal_lines(arg: Seq<char>)
    ensures
        trim(before_comment(with_arg("ji"@, arg))).len() > 0,
        trim(before_comment(with_arg("load"@, arg))).len() > 0,
        trim(before_comment(with_arg("write"@, arg))).len() > 0,
        trim(before_comment(with_arg("jump"@, arg))).len() > 0,
{
    reveal_strlit("ji");
    reveal_strlit("load");
    reveal_strlit("write");
    reveal_strlit("jump");
    assert("ji"@ =~= seq!['j', 'i']);
    assert("load"@ =~= seq!['l', 'o', 'a', 'd']);
    assert("write"@ =~= seq!['w', 'r', 'i', 't', 'e']);
    assert("jump"@ =~= seq!['j', 'u', 'm', 'p']);
    lemma_with_arg_content("ji"@, arg);
    lemma_with_arg_content("load"@, arg);
    lemma_with_arg_content("write"@, arg);
    lemma_with_arg_content("jump"@, arg);
}

/// A code line with its arguments substituted still has something in it.
proof fn lemma_substituted_content(
    vars: Map<Seq<char>, Seq<char>>,
    labels: Map<Seq<char>, int>,
    raw: Seq<char>,
)
    requires
        clean(raw).len() > 0,
    ensures
        trim(before_comment(substituted(vars, labels, clean(raw)))).len() > 0,
{
    let t = clean(raw);
    crate::text::lemma_clean_stable(raw);
    crate::text::lemma_trim_len(before_comment(t));
    crate::text::lemma_find_first_bounds(t, crate::text::semi_sep());
    assert(before_comment(t).len() == t.len());
    assert(!crate::text::semi_sep()(t[0]));
    assert(!crate::text::ws_sep()(t[0]));
    assert(crate::text::find_first(t, crate::text::ws_sep()) == 1 + crate::text::find_first(
        t.drop_first(),
        crate::text::ws_sep(),
    ));
    crate::text::lemma_find_first_bounds(t.drop_first(), crate::text::ws_sep());
    let u = substituted(vars, labels, t);
    assert(keyword(t).len() > 0);
    assert(u[0] == keyword(t)[0]);
    assert(keyword(t)[0] == t[0]);
    crate::text::lemma_line_has_content(u);
}

proof fn lemma_push_out_ok(st: Emit, b: Seq<u8>, n: int)
    requires
        emit_ok(st),
        st.fault is None,
        exact(b),
        instruction_starts(b).len() == n,
    ensures
        emit_ok(Emit { ip: push_out(st, b, n).ip + n, ..push_out(st, b, n) }),
{
    match st.block {
        None => {
            lemma_exact_concat(st.bytes, b);
        },
        Some(blk) => {
            lemma_exact_concat(blk.body, b);
        },
    }
}

proof fn lemma_emit_line_ok(st: Emit, line: Seq<char>)
    requires
        emit_ok(st),
        st.fault is None,
        short_line(line),
        trim(before_comment(line)).len() > 0,
    ensures
        emit_ok(emit_line(st, line, 1)),
{
    if encode_line(line) is Ok {
        lemma_short_chunk(line);
        lemma_push_out_ok(st, encode_line(line)->Ok_0, 1);
    }
}

/// One line of the emission scan keeps the count, when the lines it
/// encodes are short.
proof fn lemma_emit_step_ok(
    funcs: Map<Seq<char>, FuncSpec>,
    labels: Map<Seq<char>, int>,
    bodies: Map<Seq<char>, int>,
    st: Emit,
    raw: Seq<char>,
)
    requires
        emit_ok(st),
        forall|j: int|
            0 <= j < step_lines(funcs, labels, bodies, st, raw).len() ==> short_line(
                #[trigger] step_lines(funcs, labels, bodies, st, raw)[j],
            ),
    ensures
        emit_ok(emit_step(funcs, labels, bodies, st, raw)),
{
    reveal(emit_step);
    lemma_keywords_distinct();
    let t = clean(raw);
    let kw = keyword(t);
    let rest = rest_of(t);
    let sl = step_lines(funcs, labels, bodies, st, raw);
    if st.fault is Some || t.len() == 0 || kw == "func"@ {
    } else if kw == "label"@ {
        if rest == "body"@ {
            match st.context {
                Some(f) => {
                    if funcs.contains_key(f) {
                        match funcs[f].callad {
                            Some(c) => {
                                assert(short_line(sl[0]));
                                lemma_literal_lines(c);
                                lemma_emit_line_ok(st, with_arg("ji"@, c));
                            },
                            None => {},
                        }
                    }
                },
                None => {},
            }
        }
    } else if kw == "ret"@ {
        match st.context {
            Some(f) => {
                if funcs.contains_key(f) {
                    match funcs[f].retad {
                        Some(r) => {
                            assert(short_line(sl[0]));
                            lemma_literal_lines(r);
                            lemma_emit_line_ok(st, with_arg("ji"@, r));
                        },
                        None => {},
                    }
                }
            },
            None => {},
        }
    } else if kw == "let"@ {
        let toks = words(rest);
        let st1 = Emit { vars: st.vars.insert(toks[0], toks[1]), ..st };
        if toks.len() == 3 {
            let l1 = with_arg("load"@, toks[2]);
            let l2 = with_arg("write"@, toks[1]);
            assert(short_line(sl[0]) && short_line(sl[1]));
            lemma_literal_lines(toks[2]);
            lemma_literal_lines(toks[1]);
            if encode_line(l1) is Ok && encode_line(l2) is Ok {
                lemma_short_chunk(l1);
                lemma_short_chunk(l2);
                let b1 = encode_line(l1)->Ok_0;
                let b2 = encode_line(l2)->Ok_0;
                lemma_exact_concat(b1, b2);
                lemma_push_out_ok(st1, b1 + b2, 2);
            }
        } else if toks.len() == 2 {
            assert(short_line(sl[0]));
            lemma_literal_lines(toks[1]);
            lemma_emit_line_ok(st1, with_arg("write"@, toks[1]));
        }
    } else if funcs.contains_key(kw) && rest.len() == 0 {
        assert(exact_from(Seq::<u8>::empty(), 0));
        assert(instruction_starts(Seq::<u8>::empty()) == Seq::<int>::empty());
    } else if kw == "call"@ && rest.len() == 0 {
        match st.block {
            Some(blk) => {
                let f = blk.func;
                let d = funcs[f];
                match (d.retad, d.callad) {
                    (Some(retad), Some(callad)) => {
                        if bodies.contains_key(f) {
                            let ol = opener_lines(blk.opened_at + 3, callad, labels[f]);
                            let cl = closer_lines(blk.opened_at + 3 + blk.count + 3, retad, bodies[f]);
                            assert(sl == ol + cl);
                            assert forall|k: int| 0 <= k < ol.len() implies short_line(
                                #[trigger] ol[k],
                            ) && trim(before_comment(ol[k])).len() > 0 by {
                                assert(sl[k] == ol[k]);
                                lemma_literal_lines(decimal((blk.opened_at + 3) as nat));
                                lemma_literal_lines(callad);
                                lemma_literal_lines(decimal(labels[f] as nat));
                            }
                            assert forall|k: int| 0 <= k < cl.len() implies short_line(
                                #[trigger] cl[k],
                            ) && trim(before_comment(cl[k])).len() > 0 by {
                                assert(sl[ol.len() + k] == cl[k]);
                                lemma_literal_lines(
                                    decimal((blk.opened_at + 3 + blk.count + 3) as nat),
                                );
                                lemma_literal_lines(retad);
                                lemma_literal_lines(decimal(bodies[f] as nat));
                            }
                            if encode_all(ol) is Ok && encode_all(cl) is Ok {
                                lemma_encode_all_exact(ol);
                                lemma_encode_all_exact(cl);
                                let o = encode_all(ol)->Ok_0;
                                let c = encode_all(cl)->Ok_0;
                                lemma_exact_concat(st.bytes, o);
                                lemma_exact_concat(st.bytes + o, blk.body);
                                lemma_exact_concat(st.bytes + o + blk.body, c);
                            }
                        }
                    },
                    _ => {},
                }
            },
            None => {},
        }
    } else {
        assert(short_line(sl[0]));
        lemma_substituted_content(st.vars, labels, raw);
        lemma_emit_line_ok(st, substituted(st.vars, labels, t));
    }
}

/// Every `func` line that names a function puts a space right after
/// `func` (not a tab or other whitespace), as the gutter scan expects.
pub open spec fn func_lines_spaced(ls: Seq<Seq<char>>) -> bool {
    forall|k: int|
        0 <= k < ls.len() ==> {
            let t = #[trigger] clean(ls[k]);
            keyword(t) == "func"@ && rest_of(t).len() > 0 ==> t[4] == ' '
        }
}

/// A spaced `func` line declares its name to the gutter scan.
proof fn lemma_spaced_func_declares(raw: Seq<char>)
    requires
        keyword(clean(raw)) == "func"@,
        rest_of(clean(raw)).len() > 0,
        clean(raw)[4] == ' ',
    ensures
        declared_name(raw) == Some(rest_of(clean(raw))),
{
    let t = clean(raw);
    reveal_strlit("func ");
    reveal_strlit("func");
    assert("func "@ =~= seq!['f', 'u', 'n', 'c', ' ']);
    assert("func"@ =~= seq!['f', 'u', 'n', 'c']);
    let k = crate::text::find_first(t, crate::text::ws_sep());
    crate::text::lemma_find_first_bounds(t, crate::text::ws_sep());
    assert(t.take(k).len() == 4);
    assert(k == 4);
    assert(k < t.len());
    assert(t.take(5) =~= "func "@) by {
        assert(t.take(4) == "func"@);
        assert(t.take(4)[0] == t[0] && t.take(4)[1] == t[1] && t.take(4)[2] == t[2]
            && t.take(4)[3] == t[3]);
    }
}

proof fn lemma_headers_declared(ls: Seq<Seq<char>>)
    requires
        func_lines_spaced(ls),
    ensures
        forall|n: Seq<char>|
            n.len() > 0 ==> (scan_headers(ls).funcs.contains_key(n) <==> #[trigger] declared_names(
                ls,
            ).contains(n)),
        scan_headers(ls).current matches Some(f) ==> scan_headers(ls).funcs.contains_key(f),
    decreases ls.len(),
{
    if ls.len() > 0 {
        let v = ls.drop_last();
        assert forall|k: int| 0 <= k < v.len() implies {
            let t = #[trigger] clean(v[k]);
            keyword(t) == "func"@ && rest_of(t).len() > 0 ==> t[4] == ' '
        } by {
            assert(v[k] == ls[k]);
        }
        lemma_headers_declared(v);
        let raw = ls.last();
        assert(raw == ls[ls.len() - 1]);
        let t = clean(raw);
        lemma_declared_is_func_line(raw);
        lemma_keywords_distinct();
        if t.len() > 0 && keyword(t) == "func"@ && rest_of(t).len() > 0 {
            lemma_spaced_func_declares(raw);
        }
        if t.len() > 0 && keyword(t) == "func"@ && rest_of(t).len() == 0 {
            assert(declared_name(raw) is None);
        }
        let h0 = scan_headers(v);
        let h1 = scan_headers(ls);
        assert(h1 == header_step(h0, raw));
        assert forall|n: Seq<char>| n.len() > 0 implies (h1.funcs.contains_key(n)
            <==> #[trigger] declared_names(ls).contains(n)) by {
            assert(declared_names(v).contains(n) <==> h0.funcs.contains_key(n));
            if t.len() > 0 && keyword(t) == "func"@ {
                if rest_of(t).len() > 0 {
                    assert(declared_names(ls) == declared_names(v).insert(rest_of(t)));
                } else {
                    assert(declared_names(ls) == declared_names(v));
                }
            } else {
                assert(declared_names(ls) == declared_names(v));
                assert(h1.funcs.dom() =~= h0.funcs.dom());
            }
        }
    }
}

/// The functions the compiler knows, by non-empty name, are exactly the
/// names the gutter scan reports, when every `func` line puts a space after
/// `func`.
pub proof fn law_functions_are_scanned_names(src: Seq<char>)
    requires
        func_lines_spaced(lines(src)),
    ensures
        forall|n: Seq<char>|
            n.len() > 0 ==> (scan_headers(lines(src)).funcs.contains_key(n)
                <==> #[trigger] declared_names(lines(src)).contains(n)),
{
    lemma_headers_declared(lines(src));
}

/// Every instruction line the emission scan encodes over these lines is
/// short.
pub open spec fn writes_short(
    funcs: Map<Seq<char>, FuncSpec>,
    labels: Map<Seq<char>, int>,
    bodies: Map<Seq<char>, int>,
    ls: Seq<Seq<char>>,
) -> bool {
    forall|k: int, j: int|
        0 <= k < ls.len() && 0 <= j < step_lines(
            funcs,
            labels,
            bodies,
            scan_emit(funcs, labels, bodies, ls.take(k)),
            ls[k],
        ).len() ==> short_line(
            #[trigger] step_lines(
                funcs,
                labels,
                bodies,
                scan_emit(funcs, labels, bodies, ls.take(k)),
                ls[k],
            )[j],
        )
}

/// Every instruction line the assembler writes for a source text takes at
/// most eight bytes: its arguments at most seven.
pub open spec fn source_writes_short(src: Seq<char>) -> bool {
    let ls = lines(src);
    let funcs = scan_headers(ls).funcs;
    let lay = layout(funcs.dom(), ls);
    writes_short(funcs, lay.labels, lay.bodies, ls)
}

proof fn lemma_scan_emit_ok(
    funcs: Map<Seq<char>, FuncSpec>,
    labels: Map<Seq<char>, int>,
    bodies: Map<Seq<char>, int>,
    ls: Seq<Seq<char>>,
)
    requires
        writes_short(funcs, labels, bodies, ls),
    ensures
        emit_ok(scan_emit(funcs, labels, bodies, ls)),
    decreases ls.len(),
{
    if ls.len() == 0 {
        assert(exact_from(Seq::<u8>::empty(), 0));
        assert(instruction_starts(Seq::<u8>::empty()) == Seq::<int>::empty());
    } else {
        let v = ls.drop_last();
        assert forall|k: int, j: int|
            0 <= k < v.len() && 0 <= j < step_lines(
                funcs,
                labels,
                bodies,
                scan_emit(funcs, labels, bodies, v.take(k)),
                v[k],
            ).len() implies short_line(
            #[trigger] step_lines(
                funcs,
                labels,
                bodies,
                scan_emit(funcs, labels, bodies, v.take(k)),
                v[k],
            )[j],
        ) by {
            assert(v.take(k) =~= ls.take(k));
            assert(v[k] == ls[k]);
        }
        lemma_scan_emit_ok(funcs, labels, bodies, v);
        let n = (ls.len() - 1) as int;
        assert(ls.take(n) =~= v);
        assert(ls[n] == ls.last());
        let st = scan_emit(funcs, labels, bodies, v);
        assert forall|j: int| 0 <= j < step_lines(funcs, labels, bodies, st, ls.last()).len()
            implies short_line(#[trigger] step_lines(funcs, labels, bodies, st, ls.last())[j]) by {
            assert(step_lines(funcs, labels, bodies, scan_emit(funcs, labels, bodies, ls.take(n)), ls[n])[j]
                == step_lines(funcs, labels, bodies, st, ls.last())[j]);
        }
        lemma_emit_step_ok(funcs, labels, bodies, st, ls.last());
    }
}

/// The sum of the instruction counts of lines, each trimmed.
pub open spec fn line_count_sum(ls: Seq<Seq<char>>, names: Set<Seq<char>>) -> nat
    decreases ls.len(),
{
    if ls.len() == 0 {
        0
    } else {
        line_count_sum(ls.drop_last(), names) + line_instructions(trim(ls.last()), names)
    }
}

/// A line counts the same with two name sets that hold the same non-empty
/// names.
proof fn lemma_count_same_names(raw: Seq<char>, a: Set<Seq<char>>, b: Set<Seq<char>>)
    requires
        forall|n: Seq<char>| n.len() > 0 ==> (a.contains(n) <==> #[trigger] b.contains(n)),
    ensures
        line_instructions(trim(raw), a) == line_instructions(trim(raw), b),
{
    lemma_count_trimmed(raw, a);
    lemma_count_trimmed(raw, b);
    crate::text::lemma_clean_stable(raw);
    let t = clean(raw);
    if t.len() > 0 {
        assert(!crate::text::ws_sep()(t[0]));
        assert(crate::text::find_first(t, crate::text::ws_sep()) == 1 + crate::text::find_first(
            t.drop_first(),
            crate::text::ws_sep(),
        ));
        crate::text::lemma_find_first_bounds(t.drop_first(), crate::text::ws_sep());
        assert(keyword(t).len() > 0);
        assert(a.contains(keyword(t)) == b.contains(keyword(t)));
    }
}

proof fn lemma_count_sum_names(ls: Seq<Seq<char>>, a: Set<Seq<char>>, b: Set<Seq<char>>)
    requires
        forall|n: Seq<char>| n.len() > 0 ==> (a.contains(n) <==> #[trigger] b.contains(n)),
    ensures
        line_count_sum(ls, a) == line_count_sum(ls, b),
    decreases ls.len(),
{
    if ls.len() > 0 {
        lemma_count_sum_names(ls.drop_last(), a, b);
        lemma_count_same_names(ls.last(), a, b);
    }
}

/// The instructions written for a source text that compiles, when each
/// takes at most seven argument bytes and every `func` line puts a space
/// after `func`: the controller finds in the bytes as many instructions as
/// `source_line_instruction_count` gives for all trimmed lines together,
/// with the names `scan_function_names` finds; and line `k`'s first
/// instruction is number the sum of the counts of the lines before it.
pub proof fn law_instruction_count(src: Seq<char>)
    requires
        assemble(src) is Ok,
        source_writes_short(src),
        func_lines_spaced(lines(src)),
    ensures
        instruction_starts(assemble(src)->Ok_0).len() == line_count_sum(
            lines(src),
            declared_names(lines(src)),
        ),
        ({
            let ls = lines(src);
            let funcs = scan_headers(ls).funcs;
            let lay = layout(funcs.dom(), ls);
            forall|k: int|
                0 <= k <= ls.len() ==> #[trigger] scan_emit(
                    funcs,
                    lay.labels,
                    lay.bodies,
                    ls.take(k),
                ).ip == line_count_sum(ls.take(k), declared_names(ls))
        }),
{
    let ls = lines(src);
    let funcs = scan_headers(ls).funcs;
    let lay = layout(funcs.dom(), ls);
    let names = declared_names(ls);
    lemma_headers_declared(ls);
    assert forall|n: Seq<char>| n.len() > 0 implies (funcs.dom().contains(n)
        <==> #[trigger] names.contains(n)) by {
        assert(names.contains(n) <==> funcs.contains_key(n));
    }
    law_emitted_counts(src);
    assert forall|k: int| 0 <= k <= ls.len() implies #[trigger] scan_emit(
        funcs,
        lay.labels,
        lay.bodies,
        ls.take(k),
    ).ip == line_count_sum(ls.take(k), names) by {
        lemma_emit_ip_sum(src, k);
        lemma_count_sum_names(ls.take(k), funcs.dom(), names);
    }
    lemma_scan_emit_ok(funcs, lay.labels, lay.bodies, ls);
    assert(ls.take(ls.len() as int) =~= ls);
}

proof fn lemma_emit_ip_sum(src: Seq<char>, k: int)
    requires
        assemble(src) is Ok,
        0 <= k <= lines(src).len(),
    ensures
        ({
            let ls = lines(src);
            let funcs = scan_headers(ls).funcs;
            let lay = layout(funcs.dom(), ls);
            scan_emit(funcs, lay.labels, lay.bodies, ls.take(k)).ip == line_count_sum(
                ls.take(k),
                funcs.dom(),
            )
        }),
    decreases k,
{
    let ls = lines(src);
    let funcs = scan_headers(ls).funcs;
    let lay = layout(funcs.dom(), ls);
    if k == 0 {
        assert(ls.take(0) =~= Seq::<Seq<char>>::empty());
    } else {
        lemma_emit_ip_sum(src, k - 1);
        law_emitted_counts(src);
        assert(ls.take(k).drop_last() =~= ls.take(k - 1));
        assert(ls.take(k).last() == ls[k - 1]);
        assert(scan_emit(funcs, lay.labels, lay.bodies, ls.take(k - 1 + 1)).ip == scan_emit(
            funcs,
            lay.labels,
            lay.bodies,
            ls.take(k - 1),
        ).ip + line_instructions(trim(ls[k - 1]), funcs.dom()));
    }
}

/// A call-block opener brings the function's header bindings into scope:
/// after the line that names function `f` alone (outside any call block),
/// every name bound in `f`'s header, wherever `f` is declared in the text,
/// stands for its address while the block's body is substituted, over any
/// earlier variable of the same name; and the block is open for `f`.
pub proof fn law_opener_binds_header(src: Seq<char>, k: int)
    requires
        0 <= k < lines(src).len(),
        ({
            let ls = lines(src);
            let funcs = scan_headers(ls).funcs;
            let lay = layout(funcs.dom(), ls);
            let st = scan_emit(funcs, lay.labels, lay.bodies, ls.take(k));
            let t = clean(ls[k]);
            let f = keyword(t);
            &&& st.fault is None
            &&& st.block is None
            &&& t.len() > 0
            &&& rest_of(t).len() == 0
            &&& funcs.contains_key(f)
            &&& f != "func"@ && f != "label"@ && f != "ret"@ && f != "let"@
        }),
    ensures
        ({
            let ls = lines(src);
            let funcs = scan_headers(ls).funcs;
            let lay = layout(funcs.dom(), ls);
            let after = scan_emit(funcs, lay.labels, lay.bodies, ls.take(k + 1));
            let f = keyword(clean(ls[k]));
            &&& after.fault is None
            &&& after.block matches Some(blk) && blk.func == f && blk.body.len() == 0
            &&& forall|b: Seq<char>|
                #[trigger] funcs[f].bindings.contains_key(b) ==> after.vars.contains_key(b)
                    && after.vars[b] == funcs[f].bindings[b]
        }),
{
    reveal(emit_step);
    let ls = lines(src);
    assert(ls.take(k + 1).drop_last() =~= ls.take(k));
    assert(ls.take(k + 1).last() == ls[k]);
}

/// A line declares `name` as a label or a function.
pub open spec fn declares(raw: Seq<char>, name: Seq<char>) -> bool {
    let t = clean(raw);
    (keyword(t) == "label"@ || keyword(t) == "func"@) && rest_of(t) == name
}

proof fn lemma_layout_ip_sum(src: Seq<char>, k: int)
    requires
        assemble(src) is Ok,
        !scan_headers(lines(src)).funcs.contains_key("ret"@),
        0 <= k <= lines(src).len(),
    ensures
        ({
            let ls = lines(src);
            let names = scan_headers(ls).funcs.dom();
            scan_layout(names, ls.take(k)).ip == line_count_sum(ls.take(k), names)
        }),
    decreases k,
{
    let ls = lines(src);
    let names = scan_headers(ls).funcs.dom();
    if k == 0 {
        assert(ls.take(0) =~= Seq::<Seq<char>>::empty());
    } else {
        lemma_layout_ip_sum(src, k - 1);
        law_layout_counts(src);
        assert(ls.take(k).drop_last() =~= ls.take(k - 1));
        assert(ls.take(k).last() == ls[k - 1]);
        assert(scan_layout(names, ls.take(k - 1 + 1)).ip == scan_layout(names, ls.take(k - 1)).ip
            + line_instructions(trim(ls[k - 1]), names));
    }
}

proof fn lemma_label_kept(names: Set<Seq<char>>, ls: Seq<Seq<char>>, k: int, name: Seq<char>)
    requires
        0 <= k <= ls.len(),
        name != "body"@,
        scan_layout(names, ls.take(k)).labels.contains_key(name),
        forall|j: int| k <= j < ls.len() ==> !declares(#[trigger] ls[j], name),
    ensures
        scan_layout(names, ls).labels.contains_key(name),
        scan_layout(names, ls).labels[name] == scan_layout(names, ls.take(k)).labels[name],
    decreases ls.len(),
{
    if k < ls.len() {
        let v = ls.drop_last();
        assert(v.take(k) =~= ls.take(k));
        assert forall|j: int| k <= j < v.len() implies !declares(#[trigger] v[j], name) by {
            assert(v[j] == ls[j]);
        }
        lemma_label_kept(names, v, k, name);
        assert(ls.last() == ls[ls.len() - 1]);
        assert(!declares(ls.last(), name));
    } else {
        assert(ls.take(k) =~= ls);
    }
}

/// Labels are numbered as the code is laid out: in a text that compiles
/// (and declares no function named `ret`), a label declared on line `k`
/// and on no other line stands for the sum of the instruction counts of the
/// lines before it, the number of the first instruction after it.
pub proof fn law_label_numbers(src: Seq<char>, k: int, name: Seq<char>)
    requires
        assemble(src) is Ok,
        !scan_headers(lines(src)).funcs.contains_key("ret"@),
        0 <= k < lines(src).len(),
        keyword(clean(lines(src)[k])) == "label"@,
        rest_of(clean(lines(src)[k])) == name,
        name != "body"@,
        forall|j: int| 0 <= j < lines(src).len() && j != k ==> !declares(#[trigger] lines(src)[j], name),
    ensures
        ({
            let ls = lines(src);
            let names = scan_headers(ls).funcs.dom();
            &&& layout(names, ls).labels.contains_key(name)
            &&& layout(names, ls).labels[name] == line_count_sum(ls.take(k), names)
        }),
{
    let ls = lines(src);
    let names = scan_headers(ls).funcs.dom();
    lemma_keywords_distinct();
    lemma_layout_ip_sum(src, k);
    if scan_layout(names, ls.take(k + 1)).fault is Some {
        lemma_layout_fault_persists(names, ls, k + 1);
    }
    if scan_layout(names, ls.take(k)).fault is Some {
        lemma_layout_fault_persists(names, ls, k);
    }
    assert(ls.take(k + 1).drop_last() =~= ls.take(k));
    assert(ls.take(k + 1).last() == ls[k]);
    assert(clean(ls[k]).len() > 0) by {
        reveal_strlit("label");
        assert("label"@ =~= seq!['l', 'a', 'b', 'e', 'l']);
        if clean(ls[k]).len() == 0 {
            assert(keyword(clean(ls[k])).len() == 0);
        }
    }
    lemma_label_kept(names, ls, k + 1, name);
}

} // verus!
