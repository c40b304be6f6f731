//! Character-level text handling: whitespace, trimming, comments, splitting
//! into lines and tokens, and decimal numbers.
//!
//! Source text is handled as a sequence of `char`s; every exec function here
//! is specified against a spec function over `Seq<char>`.
use vstd::prelude::*;

verus! {

// ---------------------------------------------------------------------------
// Character classes
// ---------------------------------------------------------------------------

/// Unicode `White_Space`, the class that `char::is_whitespace` tests.
pub open spec fn is_ws(c: char) -> bool {
    let u = c as u32;
    ||| 0x09 <= u <= 0x0d
    ||| u == 0x20
    ||| u == 0x85
    ||| u == 0xa0
    ||| u == 0x1680
    ||| 0x2000 <= u <= 0x200a
    ||| u == 0x2028
    ||| u == 0x2029
    ||| u == 0x202f
    ||| u == 0x205f
    ||| u == 0x3000
}

/// Separator predicates, named so that every use refers to the same function.
pub open spec fn ws_sep() -> spec_fn(char) -> bool {
    |c: char| is_ws(c)
}

pub open spec fn ws_or_dash_sep() -> spec_fn(char) -> bool {
    |c: char| is_ws(c) || c == '-'
}

pub open spec fn semi_sep() -> spec_fn(char) -> bool {
    |c: char| c == ';'
}

pub fn is_whitespace(c: char) -> (b: bool)
    ensures
        b == is_ws(c),
{
    let u = c as u32;
    (0x09 <= u && u <= 0x0d) || u == 0x20 || u == 0x85 || u == 0xa0 || u == 0x1680 || (0x2000
        <= u && u <= 0x200a) || u == 0x2028 || u == 0x2029 || u == 0x202f || u == 0x205f || u
        == 0x3000
}

fn is_sep(c: char, dash: bool) -> (b: bool)
    ensures
        b == (if dash {
            ws_or_dash_sep()(c)
        } else {
            ws_sep()(c)
        }),
{
    is_whitespace(c) || (dash && c == '-')
}

// ---------------------------------------------------------------------------
// Searching
// ---------------------------------------------------------------------------

/// Index of the first character satisfying `p`, or `s.len()` if none does.
pub open spec fn find_first(s: Seq<char>, p: spec_fn(char) -> bool) -> int
    decreases s.len(),
{
    if s.len() == 0 {
        0
    } else if p(s[0]) {
        0
    } else {
        1 + find_first(s.drop_first(), p)
    }
}

/// `find_first` is the unique index with no match before it and a match (or
/// the end) at it.
pub proof fn lemma_find_first(s: Seq<char>, p: spec_fn(char) -> bool, k: int)
    requires
        0 <= k <= s.len(),
        forall|j: int| 0 <= j < k ==> !p(s[j]),
        k == s.len() || p(s[k]),
    ensures
        find_first(s, p) == k,
    decreases s.len(),
{
    if s.len() == 0 {
    } else if p(s[0]) {
    } else {
        assert(k > 0);
        lemma_find_first(s.drop_first(), p, k - 1);
    }
}

pub proof fn lemma_find_first_bounds(s: Seq<char>, p: spec_fn(char) -> bool)
    ensures
        0 <= find_first(s, p) <= s.len(),
        forall|j: int| 0 <= j < find_first(s, p) ==> !p(s[j]),
        find_first(s, p) < s.len() ==> p(s[find_first(s, p)]),
    decreases s.len(),
{
    if s.len() > 0 && !p(s[0]) {
        lemma_find_first_bounds(s.drop_first(), p);
        assert forall|j: int| 0 <= j < find_first(s, p) implies !p(s[j]) by {
            if j > 0 {
                assert(s[j] == s.drop_first()[j - 1]);
            }
        }
    }
}

fn find_sep(s: &Vec<char>, from: usize, dash: bool) -> (k: usize)
    requires
        from <= s@.len(),
    ensures
        from <= k <= s@.len(),
        k - from == find_first(
            s@.skip(from as int),
            if dash {
                ws_or_dash_sep()
            } else {
                ws_sep()
            },
        ),
{
    let ghost p = if dash {
        ws_or_dash_sep()
    } else {
        ws_sep()
    };
    let mut i = from;
    while i < s.len() && !is_sep(s[i], dash)
        invariant
            from <= i <= s@.len(),
            p == (if dash {
                ws_or_dash_sep()
            } else {
                ws_sep()
            }),
            forall|j: int| from <= j < i ==> !p(s@[j]),
        decreases s@.len() - i,
    {
        i = i + 1;
    }
    proof {
        lemma_find_first(s@.skip(from as int), p, i - from);
    }
    i
}

// ---------------------------------------------------------------------------
// Copying and comparing
// ---------------------------------------------------------------------------

/// The characters `s[from..to]` as a new vector.
pub fn subrange(s: &Vec<char>, from: usize, to: usize) -> (r: Vec<char>)
    requires
        from <= to <= s@.len(),
    ensures
        r@ == s@.subrange(from as int, to as int),
{
    let mut r: Vec<char> = Vec::new();
    let mut i = from;
    while i < to
        invariant
            from <= i <= to <= s@.len(),
            r@ == s@.subrange(from as int, i as int),
        decreases to - i,
    {
        r.push(s[i]);
        i = i + 1;
    }
    r
}

pub fn chars_eq(a: &Vec<char>, b: &Vec<char>) -> (r: bool)
    ensures
        r == (a@ == b@),
{
    if a.len() != b.len() {
        return false;
    }
    let mut i: usize = 0;
    while i < a.len()
        invariant
            a@.len() == b@.len(),
            i <= a@.len(),
            forall|j: int| 0 <= j < i ==> a@[j] == b@[j],
        decreases a@.len() - i,
    {
        if a[i] != b[i] {
            return false;
        }
        i = i + 1;
    }
    assert(a@ =~= b@);
    true
}

/// Whether the characters of `a` are those of the string `lit`.
pub fn eq_str(a: &Vec<char>, lit: &str) -> (r: bool)
    ensures
        r == (a@ == lit@),
{
    let n = lit.unicode_len();
    if a.len() != n {
        return false;
    }
    let mut i: usize = 0;
    while i < n
        invariant
            n == a@.len() == lit@.len(),
            i <= n,
            forall|j: int| 0 <= j < i ==> a@[j] == lit@[j],
        decreases n - i,
    {
        if a[i] != lit.get_char(i) {
            return false;
        }
        i = i + 1;
    }
    assert(a@ =~= lit@);
    true
}

/// Appends the characters of `lit` to `out`.
pub fn push_str(out: &mut Vec<char>, lit: &str)
    ensures
        final(out)@ == old(out)@ + lit@,
{
    let n = lit.unicode_len();
    let mut i: usize = 0;
    while i < n
        invariant
            n == lit@.len(),
            i <= n,
            out@ == old(out)@ + lit@.take(i as int),
        decreases n - i,
    {
        out.push(lit.get_char(i));
        i = i + 1;
        assert(lit@.take(i as int) =~= lit@.take(i - 1).push(lit@[i - 1]));
    }
    assert(lit@.take(n as int) =~= lit@);
}

pub fn push_chars(out: &mut Vec<char>, s: &Vec<char>)
    ensures
        final(out)@ == old(out)@ + s@,
{
    let mut i: usize = 0;
    while i < s.len()
        invariant
            i <= s@.len(),
            out@ == old(out)@ + s@.take(i as int),
        decreases s@.len() - i,
    {
        out.push(s[i]);
        i = i + 1;
        assert(s@.take(i as int) =~= s@.take(i - 1).push(s@[i - 1]));
    }
    assert(s@.take(s@.len() as int) =~= s@);
}

// ---------------------------------------------------------------------------
// Conversions between `str`/`String` and character vectors
// ---------------------------------------------------------------------------

pub fn str_chars(s: &str) -> (v: Vec<char>)
    ensures
        v@ == s@,
{
    broadcast use vstd::string::axiom_spec_iter;

    let mut out: Vec<char> = Vec::new();
    for ch in it: s.chars()
        invariant
            out@ == it.seq().take(it.index() as int),
            it.seq() == s@,
    {
        out.push(ch);
    }
    out
}

/// `String::from_iter` over a vector of characters.
#[verifier::external_body]
pub(crate) fn string_from_chars(v: Vec<char>) -> (s: String)
    ensures
        s@ == v@,
{
    String::from_iter(v)
}

// ---------------------------------------------------------------------------
// Trimming and comments
// ---------------------------------------------------------------------------

pub open spec fn trim_start(s: Seq<char>) -> Seq<char>
    decreases s.len(),
{
    if s.len() > 0 && is_ws(s[0]) {
        trim_start(s.drop_first())
    } else {
        s
    }
}

pub open spec fn trim_end(s: Seq<char>) -> Seq<char>
    decreases s.len(),
{
    if s.len() > 0 && is_ws(s.last()) {
        trim_end(s.drop_last())
    } else {
        s
    }
}

/// `str::trim`: leading and trailing whitespace removed.
pub open spec fn trim(s: Seq<char>) -> Seq<char> {
    trim_end(trim_start(s))
}

/// The text before the first `;` (a comment starts there).
pub open spec fn before_comment(s: Seq<char>) -> Seq<char> {
    s.take(find_first(s, semi_sep()))
}

/// A raw source line as the compiler reads it: trimmed, comment removed,
/// trimmed again.
pub open spec fn clean(raw: Seq<char>) -> Seq<char> {
    trim(before_comment(trim(raw)))
}

pub fn trim_chars(s: &Vec<char>) -> (r: Vec<char>)
    ensures
        r@ == trim(s@),
{
    let mut a: usize = 0;
    assert(s@.skip(0) =~= s@);
    while a < s.len() && is_whitespace(s[a])
        invariant
            a <= s@.len(),
            trim_start(s@.skip(a as int)) == trim_start(s@),
        decreases s@.len() - a,
    {
        assert(s@.skip(a as int).drop_first() =~= s@.skip(a + 1));
        a = a + 1;
    }
    assert(trim_start(s@) == s@.skip(a as int));
    let mut b: usize = s.len();
    assert(s@.subrange(a as int, b as int) =~= s@.skip(a as int));
    while b > a && is_whitespace(s[b - 1])
        invariant
            a <= b <= s@.len(),
            trim_end(s@.subrange(a as int, b as int)) == trim(s@),
        decreases b,
    {
        assert(s@.subrange(a as int, b as int).drop_last() =~= s@.subrange(a as int, b - 1));
        b = b - 1;
    }
    subrange(s, a, b)
}

pub fn before_comment_chars(s: &Vec<char>) -> (r: Vec<char>)
    ensures
        r@ == before_comment(s@),
{
    let mut i: usize = 0;
    while i < s.len() && s[i] != ';'
        invariant
            i <= s@.len(),
            forall|j: int| 0 <= j < i ==> !semi_sep()(s@[j]),
        decreases s@.len() - i,
    {
        i = i + 1;
    }
    proof {
        lemma_find_first(s@, semi_sep(), i as int);
    }
    subrange(s, 0, i)
}

pub fn clean_chars(raw: &Vec<char>) -> (r: Vec<char>)
    ensures
        r@ == clean(raw@),
{
    let t = trim_chars(raw);
    let c = before_comment_chars(&t);
    trim_chars(&c)
}

// ---------------------------------------------------------------------------
// Keyword and rest of a line
// ---------------------------------------------------------------------------

/// The text before the first whitespace (`split_once` on whitespace, left part).
pub open spec fn keyword(s: Seq<char>) -> Seq<char> {
    s.take(find_first(s, ws_sep()))
}

/// The trimmed text after the first whitespace, or empty if there is none.
pub open spec fn rest_of(s: Seq<char>) -> Seq<char> {
    let k = find_first(s, ws_sep());
    if k < s.len() {
        trim(s.skip(k + 1))
    } else {
        Seq::empty()
    }
}

pub fn split_keyword(s: &Vec<char>) -> (r: (Vec<char>, Vec<char>))
    ensures
        r.0@ == keyword(s@),
        r.1@ == rest_of(s@),
{
    let k = find_sep(s, 0, false);
    assert(s@.skip(0) =~= s@);
    let kw = subrange(s, 0, k);
    if k < s.len() {
        let after = subrange(s, k + 1, s.len());
        assert(after@ =~= s@.skip(k + 1));
        (kw, trim_chars(&after))
    } else {
        (kw, Vec::new())
    }
}

// ---------------------------------------------------------------------------
// Splitting into tokens and lines
// ---------------------------------------------------------------------------

pub open spec fn views(v: Seq<Vec<char>>) -> Seq<Seq<char>> {
    v.map_values(|x: Vec<char>| x@)
}

/// Scanning state of a split: the tokens completed so far, and the token in
/// progress.
pub open spec fn token_state(s: Seq<char>, sep: spec_fn(char) -> bool) -> (
    Seq<Seq<char>>,
    Seq<char>,
)
    decreases s.len(),
{
    if s.len() == 0 {
        (Seq::empty(), Seq::empty())
    } else {
        let st = token_state(s.drop_last(), sep);
        let c = s.last();
        if sep(c) {
            if st.1.len() > 0 {
                (st.0.push(st.1), Seq::empty())
            } else {
                (st.0, Seq::empty())
            }
        } else {
            (st.0, st.1.push(c))
        }
    }
}

/// The maximal non-empty runs of characters not satisfying `sep`, in order
/// (`split(sep)` with empty pieces dropped, as `split_whitespace` does).
pub open spec fn tokens(s: Seq<char>, sep: spec_fn(char) -> bool) -> Seq<Seq<char>> {
    let st = token_state(s, sep);
    if st.1.len() > 0 {
        st.0.push(st.1)
    } else {
        st.0
    }
}

/// `split_whitespace`.
pub open spec fn words(s: Seq<char>) -> Seq<Seq<char>> {
    tokens(s, ws_sep())
}

/// Instruction arguments: pieces separated by whitespace or `-`.
pub open spec fn arg_words(s: Seq<char>) -> Seq<Seq<char>> {
    tokens(s, ws_or_dash_sep())
}

/// Splits `s` into tokens; `dash` also makes `-` a separator.
pub fn split_tokens(s: &Vec<char>, dash: bool) -> (r: Vec<Vec<char>>)
    ensures
        views(r@) == tokens(
            s@,
            if dash {
                ws_or_dash_sep()
            } else {
                ws_sep()
            },
        ),
{
    let ghost sep = if dash {
        ws_or_dash_sep()
    } else {
        ws_sep()
    };
    let mut done: Vec<Vec<char>> = Vec::new();
    let mut cur: Vec<char> = Vec::new();
    let mut i: usize = 0;
    assert(s@.take(0) =~= Seq::<char>::empty());
    while i < s.len()
        invariant
            i <= s@.len(),
            sep == (if dash {
                ws_or_dash_sep()
            } else {
                ws_sep()
            }),
            (views(done@), cur@) == token_state(s@.take(i as int), sep),
        decreases s@.len() - i,
    {
        let c = s[i];
        assert(s@.take(i + 1).drop_last() =~= s@.take(i as int));
        assert(s@.take(i + 1).last() == c);
        if is_sep(c, dash) {
            if cur.len() > 0 {
                let ghost old_done = done@;
                done.push(cur);
                assert(views(done@) =~= views(old_done).push(cur@));
                cur = Vec::new();
            }
        } else {
            cur.push(c);
        }
        i = i + 1;
    }
    assert(s@.take(s@.len() as int) =~= s@);
    if cur.len() > 0 {
        let ghost old_done = done@;
        done.push(cur);
        assert(views(done@) =~= views(old_done).push(cur@));
    }
    done
}

/// Scanning state of a split on `'\n'` that keeps empty pieces.
pub open spec fn line_state(s: Seq<char>) -> (Seq<Seq<char>>, Seq<char>)
    decreases s.len(),
{
    if s.len() == 0 {
        (Seq::empty(), Seq::empty())
    } else {
        let st = line_state(s.drop_last());
        if s.last() == '\n' {
            (st.0.push(st.1), Seq::empty())
        } else {
            (st.0, st.1.push(s.last()))
        }
    }
}

/// The pieces of `s` between newlines, the last one included even if empty.
/// A `'\r'` before a newline stays in its piece; every use of a line trims it,
/// and every use skips lines that are empty once cleaned, so these pieces are
/// read exactly as `str::lines` reads the text.
pub open spec fn lines(s: Seq<char>) -> Seq<Seq<char>> {
    let st = line_state(s);
    st.0.push(st.1)
}

pub fn split_lines(s: &Vec<char>) -> (r: Vec<Vec<char>>)
    ensures
        views(r@) == lines(s@),
{
    let mut done: Vec<Vec<char>> = Vec::new();
    let mut cur: Vec<char> = Vec::new();
    let mut i: usize = 0;
    assert(s@.take(0) =~= Seq::<char>::empty());
    while i < s.len()
        invariant
            i <= s@.len(),
            (views(done@), cur@) == line_state(s@.take(i as int)),
        decreases s@.len() - i,
    {
        let c = s[i];
        assert(s@.take(i + 1).drop_last() =~= s@.take(i as int));
        assert(s@.take(i + 1).last() == c);
        if c == '\n' {
            let ghost old_done = done@;
            done.push(cur);
            assert(views(done@) =~= views(old_done).push(cur@));
            cur = Vec::new();
        } else {
            cur.push(c);
        }
        i = i + 1;
    }
    assert(s@.take(s@.len() as int) =~= s@);
    let ghost old_done = done@;
    done.push(cur);
    assert(views(done@) =~= views(old_done).push(cur@));
    done
}

// ---------------------------------------------------------------------------
// Decimal numbers
// ---------------------------------------------------------------------------

pub open spec fn is_digit(c: char) -> bool {
    48 <= (c as u32) <= 57
}

pub open spec fn digit_value(c: char) -> nat {
    ((c as u32) - 48) as nat
}

pub open spec fn all_digits(s: Seq<char>) -> bool {
    forall|i: int| 0 <= i < s.len() ==> is_digit(s[i])
}

/// The number that a string of decimal digits denotes.
pub open spec fn digits_value(s: Seq<char>) -> nat
    decreases s.len(),
{
    if s.len() == 0 {
        0
    } else {
        digits_value(s.drop_last()) * 10 + digit_value(s.last())
    }
}

/// `u64::from_str`: an optional `+`, then one or more decimal digits whose
/// value fits in a `u64`.
pub open spec fn parse_u64(s: Seq<char>) -> Option<u64> {
    let d = if s.len() > 0 && s[0] == '+' {
        s.drop_first()
    } else {
        s
    };
    if d.len() > 0 && all_digits(d) && digits_value(d) <= u64::MAX {
        Some(digits_value(d) as u64)
    } else {
        None
    }
}

proof fn lemma_digits_value_prefix(s: Seq<char>, k: int)
    requires
        0 <= k <= s.len(),
    ensures
        digits_value(s.take(k)) <= digits_value(s),
    decreases s.len(),
{
    if k < s.len() {
        assert(s.drop_last().take(k) =~= s.take(k));
        lemma_digits_value_prefix(s.drop_last(), k);
    } else {
        assert(s.take(k) =~= s);
    }
}

pub fn parse_u64_chars(s: &Vec<char>) -> (r: Option<u64>)
    ensures
        r == parse_u64(s@),
{
    let start: usize = if s.len() > 0 && s[0] == '+' {
        1
    } else {
        0
    };
    let ghost d = if s@.len() > 0 && s@[0] == '+' {
        s@.drop_first()
    } else {
        s@
    };
    assert(d =~= s@.skip(start as int));
    if start == s.len() {
        return None;
    }
    let mut acc: u64 = 0;
    let mut i: usize = start;
    assert(d.take(0) =~= Seq::<char>::empty());
    while i < s.len()
        invariant
            start <= i <= s@.len(),
            d == s@.skip(start as int),
            d == (if s@.len() > 0 && s@[0] == '+' {
                s@.drop_first()
            } else {
                s@
            }),
            d.len() > 0,
            all_digits(d.take(i - start)),
            acc == digits_value(d.take(i - start)),
        decreases s@.len() - i,
    {
        let c = s[i];
        let u = c as u32;
        if u < 48 || u > 57 {
            assert(d[i - start] == c);
            assert(!is_digit(d[i - start as int]));
            assert(!all_digits(d));
            return None;
        }
        let dv: u64 = (u - 48) as u64;
        let ghost pre = d.take(i - start);
        let ghost next = d.take(i - start + 1);
        assert(next.drop_last() =~= pre);
        assert(next.last() == c);
        if acc > (u64::MAX - dv) / 10 {
            assert(acc * 10 + dv > u64::MAX) by (nonlinear_arith)
                requires
                    acc > (u64::MAX - dv) / 10,
                    dv <= 9,
            ;
            assert(digits_value(next) == acc * 10 + dv);
            proof {
                lemma_digits_value_prefix(d, i - start + 1);
            }
            assert(digits_value(d) > u64::MAX);
            return None;
        }
        assert(acc * 10 + dv <= u64::MAX) by (nonlinear_arith)
            requires
                acc <= (u64::MAX - dv) / 10,
                dv <= 9,
        ;
        acc = acc * 10 + dv;
        i = i + 1;
        assert forall|j: int| 0 <= j < next.len() implies is_digit(next[j]) by {
            if j < pre.len() {
                assert(next[j] == pre[j]);
            }
        }
    }
    assert(d.take(s@.len() - start) =~= d);
    Some(acc)
}

pub open spec fn digit_char(d: nat) -> char {
    (d + 48) as char
}

/// The decimal digits of `n`, as `to_string` writes them.
pub open spec fn decimal(n: nat) -> Seq<char>
    decreases n,
{
    if n < 10 {
        seq![digit_char(n)]
    } else {
        decimal(n / 10).push(digit_char(n % 10))
    }
}

/// Appends the decimal digits of `n` to `out`.
pub fn push_decimal(out: &mut Vec<char>, n: u64)
    ensures
        final(out)@ == old(out)@ + decimal(n as nat),
    decreases n,
{
    if n >= 10 {
        push_decimal(out, n / 10);
    }
    let d: u8 = (n % 10) as u8;
    let c = (d + 48) as char;
    assert(c == digit_char((n % 10) as nat));
    out.push(c);
    proof {
        if n >= 10 {
            assert(decimal(n as nat) == decimal((n / 10) as nat).push(digit_char((n % 10) as nat)));
        }
    }
    assert(final(out)@ =~= old(out)@ + decimal(n as nat));
}

// ---------------------------------------------------------------------------
// Facts about trimmed text
// ---------------------------------------------------------------------------

proof fn lemma_trim_start_first(s: Seq<char>)
    ensures
        trim_start(s).len() > 0 ==> !is_ws(trim_start(s)[0]),
    decreases s.len(),
{
    if s.len() > 0 && is_ws(s[0]) {
        lemma_trim_start_first(s.drop_first());
    }
}

proof fn lemma_trim_end_first(s: Seq<char>)
    requires
        s.len() > 0,
        !is_ws(s[0]),
    ensures
        trim_end(s).len() > 0,
        trim_end(s)[0] == s[0],
    decreases s.len(),
{
    if is_ws(s.last()) {
        assert(s.len() >= 2);
        lemma_trim_end_first(s.drop_last());
    }
}

proof fn lemma_tokens_nonempty(s: Seq<char>, sep: spec_fn(char) -> bool)
    requires
        s.len() > 0,
        !sep(s[0]),
    ensures
        token_state(s, sep).0.len() > 0 || token_state(s, sep).1.len() > 0,
        tokens(s, sep).len() > 0,
    decreases s.len(),
{
    if s.len() > 1 {
        lemma_tokens_nonempty(s.drop_last(), sep);
    }
}

/// Trimmed text that is not empty has at least one word.
pub proof fn lemma_trimmed_has_word(x: Seq<char>)
    requires
        trim(x).len() > 0,
    ensures
        words(trim(x)).len() > 0,
{
    lemma_trim_start_first(x);
    if trim_start(x).len() == 0 {
        assert(trim(x) == trim_start(x));
    }
    lemma_trim_end_first(trim_start(x));
    lemma_tokens_nonempty(trim(x), ws_sep());
}

/// Splitting on newlines gives at most one more piece than there are
/// characters.
pub proof fn lemma_lines_len(s: Seq<char>)
    ensures
        lines(s).len() <= s.len() + 1,
{
    lemma_line_state_len(s);
}

proof fn lemma_line_state_len(s: Seq<char>)
    ensures
        line_state(s).0.len() <= s.len(),
    decreases s.len(),
{
    if s.len() > 0 {
        lemma_line_state_len(s.drop_last());
    }
}

// ---------------------------------------------------------------------------
// Facts about splitting
// ---------------------------------------------------------------------------

/// Scanning `a + b` after `a` left no token in progress: the tokens of `a`,
/// then those of `b`.
pub(crate) proof fn lemma_token_state_append(a: Seq<char>, b: Seq<char>, sep: spec_fn(char) -> bool)
    requires
        token_state(a, sep).1.len() == 0,
    ensures
        token_state(a + b, sep) == (token_state(a, sep).0 + token_state(b, sep).0, token_state(
            b,
            sep,
        ).1),
    decreases b.len(),
{
    if b.len() == 0 {
        assert(a + b =~= a);
        assert(token_state(a, sep).0 + Seq::<Seq<char>>::empty() =~= token_state(a, sep).0);
    } else {
        assert((a + b).drop_last() =~= a + b.drop_last());
        assert((a + b).last() == b.last());
        lemma_token_state_append(a, b.drop_last(), sep);
        let x = token_state(a, sep).0;
        let y = token_state(b.drop_last(), sep).0;
        assert((x + y).push(token_state(b.drop_last(), sep).1) =~= x + y.push(
            token_state(b.drop_last(), sep).1,
        ));
    }
}

/// Text without separators is one token in progress.
pub(crate) proof fn lemma_token_state_plain(s: Seq<char>, sep: spec_fn(char) -> bool)
    requires
        forall|i: int| 0 <= i < s.len() ==> !sep(s[i]),
    ensures
        token_state(s, sep) == (Seq::<Seq<char>>::empty(), s),
    decreases s.len(),
{
    if s.len() > 0 {
        lemma_token_state_plain(s.drop_last(), sep);
        assert(s.drop_last().push(s.last()) =~= s);
    }
}

/// Whitespace separates tokens for `sep`.
pub open spec fn splits_on_ws(sep: spec_fn(char) -> bool) -> bool {
    forall|c: char| is_ws(c) ==> #[trigger] sep(c)
}

proof fn lemma_tokens_trim_start(x: Seq<char>, sep: spec_fn(char) -> bool)
    requires
        splits_on_ws(sep),
    ensures
        tokens(trim_start(x), sep) == tokens(x, sep),
    decreases x.len(),
{
    if x.len() > 0 && is_ws(x[0]) {
        lemma_tokens_trim_start(x.drop_first(), sep);
        let c = seq![x[0]];
        assert(c.drop_last() =~= Seq::<char>::empty());
        assert(c.last() == x[0]);
        assert(sep(x[0]));
        assert(token_state(c.drop_last(), sep) == token_state(Seq::<char>::empty(), sep));
        assert(token_state(c, sep) == (Seq::<Seq<char>>::empty(), Seq::<char>::empty()));
        lemma_token_state_append(c, x.drop_first(), sep);
        assert(c + x.drop_first() =~= x);
        assert(Seq::<Seq<char>>::empty() + token_state(x.drop_first(), sep).0 =~= token_state(
            x.drop_first(),
            sep,
        ).0);
    }
}

proof fn lemma_tokens_trim_end(x: Seq<char>, sep: spec_fn(char) -> bool)
    requires
        splits_on_ws(sep),
    ensures
        tokens(trim_end(x), sep) == tokens(x, sep),
    decreases x.len(),
{
    if x.len() > 0 && is_ws(x.last()) {
        assert(sep(x.last()));
        lemma_tokens_trim_end(x.drop_last(), sep);
    }
}

/// Trimming does not change the tokens, when whitespace separates them.
pub proof fn lemma_tokens_trim(x: Seq<char>, sep: spec_fn(char) -> bool)
    requires
        splits_on_ws(sep),
    ensures
        tokens(trim(x), sep) == tokens(x, sep),
{
    lemma_tokens_trim_end(trim_start(x), sep);
    lemma_tokens_trim_start(x, sep);
}

proof fn lemma_words_trim(x: Seq<char>)
    ensures
        words(trim(x)) == words(x),
{
    assert(splits_on_ws(ws_sep()));
    lemma_tokens_trim(x, ws_sep());
}

/// The words of a text that starts with a non-space: its keyword, then the
/// words of the rest.
pub proof fn lemma_words_split(t: Seq<char>)
    requires
        t.len() > 0,
        !is_ws(t[0]),
    ensures
        words(t) == seq![keyword(t)] + words(rest_of(t)),
{
    let k = find_first(t, ws_sep());
    lemma_find_first_bounds(t, ws_sep());
    if k < t.len() {
        let head = t.take(k + 1);
        assert(head.drop_last() =~= t.take(k));
        lemma_token_state_plain(t.take(k), ws_sep());
        assert(k > 0);
        assert(token_state(head, ws_sep()) == (seq![t.take(k)], Seq::<char>::empty()));
        lemma_token_state_append(head, t.skip(k + 1), ws_sep());
        assert(head + t.skip(k + 1) =~= t);
        lemma_words_trim(t.skip(k + 1));
        let st = token_state(t.skip(k + 1), ws_sep());
        if st.1.len() > 0 {
            assert((seq![t.take(k)] + st.0).push(st.1) =~= seq![t.take(k)] + st.0.push(st.1));
        }
    } else {
        assert(t.take(k) =~= t);
        lemma_token_state_plain(t, ws_sep());
        assert(rest_of(t) == Seq::<char>::empty());
        assert(token_state(Seq::<char>::empty(), ws_sep()).0 =~= Seq::<Seq<char>>::empty());
        assert(words(Seq::<char>::empty()) =~= Seq::<Seq<char>>::empty());
        assert(seq![keyword(t)] + Seq::<Seq<char>>::empty() =~= seq![t]);
    }
}

/// The words of empty text: none.
pub proof fn lemma_words_empty()
    ensures
        words(Seq::<char>::empty()) == Seq::<Seq<char>>::empty(),
{
}

// ---------------------------------------------------------------------------
// Facts about cleaned lines
// ---------------------------------------------------------------------------

pub open spec fn no_semi(s: Seq<char>) -> bool {
    forall|i: int| 0 <= i < s.len() ==> s[i] != ';'
}

proof fn lemma_trim_keeps_no_semi(s: Seq<char>)
    requires
        no_semi(s),
    ensures
        no_semi(trim_start(s)),
        no_semi(trim_end(s)),
    decreases s.len(),
{
    if s.len() > 0 && is_ws(s[0]) {
        lemma_trim_keeps_no_semi(s.drop_first());
    }
    if s.len() > 0 && is_ws(s.last()) {
        lemma_trim_keeps_no_semi(s.drop_last());
    }
}

proof fn lemma_trim_end_last(s: Seq<char>)
    ensures
        trim_end(s).len() > 0 ==> !is_ws(trim_end(s).last()),
    decreases s.len(),
{
    if s.len() > 0 && is_ws(s.last()) {
        lemma_trim_end_last(s.drop_last());
    }
}

/// Trimmed text starts and ends with non-spaces, so trimming it again
/// changes nothing.
proof fn lemma_trim_idempotent(x: Seq<char>)
    ensures
        trim(trim(x)) == trim(x),
        trim(x).len() > 0 ==> !is_ws(trim(x)[0]),
{
    let y = trim(x);
    lemma_trim_start_first(x);
    lemma_trim_end_last(trim_start(x));
    if y.len() > 0 {
        if trim_start(x).len() == 0 {
            assert(y == trim_start(x));
        }
        lemma_trim_end_first(trim_start(x));
        assert(trim_start(y) == y);
        assert(trim_end(y) == y);
    } else {
        assert(trim_start(y) == y);
    }
}

/// A cleaned line has no comment left and is trimmed: cleaning it again, as
/// a single line is cleaned, gives it back.
pub proof fn lemma_clean_stable(raw: Seq<char>)
    ensures
        trim(before_comment(clean(raw))) == clean(raw),
        clean(raw).len() > 0 ==> !is_ws(clean(raw)[0]),
{
    let b = before_comment(trim(raw));
    lemma_find_first_bounds(trim(raw), semi_sep());
    assert(no_semi(b));
    lemma_trim_keeps_no_semi(b);
    lemma_trim_keeps_no_semi(trim_start(b));
    let t = clean(raw);
    assert(no_semi(t));
    lemma_find_first(t, semi_sep(), t.len() as int);
    assert(before_comment(t) =~= t);
    lemma_trim_idempotent(b);
}

/// Cleaning a cleaned line changes nothing.
pub proof fn lemma_clean_idempotent(raw: Seq<char>)
    ensures
        clean(clean(raw)) == clean(raw),
{
    lemma_clean_stable(raw);
    lemma_trim_idempotent(before_comment(trim(raw)));
}

// ---------------------------------------------------------------------------
// Tokens of words
// ---------------------------------------------------------------------------

pub proof fn lemma_trim_len(s: Seq<char>)
    ensures
        trim_start(s).len() <= s.len(),
        trim_end(s).len() <= s.len(),
        trim(s).len() <= s.len(),
    decreases s.len(),
{
    if s.len() > 0 {
        lemma_trim_len(s.drop_first());
        lemma_trim_len(s.drop_last());
    }
    assert(trim_end(trim_start(s)).len() <= trim_start(s).len()) by {
        lemma_trim_len_end(trim_start(s));
    }
}

proof fn lemma_trim_len_end(s: Seq<char>)
    ensures
        trim_end(s).len() <= s.len(),
    decreases s.len(),
{
    if s.len() > 0 {
        lemma_trim_len_end(s.drop_last());
    }
}

/// The tokens of a text: those of its keyword, then those of the rest, when
/// whitespace separates tokens.
pub proof fn lemma_tokens_split(t: Seq<char>, sep: spec_fn(char) -> bool)
    requires
        splits_on_ws(sep),
    ensures
        tokens(t, sep) == tokens(keyword(t), sep) + tokens(rest_of(t), sep),
{
    let k = find_first(t, ws_sep());
    lemma_find_first_bounds(t, ws_sep());
    if k < t.len() {
        let head = t.take(k + 1);
        assert(head.drop_last() =~= t.take(k));
        assert(sep(t[k]));
        assert(head.last() == t[k]);
        assert(token_state(head, sep) == (tokens(t.take(k), sep), Seq::<char>::empty()));
        lemma_token_state_append(head, t.skip(k + 1), sep);
        assert(head + t.skip(k + 1) =~= t);
        lemma_tokens_trim(t.skip(k + 1), sep);
        let st = token_state(t.skip(k + 1), sep);
        if st.1.len() > 0 {
            assert((tokens(t.take(k), sep) + st.0).push(st.1) =~= tokens(t.take(k), sep)
                + st.0.push(st.1));
        }
    } else {
        assert(t.take(k) =~= t);
        assert(rest_of(t) == Seq::<char>::empty());
        assert(tokens(Seq::<char>::empty(), sep) =~= Seq::<Seq<char>>::empty());
        assert(tokens(t, sep) + Seq::<Seq<char>>::empty() =~= tokens(t, sep));
    }
}

/// The tokens of each of some pieces, one after another.
pub open spec fn flat_tokens(w: Seq<Seq<char>>, sep: spec_fn(char) -> bool) -> Seq<Seq<char>>
    decreases w.len(),
{
    if w.len() == 0 {
        Seq::empty()
    } else {
        flat_tokens(w.drop_last(), sep) + tokens(w.last(), sep)
    }
}

proof fn lemma_flat_tokens_prepend(k: Seq<char>, w: Seq<Seq<char>>, sep: spec_fn(char) -> bool)
    ensures
        flat_tokens(seq![k] + w, sep) == tokens(k, sep) + flat_tokens(w, sep),
    decreases w.len(),
{
    if w.len() == 0 {
        assert(seq![k] + w =~= seq![k]);
        assert(seq![k].drop_last() =~= Seq::<Seq<char>>::empty());
        assert(seq![k].last() == k);
        assert(flat_tokens(w, sep) == Seq::<Seq<char>>::empty());
        assert(flat_tokens(Seq::<Seq<char>>::empty(), sep) == Seq::<Seq<char>>::empty());
        assert(tokens(k, sep) + Seq::<Seq<char>>::empty() =~= tokens(k, sep));
        assert(Seq::<Seq<char>>::empty() + tokens(k, sep) =~= tokens(k, sep));
    } else {
        assert((seq![k] + w).drop_last() =~= seq![k] + w.drop_last());
        assert((seq![k] + w).last() == w.last());
        lemma_flat_tokens_prepend(k, w.drop_last(), sep);
        assert(tokens(k, sep) + flat_tokens(w.drop_last(), sep) + tokens(w.last(), sep)
            =~= tokens(k, sep) + (flat_tokens(w.drop_last(), sep) + tokens(w.last(), sep)));
    }
}

/// Splitting a text into tokens is splitting each of its words, when
/// whitespace separates tokens.
pub proof fn lemma_tokens_of_words(x: Seq<char>, sep: spec_fn(char) -> bool)
    requires
        splits_on_ws(sep),
    ensures
        tokens(x, sep) == flat_tokens(words(x), sep),
    decreases x.len(),
{
    let t = trim(x);
    lemma_tokens_trim(x, sep);
    lemma_words_trim(x);
    lemma_trim_len(x);
    if t.len() == 0 {
        assert(t =~= Seq::<char>::empty());
        assert(tokens(t, sep) =~= Seq::<Seq<char>>::empty());
        assert(words(t) =~= Seq::<Seq<char>>::empty());
    } else {
        lemma_trim_idempotent(x);
        lemma_words_split(t);
        lemma_tokens_split(t, sep);
        let k = find_first(t, ws_sep());
        lemma_find_first_bounds(t, ws_sep());
        let r = rest_of(t);
        if k < t.len() {
            lemma_trim_len(t.skip(k + 1));
        }
        assert(r.len() < x.len());
        lemma_tokens_of_words(r, sep);
        lemma_flat_tokens_prepend(keyword(t), words(r), sep);
    }
}

/// Each token is non-empty, holds no separator, and holds only characters
/// with a property that every character of the text has.
pub proof fn lemma_token_chars(s: Seq<char>, sep: spec_fn(char) -> bool, p: spec_fn(char) -> bool)
    requires
        forall|i: int| 0 <= i < s.len() ==> p(#[trigger] s[i]),
    ensures
        forall|j: int|
            0 <= j < tokens(s, sep).len() ==> #[trigger] tokens(s, sep)[j].len() > 0,
        forall|j: int, i: int|
            0 <= j < tokens(s, sep).len() && 0 <= i < tokens(s, sep)[j].len() ==> p(
                #[trigger] tokens(s, sep)[j][i],
            ) && !sep(tokens(s, sep)[j][i]),
    decreases s.len(),
{
    lemma_token_state_chars(s, sep, p);
}

proof fn lemma_token_state_chars(s: Seq<char>, sep: spec_fn(char) -> bool, p: spec_fn(char) -> bool)
    requires
        forall|i: int| 0 <= i < s.len() ==> p(#[trigger] s[i]),
    ensures
        ({
            let st = token_state(s, sep);
            &&& forall|j: int| 0 <= j < st.0.len() ==> #[trigger] st.0[j].len() > 0
            &&& forall|j: int, i: int|
                0 <= j < st.0.len() && 0 <= i < st.0[j].len() ==> p(#[trigger] st.0[j][i])
                    && !sep(st.0[j][i])
            &&& forall|i: int| 0 <= i < st.1.len() ==> p(#[trigger] st.1[i]) && !sep(st.1[i])
        }),
        forall|j: int| 0 <= j < tokens(s, sep).len() ==> #[trigger] tokens(s, sep)[j].len() > 0,
        forall|j: int, i: int|
            0 <= j < tokens(s, sep).len() && 0 <= i < tokens(s, sep)[j].len() ==> p(
                #[trigger] tokens(s, sep)[j][i],
            ) && !sep(tokens(s, sep)[j][i]),
    decreases s.len(),
{
    if s.len() > 0 {
        assert forall|i: int| 0 <= i < s.drop_last().len() implies p(
            #[trigger] s.drop_last()[i],
        ) by {
            assert(s.drop_last()[i] == s[i]);
        }
        lemma_token_state_chars(s.drop_last(), sep, p);
        assert(p(s[s.len() - 1]));
        let prev = token_state(s.drop_last(), sep);
        let c = s.last();
        let st = token_state(s, sep);
        if sep(c) {
            if prev.1.len() > 0 {
                assert(st.0 == prev.0.push(prev.1));
                assert forall|j: int, i: int|
                    0 <= j < st.0.len() && 0 <= i < st.0[j].len() implies p(
                        #[trigger] st.0[j][i],
                    ) && !sep(st.0[j][i]) by {
                    if j < prev.0.len() {
                        assert(st.0[j] == prev.0[j]);
                    } else {
                        assert(st.0[j] == prev.1);
                    }
                }
                assert forall|j: int| 0 <= j < st.0.len() implies #[trigger] st.0[j].len() > 0 by {
                    if j < prev.0.len() {
                        assert(st.0[j] == prev.0[j]);
                    }
                }
            }
        } else {
            assert(st.1 == prev.1.push(c));
            assert forall|i: int| 0 <= i < st.1.len() implies p(#[trigger] st.1[i]) && !sep(
                st.1[i],
            ) by {
                if i < prev.1.len() {
                    assert(st.1[i] == prev.1[i]);
                }
            }
        }
    }
    let st = token_state(s, sep);
    if st.1.len() > 0 {
        let t = tokens(s, sep);
        assert forall|j: int, i: int|
            0 <= j < t.len() && 0 <= i < t[j].len() implies p(#[trigger] t[j][i]) && !sep(
                t[j][i],
            ) by {
            if j < st.0.len() {
                assert(t[j] == st.0[j]);
            } else {
                assert(t[j] == st.1);
            }
        }
        assert forall|j: int| 0 <= j < t.len() implies #[trigger] t[j].len() > 0 by {
            if j < st.0.len() {
                assert(t[j] == st.0[j]);
            }
        }
    }
}

// ---------------------------------------------------------------------------
// Cutting the comment before or after trimming
// ---------------------------------------------------------------------------

proof fn lemma_cut_leading_ws(y: Seq<char>)
    requires
        y.len() > 0,
        is_ws(y[0]),
    ensures
        trim(before_comment(y)) == trim(before_comment(y.drop_first())),
        trim(y) == trim(y.drop_first()),
{
    let z = y.drop_first();
    assert(!semi_sep()(y[0]));
    assert(find_first(y, semi_sep()) == 1 + find_first(z, semi_sep()));
    lemma_find_first_bounds(z, semi_sep());
    let b = before_comment(y);
    assert(b.len() > 0 && b[0] == y[0]);
    assert(b.drop_first() =~= before_comment(z));
    assert(trim_start(b) == trim_start(before_comment(z)));
    assert(trim_start(y) == trim_start(z));
}

proof fn lemma_trim_drop_trailing_ws(x: Seq<char>)
    requires
        x.len() > 0,
        is_ws(x.last()),
    ensures
        trim(x) == trim(x.drop_last()),
    decreases x.len(),
{
    if x.len() == 1 {
        assert(x.drop_first() =~= Seq::<char>::empty());
        assert(x.drop_last() =~= Seq::<char>::empty());
        assert(trim_start(x) == trim_start(Seq::<char>::empty()));
    } else if is_ws(x[0]) {
        let y = x.drop_first();
        assert(y.last() == x.last());
        lemma_trim_drop_trailing_ws(y);
        assert(x.drop_last().drop_first() =~= y.drop_last());
        assert(x.drop_last()[0] == x[0]);
        assert(trim_start(x) == trim_start(y));
        assert(trim_start(x.drop_last()) == trim_start(x.drop_last().drop_first()));
    } else {
        assert(x.drop_last()[0] == x[0]);
        assert(trim_start(x) == x);
        assert(trim_start(x.drop_last()) == x.drop_last());
    }
}

proof fn lemma_cut_trailing_ws(x: Seq<char>)
    requires
        x.len() > 0,
        is_ws(x.last()),
    ensures
        trim(before_comment(x)) == trim(before_comment(x.drop_last())),
{
    let y = x.drop_last();
    let f = find_first(y, semi_sep());
    lemma_find_first_bounds(y, semi_sep());
    assert forall|j: int| 0 <= j < f implies !semi_sep()(#[trigger] x[j]) by {
        assert(x[j] == y[j]);
    }
    if f < y.len() {
        assert(x[f] == y[f]);
        lemma_find_first(x, semi_sep(), f);
        assert(before_comment(x) =~= before_comment(y));
    } else {
        assert(!semi_sep()(x[x.len() - 1]));
        assert forall|j: int| 0 <= j < x.len() implies !semi_sep()(#[trigger] x[j]) by {
            if j < y.len() {
                assert(x[j] == y[j]);
            }
        }
        lemma_find_first(x, semi_sep(), x.len() as int);
        assert(before_comment(x) =~= x);
        assert(before_comment(y) =~= y);
        lemma_trim_drop_trailing_ws(x);
    }
}

proof fn lemma_cut_trim_start(raw: Seq<char>)
    ensures
        trim(before_comment(raw)) == trim(before_comment(trim_start(raw))),
    decreases raw.len(),
{
    if raw.len() > 0 && is_ws(raw[0]) {
        lemma_cut_leading_ws(raw);
        lemma_cut_trim_start(raw.drop_first());
    }
}

proof fn lemma_cut_trim_end(x: Seq<char>)
    ensures
        trim(before_comment(x)) == trim(before_comment(trim_end(x))),
    decreases x.len(),
{
    if x.len() > 0 && is_ws(x.last()) {
        lemma_cut_trailing_ws(x);
        lemma_cut_trim_end(x.drop_last());
    }
}

/// Cutting the comment off and trimming gives the cleaned line, whether the
/// line was trimmed first or not.
pub proof fn lemma_cut_then_trim(raw: Seq<char>)
    ensures
        trim(before_comment(raw)) == clean(raw),
{
    lemma_cut_trim_start(raw);
    lemma_cut_trim_end(trim_start(raw));
}

/// A line that starts with a character that is neither whitespace nor `;`
/// keeps something once its comment is cut off and it is trimmed.
pub proof fn lemma_line_has_content(l: Seq<char>)
    requires
        l.len() > 0,
        !is_ws(l[0]),
        l[0] != ';',
    ensures
        trim(before_comment(l)).len() > 0,
{
    let f = find_first(l, semi_sep());
    assert(!semi_sep()(l[0]));
    assert(f == 1 + find_first(l.drop_first(), semi_sep()));
    lemma_find_first_bounds(l.drop_first(), semi_sep());
    let b = before_comment(l);
    assert(b.len() > 0 && b[0] == l[0]);
    assert(trim_start(b) == b);
    lemma_trim_end_first(b);
}

} // verus!
