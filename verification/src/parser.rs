//! The textual-format parser: stock declarations (`name:qty`),
//! process declarations (`name:(needs):(results):duration`, either
//! list optional), and one optimization declaration
//! (`optimize:(stock)` or `optimize:(time;stock)`).
//!
//! Names accept ASCII letters and `_` (stocks) or ASCII letters,
//! digits and `_` (processes).  Lines beginning with `#` are comments.
//! The parsed values are pinned exactly by a character-level model;
//! error messages are diagnostic text only.

use vstd::prelude::*;
use crate::domain::Optimize;
use crate::domain::Process;
use crate::domain::Spec;
use crate::domain::Stock;

verus! {

// ----------------------------------------------------------------
// The character-level model
// ----------------------------------------------------------------
/// One parsed stock entry.
pub struct ParsedStockM {
    pub name: Seq<char>,
    pub qty: i64,
}

/// One parsed process declaration.
pub struct ParsedProcM {
    pub name: Seq<char>,
    pub needs: Seq<ParsedStockM>,
    pub results: Seq<ParsedStockM>,
    pub duration: i64,
}

/// Everything gathered while reading a file.
pub struct ParseStateM {
    pub procs: Seq<ParsedProcM>,
    pub stocks: Seq<ParsedStockM>,
    pub goal: Option<(bool, Seq<char>)>,
}

pub open spec fn is_alpha_char(c: char) -> bool {
    ('a' <= c && c <= 'z') || ('A' <= c && c <= 'Z') || c == '_'
}

pub open spec fn is_digit_char(c: char) -> bool {
    '0' <= c && c <= '9'
}

pub open spec fn is_alnum_char(c: char) -> bool {
    is_alpha_char(c) || is_digit_char(c)
}

pub open spec fn all_stock_name_chars(s: Seq<char>) -> bool {
    forall|i: int| 0 <= i < s.len() ==> is_alpha_char(#[trigger] s[i])
}

pub open spec fn all_proc_name_chars(s: Seq<char>) -> bool {
    forall|i: int| 0 <= i < s.len() ==> is_alnum_char(#[trigger] s[i])
}

/// The first position of `c` at or after `i`, or the length when
/// absent.
pub open spec fn find_from(s: Seq<char>, i: int, c: char) -> int
    decreases s.len() - i,
{
    if i < 0 || i >= s.len() {
        s.len() as int
    } else if s[i] == c {
        i
    } else {
        find_from(s, i + 1, c)
    }
}

/// The last position of `c`, or `-1` when absent.
pub open spec fn rfind_char(s: Seq<char>, c: char) -> int
    decreases s.len(),
{
    if s.len() == 0 {
        -1
    } else if s[s.len() - 1] == c {
        s.len() - 1
    } else {
        rfind_char(s.drop_last(), c)
    }
}

/// How many times `c` occurs at or after `i`.
pub open spec fn count_from(s: Seq<char>, i: int, c: char) -> int
    decreases s.len() - i,
{
    if i < 0 || i >= s.len() {
        0
    } else if s[i] == c {
        1 + count_from(s, i + 1, c)
    } else {
        count_from(s, i + 1, c)
    }
}

/// The value of the first `j` digit characters.
pub open spec fn digits_val(s: Seq<char>, j: int) -> int
    decreases j,
{
    if j <= 0 {
        0
    } else {
        digits_val(s, j - 1) * 10 + (s[j - 1] as int - '0' as int)
    }
}

/// The digits of a signed number, after any sign character.
pub open spec fn num_body(s: Seq<char>) -> Seq<char> {
    if s.len() > 0 && (s[0] == '-' || s[0] == '+') {
        s.drop_first()
    } else {
        s
    }
}

/// Whether a signed number carries a minus sign.
pub open spec fn num_negative(s: Seq<char>) -> bool {
    s.len() > 0 && s[0] == '-'
}

pub open spec fn all_digit_chars(s: Seq<char>) -> bool {
    forall|i: int| 0 <= i < s.len() ==> is_digit_char(#[trigger] s[i])
}

/// A decimal integer with an optional sign, rejected on any stray
/// character and on overflow of `i64`.
pub open spec fn parse_i64_spec(s: Seq<char>) -> Option<i64> {
    let body = num_body(s);
    if body.len() == 0 {
        None
    } else if !all_digit_chars(body) {
        None
    } else {
        let v = digits_val(body, body.len() as int);
        if num_negative(s) {
            if -v < i64::MIN {
                None
            } else {
                Some((-v) as i64)
            }
        } else {
            if v > i64::MAX {
                None
            } else {
                Some(v as i64)
            }
        }
    }
}

/// A stock entry `name:qty`: exactly one colon, a well-formed name,
/// and a quantity in range.
pub open spec fn parse_stock_spec(s: Seq<char>) -> Option<ParsedStockM> {
    let ci = find_from(s, 0, ':');
    if ci == s.len() {
        None
    } else {
        let name = s.subrange(0, ci);
        let qty_str = s.subrange(ci + 1, s.len() as int);
        if count_from(qty_str, 0, ':') > 0 {
            None
        } else if !all_stock_name_chars(name) {
            None
        } else {
            match parse_i64_spec(qty_str) {
                None => None,
                Some(q) => Some(ParsedStockM { name, qty: q }),
            }
        }
    }
}

/// A semicolon-separated stock list, one entry per piece; `cur` is
/// the piece read so far.
pub open spec fn parse_stock_list_spec(s: Seq<char>, cur: Seq<char>) -> Option<Seq<ParsedStockM>>
    decreases s.len(),
{
    if s.len() == 0 {
        match parse_stock_spec(cur) {
            None => None,
            Some(one) => Some(seq![one]),
        }
    } else if s[0] == ';' {
        match parse_stock_spec(cur) {
            None => None,
            Some(head) => match parse_stock_list_spec(s.drop_first(), Seq::empty()) {
                None => None,
                Some(tail) => Some(seq![head] + tail),
            },
        }
    } else {
        parse_stock_list_spec(s.drop_first(), cur.push(s[0]))
    }
}

/// A process declaration.  The part between the first colon and the
/// last colon holds one or two parenthesized stock lists: needs alone,
/// results alone (after an extra colon), or needs and results.
pub open spec fn parse_processes_spec(s: Seq<char>) -> Option<ParsedProcM> {
    let ci = find_from(s, 0, ':');
    if ci == s.len() {
        None
    } else {
        let name = s.subrange(0, ci);
        let rest0 = s.subrange(ci + 1, s.len() as int);
        if !all_proc_name_chars(name) {
            None
        } else {
            let di = rfind_char(rest0, ':');
            if di < 0 {
                None
            } else {
                let rest = rest0.subrange(0, di);
                let delay_str = rest0.subrange(di + 1, rest0.len() as int);
                match parse_i64_spec(delay_str) {
                    None => None,
                    Some(delay) => parse_process_body(name, rest, delay),
                }
            }
        }
    }
}

pub open spec fn parse_process_body(name: Seq<char>, rest: Seq<char>, delay: i64) -> Option<
    ParsedProcM,
> {
    let nb = count_from(rest, 0, '(');
    if nb == 2 {
        let pi = find_from(rest, 0, ')');
        if pi == rest.len() {
            None
        } else {
            let needs_str0 = rest.subrange(0, pi);
            let results_str0 = rest.subrange(pi + 1, rest.len() as int);
            if needs_str0.len() == 0 || needs_str0[0] != '(' {
                None
            } else if results_str0.len() < 3 || results_str0[0] != ':' || results_str0[1] != '('
                || results_str0[results_str0.len() - 1] != ')' {
                None
            } else {
                let needs_str = needs_str0.subrange(1, needs_str0.len() as int);
                let results_str = results_str0.subrange(2, results_str0.len() - 1);
                match parse_stock_list_spec(needs_str, Seq::empty()) {
                    None => None,
                    Some(needs) => match parse_stock_list_spec(results_str, Seq::empty()) {
                        None => None,
                        Some(results) => Some(ParsedProcM { name, needs, results, duration: delay }),
                    },
                }
            }
        }
    } else if nb == 1 {
        if rest.len() >= 2 && rest[0] == '(' && rest[rest.len() - 1] == ')' {
            let needs_str = rest.subrange(1, rest.len() - 1);
            match parse_stock_list_spec(needs_str, Seq::empty()) {
                None => None,
                Some(needs) => Some(ParsedProcM {
                    name,
                    needs,
                    results: Seq::empty(),
                    duration: delay,
                }),
            }
        } else if rest.len() >= 3 && rest[0] == ':' && rest[1] == '(' && rest[rest.len() - 1]
            == ')' {
            let results_str = rest.subrange(2, rest.len() - 1);
            match parse_stock_list_spec(results_str, Seq::empty()) {
                None => None,
                Some(results) => Some(ParsedProcM {
                    name,
                    needs: Seq::empty(),
                    results,
                    duration: delay,
                }),
            }
        } else {
            None
        }
    } else {
        None
    }
}

/// The optimization declaration: a parenthesized target, optionally
/// preceded by `time;`.
pub open spec fn parse_optimize_spec(s: Seq<char>) -> Option<(bool, Seq<char>)> {
    let ci = find_from(s, 0, ':');
    if ci == s.len() {
        None
    } else {
        let o0 = s.subrange(ci + 1, s.len() as int);
        if o0.len() < 2 || o0[0] != '(' || o0[o0.len() - 1] != ')' {
            None
        } else {
            let o = o0.subrange(1, o0.len() - 1);
            if count_from(o, 0, ';') > 1 {
                None
            } else {
                let si = find_from(o, 0, ';');
                if si == o.len() {
                    Some((false, o))
                } else {
                    let left = o.subrange(0, si);
                    let right = o.subrange(si + 1, o.len() as int);
                    if left == "time"@ {
                        Some((true, right))
                    } else {
                        None
                    }
                }
            }
        }
    }
}

pub open spec fn spec_starts_with(s: Seq<char>, p: Seq<char>) -> bool {
    s.len() >= p.len() && s.subrange(0, p.len() as int) == p
}

/// Dispatch for one line: comment, optimization, stock, or process.
pub open spec fn handle_line(line: Seq<char>, st: ParseStateM) -> Option<ParseStateM> {
    if line.len() > 0 && line[0] == '#' {
        Some(st)
    } else if spec_starts_with(line, "optimize"@) {
        match parse_optimize_spec(line) {
            None => None,
            Some(o) => if st.goal is Some {
                None
            } else {
                Some(ParseStateM { procs: st.procs, stocks: st.stocks, goal: Some(o) })
            },
        }
    } else if count_from(line, 0, '(') == 0 {
        match parse_stock_spec(line) {
            None => None,
            Some(one) => Some(
                ParseStateM { procs: st.procs, stocks: st.stocks.push(one), goal: st.goal },
            ),
        }
    } else {
        match parse_processes_spec(line) {
            None => None,
            Some(p) => Some(
                ParseStateM { procs: st.procs.push(p), stocks: st.stocks, goal: st.goal },
            ),
        }
    }
}

/// Drops one trailing carriage return, as line splitting does.
pub open spec fn strip_cr(line: Seq<char>) -> Seq<char> {
    if line.len() > 0 && line[line.len() - 1] == '\r' {
        line.drop_last()
    } else {
        line
    }
}

/// Reads the input character by character, cutting lines at newlines;
/// `cur` is the line read so far.  A final line without a newline is
/// handled too; a trailing newline does not produce an empty line.
pub open spec fn parse_chars(s: Seq<char>, cur: Seq<char>, st: ParseStateM) -> Option<ParseStateM>
    decreases s.len(),
{
    if s.len() == 0 {
        if cur.len() == 0 {
            Some(st)
        } else {
            handle_line(strip_cr(cur), st)
        }
    } else if s[0] == '\n' {
        match handle_line(strip_cr(cur), st) {
            None => None,
            Some(st2) => parse_chars(s.drop_first(), Seq::empty(), st2),
        }
    } else {
        parse_chars(s.drop_first(), cur.push(s[0]), st)
    }
}

pub open spec fn empty_parse_state() -> ParseStateM {
    ParseStateM { procs: Seq::empty(), stocks: Seq::empty(), goal: None }
}

/// The whole file: every line accepted, and exactly one optimization
/// declaration present.
pub open spec fn parse_spec_spec(input: Seq<char>) -> Option<ParseStateM> {
    match parse_chars(input, Seq::empty(), empty_parse_state()) {
        None => None,
        Some(st) => if st.goal is None {
            None
        } else {
            Some(st)
        },
    }
}

// ----------------------------------------------------------------
// Relating parsed values to the model
// ----------------------------------------------------------------
pub open spec fn stocks_match(v: Seq<Stock>, m: Seq<ParsedStockM>) -> bool {
    &&& v.len() == m.len()
    &&& forall|i: int|
        0 <= i < v.len() ==> ((#[trigger] v[i]).name@ == m[i].name && v[i].quantity == m[i].qty)
}

pub open spec fn proc_matches(p: Process, m: ParsedProcM, idx: int) -> bool {
    &&& p.id == idx
    &&& p.name@ == m.name
    &&& stocks_match(p.needs@, m.needs)
    &&& stocks_match(p.results@, m.results)
    &&& p.duration == m.duration
}

pub open spec fn goal_matches(o: Optimize, m: (bool, Seq<char>)) -> bool {
    &&& (o is Time <==> m.0)
    &&& o.spec_target_name() == m.1
}

pub open spec fn spec_matches(sp: Spec, st: ParseStateM) -> bool {
    &&& sp.processes@.len() == st.procs.len()
    &&& forall|p: int|
        0 <= p < st.procs.len() ==> proc_matches(#[trigger] sp.processes@[p], st.procs[p], p)
    &&& stocks_match(sp.init_stocks@, st.stocks)
    &&& st.goal is Some && goal_matches(sp.optimize, st.goal->0)
}

// ----------------------------------------------------------------
// Scanning helpers
// ----------------------------------------------------------------
proof fn lemma_find_from_at(s: Seq<char>, i: int, p: int, c: char)
    requires
        0 <= i <= p <= s.len(),
        forall|q: int| i <= q < p ==> s[q] != c,
        p < s.len() ==> s[p] == c,
    ensures
        find_from(s, i, c) == p,
    decreases p - i,
{
    if i < p {
        lemma_find_from_at(s, i + 1, p, c);
    }
}

proof fn lemma_find_from_props(s: Seq<char>, i: int, c: char)
    requires
        0 <= i <= s.len(),
    ensures
        i <= find_from(s, i, c) <= s.len(),
        find_from(s, i, c) < s.len() ==> s[find_from(s, i, c)] == c,
        forall|q: int| i <= q < find_from(s, i, c) ==> s[q] != c,
    decreases s.len() - i,
{
    if i < s.len() && s[i] != c {
        lemma_find_from_props(s, i + 1, c);
    }
}

proof fn lemma_rfind_at(s: Seq<char>, p: int, c: char)
    requires
        -1 <= p < s.len(),
        p >= 0 ==> s[p] == c,
        forall|q: int| p < q < s.len() ==> s[q] != c,
    ensures
        rfind_char(s, c) == p,
    decreases s.len(),
{
    if s.len() > 0 {
        if p == s.len() - 1 {
        } else {
            assert(s[s.len() - 1] != c);
            assert(forall|q: int| p < q < s.drop_last().len() ==> s.drop_last()[q] != c);
            lemma_rfind_at(s.drop_last(), p, c);
        }
    }
}

/// The position of the first `c` at or after `from`.
fn find_char_at(s: &str, from: usize, c: char) -> (r: usize)
    requires
        from <= s@.len(),
    ensures
        r as int == find_from(s@, from as int, c),
        from <= r <= s@.len(),
        r < s@.len() ==> s@[r as int] == c,
        forall|q: int| from <= q < r ==> s@[q] != c,
{
    let n = s.unicode_len();
    let mut e = from;
    while e < n && s.get_char(e) != c
        invariant
            from <= e <= n,
            n == s@.len(),
            forall|q: int| from <= q < e ==> s@[q] != c,
        decreases n - e,
    {
        e = e + 1;
    }
    proof {
        lemma_find_from_at(s@, from as int, e as int, c);
    }
    e
}

/// The position of the last `c`, if any.
fn rfind_char_exec(s: &str, c: char) -> (r: Option<usize>)
    ensures
        match r {
            Some(p) => p as int == rfind_char(s@, c) && p < s@.len(),
            None => rfind_char(s@, c) == -1,
        },
{
    let n = s.unicode_len();
    let mut e = n;
    while e > 0
        invariant
            0 <= e <= n,
            n == s@.len(),
            forall|q: int| e <= q < n ==> s@[q] != c,
        decreases e,
    {
        if s.get_char(e - 1) == c {
            proof {
                lemma_rfind_at(s@, e - 1, c);
            }
            return Some(e - 1);
        }
        e = e - 1;
    }
    proof {
        lemma_rfind_at(s@, -1, c);
    }
    None
}

/// How many times `c` occurs in the string.
fn count_char_exec(s: &str, c: char) -> (r: usize)
    ensures
        r as int == count_from(s@, 0, c),
{
    let n = s.unicode_len();
    let mut cnt: usize = 0;
    let mut i: usize = 0;
    while i < n
        invariant
            0 <= i <= n,
            n == s@.len(),
            cnt <= i,
            cnt + count_from(s@, i as int, c) == count_from(s@, 0, c),
        decreases n - i,
    {
        if s.get_char(i) == c {
            cnt = cnt + 1;
        }
        i = i + 1;
    }
    cnt
}

fn is_alpha_exec(c: char) -> (b: bool)
    ensures
        b == is_alpha_char(c),
{
    let u = c as u32;
    (u >= 'a' as u32 && u <= 'z' as u32) || (u >= 'A' as u32 && u <= 'Z' as u32) || c == '_'
}

fn is_digit_exec(c: char) -> (b: bool)
    ensures
        b == is_digit_char(c),
{
    let u = c as u32;
    u >= '0' as u32 && u <= '9' as u32
}

fn all_stock_name_exec(s: &str) -> (b: bool)
    ensures
        b == all_stock_name_chars(s@),
{
    let n = s.unicode_len();
    let mut i: usize = 0;
    while i < n
        invariant
            0 <= i <= n,
            n == s@.len(),
            forall|q: int| 0 <= q < i ==> is_alpha_char(#[trigger] s@[q]),
        decreases n - i,
    {
        if !is_alpha_exec(s.get_char(i)) {
            return false;
        }
        i = i + 1;
    }
    true
}

fn all_proc_name_exec(s: &str) -> (b: bool)
    ensures
        b == all_proc_name_chars(s@),
{
    let n = s.unicode_len();
    let mut i: usize = 0;
    while i < n
        invariant
            0 <= i <= n,
            n == s@.len(),
            forall|q: int| 0 <= q < i ==> is_alnum_char(#[trigger] s@[q]),
        decreases n - i,
    {
        let c = s.get_char(i);
        if !is_alpha_exec(c) && !is_digit_exec(c) {
            return false;
        }
        i = i + 1;
    }
    true
}

/// Whether two strings hold the same characters.
fn str_equals(a: &str, b: &str) -> (r: bool)
    ensures
        r == (a@ == b@),
{
    let na = a.unicode_len();
    let nb = b.unicode_len();
    if na != nb {
        return false;
    }
    let mut i: usize = 0;
    while i < na
        invariant
            0 <= i <= na,
            na == a@.len(),
            na == b@.len(),
            forall|q: int| 0 <= q < i ==> a@[q] == b@[q],
        decreases na - i,
    {
        if a.get_char(i) != b.get_char(i) {
            return false;
        }
        i = i + 1;
    }
    proof {
        assert(a@ =~= b@);
    }
    true
}

// ----------------------------------------------------------------
// Numbers
// ----------------------------------------------------------------
proof fn lemma_digits_val_bounds(s: Seq<char>, j1: int, j2: int)
    requires
        0 <= j1 <= j2 <= s.len(),
        forall|q: int| 0 <= q < j2 ==> is_digit_char(#[trigger] s[q]),
    ensures
        0 <= digits_val(s, j1) <= digits_val(s, j2),
    decreases j2 - j1,
{
    if j1 == j2 {
        lemma_digits_val_nonneg(s, j1);
    } else {
        lemma_digits_val_bounds(s, j1, j2 - 1);
        assert(is_digit_char(s[j2 - 1]));
        assert(digits_val(s, j2) == digits_val(s, j2 - 1) * 10 + (s[j2 - 1] as int - '0' as int));
        assert(digits_val(s, j2 - 1) * 10 >= digits_val(s, j2 - 1)) by (nonlinear_arith)
            requires
                digits_val(s, j2 - 1) >= 0,
        ;
    }
}

proof fn lemma_digits_val_nonneg(s: Seq<char>, j: int)
    requires
        forall|q: int| 0 <= q < j ==> is_digit_char(#[trigger] s[q]),
    ensures
        0 <= digits_val(s, j),
    decreases j,
{
    if j > 0 {
        lemma_digits_val_nonneg(s, j - 1);
        assert(digits_val(s, j - 1) * 10 >= 0) by (nonlinear_arith)
            requires
                digits_val(s, j - 1) >= 0,
        ;
    }
}

/// Reads a signed decimal integer, exactly as the model describes.
fn parse_i64_exec(s: &str) -> (r: Option<i64>)
    ensures
        r == parse_i64_spec(s@),
{
    let n = s.unicode_len();
    let mut neg = false;
    let mut start: usize = 0;
    if n > 0 {
        let c0 = s.get_char(0);
        if c0 == '-' {
            neg = true;
            start = 1;
        } else if c0 == '+' {
            start = 1;
        }
    }
    let ghost body = num_body(s@);
    proof {
        assert(body.len() == n - start);
        assert(forall|q: int| 0 <= q < body.len() ==> body[q] == s@[q + start]);
        assert(neg == num_negative(s@));
    }
    if start >= n {
        return None;
    }
    let mut acc: i64 = 0;
    let mut i = start;
    while i < n
        invariant
            start <= i <= n,
            n == s@.len(),
            start <= 1,
            body == num_body(s@),
            neg == num_negative(s@),
            body.len() == n - start,
            forall|q: int| 0 <= q < body.len() ==> body[q] == s@[q + start],
            forall|q: int| 0 <= q < i - start ==> is_digit_char(#[trigger] body[q]),
            !neg ==> acc == digits_val(body, i - start),
            neg ==> acc == -digits_val(body, i - start),
        decreases n - i,
    {
        let c = s.get_char(i);
        proof {
            assert(body[i - start] == s@[i as int]);
        }
        if !is_digit_exec(c) {
            proof {
                assert(!is_digit_char(body[i - start]));
                assert(!all_digit_chars(body));
            }
            return None;
        }
        let d = ((c as u32) - ('0' as u32)) as i64;
        proof {
            assert(0 <= d <= 9);
            assert(d == body[i - start] as int - '0' as int);
        }
        let t = match acc.checked_mul(10) {
            Some(t) => t,
            None => {
                proof {
                    lemma_overflow_at(s@, start as int, i as int, neg, acc, d as int);
                }
                return None;
            },
        };
        let stepped = if neg {
            t.checked_sub(d)
        } else {
            t.checked_add(d)
        };
        acc = match stepped {
            Some(v) => v,
            None => {
                proof {
                    lemma_overflow_at(s@, start as int, i as int, neg, acc, d as int);
                }
                return None;
            },
        };
        i = i + 1;
    }
    proof {
        assert(all_digit_chars(body));
    }
    Some(acc)
}

/// When accumulating the digit at position `i` leaves the `i64`
/// range, the whole number is out of range, so the model rejects the
/// input.
proof fn lemma_overflow_at(s: Seq<char>, start: int, i: int, neg: bool, acc: i64, d: int)
    requires
        0 <= start <= 1,
        start <= i < s.len(),
        num_body(s).len() == s.len() - start,
        forall|q: int| 0 <= q < num_body(s).len() ==> num_body(s)[q] == s[q + start],
        neg == num_negative(s),
        forall|q: int| 0 <= q < i - start ==> is_digit_char(#[trigger] num_body(s)[q]),
        is_digit_char(num_body(s)[i - start]),
        d == num_body(s)[i - start] as int - '0' as int,
        !neg ==> acc == digits_val(num_body(s), i - start),
        neg ==> acc == -digits_val(num_body(s), i - start),
        !neg ==> (acc * 10 > i64::MAX || acc * 10 < i64::MIN || acc * 10 + d > i64::MAX),
        neg ==> (acc * 10 > i64::MAX || acc * 10 < i64::MIN || acc * 10 - d < i64::MIN),
    ensures
        parse_i64_spec(s) is None,
{
    let body = num_body(s);
    let j = i - start;
    assert(forall|q: int| 0 <= q < j + 1 ==> is_digit_char(#[trigger] body[q]));
    lemma_digits_val_nonneg(body, j);
    assert(digits_val(body, j + 1) == digits_val(body, j) * 10 + d);
    if neg {
        assert(acc <= 0);
        assert(acc * 10 <= 0) by (nonlinear_arith)
            requires
                acc <= 0,
        ;
        assert(-digits_val(body, j + 1) == acc * 10 - d);
        assert(-digits_val(body, j + 1) < i64::MIN);
    } else {
        assert(acc >= 0);
        assert(acc * 10 >= 0) by (nonlinear_arith)
            requires
                acc >= 0,
        ;
        assert(digits_val(body, j + 1) == acc * 10 + d);
        assert(digits_val(body, j + 1) > i64::MAX);
    }
    if all_digit_chars(body) {
        lemma_digits_val_bounds(body, j + 1, body.len() as int);
        assert(parse_i64_spec(s) is None);
    } else {
        assert(parse_i64_spec(s) is None);
    }
}

// ----------------------------------------------------------------
// Stocks and stock lists
// ----------------------------------------------------------------
/// Reads one `name:qty` declaration.
pub fn parse_stock(input: &str) -> (r: Result<Stock, String>)
    ensures
        match r {
            Ok(st) => parse_stock_spec(input@) is Some && st.name@ == parse_stock_spec(
                input@,
            )->0.name && st.quantity == parse_stock_spec(input@)->0.qty,
            Err(_) => parse_stock_spec(input@) is None,
        },
{
    let n = input.unicode_len();
    let ci = find_char_at(input, 0, ':');
    proof {
        lemma_find_from_props(input@, 0, ':');
    }
    if ci == n {
        return Err(String::from_str("Invalid line"));
    }
    let name = input.substring_char(0, ci);
    let qty_str = input.substring_char(ci + 1, n);
    if count_char_exec(qty_str, ':') > 0 {
        return Err(String::from_str("Too many ':' for stock line"));
    }
    if !all_stock_name_exec(name) {
        return Err(String::from_str("Name of stock must only contain alphabetic characters"));
    }
    match parse_i64_exec(qty_str) {
        None => Err(String::from_str("invalid qty")),
        Some(q) => Ok(Stock::new(name, q)),
    }
}

proof fn lemma_list_split(s: Seq<char>, cur: Seq<char>)
    ensures
        ({
            let si = find_from(s, 0, ';');
            parse_stock_list_spec(s, cur) == (if si == s.len() {
                match parse_stock_spec(cur + s) {
                    None => None::<Seq<ParsedStockM>>,
                    Some(one) => Some(seq![one]),
                }
            } else {
                match parse_stock_spec(cur + s.subrange(0, si)) {
                    None => None,
                    Some(head) => match parse_stock_list_spec(
                        s.subrange(si + 1, s.len() as int),
                        Seq::empty(),
                    ) {
                        None => None,
                        Some(tail) => Some(seq![head] + tail),
                    },
                }
            })
        }),
    decreases s.len(),
{
    lemma_find_from_props(s, 0, ';');
    let si = find_from(s, 0, ';');
    if s.len() == 0 {
        assert(cur + s =~= cur);
    } else if s[0] == ';' {
        assert(si == 0);
        assert(cur + s.subrange(0, 0) =~= cur);
        assert(s.subrange(1, s.len() as int) =~= s.drop_first());
    } else {
        lemma_list_split(s.drop_first(), cur.push(s[0]));
        let rest = s.drop_first();
        assert(forall|q: int| 0 <= q < si - 1 ==> rest[q] != ';');
        assert(si - 1 < rest.len() ==> rest[si - 1] == ';');
        lemma_find_from_at(rest, 0, si - 1, ';');
        if si == s.len() {
            assert(cur.push(s[0]) + rest =~= cur + s);
        } else {
            assert(cur.push(s[0]) + rest.subrange(0, si - 1) =~= cur + s.subrange(0, si));
            assert(rest.subrange(si, rest.len() as int) =~= s.subrange(si + 1, s.len() as int));
        }
    }
}

/// Reads a semicolon-separated list of stock declarations.
fn parse_stock_list(s: &str) -> (r: Result<Vec<Stock>, String>)
    ensures
        match r {
            Ok(v) => parse_stock_list_spec(s@, Seq::empty()) is Some && stocks_match(
                v@,
                parse_stock_list_spec(s@, Seq::empty())->0,
            ),
            Err(_) => parse_stock_list_spec(s@, Seq::empty()) is None,
        },
{
    let n = s.unicode_len();
    let mut out: Vec<Stock> = Vec::new();
    let ghost mut outm: Seq<ParsedStockM> = Seq::empty();
    let mut pos: usize = 0;
    let mut done = false;
    proof {
        assert(s@.subrange(0, n as int) =~= s@);
        let m0 = parse_stock_list_spec(s@, Seq::empty());
        if m0 is Some {
            assert(Seq::empty() + m0->0 =~= m0->0);
        }
    }
    while !done
        invariant
            n == s@.len(),
            0 <= pos <= n,
            stocks_match(out@, outm),
            !done ==> parse_stock_list_spec(s@, Seq::empty()) == (match parse_stock_list_spec(
                s@.subrange(pos as int, n as int),
                Seq::empty(),
            ) {
                None => None::<Seq<ParsedStockM>>,
                Some(t) => Some(outm + t),
            }),
            done ==> parse_stock_list_spec(s@, Seq::empty()) == Some(outm),
        decreases n - pos + (if done {
            0int
        } else {
            1int
        }),
    {
        let si = find_char_at(s, pos, ';');
        let piece = s.substring_char(pos, si);
        let ghost suffix = s@.subrange(pos as int, n as int);
        proof {
            assert(forall|q: int| 0 <= q < si - pos ==> suffix[q] != ';');
            assert(si - pos < suffix.len() ==> suffix[si - pos] == ';');
            lemma_find_from_at(suffix, 0, si - pos, ';');
            lemma_list_split(suffix, Seq::empty());
            assert(Seq::empty() + suffix.subrange(0, si - pos) =~= piece@);
            assert(Seq::empty() + suffix =~= s@.subrange(pos as int, n as int));
            if si == n {
                assert(Seq::empty() + suffix =~= piece@);
            }
        }
        let one = match parse_stock(piece) {
            Err(e) => {
                return Err(e);
            },
            Ok(one) => one,
        };
        out.push(one);
        proof {
            let head = parse_stock_spec(piece@)->0;
            outm = outm.push(head);
            assert(stocks_match(out@, outm));
        }
        if si == n {
            done = true;
            proof {
                let head = parse_stock_spec(piece@)->0;
                assert(outm.drop_last() + seq![head] =~= outm);
            }
        } else {
            proof {
                let head = parse_stock_spec(piece@)->0;
                assert(suffix.subrange(si - pos + 1, suffix.len() as int) =~= s@.subrange(
                    si + 1,
                    n as int,
                ));
                let tail_model = parse_stock_list_spec(s@.subrange(si + 1, n as int), Seq::empty());
                if tail_model is Some {
                    assert(outm.drop_last() + (seq![head] + tail_model->0) =~= outm
                        + tail_model->0);
                }
            }
            pos = si + 1;
        }
    }
    Ok(out)
}

// ----------------------------------------------------------------
// Processes and the optimization goal
// ----------------------------------------------------------------
/// Reads one process declaration.  The returned process carries id
/// zero; the caller assigns the real index.
pub fn parse_processes(input: &str) -> (r: Result<Process, String>)
    ensures
        match r {
            Ok(p) => parse_processes_spec(input@) is Some && ({
                let m = parse_processes_spec(input@)->0;
                p.id == 0 && p.name@ == m.name && stocks_match(p.needs@, m.needs) && stocks_match(
                    p.results@,
                    m.results,
                ) && p.duration == m.duration
            }),
            Err(_) => parse_processes_spec(input@) is None,
        },
{
    let n = input.unicode_len();
    let ci = find_char_at(input, 0, ':');
    if ci == n {
        return Err(String::from_str("Invalid line"));
    }
    let name = input.substring_char(0, ci);
    let rest0 = input.substring_char(ci + 1, n);
    if !all_proc_name_exec(name) {
        return Err(
            String::from_str("Name of process must only contain alphanumeric characters"),
        );
    }
    let di = match rfind_char_exec(rest0, ':') {
        None => {
            return Err(String::from_str("Missing delay"));
        },
        Some(di) => di,
    };
    let rest0_len = rest0.unicode_len();
    let rest = rest0.substring_char(0, di);
    let delay_str = rest0.substring_char(di + 1, rest0_len);
    let delay = match parse_i64_exec(delay_str) {
        None => {
            return Err(String::from_str("invalid delay"));
        },
        Some(d) => d,
    };
    let rest_len = rest.unicode_len();
    let nb = count_char_exec(rest, '(');
    if nb == 2 {
        let pi = find_char_at(rest, 0, ')');
        if pi == rest_len {
            return Err(
                String::from_str("There must be at least a need or a result for a process"),
            );
        }
        let needs_str0 = rest.substring_char(0, pi);
        let results_str0 = rest.substring_char(pi + 1, rest_len);
        let n0_len = needs_str0.unicode_len();
        if n0_len == 0 || needs_str0.get_char(0) != '(' {
            return Err(String::from_str("Syntax error, missing opening bracket"));
        }
        let r0_len = results_str0.unicode_len();
        if r0_len < 3 || results_str0.get_char(0) != ':' || results_str0.get_char(1) != '(' {
            return Err(String::from_str("Syntax error, missing opening bracket or colon"));
        }
        if results_str0.get_char(r0_len - 1) != ')' {
            return Err(String::from_str("Syntax error, missing closing bracket"));
        }
        let needs_str = needs_str0.substring_char(1, n0_len);
        let results_str = results_str0.substring_char(2, r0_len - 1);
        let needs = match parse_stock_list(needs_str) {
            Err(e) => {
                return Err(e);
            },
            Ok(v) => v,
        };
        let results = match parse_stock_list(results_str) {
            Err(e) => {
                return Err(e);
            },
            Ok(v) => v,
        };
        Ok(Process::new(0, name, needs, results, delay))
    } else if nb == 1 {
        if rest_len >= 2 && rest.get_char(0) == '(' && rest.get_char(rest_len - 1) == ')' {
            let needs_str = rest.substring_char(1, rest_len - 1);
            let needs = match parse_stock_list(needs_str) {
                Err(e) => {
                    return Err(e);
                },
                Ok(v) => v,
            };
            let results: Vec<Stock> = Vec::new();
            Ok(Process::new(0, name, needs, results, delay))
        } else if rest_len >= 3 && rest.get_char(0) == ':' && rest.get_char(1) == '('
            && rest.get_char(rest_len - 1) == ')' {
            let results_str = rest.substring_char(2, rest_len - 1);
            let results = match parse_stock_list(results_str) {
                Err(e) => {
                    return Err(e);
                },
                Ok(v) => v,
            };
            let needs: Vec<Stock> = Vec::new();
            Ok(Process::new(0, name, needs, results, delay))
        } else {
            Err(String::from_str("Invalid line"))
        }
    } else {
        Err(String::from_str("Invalid line"))
    }
}

/// Reads the optimization declaration.
pub fn parse_optimize(input: &str) -> (r: Result<Optimize, String>)
    ensures
        match r {
            Ok(o) => parse_optimize_spec(input@) is Some && goal_matches(
                o,
                parse_optimize_spec(input@)->0,
            ),
            Err(_) => parse_optimize_spec(input@) is None,
        },
{
    let n = input.unicode_len();
    let ci = find_char_at(input, 0, ':');
    if ci == n {
        return Err(String::from_str("Badly formatted optimize line"));
    }
    let o0 = input.substring_char(ci + 1, n);
    let o0_len = o0.unicode_len();
    if o0_len < 2 || o0.get_char(0) != '(' || o0.get_char(o0_len - 1) != ')' {
        return Err(String::from_str("Badly formatted optimize line"));
    }
    let o = o0.substring_char(1, o0_len - 1);
    if count_char_exec(o, ';') > 1 {
        return Err(String::from_str("Badly formatted optimize line"));
    }
    let o_len = o.unicode_len();
    let si = find_char_at(o, 0, ';');
    if si == o_len {
        return Ok(Optimize::Quantity(String::from_str(o)));
    }
    let left = o.substring_char(0, si);
    let right = o.substring_char(si + 1, o_len);
    if str_equals(left, "time") {
        Ok(Optimize::Time(String::from_str(right)))
    } else {
        Err(String::from_str("Badly formatted optimize line"))
    }
}

// ----------------------------------------------------------------
// The whole file
// ----------------------------------------------------------------
proof fn lemma_parse_chars_line(s: Seq<char>, cur: Seq<char>, st: ParseStateM, li: int)
    requires
        0 <= li <= s.len(),
        forall|q: int| 0 <= q < li ==> s[q] != '\n',
        li < s.len() ==> s[li] == '\n',
    ensures
        ({
            let line = strip_cr(cur + s.subrange(0, li));
            parse_chars(s, cur, st) == (if li == s.len() {
                if cur.len() + s.len() == 0 {
                    Some(st)
                } else {
                    handle_line(line, st)
                }
            } else {
                match handle_line(line, st) {
                    None => None::<ParseStateM>,
                    Some(st2) => parse_chars(s.subrange(li + 1, s.len() as int), Seq::empty(), st2),
                }
            })
        }),
    decreases s.len(),
{
    if s.len() == 0 {
        assert(cur + s.subrange(0, 0) =~= cur);
    } else if s[0] == '\n' {
        assert(li == 0);
        assert(cur + s.subrange(0, 0) =~= cur);
        assert(s.subrange(1, s.len() as int) =~= s.drop_first());
    } else {
        assert(li >= 1);
        let rest = s.drop_first();
        assert(forall|q: int| 0 <= q < li - 1 ==> rest[q] != '\n');
        assert(li - 1 < rest.len() ==> rest[li - 1] == '\n');
        lemma_parse_chars_line(rest, cur.push(s[0]), st, li - 1);
        assert(cur.push(s[0]) + rest.subrange(0, li - 1) =~= cur + s.subrange(0, li));
        if li < s.len() {
            assert(rest.subrange(li, rest.len() as int) =~= s.subrange(li + 1, s.len() as int));
        }
    }
}

/// Whether the line opens with the optimization keyword.
fn line_is_optimize(line: &str) -> (b: bool)
    ensures
        b == spec_starts_with(line@, "optimize"@),
{
    proof {
        reveal_strlit("optimize");
    }
    let n = line.unicode_len();
    if n < 8 {
        return false;
    }
    let prefix = line.substring_char(0, 8);
    str_equals(prefix, "optimize")
}

/// Reads a whole domain file: comments, stock declarations, process
/// declarations, and exactly one optimization declaration, in any
/// order.  The returned processes are numbered in file order.
#[verifier::rlimit(50)]
pub fn parse_spec(input: &str) -> (r: Result<Spec, String>)
    ensures
        match r {
            Ok(sp) => parse_spec_spec(input@) is Some && spec_matches(
                sp,
                parse_spec_spec(input@)->0,
            ),
            Err(_) => parse_spec_spec(input@) is None,
        },
{
    let n = input.unicode_len();
    let mut procs: Vec<Process> = Vec::new();
    let mut stocks: Vec<Stock> = Vec::new();
    let mut opt: Option<Optimize> = None;
    let ghost mut stm = empty_parse_state();
    let mut pos: usize = 0;
    let mut done = false;
    proof {
        assert(input@.subrange(0, n as int) =~= input@);
    }
    while !done
        invariant
            n == input@.len(),
            0 <= pos <= n,
            procs@.len() == stm.procs.len(),
            forall|idx: int|
                0 <= idx < stm.procs.len() ==> proc_matches(
                    #[trigger] procs@[idx],
                    stm.procs[idx],
                    idx,
                ),
            stocks_match(stocks@, stm.stocks),
            (match opt {
                None => stm.goal is None,
                Some(o) => stm.goal is Some && goal_matches(o, stm.goal->0),
            }),
            !done ==> parse_chars(input@, Seq::empty(), empty_parse_state()) == parse_chars(
                input@.subrange(pos as int, n as int),
                Seq::empty(),
                stm,
            ),
            done ==> parse_chars(input@, Seq::empty(), empty_parse_state()) == Some(stm),
        decreases n - pos + (if done {
            0int
        } else {
            1int
        }),
    {
        if pos >= n {
            proof {
                assert(input@.subrange(pos as int, n as int).len() == 0);
            }
            done = true;
        } else {
            let e = find_char_at(input, pos, '\n');
            let line_end = if e > pos && input.get_char(e - 1) == '\r' {
                e - 1
            } else {
                e
            };
            let line = input.substring_char(pos, line_end);
            let ghost suffix = input@.subrange(pos as int, n as int);
            let ghost li = e - pos;
            proof {
                assert(forall|q: int| 0 <= q < li ==> suffix[q] != '\n');
                assert(li < suffix.len() ==> suffix[li as int] == '\n');
                lemma_parse_chars_line(suffix, Seq::empty(), stm, li as int);
                assert(Seq::empty() + suffix.subrange(0, li as int) =~= input@.subrange(
                    pos as int,
                    e as int,
                ));
                assert(strip_cr(input@.subrange(pos as int, e as int)) =~= line@);
            }
            let ghost stm0 = stm;
            let ln = line.unicode_len();
            if ln > 0 && line.get_char(0) == '#' {
            } else if line_is_optimize(line) {
                match parse_optimize(line) {
                    Err(e2) => {
                        return Err(e2);
                    },
                    Ok(o) => {
                        if opt.is_some() {
                            return Err(String::from_str("Multiples optimize lines"));
                        }
                        proof {
                            stm = ParseStateM {
                                procs: stm.procs,
                                stocks: stm.stocks,
                                goal: Some(parse_optimize_spec(line@)->0),
                            };
                        }
                        opt = Some(o);
                    },
                }
            } else if count_char_exec(line, '(') == 0 {
                match parse_stock(line) {
                    Err(e2) => {
                        return Err(e2);
                    },
                    Ok(st) => {
                        proof {
                            stm = ParseStateM {
                                procs: stm.procs,
                                stocks: stm.stocks.push(parse_stock_spec(line@)->0),
                                goal: stm.goal,
                            };
                        }
                        stocks.push(st);
                    },
                }
            } else {
                match parse_processes(line) {
                    Err(e2) => {
                        return Err(e2);
                    },
                    Ok(p0) => {
                        let mut p = p0;
                        p.id = procs.len();
                        proof {
                            stm = ParseStateM {
                                procs: stm.procs.push(parse_processes_spec(line@)->0),
                                stocks: stm.stocks,
                                goal: stm.goal,
                            };
                        }
                        procs.push(p);
                    },
                }
            }
            proof {
                assert(handle_line(line@, stm0) == Some(stm));
                if li < suffix.len() {
                    assert(suffix.subrange(li + 1, suffix.len() as int) =~= input@.subrange(
                        e + 1,
                        n as int,
                    ));
                }
            }
            if e == n {
                done = true;
            } else {
                pos = e + 1;
            }
        }
    }
    match opt {
        None => Err(String::from_str("Missing optimization")),
        Some(o) => {
            proof {
                assert(parse_spec_spec(input@) is Some);
            }
            Ok(Spec::new(procs, stocks, o))
        },
    }
}

} // verus!
