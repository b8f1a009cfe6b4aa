//! The persistence encoding: a textual, field-keyed representation of a
//! `TodoList` with two top-level fields — the ordered array of task
//! records and the next-identifier counter. A serializer and a strict
//! parser are verified against the same specification, and the save/load
//! round trip is proven.

use crate::model::Todo;
use crate::model::TodoList;
use crate::model::TodoListView;
use crate::model::TodoView;
use crate::model::todos_view;
use vstd::prelude::*;
use vstd::string::*;

verus! {

/// The decimal digit character for a value below ten.
pub open spec fn digit_char(d: int) -> char {
    if d == 0 {
        '0'
    } else if d == 1 {
        '1'
    } else if d == 2 {
        '2'
    } else if d == 3 {
        '3'
    } else if d == 4 {
        '4'
    } else if d == 5 {
        '5'
    } else if d == 6 {
        '6'
    } else if d == 7 {
        '7'
    } else if d == 8 {
        '8'
    } else {
        '9'
    }
}

/// The decimal digits of a nonnegative number, most significant first.
pub open spec fn dec_of(n: int) -> Seq<char>
    decreases n,
{
    if n < 10 {
        seq![digit_char(n)]
    } else {
        dec_of(n / 10) + seq![digit_char(n % 10)]
    }
}

/// How one character of a task text is written: a quote or a backslash is
/// preceded by a backslash, every other character stands as itself.
pub open spec fn esc_char(c: char) -> Seq<char> {
    if c == '"' || c == '\\' {
        seq!['\\', c]
    } else {
        seq![c]
    }
}

/// How a task text is written inside its quotes.
pub open spec fn esc(t: Seq<char>) -> Seq<char>
    decreases t.len(),
{
    if t.len() == 0 {
        Seq::<char>::empty()
    } else {
        esc_char(t[0]) + esc(t.skip(1))
    }
}

/// How a completion flag is written.
pub open spec fn ser_bool(b: bool) -> Seq<char> {
    if b {
        "true"@
    } else {
        "false"@
    }
}

/// How one task record is written.
pub open spec fn ser_todo(t: TodoView) -> Seq<char> {
    "{\"id\":"@ + dec_of(t.id as int) + ",\"task\":\""@ + esc(t.task) + "\""@ + ",\"completed\":"@
        + ser_bool(t.completed) + "}"@
}

/// How the task array is written between its brackets: the records in
/// order, separated by commas.
pub open spec fn ser_todos(ts: Seq<TodoView>) -> Seq<char>
    decreases ts.len(),
{
    if ts.len() == 0 {
        Seq::<char>::empty()
    } else if ts.len() == 1 {
        ser_todo(ts[0])
    } else {
        ser_todo(ts[0]) + ","@ + ser_todos(ts.skip(1))
    }
}

/// How a whole list is written.
pub open spec fn ser_list(l: TodoListView) -> Seq<char> {
    "{\"todos\":["@ + ser_todos(l.todos) + "],\"next_id\":"@ + dec_of(l.next_id as int) + "}"@
}

/// Appending one character to a text appends its escape to the written
/// form.
proof fn lemma_esc_snoc(t: Seq<char>, c: char)
    ensures
        esc(t.push(c)) == esc(t) + esc_char(c),
    decreases t.len(),
{
    if t.len() == 0 {
        assert(t.push(c)[0] == c);
        assert(t.push(c).skip(1) =~= Seq::<char>::empty());
        assert(esc(t.push(c)) == esc_char(c) + esc(Seq::<char>::empty()));
        assert(esc_char(c) + Seq::<char>::empty() =~= esc(t) + esc_char(c));
    } else {
        lemma_esc_snoc(t.skip(1), c);
        assert(t.push(c).skip(1) =~= t.skip(1).push(c));
        assert(esc(t.push(c)) == esc_char(t[0]) + (esc(t.skip(1)) + esc_char(c)));
        assert(esc_char(t[0]) + (esc(t.skip(1)) + esc_char(c)) =~= esc(t) + esc_char(c));
    }
}

/// Appending one record to the array appends a comma (when the array was
/// not empty) and the record's written form.
proof fn lemma_ser_todos_snoc(ts: Seq<TodoView>, t: TodoView)
    ensures
        ser_todos(ts.push(t)) == if ts.len() == 0 {
            ser_todo(t)
        } else {
            ser_todos(ts) + ","@ + ser_todo(t)
        },
    decreases ts.len(),
{
    if ts.len() == 0 {
        assert(ts.push(t)[0] == t);
    } else if ts.len() == 1 {
        assert(ts.push(t)[0] == ts[0]);
        assert(ts.push(t).skip(1) =~= seq![t]);
        assert(seq![t][0] == t);
        assert(ser_todos(seq![t]) == ser_todo(t));
        assert(ser_todos(ts.push(t)) == ser_todo(ts[0]) + ","@ + ser_todo(t));
    } else {
        lemma_ser_todos_snoc(ts.skip(1), t);
        assert(ts.push(t).skip(1) =~= ts.skip(1).push(t));
        assert(ser_todos(ts.push(t)) == ser_todo(ts[0]) + ","@ + (ser_todos(ts.skip(1)) + ","@
            + ser_todo(t)));
        assert(ser_todo(ts[0]) + ","@ + (ser_todos(ts.skip(1)) + ","@ + ser_todo(t)) =~= ser_todos(
            ts,
        ) + ","@ + ser_todo(t));
    }
}

/// The decimal digit as one character of text.
fn digit_str(d: u32) -> (s: &'static str)
    requires
        d < 10,
    ensures
        s@ == seq![digit_char(d as int)],
{
    proof {
        reveal_strlit("0");
        reveal_strlit("1");
        reveal_strlit("2");
        reveal_strlit("3");
        reveal_strlit("4");
        reveal_strlit("5");
        reveal_strlit("6");
        reveal_strlit("7");
        reveal_strlit("8");
        reveal_strlit("9");
        assert("0"@ =~= seq!['0']);
        assert("1"@ =~= seq!['1']);
        assert("2"@ =~= seq!['2']);
        assert("3"@ =~= seq!['3']);
        assert("4"@ =~= seq!['4']);
        assert("5"@ =~= seq!['5']);
        assert("6"@ =~= seq!['6']);
        assert("7"@ =~= seq!['7']);
        assert("8"@ =~= seq!['8']);
        assert("9"@ =~= seq!['9']);
    }
    if d == 0 {
        "0"
    } else if d == 1 {
        "1"
    } else if d == 2 {
        "2"
    } else if d == 3 {
        "3"
    } else if d == 4 {
        "4"
    } else if d == 5 {
        "5"
    } else if d == 6 {
        "6"
    } else if d == 7 {
        "7"
    } else if d == 8 {
        "8"
    } else {
        "9"
    }
}

/// Writes the decimal digits of `n` onto `out`.
fn write_u32(out: &mut String, n: u32)
    ensures
        final(out)@ == old(out)@ + dec_of(n as int),
    decreases n,
{
    if n < 10 {
        out.append(digit_str(n));
    } else {
        write_u32(out, n / 10);
        out.append(digit_str(n % 10));
        proof {
            assert(old(out)@ + dec_of(n as int / 10) + seq![digit_char(n as int % 10)] =~= old(
                out,
            )@ + dec_of(n as int));
        }
    }
}

/// Writes the escaped form of `s` onto `out`.
fn write_escaped(out: &mut String, s: &str)
    ensures
        final(out)@ == old(out)@ + esc(s@),
{
    let n = s.unicode_len();
    let mut i: usize = 0;
    while i < n
        invariant
            n == s@.len(),
            i <= n,
            out@ == old(out)@ + esc(s@.take(i as int)),
        decreases n - i,
    {
        let ghost prefix = esc(s@.take(i as int));
        let c = s.get_char(i);
        if c == '"' {
            out.append("\\\"");
            proof {
                reveal_strlit("\\\"");
                assert("\\\""@ =~= esc_char(c));
            }
        } else if c == '\\' {
            out.append("\\\\");
            proof {
                reveal_strlit("\\\\");
                assert("\\\\"@ =~= esc_char(c));
            }
        } else {
            out.append(s.substring_char(i, i + 1));
            proof {
                assert(s@.subrange(i as int, i + 1 as int) =~= esc_char(c));
            }
        }
        proof {
            lemma_esc_snoc(s@.take(i as int), c);
            assert(s@.take(i as int).push(c) =~= s@.take(i + 1 as int));
            assert(out@ =~= old(out)@ + esc(s@.take(i + 1 as int)));
        }
        i += 1;
    }
    proof {
        assert(s@.take(n as int) =~= s@);
    }
}

/// Writes one task record onto `out`.
fn write_todo(out: &mut String, t: &Todo)
    ensures
        final(out)@ == old(out)@ + ser_todo(t@),
{
    out.append("{\"id\":");
    write_u32(out, t.id);
    out.append(",\"task\":\"");
    write_escaped(out, t.task.as_str());
    out.append("\"");
    out.append(",\"completed\":");
    if t.completed {
        out.append("true");
    } else {
        out.append("false");
    }
    out.append("}");
    proof {
        assert(out@ =~= old(out)@ + ser_todo(t@));
    }
}

/// Serializes the whole list to its persisted textual form.
pub fn save_to_string(list: &TodoList) -> (s: String)
    ensures
        s@ == ser_list(list@),
{
    let ghost ts = list@.todos;
    let mut out = String::new();
    out.append("{\"todos\":[");
    proof {
        assert(out@ =~= "{\"todos\":["@ + ser_todos(ts.take(0)));
    }
    let mut i: usize = 0;
    while i < list.todos.len()
        invariant
            i <= list.todos@.len(),
            ts == todos_view(list.todos@),
            ts.len() == list.todos@.len(),
            out@ == "{\"todos\":["@ + ser_todos(ts.take(i as int)),
        decreases list.todos@.len() - i,
    {
        if i > 0 {
            out.append(",");
        }
        write_todo(&mut out, &list.todos[i]);
        proof {
            lemma_ser_todos_snoc(ts.take(i as int), ts[i as int]);
            assert(ts.take(i as int).push(ts[i as int]) =~= ts.take(i + 1 as int));
            assert(out@ =~= "{\"todos\":["@ + ser_todos(ts.take(i + 1 as int)));
        }
        i += 1;
    }
    proof {
        assert(ts.take(list.todos@.len() as int) =~= ts);
    }
    out.append("],\"next_id\":");
    write_u32(&mut out, list.next_id);
    out.append("}");
    proof {
        assert(out@ =~= ser_list(list@));
    }
    out
}

/// What loading reports: the text was not in the persisted shape, or it
/// was but described a list that breaks the list invariant.
#[derive(Debug, PartialEq, Eq, Structural, Clone, Copy)]
pub enum LoadError {
    /// The text cannot be parsed into the persisted shape.
    Malformed,
    /// The text parses, but its identifiers break the list invariant.
    Invalid,
}

/// Strips `lit` from the front of `s`.
pub open spec fn parse_lit(s: Seq<char>, lit: Seq<char>) -> Option<Seq<char>> {
    if lit.is_prefix_of(s) {
        Some(s.skip(lit.len() as int))
    } else {
        None
    }
}

/// Whether `c` is a decimal digit.
pub open spec fn is_digit(c: char) -> bool {
    48 <= c as int && c as int <= 57
}

/// The value of a decimal digit character.
pub open spec fn digit_val(c: char) -> int {
    c as int - 48
}

/// Reads decimal digits from the front of `s` into an accumulator,
/// stopping at the first non-digit and refusing values that do not fit.
pub open spec fn parse_u32_rec(s: Seq<char>, acc: int) -> Option<(int, Seq<char>)>
    decreases s.len(),
{
    if s.len() > 0 && is_digit(s[0]) {
        let acc2 = acc * 10 + digit_val(s[0]);
        if acc2 > u32::MAX as int {
            None
        } else {
            parse_u32_rec(s.skip(1), acc2)
        }
    } else {
        Some((acc, s))
    }
}

/// Reads a number from the front of `s`: at least one digit, the longest
/// run of digits, a value that fits.
pub open spec fn parse_u32(s: Seq<char>) -> Option<(u32, Seq<char>)> {
    if s.len() > 0 && is_digit(s[0]) {
        match parse_u32_rec(s, 0) {
            Some(p) => Some((p.0 as u32, p.1)),
            None => None,
        }
    } else {
        None
    }
}

/// Reads the characters of a task text up to and over its closing quote,
/// undoing the escapes the serializer writes.
pub open spec fn parse_str_chars(s: Seq<char>) -> Option<(Seq<char>, Seq<char>)>
    decreases s.len(),
{
    if s.len() == 0 {
        None
    } else if s[0] == '"' {
        Some((Seq::<char>::empty(), s.skip(1)))
    } else if s[0] == '\\' {
        if s.len() >= 2 && (s[1] == '"' || s[1] == '\\') {
            match parse_str_chars(s.skip(2)) {
                Some(p) => Some((seq![s[1]] + p.0, p.1)),
                None => None,
            }
        } else {
            None
        }
    } else {
        match parse_str_chars(s.skip(1)) {
            Some(p) => Some((seq![s[0]] + p.0, p.1)),
            None => None,
        }
    }
}

/// Reads a completion flag from the front of `s`.
pub open spec fn parse_bool(s: Seq<char>) -> Option<(bool, Seq<char>)> {
    match parse_lit(s, "true"@) {
        Some(r) => Some((true, r)),
        None => match parse_lit(s, "false"@) {
            Some(r) => Some((false, r)),
            None => None,
        },
    }
}

/// Reads one task record from the front of `s`.
pub open spec fn parse_todo(s: Seq<char>) -> Option<(TodoView, Seq<char>)> {
    match parse_lit(s, "{\"id\":"@) {
        None => None,
        Some(s1) => match parse_u32(s1) {
            None => None,
            Some((id, s2)) => match parse_lit(s2, ",\"task\":\""@) {
                None => None,
                Some(s3) => match parse_str_chars(s3) {
                    None => None,
                    Some((task, s4)) => match parse_lit(s4, ",\"completed\":"@) {
                        None => None,
                        Some(s5) => match parse_bool(s5) {
                            None => None,
                            Some((completed, s6)) => match parse_lit(s6, "}"@) {
                                None => None,
                                Some(s7) => Some(
                                    (TodoView { id: id, task: task, completed: completed }, s7),
                                ),
                            },
                        },
                    },
                },
            },
        },
    }
}

/// Reads one or more comma-separated task records from the front of `s`.
/// The fuel bounds the recursion; a record is never empty, so a fuel of
/// `s.len()` is always enough.
pub open spec fn parse_todos(s: Seq<char>, fuel: nat) -> Option<(Seq<TodoView>, Seq<char>)>
    decreases fuel,
{
    if fuel == 0 {
        None
    } else {
        match parse_todo(s) {
            None => None,
            Some((t, r)) => if r.len() > 0 && r[0] == ',' {
                match parse_todos(r.skip(1), (fuel - 1) as nat) {
                    None => None,
                    Some(p) => Some((seq![t] + p.0, p.1)),
                }
            } else {
                Some((seq![t], r))
            },
        }
    }
}

/// Reads a whole list: the task array between its brackets, then the
/// next-identifier counter, with nothing left over.
pub open spec fn parse_list(s: Seq<char>) -> Option<TodoListView> {
    match parse_lit(s, "{\"todos\":["@) {
        None => None,
        Some(s1) => {
            let after = if s1.len() > 0 && s1[0] == '{' {
                parse_todos(s1, s1.len())
            } else {
                Some((Seq::<TodoView>::empty(), s1))
            };
            match after {
                None => None,
                Some((ts, s2)) => match parse_lit(s2, "],\"next_id\":"@) {
                    None => None,
                    Some(s3) => match parse_u32(s3) {
                        None => None,
                        Some((nid, s4)) => match parse_lit(s4, "}"@) {
                            None => None,
                            Some(s5) => if s5.len() == 0 {
                                Some(TodoListView { todos: ts, next_id: nid })
                            } else {
                                None
                            },
                        },
                    },
                },
            }
        },
    }
}

/// What loading yields on a given text: the parsed list when the text is
/// in the persisted shape and the parsed list keeps the list invariant,
/// nothing otherwise.
pub open spec fn spec_load(s: Seq<char>) -> Option<TodoListView> {
    match parse_list(s) {
        Some(l) => if l.wf() {
            Some(l)
        } else {
            None
        },
        None => None,
    }
}

/// Strips the literal `lit` at position `i`.
fn e_parse_lit(s: &str, n: usize, i: usize, lit: &str) -> (r: Option<usize>)
    requires
        n == s@.len(),
        i <= n,
    ensures
        match r {
            Some(j) => {
                &&& i <= j <= n
                &&& j - i == lit@.len()
                &&& parse_lit(s@.skip(i as int), lit@) == Some(s@.skip(j as int))
            },
            None => parse_lit(s@.skip(i as int), lit@) is None,
        },
{
    let m = lit.unicode_len();
    if n - i < m {
        proof {
            assert(!lit@.is_prefix_of(s@.skip(i as int)));
        }
        return None;
    }
    let mut k: usize = 0;
    while k < m
        invariant
            n == s@.len(),
            i <= n,
            m == lit@.len(),
            m <= n - i,
            k <= m,
            forall|a: int| 0 <= a < k ==> s@.skip(i as int)[a] == lit@[a],
        decreases m - k,
    {
        if s.get_char(i + k) != lit.get_char(k) {
            proof {
                assert(s@.skip(i as int)[k as int] == s@[i + k]);
                assert(!lit@.is_prefix_of(s@.skip(i as int))) by {
                    if lit@.is_prefix_of(s@.skip(i as int)) {
                        assert(s@.skip(i as int).subrange(0, m as int)[k as int] == lit@[k as int]);
                    }
                }
            }
            return None;
        }
        proof {
            assert(s@.skip(i as int)[k as int] == s@[i + k]);
        }
        k += 1;
    }
    proof {
        assert(lit@ =~= s@.skip(i as int).subrange(0, m as int));
        assert(s@.skip(i as int).skip(m as int) =~= s@.skip(i + m));
    }
    Some(i + m)
}

/// Reads digits at position `i` into an accumulator, mirroring
/// `parse_u32_rec`.
fn e_parse_u32_rec(s: &str, n: usize, i: usize, acc: u32) -> (r: Option<(u32, usize)>)
    requires
        n == s@.len(),
        i <= n,
    ensures
        match r {
            Some(p) => {
                &&& i <= p.1 <= n
                &&& parse_u32_rec(s@.skip(i as int), acc as int) == Some(
                    (p.0 as int, s@.skip(p.1 as int)),
                )
            },
            None => parse_u32_rec(s@.skip(i as int), acc as int) is None,
        },
    decreases n - i,
{
    if i < n {
        let c = s.get_char(i);
        let u = c as u32;
        proof {
            assert(s@.skip(i as int)[0] == s@[i as int]);
        }
        if 48 <= u && u <= 57 {
            let d = u - 48;
            let acc2: u64 = acc as u64 * 10 + d as u64;
            if acc2 > u32::MAX as u64 {
                return None;
            }
            proof {
                assert(s@.skip(i as int).skip(1) =~= s@.skip(i + 1 as int));
            }
            return e_parse_u32_rec(s, n, i + 1, acc2 as u32);
        }
    }
    Some((acc, i))
}

/// Reads a number at position `i`, mirroring `parse_u32`.
fn e_parse_u32(s: &str, n: usize, i: usize) -> (r: Option<(u32, usize)>)
    requires
        n == s@.len(),
        i <= n,
    ensures
        match r {
            Some(p) => {
                &&& i <= p.1 <= n
                &&& parse_u32(s@.skip(i as int)) == Some((p.0, s@.skip(p.1 as int)))
            },
            None => parse_u32(s@.skip(i as int)) is None,
        },
{
    if i < n {
        let c = s.get_char(i);
        let u = c as u32;
        proof {
            assert(s@.skip(i as int)[0] == s@[i as int]);
        }
        if 48 <= u && u <= 57 {
            return e_parse_u32_rec(s, n, i, 0);
        }
    }
    None
}

/// Reads a quoted task text at position `i` (just past the opening
/// quote), mirroring `parse_str_chars`.
fn e_parse_string(s: &str, n: usize, i: usize) -> (r: Option<(String, usize)>)
    requires
        n == s@.len(),
        i <= n,
    ensures
        match r {
            Some(p) => {
                &&& i <= p.1 <= n
                &&& parse_str_chars(s@.skip(i as int)) == Some((p.0@, s@.skip(p.1 as int)))
            },
            None => parse_str_chars(s@.skip(i as int)) is None,
        },
{
    let mut acc = String::new();
    let mut k: usize = i;
    loop
        invariant
            n == s@.len(),
            i <= k <= n,
            (match parse_str_chars(s@.skip(k as int)) {
                Some(p) => parse_str_chars(s@.skip(i as int)) == Some(
                    (acc@ + p.0, p.1),
                ),
                None => parse_str_chars(s@.skip(i as int)) is None,
            }),
        decreases n - k,
    {
        if k >= n {
            return None;
        }
        let c = s.get_char(k);
        proof {
            assert(s@.skip(k as int)[0] == s@[k as int]);
        }
        if c == '"' {
            proof {
                assert(s@.skip(k as int).skip(1) =~= s@.skip(k + 1 as int));
                assert(acc@ + Seq::<char>::empty() =~= acc@);
            }
            return Some((acc, k + 1));
        } else if c == '\\' {
            if k + 1 >= n {
                proof {
                    assert(parse_str_chars(s@.skip(k as int)) is None);
                }
                return None;
            }
            let c2 = s.get_char(k + 1);
            proof {
                assert(s@.skip(k as int)[1] == s@[k + 1]);
            }
            if c2 == '"' {
                acc.append("\"");
                proof {
                    reveal_strlit("\"");
                }
            } else if c2 == '\\' {
                acc.append("\\");
                proof {
                    reveal_strlit("\\");
                }
            } else {
                return None;
            }
            proof {
                assert(s@.skip(k as int).skip(2) =~= s@.skip(k + 2 as int));
                let ghost pre = acc@.take(acc@.len() - 1);
                assert(acc@ =~= pre + seq![c2]);
                match parse_str_chars(s@.skip(k + 2 as int)) {
                    Some(p) => {
                        assert(parse_str_chars(s@.skip(k as int)) == Some(
                            (seq![c2] + p.0, p.1),
                        ));
                        assert(pre + (seq![c2] + p.0) =~= acc@ + p.0);
                    },
                    None => {},
                }
            }
            k += 2;
        } else {
            acc.append(s.substring_char(k, k + 1));
            proof {
                assert(s@.subrange(k as int, k + 1 as int) =~= seq![c]);
                assert(s@.skip(k as int).skip(1) =~= s@.skip(k + 1 as int));
                let ghost pre = acc@.take(acc@.len() - 1);
                assert(acc@ =~= pre + seq![c]);
                match parse_str_chars(s@.skip(k + 1 as int)) {
                    Some(p) => {
                        assert(parse_str_chars(s@.skip(k as int)) == Some(
                            (seq![c] + p.0, p.1),
                        ));
                        assert(pre + (seq![c] + p.0) =~= acc@ + p.0);
                    },
                    None => {},
                }
            }
            k += 1;
        }
    }
}

/// Reads a completion flag at position `i`, mirroring `parse_bool`.
fn e_parse_bool(s: &str, n: usize, i: usize) -> (r: Option<(bool, usize)>)
    requires
        n == s@.len(),
        i <= n,
    ensures
        match r {
            Some(p) => {
                &&& i <= p.1 <= n
                &&& parse_bool(s@.skip(i as int)) == Some((p.0, s@.skip(p.1 as int)))
            },
            None => parse_bool(s@.skip(i as int)) is None,
        },
{
    match e_parse_lit(s, n, i, "true") {
        Some(j) => Some((true, j)),
        None => match e_parse_lit(s, n, i, "false") {
            Some(j) => Some((false, j)),
            None => None,
        },
    }
}

/// Reads one task record at position `i`, mirroring `parse_todo`.
fn e_parse_todo(s: &str, n: usize, i: usize) -> (r: Option<(Todo, usize)>)
    requires
        n == s@.len(),
        i <= n,
    ensures
        match r {
            Some(p) => {
                &&& i < p.1 <= n
                &&& parse_todo(s@.skip(i as int)) == Some((p.0@, s@.skip(p.1 as int)))
            },
            None => parse_todo(s@.skip(i as int)) is None,
        },
{
    let i1 = match e_parse_lit(s, n, i, "{\"id\":") {
        Some(j) => j,
        None => {
            return None;
        },
    };
    let (id, i2) = match e_parse_u32(s, n, i1) {
        Some(p) => p,
        None => {
            return None;
        },
    };
    let i3 = match e_parse_lit(s, n, i2, ",\"task\":\"") {
        Some(j) => j,
        None => {
            return None;
        },
    };
    let (task, i4) = match e_parse_string(s, n, i3) {
        Some(p) => p,
        None => {
            return None;
        },
    };
    let i5 = match e_parse_lit(s, n, i4, ",\"completed\":") {
        Some(j) => j,
        None => {
            return None;
        },
    };
    let (completed, i6) = match e_parse_bool(s, n, i5) {
        Some(p) => p,
        None => {
            return None;
        },
    };
    let i7 = match e_parse_lit(s, n, i6, "}") {
        Some(j) => j,
        None => {
            return None;
        },
    };
    let t = Todo { id, task, completed };
    proof {
        reveal_strlit("{\"id\":");
        assert(i1 > i);
        assert(parse_todo(s@.skip(i as int)) == Some((t@, s@.skip(i7 as int))));
    }
    Some((t, i7))
}

/// Reads one or more comma-separated task records at position `i`,
/// mirroring `parse_todos` run with a fuel of the remaining length.
fn e_parse_todos(s: &str, n: usize, i: usize) -> (r: Option<(Vec<Todo>, usize)>)
    requires
        n == s@.len(),
        i <= n,
    ensures
        match r {
            Some(p) => {
                &&& i <= p.1 <= n
                &&& parse_todos(s@.skip(i as int), (n - i) as nat) == Some(
                    (todos_view(p.0@), s@.skip(p.1 as int)),
                )
            },
            None => parse_todos(s@.skip(i as int), (n - i) as nat) is None,
        },
{
    let mut acc: Vec<Todo> = Vec::new();
    let mut k: usize = i;
    proof {
        assert(todos_view(acc@) =~= Seq::<TodoView>::empty());
        if parse_todos(s@.skip(i as int), (n - i) as nat) is Some {
            let p = parse_todos(s@.skip(i as int), (n - i) as nat)->Some_0;
            assert(todos_view(acc@) + p.0 =~= p.0);
        }
    }
    loop
        invariant
            n == s@.len(),
            i <= k <= n,
            acc@.len() <= k - i,
            (match parse_todos(s@.skip(k as int), ((n - i) - acc@.len()) as nat) {
                Some(p) => parse_todos(s@.skip(i as int), (n - i) as nat) == Some(
                    (todos_view(acc@) + p.0, p.1),
                ),
                None => parse_todos(s@.skip(i as int), (n - i) as nat) is None,
            }),
        decreases n - k,
    {
        let ghost fuel = ((n - i) - acc@.len()) as nat;
        match e_parse_todo(s, n, k) {
            None => {
                proof {
                    assert(parse_todos(s@.skip(k as int), fuel) is None);
                }
                return None;
            },
            Some((t, j)) => {
                proof {
                    assert(k < n);
                    assert(fuel > 0);
                }
                let ghost pre = acc@;
                acc.push(t);
                proof {
                    assert(todos_view(acc@) =~= todos_view(pre) + seq![t@]);
                }
                if j < n && s.get_char(j) == ',' {
                    proof {
                        assert(s@.skip(j as int)[0] == s@[j as int]);
                        assert(s@.skip(j as int).len() > 0);
                        assert(s@.skip(j as int).skip(1) =~= s@.skip(j + 1 as int));
                        let rest = parse_todos(s@.skip(j + 1 as int), (fuel - 1) as nat);
                        assert(parse_todos(s@.skip(k as int), fuel) == (match rest {
                            None => None::<(Seq<TodoView>, Seq<char>)>,
                            Some(p) => Some((seq![t@] + p.0, p.1)),
                        }));
                        if rest is Some {
                            let p = rest->Some_0;
                            assert(todos_view(pre) + (seq![t@] + p.0) =~= todos_view(acc@) + p.0);
                        }
                    }
                    k = j + 1;
                } else {
                    proof {
                        let rseq = s@.skip(j as int);
                        assert(j < n ==> rseq[0] == s@[j as int]);
                        assert(!(rseq.len() > 0 && rseq[0] == ','));
                        assert(parse_todos(s@.skip(k as int), fuel) == Some((seq![t@], rseq)));
                        assert(todos_view(pre) + seq![t@] =~= todos_view(acc@));
                    }
                    return Some((acc, j));
                }
            },
        }
    }
}

/// Decides whether a decoded list keeps the list invariant.
fn check_wf(list: &TodoList) -> (b: bool)
    ensures
        b == list@.wf(),
{
    if list.next_id < 1 {
        return false;
    }
    let ghost v = list@.todos;
    let mut i: usize = 0;
    while i < list.todos.len()
        invariant
            v == todos_view(list.todos@),
            v.len() == list.todos@.len(),
            1 <= list.next_id,
            i <= v.len(),
            forall|a: int| 0 <= a < i ==> (#[trigger] v[a].id) < list@.next_id,
            forall|a: int, b: int| 0 <= a < b < v.len() && a < i ==> v[a].id != v[b].id,
        decreases v.len() - i,
    {
        if list.todos[i].id >= list.next_id {
            proof {
                assert(list@.todos[i as int].id >= list@.next_id);
                assert(!list@.wf());
            }
            return false;
        }
        let mut j: usize = i + 1;
        while j < list.todos.len()
            invariant
                v == todos_view(list.todos@),
                v.len() == list.todos@.len(),
                i < v.len(),
                i + 1 <= j <= v.len(),
                forall|b: int| i < b < j ==> v[b].id != v[i as int].id,
            decreases v.len() - j,
        {
            if list.todos[j].id == list.todos[i].id {
                proof {
                    assert(list@.todos[i as int].id == list@.todos[j as int].id);
                    assert(i < j);
                    assert(!list@.wf());
                }
                return false;
            }
            j += 1;
        }
        i += 1;
    }
    proof {
        assert(list@.wf());
    }
    true
}

/// Decodes a whole list from its persisted textual form. Yields the list
/// exactly when the text parses and the decoded identifiers keep the list
/// invariant; otherwise says which of the two failed.
pub fn load_from_string(s: &str) -> (r: Result<TodoList, LoadError>)
    ensures
        (match r {
            Ok(list) => parse_list(s@) == Some(list@) && list@.wf(),
            Err(e) => (match e {
                LoadError::Malformed => parse_list(s@) is None,
                LoadError::Invalid => parse_list(s@) matches Some(l) && !l.wf(),
            }),
        }),
        (match r {
            Ok(list) => spec_load(s@) == Some(list@),
            Err(_) => spec_load(s@) is None,
        }),
{
    let n = s.unicode_len();
    proof {
        assert(s@.skip(0) =~= s@);
    }
    let i1 = match e_parse_lit(s, n, 0, "{\"todos\":[") {
        Some(j) => j,
        None => {
            return Err(LoadError::Malformed);
        },
    };
    let has_records = i1 < n && s.get_char(i1) == '{';
    proof {
        if i1 < n {
            assert(s@.skip(i1 as int)[0] == s@[i1 as int]);
        }
        assert(s@.skip(i1 as int).len() == n - i1);
        assert(has_records == (s@.skip(i1 as int).len() > 0 && s@.skip(i1 as int)[0] == '{'));
    }
    let (todos, i2): (Vec<Todo>, usize) = if has_records {
        match e_parse_todos(s, n, i1) {
            Some(p) => p,
            None => {
                return Err(LoadError::Malformed);
            },
        }
    } else {
        let empty_vec: Vec<Todo> = Vec::new();
        proof {
            assert(todos_view(empty_vec@) =~= Seq::<TodoView>::empty());
        }
        (empty_vec, i1)
    };
    let i3 = match e_parse_lit(s, n, i2, "],\"next_id\":") {
        Some(j) => j,
        None => {
            return Err(LoadError::Malformed);
        },
    };
    let (nid, i4) = match e_parse_u32(s, n, i3) {
        Some(p) => p,
        None => {
            return Err(LoadError::Malformed);
        },
    };
    let i5 = match e_parse_lit(s, n, i4, "}") {
        Some(j) => j,
        None => {
            return Err(LoadError::Malformed);
        },
    };
    if i5 < n {
        proof {
            assert(s@.skip(i5 as int).len() > 0);
        }
        return Err(LoadError::Malformed);
    }
    let list = TodoList { todos, next_id: nid };
    proof {
        assert(s@.skip(i5 as int).len() == 0);
        assert(list@ =~= (TodoListView { todos: todos_view(list.todos@), next_id: nid }));
        assert(parse_list(s@) == Some(list@));
    }
    if check_wf(&list) {
        Ok(list)
    } else {
        Err(LoadError::Invalid)
    }
}

/// The value of a run of digit characters read left to right onto an
/// accumulator.
pub open spec fn fold_digits(acc: int, ds: Seq<char>) -> int
    decreases ds.len(),
{
    if ds.len() == 0 {
        acc
    } else {
        fold_digits(acc * 10 + digit_val(ds[0]), ds.skip(1))
    }
}

/// Stripping a literal off a text that starts with it leaves the rest.
proof fn lemma_parse_lit_concat(lit: Seq<char>, rest: Seq<char>)
    ensures
        parse_lit(lit + rest, lit) == Some(rest),
{
    assert(lit =~= (lit + rest).subrange(0, lit.len() as int));
    assert((lit + rest).skip(lit.len() as int) =~= rest);
}

/// The digit character of a value below ten reads back as that value.
proof fn lemma_digit_char_val(d: int)
    requires
        0 <= d < 10,
    ensures
        is_digit(digit_char(d)),
        digit_val(digit_char(d)) == d,
{
}

/// The decimal digits of a nonnegative number: at least one, all digits.
proof fn lemma_dec_of_digits(n: int)
    requires
        0 <= n,
    ensures
        dec_of(n).len() >= 1,
        forall|k: int| 0 <= k < dec_of(n).len() ==> is_digit(#[trigger] dec_of(n)[k]),
    decreases n,
{
    if n < 10 {
        lemma_digit_char_val(n);
    } else {
        lemma_dec_of_digits(n / 10);
        lemma_digit_char_val(n % 10);
        assert forall|k: int| 0 <= k < dec_of(n).len() implies is_digit(#[trigger] dec_of(n)[k]) by {
            if k < dec_of(n / 10).len() {
                assert(dec_of(n)[k] == dec_of(n / 10)[k]);
            } else {
                assert(dec_of(n)[k] == digit_char(n % 10));
            }
        }
    }
}

/// Reading digits left to right accumulates at least the accumulator.
proof fn lemma_fold_digits_mono(acc: int, ds: Seq<char>)
    requires
        0 <= acc,
        forall|k: int| 0 <= k < ds.len() ==> is_digit(#[trigger] ds[k]),
    ensures
        acc <= fold_digits(acc, ds),
    decreases ds.len(),
{
    if ds.len() > 0 {
        assert(is_digit(ds[0]));
        let acc2 = acc * 10 + digit_val(ds[0]);
        assert forall|k: int| 0 <= k < ds.skip(1).len() implies is_digit(#[trigger] ds.skip(1)[k]) by {
            assert(ds.skip(1)[k] == ds[k + 1]);
        }
        lemma_fold_digits_mono(acc2, ds.skip(1));
    }
}

/// The number reader consumes exactly a run of digits followed by a
/// non-digit, and accumulates their value.
proof fn lemma_parse_u32_rec_digits(acc: int, ds: Seq<char>, rest: Seq<char>)
    requires
        0 <= acc,
        forall|k: int| 0 <= k < ds.len() ==> is_digit(#[trigger] ds[k]),
        rest.len() == 0 || !is_digit(rest[0]),
        fold_digits(acc, ds) <= u32::MAX as int,
    ensures
        parse_u32_rec(ds + rest, acc) == Some((fold_digits(acc, ds), rest)),
    decreases ds.len(),
{
    let s = ds + rest;
    if ds.len() == 0 {
        assert(s =~= rest);
    } else {
        assert(s[0] == ds[0]);
        assert(is_digit(s[0]));
        let acc2 = acc * 10 + digit_val(s[0]);
        assert forall|k: int| 0 <= k < ds.skip(1).len() implies is_digit(#[trigger] ds.skip(1)[k]) by {
            assert(ds.skip(1)[k] == ds[k + 1]);
        }
        assert(fold_digits(acc2, ds.skip(1)) == fold_digits(acc, ds));
        lemma_fold_digits_mono(acc2, ds.skip(1));
        assert(acc2 <= u32::MAX as int);
        lemma_parse_u32_rec_digits(acc2, ds.skip(1), rest);
        assert(s.skip(1) =~= ds.skip(1) + rest);
    }
}

/// Appending one digit multiplies the accumulated value by ten and adds
/// the digit.
proof fn lemma_fold_digits_snoc(acc: int, ds: Seq<char>, c: char)
    ensures
        fold_digits(acc, ds.push(c)) == fold_digits(acc, ds) * 10 + digit_val(c),
    decreases ds.len(),
{
    if ds.len() == 0 {
        assert(ds.push(c)[0] == c);
        assert(ds.push(c).skip(1) =~= Seq::<char>::empty());
        assert(fold_digits(acc, ds.push(c)) == fold_digits(
            acc * 10 + digit_val(c),
            Seq::<char>::empty(),
        ));
        assert(fold_digits(acc * 10 + digit_val(c), Seq::<char>::empty()) == acc * 10 + digit_val(
            c,
        ));
        assert(fold_digits(acc, ds) == acc);
    } else {
        assert(ds.push(c)[0] == ds[0]);
        assert(ds.push(c).skip(1) =~= ds.skip(1).push(c));
        assert(fold_digits(acc, ds.push(c)) == fold_digits(
            acc * 10 + digit_val(ds[0]),
            ds.skip(1).push(c),
        ));
        assert(fold_digits(acc, ds) == fold_digits(acc * 10 + digit_val(ds[0]), ds.skip(1)));
        lemma_fold_digits_snoc(acc * 10 + digit_val(ds[0]), ds.skip(1), c);
    }
}

/// The decimal digits of a nonnegative number read back as that number.
proof fn lemma_fold_dec_of(n: int)
    requires
        0 <= n,
    ensures
        fold_digits(0, dec_of(n)) == n,
    decreases n,
{
    if n < 10 {
        lemma_digit_char_val(n);
        assert(dec_of(n)[0] == digit_char(n));
        assert(dec_of(n).skip(1) =~= Seq::<char>::empty());
        assert(fold_digits(0, dec_of(n)) == fold_digits(digit_val(digit_char(n)), Seq::<char>::empty()));
        assert(fold_digits(digit_val(digit_char(n)), Seq::<char>::empty()) == n);
    } else {
        lemma_fold_dec_of(n / 10);
        lemma_digit_char_val(n % 10);
        assert(dec_of(n) =~= dec_of(n / 10).push(digit_char(n % 10)));
        lemma_fold_digits_snoc(0, dec_of(n / 10), digit_char(n % 10));
        assert(fold_digits(0, dec_of(n)) == fold_digits(0, dec_of(n / 10)) * 10 + digit_val(
            digit_char(n % 10),
        ));
        assert(n == (n / 10) * 10 + n % 10);
    }
}

/// A serialized number followed by a non-digit parses back to the number.
proof fn lemma_parse_u32_dec(n: u32, rest: Seq<char>)
    requires
        rest.len() == 0 || !is_digit(rest[0]),
    ensures
        parse_u32(dec_of(n as int) + rest) == Some((n, rest)),
{
    lemma_dec_of_digits(n as int);
    lemma_fold_dec_of(n as int);
    lemma_parse_u32_rec_digits(0, dec_of(n as int), rest);
    let s = dec_of(n as int) + rest;
    assert(s[0] == dec_of(n as int)[0]);
    assert(is_digit(s[0]));
}

/// An escaped text followed by its closing quote parses back to the text.
proof fn lemma_parse_str_esc(t: Seq<char>, rest: Seq<char>)
    ensures
        parse_str_chars(esc(t) + seq!['"'] + rest) == Some((t, rest)),
    decreases t.len(),
{
    let s = esc(t) + seq!['"'] + rest;
    if t.len() == 0 {
        assert(s =~= seq!['"'] + rest);
        assert(s[0] == '"');
        assert(s.skip(1) =~= rest);
    } else {
        lemma_parse_str_esc(t.skip(1), rest);
        let c = t[0];
        if c == '"' || c == '\\' {
            assert(esc(t) == seq!['\\', c] + esc(t.skip(1)));
            assert(s[0] == '\\');
            assert(s[1] == c);
            assert(s.len() >= 2);
            assert(s.skip(2) =~= esc(t.skip(1)) + seq!['"'] + rest);
            assert(seq![c] + t.skip(1) =~= t);
        } else {
            assert(esc(t) == seq![c] + esc(t.skip(1)));
            assert(s[0] == c);
            assert(s.skip(1) =~= esc(t.skip(1)) + seq!['"'] + rest);
            assert(seq![c] + t.skip(1) =~= t);
        }
    }
}

/// A serialized task record followed by anything parses back to the
/// record, leaving that remainder.
proof fn lemma_parse_todo_ser(t: TodoView, rest: Seq<char>)
    ensures
        parse_todo(ser_todo(t) + rest) == Some((t, rest)),
{
    reveal_strlit("{\"id\":");
    reveal_strlit(",\"task\":\"");
    reveal_strlit("\"");
    reveal_strlit(",\"completed\":");
    reveal_strlit("true");
    reveal_strlit("false");
    reveal_strlit("}");
    let s = ser_todo(t) + rest;
    let r7 = "}"@ + rest;
    let r6 = ser_bool(t.completed) + r7;
    let r5 = ",\"completed\":"@ + r6;
    let r4 = "\""@ + r5;
    let r3 = esc(t.task) + r4;
    let r2 = ",\"task\":\""@ + r3;
    let r1 = dec_of(t.id as int) + r2;
    assert(s =~= "{\"id\":"@ + r1);
    lemma_parse_lit_concat("{\"id\":"@, r1);
    assert(parse_lit(s, "{\"id\":"@) == Some(r1));
    assert(r2[0] == ',');
    assert(!is_digit(','));
    lemma_parse_u32_dec(t.id, r2);
    assert(parse_u32(r1) == Some((t.id, r2)));
    lemma_parse_lit_concat(",\"task\":\""@, r3);
    assert(r3 =~= esc(t.task) + seq!['"'] + r5);
    lemma_parse_str_esc(t.task, r5);
    assert(parse_str_chars(r3) == Some((t.task, r5)));
    lemma_parse_lit_concat(",\"completed\":"@, r6);
    if t.completed {
        lemma_parse_lit_concat("true"@, r7);
        assert(parse_bool(r6) == Some((true, r7)));
    } else {
        assert(r6[0] == 'f');
        assert(!("true"@.is_prefix_of(r6))) by {
            if "true"@.is_prefix_of(r6) {
                assert(r6.subrange(0, 4)[0] == "true"@[0]);
            }
        }
        lemma_parse_lit_concat("false"@, r7);
        assert(parse_bool(r6) == Some((false, r7)));
    }
    assert(r7 =~= "}"@ + rest);
    lemma_parse_lit_concat("}"@, rest);
    assert(parse_todo(s) == Some(
        (TodoView { id: t.id, task: t.task, completed: t.completed }, rest),
    ));
    assert(TodoView { id: t.id, task: t.task, completed: t.completed } =~= t);
}

/// A serialized task record is never empty.
proof fn lemma_ser_todo_len(t: TodoView)
    ensures
        ser_todo(t).len() >= 1,
{
    reveal_strlit("{\"id\":");
}

/// A serialized task array is at least as long as the array.
proof fn lemma_ser_todos_len(ts: Seq<TodoView>)
    ensures
        ser_todos(ts).len() >= ts.len(),
    decreases ts.len(),
{
    if ts.len() == 0 {
    } else if ts.len() == 1 {
        lemma_ser_todo_len(ts[0]);
    } else {
        lemma_ser_todo_len(ts[0]);
        lemma_ser_todos_len(ts.skip(1));
    }
}

/// A serialized task array starts with an opening brace.
proof fn lemma_ser_todos_first(ts: Seq<TodoView>)
    requires
        ts.len() >= 1,
    ensures
        ser_todos(ts).len() >= 1,
        ser_todos(ts)[0] == '{',
{
    reveal_strlit("{\"id\":");
    lemma_ser_todo_len(ts[0]);
    assert(ser_todo(ts[0])[0] == '{');
    if ts.len() == 1 {
    } else {
        assert(ser_todos(ts)[0] == ser_todo(ts[0])[0]);
    }
}

/// A serialized nonempty task array followed by a remainder that does not
/// begin with a comma parses back to the array, given fuel for each
/// record.
#[verifier::rlimit(60)]
proof fn lemma_parse_todos_ser(ts: Seq<TodoView>, rest: Seq<char>, fuel: nat)
    requires
        ts.len() >= 1,
        fuel >= ts.len(),
        rest.len() > 0,
        rest[0] != ',',
    ensures
        parse_todos(ser_todos(ts) + rest, fuel) == Some((ts, rest)),
    decreases ts.len(),
{
    reveal_strlit(",");
    let s = ser_todos(ts) + rest;
    if ts.len() == 1 {
        assert(s =~= ser_todo(ts[0]) + rest);
        lemma_parse_todo_ser(ts[0], rest);
        assert(parse_todo(s) == Some((ts[0], rest)));
        assert(seq![ts[0]] =~= ts);
    } else {
        let r1 = ","@ + (ser_todos(ts.skip(1)) + rest);
        assert(s =~= ser_todo(ts[0]) + r1);
        lemma_parse_todo_ser(ts[0], r1);
        assert(parse_todo(s) == Some((ts[0], r1)));
        assert(r1.len() > 0 && r1[0] == ',');
        assert(r1.skip(1) =~= ser_todos(ts.skip(1)) + rest);
        lemma_parse_todos_ser(ts.skip(1), rest, (fuel - 1) as nat);
        assert(parse_todos(r1.skip(1), (fuel - 1) as nat) == Some((ts.skip(1), rest)));
        assert(seq![ts[0]] + ts.skip(1) =~= ts);
    }
}

/// Law: saving and loading reproduce a well-formed list exactly — the
/// serialized text of `l` parses back to `l`, identifiers, texts,
/// completion flags, order and counter included, and passes the
/// invariant check, so loading yields it.
pub proof fn lemma_save_load_round_trip(l: TodoListView)
    requires
        l.wf(),
    ensures
        parse_list(ser_list(l)) == Some(l),
        spec_load(ser_list(l)) == Some(l),
{
    reveal_strlit("{\"todos\":[");
    reveal_strlit("],\"next_id\":");
    reveal_strlit("}");
    let s = ser_list(l);
    let r3 = dec_of(l.next_id as int) + "}"@;
    let r2 = "],\"next_id\":"@ + r3;
    let r1 = ser_todos(l.todos) + r2;
    assert(s =~= "{\"todos\":["@ + r1);
    lemma_parse_lit_concat("{\"todos\":["@, r1);
    assert(parse_lit(s, "{\"todos\":["@) == Some(r1));
    lemma_dec_of_digits(l.next_id as int);
    if l.todos.len() == 0 {
        assert(ser_todos(l.todos) =~= Seq::<char>::empty());
        assert(r1 =~= r2);
        assert(r1[0] == ']');
        assert(!(r1.len() > 0 && r1[0] == '{'));
        lemma_parse_lit_concat("],\"next_id\":"@, r3);
        assert(parse_lit(r1, "],\"next_id\":"@) == Some(r3));
        assert(!is_digit('}'));
        lemma_parse_u32_dec(l.next_id, "}"@);
        assert(parse_u32(r3) == Some((l.next_id, "}"@)));
        assert("}"@ =~= "}"@ + Seq::<char>::empty());
        lemma_parse_lit_concat("}"@, Seq::<char>::empty());
        assert(parse_lit("}"@, "}"@) == Some(Seq::<char>::empty()));
        assert(parse_list(s) == Some(
            (TodoListView { todos: Seq::<TodoView>::empty(), next_id: l.next_id }),
        ));
        assert(TodoListView { todos: Seq::<TodoView>::empty(), next_id: l.next_id } =~= l);
    } else {
        lemma_ser_todos_first(l.todos);
        assert(r1[0] == ser_todos(l.todos)[0]);
        assert(r1.len() > 0 && r1[0] == '{');
        assert(r2[0] == ']');
        assert(r2.len() > 0 && r2[0] != ',');
        lemma_ser_todos_len(l.todos);
        assert(r1.len() >= l.todos.len());
        lemma_parse_todos_ser(l.todos, r2, r1.len() as nat);
        assert(parse_todos(r1, r1.len() as nat) == Some((l.todos, r2)));
        lemma_parse_lit_concat("],\"next_id\":"@, r3);
        assert(parse_lit(r2, "],\"next_id\":"@) == Some(r3));
        assert(!is_digit('}'));
        lemma_parse_u32_dec(l.next_id, "}"@);
        assert(parse_u32(r3) == Some((l.next_id, "}"@)));
        assert("}"@ =~= "}"@ + Seq::<char>::empty());
        lemma_parse_lit_concat("}"@, Seq::<char>::empty());
        assert(parse_lit("}"@, "}"@) == Some(Seq::<char>::empty()));
        assert(parse_list(s) == Some((TodoListView { todos: l.todos, next_id: l.next_id })));
        assert(TodoListView { todos: l.todos, next_id: l.next_id } =~= l);
    }
}

} // verus!
