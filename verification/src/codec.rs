//! JSON wire codec for the synchronization protocol.
//!
//! Frames are JSON envelopes discriminated by an action tag: an inbound
//! update is `{"action":"tasks","payload":{...}}` and an outbound
//! snapshot is `{"action":"new_tasks","payload":{...}}`, the payload
//! being `{"tasks":[{"id":<int>,"summary":<string>},...],"next_id":<int>}`.
//! The codec emits the canonical form of that grammar — no spare
//! whitespace, fields in the order above, `"` and `\` escaped with a
//! backslash — and the parser accepts exactly the canonical texts, so
//! that every serialized frame parses back to the value it came from.
use vstd::prelude::*;

use vstd::string::StrSliceExecFns;

use crate::tasks::{Task, TaskModel, Tasks, TasksModel};

verus! {

// ---------------------------------------------------------------------
// The canonical text of a value, as spec functions.
// ---------------------------------------------------------------------
/// The digit character for one decimal digit.
pub open spec fn dec_digit(d: nat) -> char {
    if d == 0 {
        '0'
    } else if d == 1 {
        '1'
    } else if d == 2 {
        '2'
    } else if d == 3 {
        '3'
    } else if d == 4 {
        '4'
    } else if d == 5 {
        '5'
    } else if d == 6 {
        '6'
    } else if d == 7 {
        '7'
    } else if d == 8 {
        '8'
    } else {
        '9'
    }
}

/// The decimal digit a character stands for, or 10 for any other character.
pub open spec fn digit_val(c: char) -> nat {
    if c == '0' {
        0
    } else if c == '1' {
        1
    } else if c == '2' {
        2
    } else if c == '3' {
        3
    } else if c == '4' {
        4
    } else if c == '5' {
        5
    } else if c == '6' {
        6
    } else if c == '7' {
        7
    } else if c == '8' {
        8
    } else if c == '9' {
        9
    } else {
        10
    }
}

pub open spec fn is_digit(c: char) -> bool {
    digit_val(c) < 10
}

/// The canonical decimal text of a natural number: no sign, no leading
/// zero except for zero itself.
pub open spec fn dec_chars(n: nat) -> Seq<char>
    decreases n,
{
    if n < 10 {
        seq![dec_digit(n)]
    } else {
        dec_chars(n / 10).push(dec_digit(n % 10))
    }
}

/// The value of a digit string, most significant digit first.
pub open spec fn digits_val(s: Seq<char>) -> nat
    decreases s.len(),
{
    if s.len() == 0 {
        0
    } else {
        digits_val(s.drop_last()) * 10 + digit_val(s.last())
    }
}

pub open spec fn all_digits(s: Seq<char>) -> bool {
    forall|i: int| 0 <= i < s.len() ==> is_digit(#[trigger] s[i])
}

/// The canonical decimal text of an integer: a minus sign for a negative
/// value, then the digits of its magnitude.
pub open spec fn int_chars(n: int) -> Seq<char> {
    if n < 0 {
        seq!['-'] + dec_chars((-n) as nat)
    } else {
        dec_chars(n as nat)
    }
}

/// How one character appears inside a JSON string: `"` and `\` get a
/// backslash, everything else stands for itself.
pub open spec fn escape_char(c: char) -> Seq<char> {
    if c == '"' {
        seq!['\\', '"']
    } else if c == '\\' {
        seq!['\\', '\\']
    } else {
        seq![c]
    }
}

/// The escaped body of a JSON string.
pub open spec fn escape(s: Seq<char>) -> Seq<char>
    decreases s.len(),
{
    if s.len() == 0 {
        Seq::empty()
    } else {
        escape(s.drop_last()) + escape_char(s.last())
    }
}

/// The canonical text of one task object.
pub open spec fn task_json(t: TaskModel) -> Seq<char> {
    "{\"id\":"@ + int_chars(t.id) + ",\"summary\":\""@ + escape(t.summary) + "\"}"@
}

/// The canonical text of the tail of a task array: a comma before each
/// further element.
pub open spec fn task_rest_json(ts: Seq<TaskModel>) -> Seq<char>
    decreases ts.len(),
{
    if ts.len() == 0 {
        Seq::empty()
    } else {
        seq![','] + task_json(ts[0]) + task_rest_json(ts.skip(1))
    }
}

/// The canonical text of the elements of a task array.
pub open spec fn task_list_json(ts: Seq<TaskModel>) -> Seq<char>
    decreases ts.len(),
{
    if ts.len() == 0 {
        Seq::empty()
    } else {
        task_json(ts[0]) + task_rest_json(ts.skip(1))
    }
}

/// The canonical text of one user's task state.
pub open spec fn tasks_json(t: TasksModel) -> Seq<char> {
    "{\"tasks\":["@ + task_list_json(t.tasks) + "],\"next_id\":"@ + int_chars(t.next_id) + "}"@
}

/// The canonical text of an inbound update frame.
pub open spec fn in_msg_json(t: TasksModel) -> Seq<char> {
    "{\"action\":\"tasks\",\"payload\":"@ + tasks_json(t) + "}"@
}

/// The canonical text of an outbound snapshot frame.
pub open spec fn out_msg_json(t: TasksModel) -> Seq<char> {
    "{\"action\":\"new_tasks\",\"payload\":"@ + tasks_json(t) + "}"@
}

// ---------------------------------------------------------------------
// Small facts about the canonical texts.
// ---------------------------------------------------------------------
/// Decimal texts consist of digits, never start with a spurious zero, and
/// denote the number they were made from.
pub proof fn lemma_dec_chars(n: nat)
    ensures
        dec_chars(n).len() >= 1,
        all_digits(dec_chars(n)),
        dec_chars(n).len() > 1 ==> dec_chars(n)[0] != '0',
        n >= 10 ==> dec_chars(n).len() > 1,
        digits_val(dec_chars(n)) == n,
    decreases n,
{
    if n < 10 {
        let s = dec_chars(n);
        assert(s.len() == 1);
        assert(s[0] == dec_digit(n));
        assert(s.last() == dec_digit(n));
        assert(digit_val(dec_digit(n)) == n);
        assert(s.drop_last() =~= Seq::<char>::empty());
        assert(digits_val(s) == digits_val(s.drop_last()) * 10 + digit_val(s.last()));
    } else {
        lemma_dec_chars(n / 10);
        let s = dec_chars(n);
        let p = dec_chars(n / 10);
        assert(s =~= p + seq![dec_digit(n % 10)]);
        assert(s.drop_last() =~= p);
        assert(s.last() == dec_digit(n % 10));
        assert(digit_val(dec_digit(n % 10)) == n % 10);
        assert(digits_val(s) == (n / 10) * 10 + n % 10);
        assert(n == (n / 10) * 10 + n % 10) by (nonlinear_arith);
        assert(s[0] == p[0]);
        assert(n / 10 >= 1);
        if p.len() == 1 {
            assert(p[0] == dec_digit(n / 10));
            assert(n / 10 < 10 ==> dec_digit(n / 10) != '0');
        }
        assert(forall|i: int| 0 <= i < s.len() ==> is_digit(s[i]));
    }
}

/// The value of a digit string only grows as more digits follow.
pub proof fn lemma_digits_val_prefix_le(s: Seq<char>, k: int)
    requires
        0 <= k <= s.len(),
    ensures
        digits_val(s.take(k)) <= digits_val(s),
    decreases s.len() - k,
{
    if k == s.len() {
        assert(s.take(k) =~= s);
    } else {
        lemma_digits_val_prefix_le(s, k + 1);
        let t = s.take(k + 1);
        assert(t.drop_last() =~= s.take(k));
        assert(digits_val(t) == digits_val(s.take(k)) * 10 + digit_val(t.last()));
        assert(digits_val(s.take(k)) <= digits_val(t));
    }
}

/// Appending one more character extends the value of a digit string.
pub proof fn lemma_digits_val_take_snoc(s: Seq<char>, k: int)
    requires
        0 <= k < s.len(),
    ensures
        digits_val(s.take(k + 1)) == digits_val(s.take(k)) * 10 + digit_val(s[k]),
{
    let t = s.take(k + 1);
    assert(t.drop_last() =~= s.take(k));
    assert(t.last() == s[k]);
}

/// Escaping distributes over concatenation.
pub proof fn lemma_escape_concat(a: Seq<char>, b: Seq<char>)
    ensures
        escape(a + b) == escape(a) + escape(b),
    decreases b.len(),
{
    if b.len() == 0 {
        assert(a + b =~= a);
        assert(escape(a) + escape(b) =~= escape(a));
    } else {
        lemma_escape_concat(a, b.drop_last());
        assert((a + b).drop_last() =~= a + b.drop_last());
        assert((a + b).len() > 0);
        assert((a + b).last() == b.last());
        assert(escape(a + b) == escape(a + b.drop_last()) + escape_char(b.last()));
        assert(escape(b) == escape(b.drop_last()) + escape_char(b.last()));
        assert(escape(a) + escape(b.drop_last()) + escape_char(b.last()) =~= escape(a) + (escape(
            b.drop_last(),
        ) + escape_char(b.last())));
    }
}

/// Escaping one more character appends that character's escape.
pub proof fn lemma_escape_take_snoc(s: Seq<char>, k: int)
    requires
        0 <= k < s.len(),
    ensures
        escape(s.take(k + 1)) == escape(s.take(k)) + escape_char(s[k]),
{
    let t = s.take(k + 1);
    assert(t.drop_last() =~= s.take(k));
    assert(t.last() == s[k]);
}

// ---------------------------------------------------------------------
// Serialization.
// ---------------------------------------------------------------------
/// The digit character of one decimal digit.
fn digit_char(d: u64) -> (c: char)
    requires
        d < 10,
    ensures
        c == dec_digit(d as nat),
{
    match d {
        0 => '0',
        1 => '1',
        2 => '2',
        3 => '3',
        4 => '4',
        5 => '5',
        6 => '6',
        7 => '7',
        8 => '8',
        _ => '9',
    }
}

/// Appends the characters of a literal piece of the grammar.
fn push_chars(out: &mut Vec<char>, lit: &str)
    ensures
        final(out)@ == old(out)@ + lit@,
{
    let n = lit.unicode_len();
    let mut i: usize = 0;
    while i < n
        invariant
            n == lit@.len(),
            i <= n,
            out@ == old(out)@ + lit@.take(i as int),
        decreases n - i,
    {
        out.push(lit.get_char(i));
        proof {
            assert(out@ =~= old(out)@ + lit@.take(i + 1));
        }
        i += 1;
    }
    proof {
        assert(out@ =~= old(out)@ + lit@);
    }
}

/// Appends the canonical decimal text of a natural number.
fn push_uint(out: &mut Vec<char>, n: u64)
    ensures
        final(out)@ == old(out)@ + dec_chars(n as nat),
    decreases n,
{
    if n < 10 {
        out.push(digit_char(n));
        proof {
            assert(out@ =~= old(out)@ + dec_chars(n as nat));
        }
    } else {
        push_uint(out, n / 10);
        out.push(digit_char(n % 10));
        proof {
            assert(dec_chars(n as nat) =~= dec_chars((n as nat) / 10) + seq![
                dec_digit((n as nat) % 10),
            ]);
            assert(out@ =~= old(out)@ + dec_chars(n as nat));
        }
    }
}

/// Appends the canonical decimal text of an integer.
fn push_int(out: &mut Vec<char>, n: i32)
    ensures
        final(out)@ == old(out)@ + int_chars(n as int),
{
    if n >= 0 {
        push_uint(out, n as u64);
    } else {
        out.push('-');
        let m: u64 = (-(n as i64)) as u64;
        assert(m as nat == (-(n as int)) as nat);
        push_uint(out, m);
        proof {
            assert(out@ =~= old(out)@ + (seq!['-'] + dec_chars(m as nat)));
        }
    }
}

/// Appends the escaped body of a JSON string.
fn push_escaped(out: &mut Vec<char>, s: &str)
    ensures
        final(out)@ == old(out)@ + escape(s@),
{
    let n = s.unicode_len();
    let mut i: usize = 0;
    proof {
        assert(s@.take(0) =~= Seq::<char>::empty());
        assert(out@ =~= old(out)@ + escape(s@.take(0)));
    }
    while i < n
        invariant
            n == s@.len(),
            i <= n,
            out@ == old(out)@ + escape(s@.take(i as int)),
        decreases n - i,
    {
        let c = s.get_char(i);
        if c == '"' {
            out.push('\\');
            out.push('"');
        } else if c == '\\' {
            out.push('\\');
            out.push('\\');
        } else {
            out.push(c);
        }
        proof {
            lemma_escape_take_snoc(s@, i as int);
            assert(out@ =~= old(out)@ + escape(s@.take(i + 1)));
        }
        i += 1;
    }
    proof {
        assert(s@.take(n as int) =~= s@);
    }
}

/// Appends the canonical text of one task object.
fn push_task(out: &mut Vec<char>, t: &Task)
    ensures
        final(out)@ == old(out)@ + task_json(t@),
{
    push_chars(out, "{\"id\":");
    push_int(out, t.id);
    push_chars(out, ",\"summary\":\"");
    push_escaped(out, t.summary.as_str());
    push_chars(out, "\"}");
    proof {
        assert(out@ =~= old(out)@ + task_json(t@));
    }
}

/// Appends the canonical text of the task array elements from one index on.
fn push_task_rest(out: &mut Vec<char>, ts: &Vec<Task>, i: usize)
    requires
        1 <= i <= ts@.len(),
    ensures
        final(out)@ == old(out)@ + task_rest_json(ts@.map_values(|t: Task| t@).skip(i as int)),
    decreases ts@.len() - i,
{
    let ghost models = ts@.map_values(|t: Task| t@);
    if i == ts.len() {
        proof {
            assert(models.skip(i as int) =~= Seq::<TaskModel>::empty());
            assert(out@ =~= old(out)@ + task_rest_json(models.skip(i as int)));
        }
    } else {
        push_chars(out, ",");
        push_task(out, &ts[i]);
        push_task_rest(out, ts, i + 1);
        proof {
            let rest = models.skip(i as int);
            assert(rest[0] == ts@[i as int]@);
            assert(rest.skip(1) =~= models.skip(i + 1));
            reveal_strlit(",");
            assert(","@ =~= seq![',']);
            assert(out@ =~= old(out)@ + task_rest_json(models.skip(i as int)));
        }
    }
}

/// Appends the canonical text of one user's task state.
fn push_tasks(out: &mut Vec<char>, t: &Tasks)
    ensures
        final(out)@ == old(out)@ + tasks_json(t@),
{
    let ghost models = t.tasks@.map_values(|x: Task| x@);
    push_chars(out, "{\"tasks\":[");
    if t.tasks.len() > 0 {
        push_task(out, &t.tasks[0]);
        push_task_rest(out, &t.tasks, 1);
        proof {
            assert(models[0] == t.tasks@[0]@);
            assert(task_list_json(models) == task_json(models[0]) + task_rest_json(
                models.skip(1),
            ));
        }
    } else {
        proof {
            assert(task_list_json(models) =~= Seq::<char>::empty());
        }
    }
    push_chars(out, "],\"next_id\":");
    push_int(out, t.next_id);
    push_chars(out, "}");
    proof {
        assert(out@ =~= old(out)@ + tasks_json(t@));
    }
}

/// Relies on `core::iter::Iterator::collect` through `String`'s
/// `FromIterator`: collecting characters yields the string of exactly
/// those characters in order.
#[verifier::external_body]
fn chars_to_string(v: &Vec<char>) -> (r: String)
    ensures
        r@ == v@,
{
    v.iter().collect()
}

/// The characters of a string, in order.
fn str_chars(s: &str) -> (r: Vec<char>)
    ensures
        r@ == s@,
{
    let n = s.unicode_len();
    let mut v: Vec<char> = Vec::new();
    let mut i: usize = 0;
    while i < n
        invariant
            n == s@.len(),
            i <= n,
            v@ == s@.take(i as int),
        decreases n - i,
    {
        v.push(s.get_char(i));
        proof {
            assert(v@ =~= s@.take(i + 1));
        }
        i += 1;
    }
    proof {
        assert(v@ =~= s@);
    }
    v
}

// ---------------------------------------------------------------------
// Parsing.  Each parser is exact: it accepts a position exactly when the
// canonical text of some value stands there, and then returns that value.
// ---------------------------------------------------------------------
/// A concatenation standing in a sequence splits into its two parts.
proof fn lemma_split_concat_at(s: Seq<char>, i: int, p: Seq<char>, q: Seq<char>)
    requires
        0 <= i,
        i + p.len() + q.len() <= s.len(),
        s.subrange(i, i + p.len() + q.len()) == p + q,
    ensures
        s.subrange(i, i + p.len()) == p,
        s.subrange(i + p.len(), i + p.len() + q.len()) == q,
{
    let w = s.subrange(i, i + p.len() + q.len());
    assert forall|x: int| 0 <= x < p.len() implies s.subrange(i, i + p.len())[x] == p[x] by {
        assert(w[x] == (p + q)[x]);
    }
    assert(s.subrange(i, i + p.len()) =~= p);
    assert forall|x: int| 0 <= x < q.len() implies s.subrange(
        i + p.len(),
        i + p.len() + q.len(),
    )[x] == q[x] by {
        assert(w[p.len() + x] == (p + q)[p.len() + x]);
    }
    assert(s.subrange(i + p.len(), i + p.len() + q.len()) =~= q);
}

/// A nonempty digit string without a spurious leading zero denotes a
/// positive value ...
proof fn lemma_digits_val_pos(t: Seq<char>)
    requires
        t.len() >= 1,
        all_digits(t),
        t[0] != '0',
    ensures
        digits_val(t) >= 1,
    decreases t.len(),
{
    if t.len() == 1 {
        assert(t.last() == t[0]);
        assert(is_digit(t[0]));
    } else {
        lemma_digits_val_pos(t.drop_last());
        assert(t.drop_last()[0] == t[0]);
    }
}

/// ... and is the canonical text of that value.
proof fn lemma_dec_chars_of_digits(t: Seq<char>)
    requires
        t.len() >= 1,
        all_digits(t),
        t.len() > 1 ==> t[0] != '0',
    ensures
        dec_chars(digits_val(t)) == t,
    decreases t.len(),
{
    if t.len() == 1 {
        let c = t[0];
        assert(t.last() == c);
        assert(t.drop_last() =~= Seq::<char>::empty());
        assert(digits_val(t) == digits_val(t.drop_last()) * 10 + digit_val(t.last()));
        assert(digits_val(t.drop_last()) == 0);
        assert(digits_val(t) == digit_val(c));
        assert(is_digit(c));
        assert(dec_digit(digit_val(c)) == c);
        assert(dec_chars(digits_val(t)) =~= t);
    } else {
        let p = t.drop_last();
        let d = digit_val(t.last());
        assert(p[0] == t[0]);
        assert(forall|x: int| 0 <= x < p.len() ==> p[x] == t[x]);
        lemma_dec_chars_of_digits(p);
        lemma_digits_val_pos(p);
        let v = digits_val(t);
        assert(v == digits_val(p) * 10 + d);
        assert(v >= 10) by (nonlinear_arith)
            requires
                v == digits_val(p) * 10 + d,
                digits_val(p) >= 1,
                d >= 0,
        ;
        assert(v / 10 == digits_val(p) && v % 10 == d) by (nonlinear_arith)
            requires
                v == digits_val(p) * 10 + d,
                0 <= d < 10,
        ;
        assert(is_digit(t.last()));
        assert(dec_digit(d) == t.last());
        assert(dec_chars(v) == dec_chars(v / 10).push(dec_digit(v % 10)));
        assert(dec_chars(v) =~= t);
    }
}

/// The decimal digit a character stands for, or 10 for any other character.
fn digit_of(c: char) -> (d: u64)
    ensures
        d == digit_val(c),
{
    match c {
        '0' => 0,
        '1' => 1,
        '2' => 2,
        '3' => 3,
        '4' => 4,
        '5' => 5,
        '6' => 6,
        '7' => 7,
        '8' => 8,
        '9' => 9,
        _ => 10,
    }
}

/// Consumes one literal piece of the grammar, exactly when it stands at
/// the position.
fn eat_lit(s: &Vec<char>, i: usize, lit: &str) -> (r: Option<usize>)
    requires
        i <= s@.len(),
    ensures
        r matches Some(j) ==> j == i + lit@.len() && j <= s@.len() && s@.subrange(
            i as int,
            j as int,
        ) == lit@,
        r is None ==> i + lit@.len() > s@.len() || s@.subrange(i as int, i + lit@.len()) != lit@,
{
    let m = lit.unicode_len();
    let n = s.len();
    if m > n - i {
        return None;
    }
    let mut k: usize = 0;
    while k < m
        invariant
            m == lit@.len(),
            n == s@.len(),
            i + m <= n,
            k <= m,
            forall|x: int| 0 <= x < k ==> s@[i + x] == lit@[x],
        decreases m - k,
    {
        if !(s[i + k] == lit.get_char(k)) {
            proof {
                assert(s@.subrange(i as int, i + lit@.len())[k as int] != lit@[k as int]);
            }
            return None;
        }
        k += 1;
    }
    proof {
        assert(s@.subrange(i as int, i + lit@.len()) =~= lit@);
    }
    Some(i + m)
}

/// The canonical text of the value `n` stands at position `i` and is
/// followed by the end of the text or by something that is not a digit.
pub open spec fn uint_at(s: Seq<char>, i: int, n: nat) -> bool {
    &&& 0 <= i
    &&& i + dec_chars(n).len() <= s.len()
    &&& s.subrange(i, i + dec_chars(n).len() as int) == dec_chars(n)
    &&& (i + dec_chars(n).len() == s.len() || !is_digit(s[i + dec_chars(n).len()]))
}

/// Parses a natural number up to `max`, exactly when one stands at the
/// position.
fn parse_uint(s: &Vec<char>, i: usize, max: u64) -> (r: Option<(u64, usize)>)
    requires
        i <= s@.len(),
    ensures
        r matches Some(p) ==> p.0 <= max && uint_at(s@, i as int, p.0 as nat) && p.1 == i
            + dec_chars(p.0 as nat).len(),
        forall|n: nat| n <= max && uint_at(s@, i as int, n) ==> (r matches Some(p) && p.0 == n),
{
    let len = s.len();
    let mut j = i;
    while j < len && digit_of(s[j]) < 10
        invariant
            len == s@.len(),
            i <= j <= len,
            forall|x: int| i <= x < j ==> is_digit(s@[x]),
        decreases len - j,
    {
        j += 1;
    }
    let ghost run = s@.subrange(i as int, j as int);
    proof {
        assert(all_digits(run));
        assert(j == len || !is_digit(s@[j as int]));
    }
    if j == i {
        proof {
            assert forall|n: nat| n <= max && uint_at(s@, i as int, n) implies false by {
                lemma_dec_chars(n);
                assert(s@.subrange(i as int, i + dec_chars(n).len() as int)[0] == dec_chars(n)[0]);
                assert(is_digit(s@[i as int]));
            }
        }
        return None;
    }
    if s[i] == '0' && j > i + 1 {
        proof {
            assert forall|n: nat| n <= max && uint_at(s@, i as int, n) implies false by {
                lemma_dec_chars(n);
                let l = dec_chars(n).len() as int;
                assert(s@.subrange(i as int, i + l)[0] == dec_chars(n)[0]);
                if l > 1 {
                    assert(dec_chars(n)[0] != '0');
                } else {
                    assert(i + 1 < j);
                    assert(is_digit(s@[i + 1]));
                }
            }
        }
        return None;
    }
    let mut acc: u128 = 0;
    let mut k = i;
    while k < j
        invariant
            len == s@.len(),
            i <= k <= j <= len,
            run == s@.subrange(i as int, j as int),
            forall|x: int| i <= x < j ==> is_digit(s@[x]),
            j == len || !is_digit(s@[j as int]),
            s@[i as int] == '0' ==> j == i + 1,
            acc == digits_val(run.take(k - i)),
            acc <= max,
        decreases j - k,
    {
        let d = digit_of(s[k]);
        proof {
            assert(run[k - i] == s@[k as int]);
            lemma_digits_val_take_snoc(run, k - i);
        }
        acc = acc * 10 + d as u128;
        if acc > max as u128 {
            proof {
                lemma_digits_val_prefix_le(run, k - i + 1);
                assert forall|n: nat| n <= max && uint_at(s@, i as int, n) implies false by {
                    lemma_dec_chars(n);
                    let l = dec_chars(n).len() as int;
                    assert forall|x: int| 0 <= x < l implies s@[i + x] == dec_chars(n)[x] by {
                        assert(s@.subrange(i as int, i + l)[x] == dec_chars(n)[x]);
                    }
                    assert(i + l == j) by {
                        if i + l < j {
                            assert(is_digit(s@[i + l]));
                        } else if i + l > j {
                            assert(s@[j as int] == dec_chars(n)[j - i]);
                            assert(is_digit(s@[j as int]));
                        }
                    }
                    assert(run =~= dec_chars(n));
                    assert(digits_val(run) == n);
                    assert(digits_val(run.take(k - i + 1)) <= n);
                }
            }
            return None;
        }
        k += 1;
    }
    proof {
        assert(run.take(j - i) =~= run);
        assert(digits_val(run) == acc);
        assert(run.len() >= 1);
        assert(run[0] == s@[i as int]);
        if run.len() > 1 {
            assert(run[0] != '0') by {
                if s@[i as int] == '0' {
                    assert(j == i + 1);
                }
            }
        }
        lemma_dec_chars_of_digits(run);
        assert(uint_at(s@, i as int, acc as nat));
        assert forall|n: nat| n <= max && uint_at(s@, i as int, n) implies n == acc as nat by {
            lemma_dec_chars(n);
            let l = dec_chars(n).len() as int;
            assert forall|x: int| 0 <= x < l implies s@[i + x] == dec_chars(n)[x] by {
                assert(s@.subrange(i as int, i + l)[x] == dec_chars(n)[x]);
            }
            assert(i + l == j) by {
                if i + l < j {
                    assert(is_digit(s@[i + l]));
                } else if i + l > j {
                    assert(s@[j as int] == dec_chars(n)[j - i]);
                    assert(is_digit(s@[j as int]));
                }
            }
            assert(run =~= dec_chars(n));
            assert(digits_val(run) == n);
        }
    }
    Some((acc as u64, j))
}

/// The canonical text of the integer `v` stands at position `i` and is
/// followed by the end of the text or by something that is not a digit.
pub open spec fn int_at(s: Seq<char>, i: int, v: int) -> bool {
    &&& 0 <= i
    &&& i + int_chars(v).len() <= s.len()
    &&& s.subrange(i, i + int_chars(v).len() as int) == int_chars(v)
    &&& (i + int_chars(v).len() == s.len() || !is_digit(s[i + int_chars(v).len()]))
}

/// Parses an integer in the range of `i32`, exactly when one stands at
/// the position.
fn parse_int(s: &Vec<char>, i: usize) -> (r: Option<(i32, usize)>)
    requires
        i <= s@.len(),
    ensures
        r matches Some(p) ==> int_at(s@, i as int, p.0 as int) && p.1 == i + int_chars(
            p.0 as int,
        ).len(),
        forall|v: int| i32::MIN <= v <= i32::MAX && int_at(s@, i as int, v) ==> (r matches Some(p)
            && p.0 == v),
{
    if i < s.len() && s[i] == '-' {
        proof {
            assert forall|v: int| i32::MIN <= v <= i32::MAX && int_at(s@, i as int, v) && v >= 0
                implies false by {
                lemma_dec_chars(v as nat);
                assert(s@.subrange(i as int, i + int_chars(v).len() as int)[0] == int_chars(v)[0]);
                assert(is_digit(s@[i as int]));
            }
            assert forall|v: int| i32::MIN <= v < 0 && int_at(s@, i as int, v) implies uint_at(
                s@,
                i + 1,
                (-v) as nat,
            ) && (-v) as nat <= 2147483648 by {
                let m = dec_chars((-v) as nat);
                assert(int_chars(v) == seq!['-'] + m);
                assert(int_chars(v).len() == 1 + m.len());
                assert forall|x: int| 0 <= x < m.len() implies s@.subrange(
                    i + 1,
                    i + 1 + m.len() as int,
                )[x] == m[x] by {
                    assert(s@.subrange(i as int, i + int_chars(v).len() as int)[1 + x]
                        == int_chars(v)[1 + x]);
                    assert(int_chars(v)[1 + x] == m[x]);
                }
                assert(s@.subrange(i + 1, i + 1 + m.len() as int) =~= m);
            }
        }
        match parse_uint(s, i + 1, 2147483648) {
            Some((m, j)) => {
                if m == 0 {
                    proof {
                        assert forall|v: int|
                            i32::MIN <= v <= i32::MAX && int_at(s@, i as int, v) implies false by {
                            if v < 0 {
                                assert(uint_at(s@, i + 1, (-v) as nat));
                                assert((-v) as nat >= 1);
                            }
                        }
                    }
                    return None;
                }
                let v: i32 = (-(m as i64)) as i32;
                proof {
                    assert(m as nat == (-(v as int)) as nat);
                    assert(int_chars(v as int) =~= seq!['-'] + dec_chars(m as nat));
                    assert forall|x: int| 0 <= x < int_chars(v as int).len() implies s@[i + x]
                        == int_chars(v as int)[x] by {
                        if x == 0 {
                            assert(s@[i as int] == '-');
                        } else {
                            assert(s@.subrange(i + 1, i + 1 + dec_chars(m as nat).len() as int)[x
                                - 1] == dec_chars(m as nat)[x - 1]);
                        }
                    }
                    assert(s@.subrange(i as int, i + int_chars(v as int).len() as int) =~= int_chars(
                        v as int,
                    ));
                    assert forall|w: int|
                        i32::MIN <= w <= i32::MAX && int_at(s@, i as int, w) implies w
                        == v as int by {
                        assert(uint_at(s@, i + 1, (-w) as nat));
                    }
                }
                Some((v, j))
            },
            None => {
                proof {
                    assert forall|v: int| i32::MIN <= v <= i32::MAX && int_at(s@, i as int, v)
                        implies false by {
                        assert(uint_at(s@, i + 1, (-v) as nat));
                    }
                }
                None
            },
        }
    } else {
        proof {
            assert forall|v: int| i32::MIN <= v < 0 && int_at(s@, i as int, v) implies false by {
                assert(s@.subrange(i as int, i + int_chars(v).len() as int)[0] == int_chars(v)[0]);
                assert(int_chars(v)[0] == '-');
            }
            assert forall|v: int| 0 <= v <= i32::MAX && int_at(s@, i as int, v) implies uint_at(
                s@,
                i as int,
                v as nat,
            ) by {
                assert(int_chars(v) == dec_chars(v as nat));
            }
        }
        match parse_uint(s, i, 2147483647) {
            Some((m, j)) => {
                let v: i32 = m as i32;
                proof {
                    assert(int_chars(v as int) == dec_chars(m as nat));
                }
                Some((v, j))
            },
            None => None,
        }
    }
}

/// The escaped body of the string `tv` stands at position `i`, its
/// closing quote right after it.
pub open spec fn str_at(s: Seq<char>, i: int, tv: Seq<char>) -> bool {
    &&& 0 <= i
    &&& i + escape(tv).len() < s.len()
    &&& s.subrange(i, i + escape(tv).len() as int) == escape(tv)
    &&& s[i + escape(tv).len()] == '"'
}

/// With `out` already decoded from the text at `i`, the escaped body of
/// `tv` standing there determines the next step: either the body is
/// fully decoded and the closing quote is next, or the escape of the
/// next character of `tv` is next.
/// Escaping a single character is that character's escape.
proof fn lemma_escape_singleton(c: char)
    ensures
        escape(seq![c]) == escape_char(c),
{
    let s = seq![c];
    assert(s.len() == 1);
    assert(s.last() == c);
    assert(s.drop_last() =~= Seq::<char>::empty());
    assert(escape(s.drop_last()) =~= Seq::<char>::empty());
    assert(escape(s) == escape(s.drop_last()) + escape_char(c));
    assert(Seq::<char>::empty() + escape_char(c) =~= escape_char(c));
}

proof fn lemma_escape_step(s: Seq<char>, i: int, k: int, out: Seq<char>, tv: Seq<char>)
    requires
        str_at(s, i, tv),
        i <= k <= s.len(),
        escape(out) == s.subrange(i, k),
        out.len() <= tv.len(),
        out == tv.take(out.len() as int),
    ensures
        out.len() == tv.len() ==> k == i + escape(tv).len() && s[k] == '"',
        out.len() < tv.len() ==> ({
            let c = tv[out.len() as int];
            &&& k + escape_char(c).len() <= i + escape(tv).len()
            &&& (forall|x: int| 0 <= x < escape_char(c).len() ==> s[k + x] == escape_char(c)[x])
            &&& escape(out.push(c)) == s.subrange(i, k + escape_char(c).len())
            &&& out.push(c) == tv.take(out.len() as int + 1)
        }),
{
    let m = out.len() as int;
    assert(tv =~= tv.take(m) + tv.skip(m));
    lemma_escape_concat(tv.take(m), tv.skip(m));
    assert(escape(tv) == escape(out) + escape(tv.skip(m)));
    assert(k - i == escape(out).len());
    if m == tv.len() {
        assert(tv.skip(m) =~= Seq::<char>::empty());
        assert(escape(tv.skip(m)).len() == 0);
        assert(escape(tv).len() == escape(out).len());
    } else {
        let c = tv[m];
        assert(tv.skip(m) =~= seq![c] + tv.skip(m + 1));
        lemma_escape_concat(seq![c], tv.skip(m + 1));
        lemma_escape_singleton(c);
        assert(escape(tv.skip(m)) == escape_char(c) + escape(tv.skip(m + 1)));
        assert(escape(tv).len() == escape(out).len() + escape_char(c).len() + escape(
            tv.skip(m + 1),
        ).len());
        assert(k + escape_char(c).len() <= i + escape(tv).len());
        assert forall|x: int| 0 <= x < escape_char(c).len() implies s[k + x] == escape_char(c)[x]
            by {
            assert(s.subrange(i, i + escape(tv).len() as int)[k - i + x] == escape(tv)[k - i + x]);
            assert(escape(tv)[k - i + x] == (escape_char(c) + escape(tv.skip(m + 1)))[x]);
        }
        lemma_escape_concat(out, seq![c]);
        assert(out.push(c) =~= out + seq![c]);
        assert(escape(out.push(c)) == escape(out) + escape_char(c));
        assert(escape(out.push(c)) =~= s.subrange(i, k + escape_char(c).len()));
        assert(out.push(c) =~= tv.take(m + 1));
    }
}

/// Parses a JSON string body up to and including its closing quote,
/// exactly when one stands at the position, and returns the text it
/// denotes.
fn parse_string(s: &Vec<char>, i: usize) -> (r: Option<(String, usize)>)
    requires
        i <= s@.len(),
    ensures
        r matches Some(p) ==> str_at(s@, i as int, p.0@) && p.1 == i + escape(p.0@).len() + 1,
        forall|tv: Seq<char>| str_at(s@, i as int, tv) ==> (r matches Some(p) && p.0@ == tv),
{
    let n = s.len();
    let mut out: Vec<char> = Vec::new();
    let mut k = i;
    proof {
        assert(escape(out@) =~= s@.subrange(i as int, i as int));
        assert(forall|tv: Seq<char>| out@ =~= tv.take(0));
    }
    while k < n
        invariant
            n == s@.len(),
            i <= k <= n,
            escape(out@) == s@.subrange(i as int, k as int),
            forall|tv: Seq<char>| #[trigger] str_at(s@, i as int, tv) ==> out@.len() <= tv.len()
                && out@ == tv.take(out@.len() as int),
        decreases n - k,
    {
        let c = s[k];
        if c == '"' {
            proof {
                assert forall|tv: Seq<char>| #[trigger] str_at(s@, i as int, tv) implies out@
                    == tv by {
                    lemma_escape_step(s@, i as int, k as int, out@, tv);
                    if out@.len() < tv.len() {
                        let cc = tv[out@.len() as int];
                        assert(s@[k as int] == escape_char(cc)[0]);
                        assert(false);
                    }
                    assert(out@ =~= tv);
                }
                assert(str_at(s@, i as int, out@));
            }
            let res = chars_to_string(&out);
            return Some((res, k + 1));
        } else if c == '\\' {
            if k + 1 >= n {
                proof {
                    assert forall|tv: Seq<char>| !str_at(s@, i as int, tv) by {
                        if str_at(s@, i as int, tv) {
                            lemma_escape_step(s@, i as int, k as int, out@, tv);
                            if out@.len() < tv.len() {
                                let cc = tv[out@.len() as int];
                                assert(s@[k as int] == escape_char(cc)[0]);
                                assert(escape_char(cc).len() == 2);
                                assert(k + 2 <= i + escape(tv).len());
                            }
                            assert(false);
                        }
                    }
                }
                return None;
            }
            let d = s[k + 1];
            if d == '"' || d == '\\' {
                let ghost prev_out = out@;
                out.push(d);
                proof {
                    lemma_escape_concat(prev_out, seq![d]);
                    assert(out@ =~= prev_out + seq![d]);
                    lemma_escape_singleton(d);
                    assert(escape_char(d) =~= seq!['\\', d]);
                    assert(escape(out@) =~= s@.subrange(i as int, k + 2));
                    assert forall|tv: Seq<char>| #[trigger] str_at(s@, i as int, tv) implies out@.len()
                        <= tv.len() && out@ == tv.take(out@.len() as int) by {
                        lemma_escape_step(s@, i as int, k as int, prev_out, tv);
                        assert(prev_out.len() < tv.len());
                        let cc = tv[prev_out.len() as int];
                        assert(s@[k as int] == escape_char(cc)[0]);
                        assert(cc == '"' || cc == '\\');
                        assert(s@[k + 1] == escape_char(cc)[1]);
                        assert(cc == d);
                        assert(out@ =~= tv.take(prev_out.len() as int + 1));
                    }
                }
                k += 2;
            } else {
                proof {
                    assert forall|tv: Seq<char>| !str_at(s@, i as int, tv) by {
                        if str_at(s@, i as int, tv) {
                            lemma_escape_step(s@, i as int, k as int, out@, tv);
                            if out@.len() < tv.len() {
                                let cc = tv[out@.len() as int];
                                assert(s@[k as int] == escape_char(cc)[0]);
                                assert(cc == '"' || cc == '\\');
                                assert(s@[k + 1] == escape_char(cc)[1]);
                            }
                            assert(false);
                        }
                    }
                }
                return None;
            }
        } else {
            let ghost prev_out = out@;
            out.push(c);
            proof {
                lemma_escape_concat(prev_out, seq![c]);
                assert(out@ =~= prev_out + seq![c]);
                lemma_escape_singleton(c);
                assert(escape_char(c) =~= seq![c]);
                assert(escape(out@) =~= s@.subrange(i as int, k + 1));
                assert forall|tv: Seq<char>| #[trigger] str_at(s@, i as int, tv) implies out@.len()
                    <= tv.len() && out@ == tv.take(out@.len() as int) by {
                    lemma_escape_step(s@, i as int, k as int, prev_out, tv);
                    assert(prev_out.len() < tv.len());
                    let cc = tv[prev_out.len() as int];
                    assert(s@[k as int] == escape_char(cc)[0]);
                    assert(cc == c);
                    assert(out@ =~= tv.take(prev_out.len() as int + 1));
                }
            }
            k += 1;
        }
    }
    proof {
        assert forall|tv: Seq<char>| !str_at(s@, i as int, tv) by {
            if str_at(s@, i as int, tv) {
                lemma_escape_step(s@, i as int, k as int, out@, tv);
                if out@.len() < tv.len() {
                    let cc = tv[out@.len() as int];
                    assert(k + escape_char(cc).len() <= i + escape(tv).len());
                }
                assert(false);
            }
        }
    }
    None
}

/// Adjacent subranges concatenate.
proof fn lemma_join_subranges(s: Seq<char>, a: int, b: int, c: int)
    requires
        0 <= a <= b <= c <= s.len(),
    ensures
        s.subrange(a, c) == s.subrange(a, b) + s.subrange(b, c),
{
    assert(s.subrange(a, c) =~= s.subrange(a, b) + s.subrange(b, c));
}

/// The canonical text of the task `t` stands at position `i`.
pub open spec fn task_at(s: Seq<char>, i: int, t: TaskModel) -> bool {
    &&& 0 <= i
    &&& i + task_json(t).len() <= s.len()
    &&& s.subrange(i, i + task_json(t).len() as int) == task_json(t)
}

/// Where the pieces of a task's canonical text stand, when the whole
/// text does.
proof fn lemma_task_at_parts(s: Seq<char>, i: int, t: TaskModel)
    requires
        task_at(s, i, t),
        t.in_range(),
    ensures
        ({
            let l1 = "{\"id\":"@;
            let l3 = ",\"summary\":\""@;
            let ic = int_chars(t.id);
            let es = escape(t.summary);
            let b1 = i + l1.len();
            let b2 = b1 + ic.len() as int;
            let b3 = b2 + l3.len();
            let b4 = b3 + es.len() as int;
            &&& s.subrange(i, b1 as int) == l1
            &&& int_at(s, b1 as int, t.id)
            &&& s.subrange(b2, b3 as int) == l3
            &&& str_at(s, b3 as int, t.summary)
            &&& s[b4 + 1] == '}'
            &&& i + task_json(t).len() == b4 + 2
        }),
{
    let l1 = "{\"id\":"@;
    let l3 = ",\"summary\":\""@;
    let q = "\"}"@;
    let ic = int_chars(t.id);
    let es = escape(t.summary);
    let w = task_json(t);
    assert(w == l1 + ic + l3 + es + q);
    let b1 = i + l1.len() as int;
    let b2 = b1 + ic.len() as int;
    let b3 = b2 + l3.len() as int;
    let b4 = b3 + es.len() as int;
    lemma_split_concat_at(s, i, l1 + ic + l3 + es, q);
    lemma_split_concat_at(s, i, l1 + ic + l3, es);
    lemma_split_concat_at(s, i, l1 + ic, l3);
    lemma_split_concat_at(s, i, l1, ic);
    reveal_strlit("{\"id\":");
    reveal_strlit(",\"summary\":\"");
    reveal_strlit("\"}");
    assert(s[b2] == s.subrange(b2, b3)[0]);
    assert(s[b2] == ',');
    assert(!is_digit(','));
    assert(int_at(s, b1, t.id));
    assert(s[b4] == s.subrange(b4, b4 + 2)[0]);
    assert(s[b4] == '"');
    assert(str_at(s, b3, t.summary));
    assert(s[b4 + 1] == s.subrange(b4, b4 + 2)[1]);
}

/// Parses one task object, exactly when one stands at the position.
fn parse_task(s: &Vec<char>, i: usize) -> (r: Option<(Task, usize)>)
    requires
        i <= s@.len(),
    ensures
        r matches Some(p) ==> task_at(s@, i as int, p.0@) && p.1 == i + task_json(p.0@).len(),
        forall|t: TaskModel| t.in_range() && task_at(s@, i as int, t) ==> (r matches Some(p)
            && p.0@ == t),
{
    let j1 = match eat_lit(s, i, "{\"id\":") {
        Some(j) => j,
        None => {
            proof {
                assert forall|t: TaskModel| !(t.in_range() && task_at(s@, i as int, t)) by {
                    if t.in_range() && task_at(s@, i as int, t) {
                        lemma_task_at_parts(s@, i as int, t);
                        assert(false);
                    }
                }
            }
            return None;
        },
    };
    let p_int = match parse_int(s, j1) {
        Some(p) => p,
        None => {
            proof {
                assert forall|t: TaskModel| !(t.in_range() && task_at(s@, i as int, t)) by {
                    if t.in_range() && task_at(s@, i as int, t) {
                        lemma_task_at_parts(s@, i as int, t);
                        assert(int_at(s@, j1 as int, t.id));
                        assert(false);
                    }
                }
            }
            return None;
        },
    };
    let (v, j2) = p_int;
    let j3 = match eat_lit(s, j2, ",\"summary\":\"") {
        Some(j) => j,
        None => {
            proof {
                assert forall|t: TaskModel| !(t.in_range() && task_at(s@, i as int, t)) by {
                    if t.in_range() && task_at(s@, i as int, t) {
                        lemma_task_at_parts(s@, i as int, t);
                        assert(int_at(s@, j1 as int, t.id));
                        assert(v as int == t.id);
                        assert(false);
                    }
                }
            }
            return None;
        },
    };
    let p_str = match parse_string(s, j3) {
        Some(p) => p,
        None => {
            proof {
                assert forall|t: TaskModel| !(t.in_range() && task_at(s@, i as int, t)) by {
                    if t.in_range() && task_at(s@, i as int, t) {
                        lemma_task_at_parts(s@, i as int, t);
                        assert(int_at(s@, j1 as int, t.id));
                        assert(v as int == t.id);
                        assert(str_at(s@, j3 as int, t.summary));
                        assert(false);
                    }
                }
            }
            return None;
        },
    };
    let (sum, j4) = p_str;
    let j5 = match eat_lit(s, j4, "}") {
        Some(j) => j,
        None => {
            proof {
                reveal_strlit("}");
                assert forall|t: TaskModel| !(t.in_range() && task_at(s@, i as int, t)) by {
                    if t.in_range() && task_at(s@, i as int, t) {
                        lemma_task_at_parts(s@, i as int, t);
                        assert(int_at(s@, j1 as int, t.id));
                        assert(v as int == t.id);
                        assert(str_at(s@, j3 as int, t.summary));
                        assert(sum@ == t.summary);
                        assert(j4 == i + task_json(t).len() - 1);
                        assert(s@.subrange(j4 as int, j4 + 1) =~= "}"@);
                        assert(false);
                    }
                }
            }
            return None;
        },
    };
    let task = Task { id: v, summary: sum };
    proof {
        let l1 = "{\"id\":"@;
        let l3 = ",\"summary\":\""@;
        let q = "\"}"@;
        reveal_strlit("\"}");
        reveal_strlit("}");
        assert(s@.subrange(j4 - 1, j4 as int)[0] == '"');
        assert(s@.subrange(j4 as int, j5 as int)[0] == '}');
        assert(s@.subrange(j4 - 1, j5 as int) =~= q);
        lemma_join_subranges(s@, i as int, j1 as int, j2 as int);
        lemma_join_subranges(s@, i as int, j2 as int, j3 as int);
        lemma_join_subranges(s@, i as int, j3 as int, j4 - 1);
        lemma_join_subranges(s@, i as int, j4 - 1, j5 as int);
        assert(s@.subrange(i as int, j5 as int) == l1 + int_chars(v as int) + l3 + escape(sum@)
            + q);
        assert(task_json(task@) == l1 + int_chars(v as int) + l3 + escape(sum@) + q);
        assert(task_at(s@, i as int, task@));
        assert forall|t: TaskModel| t.in_range() && task_at(s@, i as int, t) implies task@ == t by {
            lemma_task_at_parts(s@, i as int, t);
            assert(int_at(s@, j1 as int, t.id));
            assert(v as int == t.id);
            assert(str_at(s@, j3 as int, t.summary));
            assert(sum@ == t.summary);
            assert(task@ =~= t);
        }
    }
    Some((task, j5))
}

/// The models of a vector of tasks.
pub open spec fn models_of(ts: Seq<Task>) -> Seq<TaskModel> {
    ts.map_values(|t: Task| t@)
}

pub open spec fn ids_ok(ts: Seq<TaskModel>) -> bool {
    forall|k: int| 0 <= k < ts.len() ==> (#[trigger] ts[k]).in_range()
}

/// The canonical text of the tail of a task array stands at position
/// `i`, the closing bracket right after it.
pub open spec fn rest_at(s: Seq<char>, i: int, ts: Seq<TaskModel>) -> bool {
    &&& 0 <= i
    &&& i + task_rest_json(ts).len() < s.len()
    &&& s.subrange(i, i + task_rest_json(ts).len() as int) == task_rest_json(ts)
    &&& s[i + task_rest_json(ts).len()] == ']'
}

/// Where the pieces of a nonempty tail stand, when the whole tail does.
proof fn lemma_rest_at_parts(s: Seq<char>, i: int, ts: Seq<TaskModel>)
    requires
        rest_at(s, i, ts),
        ts.len() > 0,
    ensures
        s[i] == ',',
        task_at(s, i + 1, ts[0]),
        rest_at(s, i + 1 + task_json(ts[0]).len(), ts.skip(1)),
{
    let tj = task_json(ts[0]);
    let rest = task_rest_json(ts.skip(1));
    let w = task_rest_json(ts);
    assert(w == seq![','] + tj + rest);
    lemma_split_concat_at(s, i, seq![','] + tj, rest);
    lemma_split_concat_at(s, i, seq![','], tj);
    assert(s[i] == s.subrange(i, i + 1)[0]);
    assert(i + 1 + tj.len() + rest.len() == i + w.len());
}

/// Parses the tail of a task array — a comma and a task, repeatedly, up
/// to but not including the closing bracket — appending the parsed tasks,
/// exactly when such a tail stands at the position.
fn parse_task_rest(s: &Vec<char>, i: usize, out: &mut Vec<Task>) -> (r: Option<usize>)
    requires
        i <= s@.len(),
    ensures
        r matches Some(j) ==> ({
            let app = models_of(final(out)@).skip(old(out)@.len() as int);
            &&& final(out)@.len() >= old(out)@.len()
            &&& final(out)@.take(old(out)@.len() as int) == old(out)@
            &&& rest_at(s@, i as int, app)
            &&& j == i + task_rest_json(app).len()
        }),
        forall|ts: Seq<TaskModel>| ids_ok(ts) && rest_at(s@, i as int, ts) ==> (r matches Some(j)
            && models_of(final(out)@) == models_of(old(out)@) + ts && j == i + task_rest_json(
            ts,
        ).len()),
    decreases s@.len() - i,
{
    let n = s.len();
    if i >= n {
        proof {
            assert forall|ts: Seq<TaskModel>| !rest_at(s@, i as int, ts) by {
                if rest_at(s@, i as int, ts) {
                    assert(false);
                }
            }
        }
        return None;
    }
    let c = s[i];
    if c == ']' {
        proof {
            let app = models_of(out@).skip(out@.len() as int);
            assert(app =~= Seq::<TaskModel>::empty());
            assert(task_rest_json(app).len() == 0);
            assert(s@.subrange(i as int, i as int) =~= task_rest_json(app));
            assert(out@.take(out@.len() as int) =~= out@);
            assert forall|ts: Seq<TaskModel>| ids_ok(ts) && rest_at(s@, i as int, ts) implies ts
                =~= Seq::<TaskModel>::empty() by {
                if ts.len() > 0 {
                    lemma_rest_at_parts(s@, i as int, ts);
                }
            }
            assert(models_of(out@) =~= models_of(out@) + Seq::<TaskModel>::empty());
        }
        return Some(i);
    }
    if c == ',' {
        let p_task = match parse_task(s, i + 1) {
            Some(p) => p,
            None => {
                proof {
                    assert forall|ts: Seq<TaskModel>| !(ids_ok(ts) && rest_at(s@, i as int, ts))
                        by {
                        if ids_ok(ts) && rest_at(s@, i as int, ts) {
                            if ts.len() == 0 {
                                assert(s@[i as int] == ']');
                            } else {
                                lemma_rest_at_parts(s@, i as int, ts);
                                assert(ts[0].in_range());
                                assert(false);
                            }
                        }
                    }
                }
                return None;
            },
        };
        let (t, j2) = p_task;
        proof {
            reveal_strlit("{\"id\":");
            assert(task_json(t@).len() >= 6);
        }
        let ghost mid = out@;
        out.push(t);
        let r2 = parse_task_rest(s, j2, out);
        match r2 {
            Some(j3) => {
                proof {
                    let app_rec = models_of(out@).skip(mid.len() as int + 1);
                    let app_all = models_of(out@).skip(mid.len() as int);
                    assert(out@.take(mid.len() as int + 1) == mid.push(t));
                    assert(out@.take(mid.len() as int) =~= mid);
                    assert(app_all[0] == out@[mid.len() as int]@);
                    assert(out@.take(mid.len() as int + 1)[mid.len() as int]
                        == out@[mid.len() as int]);
                    assert(mid.push(t)[mid.len() as int] == t);
                    assert(out@[mid.len() as int] == t);
                    assert(app_all.skip(1) =~= app_rec);
                    assert(task_rest_json(app_all) == seq![','] + task_json(t@)
                        + task_rest_json(app_rec));
                    assert(s@.subrange(i as int, i + 1) =~= seq![',']);
                    lemma_join_subranges(s@, i as int, i + 1, j2 as int);
                    lemma_join_subranges(s@, i as int, j2 as int, j3 as int);
                    assert(s@.subrange(i as int, j3 as int) == task_rest_json(app_all));
                    assert(rest_at(s@, i as int, app_all));
                    assert forall|ts: Seq<TaskModel>| ids_ok(ts) && rest_at(s@, i as int, ts)
                        implies models_of(out@) == models_of(mid) + ts && j3 as int == i
                        + task_rest_json(ts).len() by {
                        if ts.len() == 0 {
                            assert(s@[i as int] == ']');
                            assert(false);
                        }
                        lemma_rest_at_parts(s@, i as int, ts);
                        assert(ts[0].in_range());
                        assert(t@ == ts[0]);
                        assert(ids_ok(ts.skip(1))) by {
                            assert(forall|k: int|
                                0 <= k < ts.skip(1).len() ==> ts.skip(1)[k] == ts[k + 1]);
                        }
                        assert(rest_at(s@, j2 as int, ts.skip(1)));
                        assert(models_of(out@) == models_of(mid.push(t)) + ts.skip(1));
                        assert(models_of(mid.push(t)) =~= models_of(mid) + seq![t@]);
                        assert(models_of(mid) + seq![ts[0]] + ts.skip(1) =~= models_of(mid) + ts);
                        assert(models_of(out@) =~= models_of(mid) + ts);
                        assert(task_rest_json(ts).len() == 1 + task_json(ts[0]).len()
                            + task_rest_json(ts.skip(1)).len());
                    }
                }
                Some(j3)
            },
            None => {
                proof {
                    assert forall|ts: Seq<TaskModel>| !(ids_ok(ts) && rest_at(s@, i as int, ts))
                        by {
                        if ids_ok(ts) && rest_at(s@, i as int, ts) {
                            if ts.len() == 0 {
                                assert(s@[i as int] == ']');
                            } else {
                                lemma_rest_at_parts(s@, i as int, ts);
                                assert(ts[0].in_range());
                                assert(t@ == ts[0]);
                                assert(ids_ok(ts.skip(1))) by {
                                    assert(forall|k: int|
                                        0 <= k < ts.skip(1).len() ==> ts.skip(1)[k] == ts[k + 1]);
                                }
                                assert(rest_at(s@, j2 as int, ts.skip(1)));
                                assert(false);
                            }
                        }
                    }
                }
                return None;
            },
        }
    } else {
        proof {
            assert forall|ts: Seq<TaskModel>| !(ids_ok(ts) && rest_at(s@, i as int, ts)) by {
                if ids_ok(ts) && rest_at(s@, i as int, ts) {
                    if ts.len() == 0 {
                        assert(s@[i as int] == ']');
                    } else {
                        lemma_rest_at_parts(s@, i as int, ts);
                    }
                }
            }
        }
        None
    }
}

/// The canonical text of the task state `t` stands at position `i`.
pub open spec fn tasks_at(s: Seq<char>, i: int, t: TasksModel) -> bool {
    &&& 0 <= i
    &&& i + tasks_json(t).len() <= s.len()
    &&& s.subrange(i, i + tasks_json(t).len() as int) == tasks_json(t)
}

/// Where the pieces of a task state's canonical text stand, when the
/// whole text does.
proof fn lemma_tasks_at_parts(s: Seq<char>, i: int, t: TasksModel)
    requires
        tasks_at(s, i, t),
        t.in_range(),
    ensures
        ({
            let l1 = "{\"tasks\":["@;
            let l2 = "],\"next_id\":"@;
            let ll = task_list_json(t.tasks);
            let ic = int_chars(t.next_id);
            let b1 = i + l1.len();
            let b2 = b1 + ll.len() as int;
            let b3 = b2 + l2.len();
            let b4 = b3 + ic.len() as int;
            &&& s.subrange(i, b1 as int) == l1
            &&& (t.tasks.len() == 0 ==> b2 == b1)
            &&& (t.tasks.len() > 0 ==> task_at(s, b1 as int, t.tasks[0]) && rest_at(
                s,
                b1 + task_json(t.tasks[0]).len(),
                t.tasks.skip(1),
            ))
            &&& s.subrange(b1 as int, b2) == ll
            &&& s[b2] == ']'
            &&& s.subrange(b2, b3 as int) == l2
            &&& int_at(s, b3 as int, t.next_id)
            &&& s[b4] == '}'
            &&& i + tasks_json(t).len() == b4 + 1
        }),
{
    let l1 = "{\"tasks\":["@;
    let l2 = "],\"next_id\":"@;
    let q = "}"@;
    let ll = task_list_json(t.tasks);
    let ic = int_chars(t.next_id);
    let w = tasks_json(t);
    assert(w == l1 + ll + l2 + ic + q);
    let b1 = i + l1.len() as int;
    let b2 = b1 + ll.len() as int;
    let b3 = b2 + l2.len() as int;
    let b4 = b3 + ic.len() as int;
    lemma_split_concat_at(s, i, l1 + ll + l2 + ic, q);
    lemma_split_concat_at(s, i, l1 + ll + l2, ic);
    lemma_split_concat_at(s, i, l1 + ll, l2);
    lemma_split_concat_at(s, i, l1, ll);
    reveal_strlit("{\"tasks\":[");
    reveal_strlit("],\"next_id\":");
    reveal_strlit("}");
    assert(s[b2] == s.subrange(b2, b3)[0]);
    assert(s[b2] == ']');
    assert(s[b4] == s.subrange(b4, b4 + 1)[0]);
    assert(s[b4] == '}');
    assert(!is_digit('}'));
    assert(int_at(s, b3, t.next_id));
    if t.tasks.len() > 0 {
        let tj = task_json(t.tasks[0]);
        let rest = task_rest_json(t.tasks.skip(1));
        assert(ll == tj + rest);
        lemma_split_concat_at(s, b1, tj, rest);
        assert(task_at(s, b1, t.tasks[0]));
        assert(b1 + tj.len() + rest.len() == b2);
        assert(rest_at(s, b1 + tj.len(), t.tasks.skip(1)));
    }
}

/// Parses one task state object, exactly when one stands at the position.
fn parse_tasks(s: &Vec<char>, i: usize) -> (r: Option<(Tasks, usize)>)
    requires
        i <= s@.len(),
    ensures
        r matches Some(p) ==> tasks_at(s@, i as int, p.0@) && p.1 == i + tasks_json(p.0@).len(),
        forall|t: TasksModel| t.in_range() && tasks_at(s@, i as int, t) ==> (r matches Some(p)
            && p.0@ == t),
{
    let j1 = match eat_lit(s, i, "{\"tasks\":[") {
        Some(j) => j,
        None => {
            proof {
                assert forall|t: TasksModel| !(t.in_range() && tasks_at(s@, i as int, t)) by {
                    if t.in_range() && tasks_at(s@, i as int, t) {
                        lemma_tasks_at_parts(s@, i as int, t);
                        assert(false);
                    }
                }
            }
            return None;
        },
    };
    let n = s.len();
    if j1 >= n {
        proof {
            assert forall|t: TasksModel| !(t.in_range() && tasks_at(s@, i as int, t)) by {
                if t.in_range() && tasks_at(s@, i as int, t) {
                    lemma_tasks_at_parts(s@, i as int, t);
                    reveal_strlit("],\"next_id\":");
                    assert(false);
                }
            }
        }
        return None;
    }
    let mut items: Vec<Task> = Vec::new();
    let j2: usize;
    if s[j1] == ']' {
        j2 = j1;
        proof {
            reveal_strlit("{\"id\":");
            assert(s@.subrange(j1 as int, j2 as int) =~= task_list_json(models_of(items@)));
            assert forall|t: TasksModel| t.in_range() && tasks_at(s@, i as int, t) implies
                models_of(items@) == t.tasks && j2 == j1 + task_list_json(t.tasks).len() by {
                lemma_tasks_at_parts(s@, i as int, t);
                if t.tasks.len() > 0 {
                    assert(task_at(s@, j1 as int, t.tasks[0]));
                    assert(s@[j1 as int] == task_json(t.tasks[0])[0]);
                    assert(task_json(t.tasks[0])[0] == '{');
                    assert(false);
                }
                assert(models_of(items@) =~= t.tasks);
            }
        }
    } else {
        let p_first = match parse_task(s, j1) {
            Some(p) => p,
            None => {
                proof {
                    assert forall|t: TasksModel| !(t.in_range() && tasks_at(s@, i as int, t)) by {
                        if t.in_range() && tasks_at(s@, i as int, t) {
                            lemma_tasks_at_parts(s@, i as int, t);
                            reveal_strlit("],\"next_id\":");
                            if t.tasks.len() == 0 {
                                assert(s@[j1 as int] == ']');
                            } else {
                                assert(t.tasks[0].in_range());
                                assert(false);
                            }
                        }
                    }
                }
                return None;
            },
        };
        let (t0, ja) = p_first;
        items.push(t0);
        j2 = match parse_task_rest(s, ja, &mut items) {
            Some(j) => j,
            None => {
                proof {
                    assert forall|t: TasksModel| !(t.in_range() && tasks_at(s@, i as int, t)) by {
                        if t.in_range() && tasks_at(s@, i as int, t) {
                            lemma_tasks_at_parts(s@, i as int, t);
                            reveal_strlit("],\"next_id\":");
                            if t.tasks.len() == 0 {
                                assert(s@[j1 as int] == ']');
                            } else {
                                assert(t.tasks[0].in_range());
                                assert(t0@ == t.tasks[0]);
                                assert(ids_ok(t.tasks.skip(1))) by {
                                    assert(forall|k: int|
                                        0 <= k < t.tasks.skip(1).len() ==> t.tasks.skip(1)[k]
                                            == t.tasks[k + 1]);
                                }
                                assert(rest_at(s@, ja as int, t.tasks.skip(1)));
                                assert(false);
                            }
                        }
                    }
                }
                return None;
            },
        };
        proof {
            let app = models_of(items@).skip(1);
            assert(items@.take(1) == seq![t0]);
            assert(items@[0] == items@.take(1)[0]);
            assert(models_of(items@)[0] == t0@);
            assert(task_list_json(models_of(items@)) == task_json(t0@) + task_rest_json(app));
            lemma_join_subranges(s@, j1 as int, ja as int, j2 as int);
            assert(s@.subrange(j1 as int, j2 as int) == task_list_json(models_of(items@)));
            assert forall|t: TasksModel| t.in_range() && tasks_at(s@, i as int, t) implies
                models_of(items@) == t.tasks && j2 == j1 + task_list_json(t.tasks).len() by {
                lemma_tasks_at_parts(s@, i as int, t);
                if t.tasks.len() == 0 {
                    assert(s@[j1 as int] == ']');
                    assert(false);
                }
                assert(t.tasks[0].in_range());
                assert(t0@ == t.tasks[0]);
                assert(ids_ok(t.tasks.skip(1))) by {
                    assert(forall|k: int|
                        0 <= k < t.tasks.skip(1).len() ==> t.tasks.skip(1)[k] == t.tasks[k + 1]);
                }
                assert(rest_at(s@, ja as int, t.tasks.skip(1)));
                assert(models_of(items@) == models_of(seq![t0]) + t.tasks.skip(1));
                assert(models_of(seq![t0]) =~= seq![t.tasks[0]]);
                assert(models_of(items@) =~= t.tasks);
                assert(task_list_json(t.tasks).len() == task_json(t.tasks[0]).len()
                    + task_rest_json(t.tasks.skip(1)).len());
            }
        }
    }
    let j3 = match eat_lit(s, j2, "],\"next_id\":") {
        Some(j) => j,
        None => {
            proof {
                assert forall|t: TasksModel| !(t.in_range() && tasks_at(s@, i as int, t)) by {
                    if t.in_range() && tasks_at(s@, i as int, t) {
                        lemma_tasks_at_parts(s@, i as int, t);
                        assert(models_of(items@) == t.tasks);
                        assert(false);
                    }
                }
            }
            return None;
        },
    };
    let p_int = match parse_int(s, j3) {
        Some(p) => p,
        None => {
            proof {
                assert forall|t: TasksModel| !(t.in_range() && tasks_at(s@, i as int, t)) by {
                    if t.in_range() && tasks_at(s@, i as int, t) {
                        lemma_tasks_at_parts(s@, i as int, t);
                        assert(models_of(items@) == t.tasks);
                        assert(int_at(s@, j3 as int, t.next_id));
                        assert(false);
                    }
                }
            }
            return None;
        },
    };
    let (nid, j4) = p_int;
    let j5 = match eat_lit(s, j4, "}") {
        Some(j) => j,
        None => {
            proof {
                reveal_strlit("}");
                assert forall|t: TasksModel| !(t.in_range() && tasks_at(s@, i as int, t)) by {
                    if t.in_range() && tasks_at(s@, i as int, t) {
                        lemma_tasks_at_parts(s@, i as int, t);
                        assert(models_of(items@) == t.tasks);
                        assert(int_at(s@, j3 as int, t.next_id));
                        assert(nid as int == t.next_id);
                        assert(s@.subrange(j4 as int, j4 + 1) =~= "}"@);
                        assert(false);
                    }
                }
            }
            return None;
        },
    };
    let result = Tasks { tasks: items, next_id: nid };
    proof {
        let l1 = "{\"tasks\":["@;
        let l2 = "],\"next_id\":"@;
        let q = "}"@;
        lemma_join_subranges(s@, i as int, j1 as int, j2 as int);
        lemma_join_subranges(s@, i as int, j2 as int, j3 as int);
        lemma_join_subranges(s@, i as int, j3 as int, j4 as int);
        lemma_join_subranges(s@, i as int, j4 as int, j5 as int);
        assert(s@.subrange(i as int, j5 as int) == l1 + task_list_json(models_of(items@)) + l2
            + int_chars(nid as int) + q);
        assert(result@.tasks == models_of(items@));
        assert(tasks_json(result@) == l1 + task_list_json(models_of(items@)) + l2 + int_chars(
            nid as int,
        ) + q);
        assert(tasks_at(s@, i as int, result@));
        assert forall|t: TasksModel| t.in_range() && tasks_at(s@, i as int, t) implies result@
            == t by {
            lemma_tasks_at_parts(s@, i as int, t);
            assert(models_of(items@) == t.tasks);
            assert(int_at(s@, j3 as int, t.next_id));
            assert(nid as int == t.next_id);
            assert(result@ =~= t);
        }
    }
    Some((result, j5))
}

/// Parses a whole frame: the given envelope opening, a task state, and
/// the closing brace, with nothing before or after.
fn parse_envelope(v: &Vec<char>, lit: &str) -> (r: Option<Tasks>)
    ensures
        r matches Some(t) ==> v@ == lit@ + tasks_json(t@) + "}"@,
        forall|tv: TasksModel| tv.in_range() && v@ == lit@ + tasks_json(tv) + "}"@ ==> (r matches
            Some(t) && t@ == tv),
{
    proof {
        reveal_strlit("}");
        assert forall|tv: TasksModel| tv.in_range() && v@ == lit@ + tasks_json(tv) + "}"@ implies
            v@.subrange(0, lit@.len() as int) == lit@ && tasks_at(v@, lit@.len() as int, tv)
            && v@[lit@.len() + tasks_json(tv).len() as int] == '}' && v@.len() == lit@.len() + tasks_json(
            tv,
        ).len() + 1 by {
            assert(v@.len() == lit@.len() + tasks_json(tv).len() + "}"@.len());
            assert(v@.subrange(0, v@.len() as int) =~= v@);
            lemma_split_concat_at(v@, 0, lit@ + tasks_json(tv), "}"@);
            lemma_split_concat_at(v@, 0, lit@, tasks_json(tv));
            assert(v@[lit@.len() + tasks_json(tv).len() as int] == v@.subrange(
                lit@.len() + tasks_json(tv).len() as int,
                lit@.len() + tasks_json(tv).len() as int + 1,
            )[0]);
        }
    }
    let j1 = match eat_lit(v, 0, lit) {
        Some(j) => j,
        None => {
            return None;
        },
    };
    let p = match parse_tasks(v, j1) {
        Some(p) => p,
        None => {
            return None;
        },
    };
    let (t, j2) = p;
    let j3 = match eat_lit(v, j2, "}") {
        Some(j) => j,
        None => {
            proof {
                assert forall|tv: TasksModel| !(tv.in_range() && v@ == lit@ + tasks_json(tv)
                    + "}"@) by {
                    if tv.in_range() && v@ == lit@ + tasks_json(tv) + "}"@ {
                        assert(t@ == tv);
                        reveal_strlit("}");
                        assert(v@.subrange(j2 as int, j2 + 1) =~= "}"@);
                        assert(false);
                    }
                }
            }
            return None;
        },
    };
    if j3 != v.len() {
        proof {
            assert forall|tv: TasksModel| !(tv.in_range() && v@ == lit@ + tasks_json(tv) + "}"@)
                by {
                if tv.in_range() && v@ == lit@ + tasks_json(tv) + "}"@ {
                    assert(t@ == tv);
                    assert(j3 == v@.len());
                }
            }
        }
        return None;
    }
    proof {
        lemma_join_subranges(v@, 0, j1 as int, j2 as int);
        lemma_join_subranges(v@, 0, j2 as int, j3 as int);
        assert(v@.subrange(0, j3 as int) =~= v@);
        assert(v@ == lit@ + tasks_json(t@) + "}"@);
    }
    Some(t)
}

/// Parses an inbound update frame, exactly when the text is the
/// canonical form of one; anything else — among it every malformed or
/// unrecognized frame — is refused.  Together with its acceptance
/// clause this says that every serialized frame parses back to the
/// state it came from.
pub fn parse_in_msg(s: &str) -> (r: Option<Tasks>)
    ensures
        r matches Some(t) ==> s@ == in_msg_json(t@),
        forall|tv: TasksModel| tv.in_range() && s@ == in_msg_json(tv) ==> (r matches Some(t) && t@
            == tv),
{
    let v = str_chars(s);
    parse_envelope(&v, "{\"action\":\"tasks\",\"payload\":")
}

/// Parses an outbound snapshot frame, exactly when the text is the
/// canonical form of one; this is what a client does with what the
/// server sends.
pub fn parse_out_msg(s: &str) -> (r: Option<Tasks>)
    ensures
        r matches Some(t) ==> s@ == out_msg_json(t@),
        forall|tv: TasksModel| tv.in_range() && s@ == out_msg_json(tv) ==> (r matches Some(t) && t@
            == tv),
{
    let v = str_chars(s);
    parse_envelope(&v, "{\"action\":\"new_tasks\",\"payload\":")
}

/// The canonical decimal text of a number: the shape in which a session
/// credential is issued, and which `parse_decimal_u64` reads back as the
/// same value.
pub fn format_u64(n: u64) -> (r: String)
    ensures
        r@ == dec_chars(n as nat),
{
    let mut out: Vec<char> = Vec::new();
    push_uint(&mut out, n);
    chars_to_string(&out)
}

/// Parses a decimal number — the shape of a session credential — with
/// leading zeros allowed; refused exactly when the text is empty, holds
/// a non-digit, or denotes a value too large for `u64`.
pub fn parse_decimal_u64(s: &str) -> (r: Option<u64>)
    ensures
        r matches Some(v) ==> s@.len() > 0 && all_digits(s@) && digits_val(s@) == v as nat,
        r is None ==> s@.len() == 0 || !all_digits(s@) || digits_val(s@) > u64::MAX,
{
    let v = str_chars(s);
    let n = v.len();
    if n == 0 {
        return None;
    }
    let mut acc: u128 = 0;
    let mut k: usize = 0;
    while k < n
        invariant
            n == s@.len(),
            v@ == s@,
            k <= n,
            acc == digits_val(s@.take(k as int)),
            acc <= u64::MAX,
            forall|x: int| 0 <= x < k ==> is_digit(#[trigger] s@[x]),
        decreases n - k,
    {
        let d = digit_of(v[k]);
        if d >= 10 {
            assert(!is_digit(s@[k as int]));
            return None;
        }
        proof {
            lemma_digits_val_take_snoc(s@, k as int);
        }
        acc = acc * 10 + d as u128;
        if acc > u64::MAX as u128 {
            proof {
                lemma_digits_val_prefix_le(s@, k + 1);
            }
            return None;
        }
        k += 1;
    }
    proof {
        assert(s@.take(n as int) =~= s@);
    }
    Some(acc as u64)
}

/// The canonical text of an outbound snapshot frame carrying this state.
pub fn serialize_out_msg(t: &Tasks) -> (r: String)
    ensures
        r@ == out_msg_json(t@),
{
    let mut out: Vec<char> = Vec::new();
    push_chars(&mut out, "{\"action\":\"new_tasks\",\"payload\":");
    push_tasks(&mut out, t);
    push_chars(&mut out, "}");
    proof {
        assert(out@ =~= out_msg_json(t@));
    }
    chars_to_string(&out)
}

/// The canonical text of an inbound update frame carrying this state;
/// this is what a client sends.
pub fn serialize_in_msg(t: &Tasks) -> (r: String)
    ensures
        r@ == in_msg_json(t@),
{
    let mut out: Vec<char> = Vec::new();
    push_chars(&mut out, "{\"action\":\"tasks\",\"payload\":");
    push_tasks(&mut out, t);
    push_chars(&mut out, "}");
    proof {
        assert(out@ =~= in_msg_json(t@));
    }
    chars_to_string(&out)
}

/// Round-trip law: serializing any task state as an update frame and
/// parsing the text back yields an equal state.  The body is the
/// composition itself; its contract is proved from the exact contracts
/// of the serializer and the parser alone.
pub fn round_trip_in_msg(t: &Tasks) -> (r: Tasks)
    ensures
        r@ == t@,
{
    proof {
        crate::tasks::lemma_tasks_in_range(t);
    }
    let text = serialize_in_msg(t);
    match parse_in_msg(text.as_str()) {
        Some(parsed) => parsed,
        None => {
            proof {
                assert(false);
            }
            t.duplicate()
        },
    }
}

/// Round-trip law for the outbound direction: a serialized snapshot
/// frame parses back to the state it came from.
pub fn round_trip_out_msg(t: &Tasks) -> (r: Tasks)
    ensures
        r@ == t@,
{
    proof {
        crate::tasks::lemma_tasks_in_range(t);
    }
    let text = serialize_out_msg(t);
    match parse_out_msg(text.as_str()) {
        Some(parsed) => parsed,
        None => {
            proof {
                assert(false);
            }
            t.duplicate()
        },
    }
}

} // verus!
