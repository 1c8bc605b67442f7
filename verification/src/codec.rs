//! The persisted text layout of a store and its proofs.
//!
//! A store is kept on disk as one line of space-separated tokens: a header,
//! the number of entries, then each entry as its identifier, its name
//! (length-prefixed), its tags (count, then each length-prefixed), its start
//! timestamp as eight numbers, and either `R` for a running task or `C`
//! followed by the end timestamp. Parsing rejects anything the renderer
//! cannot have produced; rendering then parsing returns the same entries.

use vstd::prelude::*;

use crate::numeral::{
    dec_digits, is_digit, lemma_dec_digits_shape, lemma_parse_nat_of_digits, parse_nat,
    parse_nat_exec, push_u64_dec,
};
use crate::store::entries_wf;
use crate::task::{entry_views, Task, TaskView};
use crate::time::{days_in_month, Timestamp};

verus! {

/// The header token that opens every store file.
pub open spec fn header() -> Seq<char> {
    seq!['t', 'a', 's', 'k', 's', ' ']
}

/// A number token: the decimal digits followed by one space.
pub open spec fn enc_nat(n: nat) -> Seq<char> {
    dec_digits(n) + seq![' ']
}

/// A signed number token: a minus sign where negative, then the digits of
/// the magnitude, then one space.
pub open spec fn enc_int(v: int) -> Seq<char> {
    if v < 0 {
        seq!['-'] + enc_nat((-v) as nat)
    } else {
        enc_nat(v as nat)
    }
}

/// A text token: the character count, then the characters themselves,
/// then one space.
pub open spec fn enc_str(s: Seq<char>) -> Seq<char> {
    enc_nat(s.len()) + s + seq![' ']
}

/// A timestamp: its eight fields as number tokens.
pub open spec fn enc_ts(t: Timestamp) -> Seq<char> {
    enc_int(t.year as int) + enc_nat(t.month as nat) + enc_nat(t.day as nat) + enc_nat(
        t.hour as nat,
    ) + enc_nat(t.minute as nat) + enc_nat(t.second as nat) + enc_nat(t.nanos as nat) + enc_int(
        t.offset_secs as int,
    )
}

/// The end of a task: `R` for running, or `C` and the end timestamp.
pub open spec fn enc_end(e: Option<Timestamp>) -> Seq<char> {
    match e {
        None => seq!['R', ' '],
        Some(t) => seq!['C', ' '] + enc_ts(t),
    }
}

/// The tags, one text token each.
pub open spec fn enc_tags(tags: Seq<Seq<char>>) -> Seq<char>
    decreases tags.len(),
{
    if tags.len() == 0 {
        Seq::<char>::empty()
    } else {
        enc_str(tags[0]) + enc_tags(tags.drop_first())
    }
}

/// One task: name, tag count, tags, start timestamp, end.
pub open spec fn enc_task(t: TaskView) -> Seq<char> {
    enc_str(t.name) + enc_nat(t.tags.len()) + enc_tags(t.tags) + enc_ts(t.start_time) + enc_end(
        t.end_time,
    )
}

/// One entry: the identifier, then the task.
pub open spec fn enc_entry(e: (u32, TaskView)) -> Seq<char> {
    enc_nat(e.0 as nat) + enc_task(e.1)
}

/// The entries in order.
pub open spec fn enc_entries(s: Seq<(u32, TaskView)>) -> Seq<char>
    decreases s.len(),
{
    if s.len() == 0 {
        Seq::<char>::empty()
    } else {
        enc_entry(s[0]) + enc_entries(s.drop_first())
    }
}

/// The whole store file: header, entry count, entries.
pub open spec fn enc_store(s: Seq<(u32, TaskView)>) -> Seq<char> {
    header() + enc_nat(s.len()) + enc_entries(s)
}

/// Appends a number token to `out`.
pub fn push_enc_nat(out: &mut Vec<char>, n: u64)
    ensures
        final(out)@ == old(out)@ + enc_nat(n as nat),
{
    push_u64_dec(out, n);
    out.push(' ');
    proof {
        assert(out@ =~= old(out)@ + enc_nat(n as nat));
    }
}

/// Appends a signed number token to `out`.
pub fn push_enc_int(out: &mut Vec<char>, v: i64)
    ensures
        final(out)@ == old(out)@ + enc_int(v as int),
{
    if v < 0 {
        out.push('-');
        let mag: u64 = (-(v as i128)) as u64;
        push_enc_nat(out, mag);
        proof {
            assert(out@ =~= old(out)@ + enc_int(v as int));
        }
    } else {
        push_enc_nat(out, v as u64);
    }
}

/// Appends a text token to `out`.
pub fn push_enc_str(out: &mut Vec<char>, s: &String)
    ensures
        final(out)@ == old(out)@ + enc_str(s@),
{
    let n = s.as_str().unicode_len();
    push_enc_nat(out, n as u64);
    let mut k: usize = 0;
    while k < n
        invariant
            n == s@.len(),
            0 <= k <= n,
            out@ == old(out)@ + enc_nat(s@.len()) + s@.subrange(0, k as int),
        decreases n - k,
    {
        out.push(s.as_str().get_char(k));
        proof {
            assert(out@ =~= old(out)@ + enc_nat(s@.len()) + s@.subrange(0, k + 1 as int));
        }
        k = k + 1;
    }
    out.push(' ');
    proof {
        assert(s@.subrange(0, s@.len() as int) =~= s@);
        assert(out@ =~= old(out)@ + enc_str(s@));
    }
}

/// Appends a timestamp to `out`.
pub fn push_enc_ts(out: &mut Vec<char>, t: &Timestamp)
    ensures
        final(out)@ == old(out)@ + enc_ts(*t),
{
    push_enc_int(out, t.year as i64);
    push_enc_nat(out, t.month as u64);
    push_enc_nat(out, t.day as u64);
    push_enc_nat(out, t.hour as u64);
    push_enc_nat(out, t.minute as u64);
    push_enc_nat(out, t.second as u64);
    push_enc_nat(out, t.nanos as u64);
    push_enc_int(out, t.offset_secs as i64);
    proof {
        assert(out@ =~= old(out)@ + enc_ts(*t));
    }
}

/// Tag lists encode piecewise: the encoding of a concatenation is the
/// concatenation of the encodings.
pub proof fn lemma_enc_tags_concat(a: Seq<Seq<char>>, b: Seq<Seq<char>>)
    ensures
        enc_tags(a + b) == enc_tags(a) + enc_tags(b),
    decreases a.len(),
{
    if a.len() == 0 {
        assert(a + b =~= b);
        assert(enc_tags(a) =~= Seq::<char>::empty());
        assert(enc_tags(a) + enc_tags(b) =~= enc_tags(b));
    } else {
        assert((a + b)[0] == a[0]);
        assert((a + b).drop_first() =~= a.drop_first() + b);
        lemma_enc_tags_concat(a.drop_first(), b);
        assert(enc_tags(a + b) =~= enc_tags(a) + enc_tags(b));
    }
}

/// Appends the end marker of a task to `out`.
pub fn push_enc_end(out: &mut Vec<char>, e: &Option<Timestamp>)
    ensures
        final(out)@ == old(out)@ + enc_end(*e),
{
    match e {
        None => {
            out.push('R');
            out.push(' ');
            proof {
                assert(out@ =~= old(out)@ + enc_end(None::<Timestamp>));
            }
        },
        Some(t) => {
            out.push('C');
            out.push(' ');
            push_enc_ts(out, t);
            proof {
                assert(out@ =~= old(out)@ + enc_end(Some(*t)));
            }
        },
    }
}

/// Appends a task (name, tags, timestamps) to `out`.
pub fn push_enc_task(out: &mut Vec<char>, t: &Task)
    ensures
        final(out)@ == old(out)@ + enc_task(t@),
{
    push_enc_str(out, &t.name);
    let m = t.tags.len();
    push_enc_nat(out, m as u64);
    proof {
        assert(t@.tags.len() == t.tags@.len());
        assert(t@.tags.subrange(0, 0) =~= Seq::<Seq<char>>::empty());
        assert(out@ =~= old(out)@ + enc_str(t@.name) + enc_nat(t@.tags.len()) + enc_tags(
            t@.tags.subrange(0, 0),
        ));
    }
    let mut k: usize = 0;
    while k < m
        invariant
            m == t.tags@.len(),
            t@.tags.len() == m,
            t@.tags == t.tags.deep_view(),
            0 <= k <= m,
            out@ == old(out)@ + enc_str(t@.name) + enc_nat(t@.tags.len()) + enc_tags(
                t@.tags.subrange(0, k as int),
            ),
        decreases m - k,
    {
        push_enc_str(out, &t.tags[k]);
        proof {
            assert(t.tags[k as int]@ == t@.tags[k as int]);
            let pre = t@.tags.subrange(0, k as int);
            let one = seq![t@.tags[k as int]];
            assert(t@.tags.subrange(0, k + 1 as int) =~= pre + one);
            lemma_enc_tags_concat(pre, one);
            assert(one.drop_first() =~= Seq::<Seq<char>>::empty());
            assert(one.len() == 1 && one[0] == t@.tags[k as int]);
            assert(enc_tags(one.drop_first()) =~= Seq::<char>::empty());
            assert(enc_tags(one) == enc_str(one[0]) + enc_tags(one.drop_first()));
            assert(enc_tags(one) =~= enc_str(t@.tags[k as int]));
            assert(out@ =~= old(out)@ + enc_str(t@.name) + enc_nat(t@.tags.len()) + enc_tags(
                t@.tags.subrange(0, k + 1 as int),
            ));
        }
        k = k + 1;
    }
    proof {
        assert(t@.tags.subrange(0, m as int) =~= t@.tags);
    }
    push_enc_ts(out, &t.start_time);
    push_enc_end(out, &t.end_time);
    proof {
        assert(out@ =~= old(out)@ + enc_task(t@));
    }
}

/// Entry lists encode piecewise as tag lists do.
pub proof fn lemma_enc_entries_concat(a: Seq<(u32, TaskView)>, b: Seq<(u32, TaskView)>)
    ensures
        enc_entries(a + b) == enc_entries(a) + enc_entries(b),
    decreases a.len(),
{
    if a.len() == 0 {
        assert(a + b =~= b);
        assert(enc_entries(a) =~= Seq::<char>::empty());
        assert(enc_entries(a) + enc_entries(b) =~= enc_entries(b));
    } else {
        assert((a + b)[0] == a[0]);
        assert((a + b).drop_first() =~= a.drop_first() + b);
        lemma_enc_entries_concat(a.drop_first(), b);
        assert(enc_entries(a + b) =~= enc_entries(a) + enc_entries(b));
    }
}

/// Renders the whole store file for the given entries.
pub fn render_store(entries: &Vec<(u32, Task)>) -> (r: Vec<char>)
    ensures
        r@ == enc_store(entry_views(entries@)),
{
    let ghost ev = entry_views(entries@);
    let mut out: Vec<char> = Vec::new();
    out.push('t');
    out.push('a');
    out.push('s');
    out.push('k');
    out.push('s');
    out.push(' ');
    proof {
        assert(out@ =~= header());
    }
    let n = entries.len();
    push_enc_nat(&mut out, n as u64);
    proof {
        assert(ev.len() == n);
        assert(ev.subrange(0, 0) =~= Seq::<(u32, TaskView)>::empty());
        assert(out@ =~= header() + enc_nat(ev.len()) + enc_entries(ev.subrange(0, 0)));
    }
    let mut i: usize = 0;
    while i < n
        invariant
            n == entries@.len(),
            ev == entry_views(entries@),
            ev.len() == n,
            0 <= i <= n,
            out@ == header() + enc_nat(ev.len()) + enc_entries(ev.subrange(0, i as int)),
        decreases n - i,
    {
        push_enc_nat(&mut out, entries[i].0 as u64);
        push_enc_task(&mut out, &entries[i].1);
        proof {
            assert(ev[i as int] == (entries@[i as int].0, entries@[i as int].1@));
            let pre = ev.subrange(0, i as int);
            let one = seq![ev[i as int]];
            assert(ev.subrange(0, i + 1 as int) =~= pre + one);
            lemma_enc_entries_concat(pre, one);
            assert(one.drop_first() =~= Seq::<(u32, TaskView)>::empty());
            assert(one.len() == 1 && one[0] == ev[i as int]);
            assert(enc_entries(one.drop_first()) =~= Seq::<char>::empty());
            assert(enc_entries(one) == enc_entry(one[0]) + enc_entries(one.drop_first()));
            assert(enc_entries(one) =~= enc_entry(ev[i as int]));
            assert(out@ =~= header() + enc_nat(ev.len()) + enc_entries(ev.subrange(0, i + 1 as int)));
        }
        i = i + 1;
    }
    proof {
        assert(ev.subrange(0, n as int) =~= ev);
    }
    out
}

/// The fragment `frag` stands in `s` at position `i`.
pub open spec fn at(s: Seq<char>, i: int, frag: Seq<char>) -> bool {
    &&& 0 <= i
    &&& i + frag.len() <= s.len()
    &&& s.subrange(i, i + frag.len() as int) == frag
}

/// A fragment made of two parts stands at `i` exactly when the first part
/// stands at `i` and the second right after it.
pub proof fn lemma_at_concat(s: Seq<char>, i: int, a: Seq<char>, b: Seq<char>)
    requires
        at(s, i, a + b),
    ensures
        at(s, i, a),
        at(s, i + a.len(), b),
{
    let ab = a + b;
    assert(ab.len() == a.len() + b.len());
    assert forall|q: int| 0 <= q < a.len() implies s[i + q] == a[q] by {
        assert(ab[q] == a[q]);
        assert(s.subrange(i, i + ab.len() as int)[q] == s[i + q]);
    }
    assert forall|q: int| 0 <= q < b.len() implies s[i + a.len() + q] == b[q] by {
        assert(ab[a.len() + q] == b[q]);
        assert(s.subrange(i, i + ab.len() as int)[a.len() + q] == s[i + a.len() + q]);
    }
    assert(s.subrange(i, i + a.len() as int) =~= a);
    assert(s.subrange(i + a.len(), i + a.len() + b.len() as int) =~= b);
}

/// A number token at `i`: its value and the position after its space.
pub open spec fn parse_nat_tok(s: Seq<char>, i: int, bound: int) -> Option<(int, int)> {
    match parse_nat(s, i, bound) {
        None => None,
        Some((v, j)) => if j < s.len() && s[j] == ' ' {
            Some((v, j + 1))
        } else {
            None
        },
    }
}

/// A signed number token at `i`.
pub open spec fn parse_int_tok(s: Seq<char>, i: int, bound: int) -> Option<(int, int)> {
    if 0 <= i < s.len() && s[i] == '-' {
        match parse_nat_tok(s, i + 1, bound) {
            None => None,
            Some((v, j)) => Some((-v, j)),
        }
    } else {
        parse_nat_tok(s, i, bound)
    }
}

/// A text token at `i`: its characters and the position after them.
pub open spec fn parse_str_tok(s: Seq<char>, i: int) -> Option<(Seq<char>, int)> {
    match parse_nat_tok(s, i, s.len() as int) {
        None => None,
        Some((n, j)) => if j + n + 1 <= s.len() && s[j + n] == ' ' {
            Some((s.subrange(j, j + n), j + n + 1))
        } else {
            None
        },
    }
}

/// A timestamp at `i`: eight number tokens whose values form a real
/// calendar date and time.
pub open spec fn parse_ts(s: Seq<char>, i: int) -> Option<(Timestamp, int)> {
    match parse_int_tok(s, i, 400_000) {
        None => None,
        Some((y, i1)) => match parse_nat_tok(s, i1, 12) {
            None => None,
            Some((mo, i2)) => match parse_nat_tok(s, i2, 31) {
                None => None,
                Some((d, i3)) => match parse_nat_tok(s, i3, 23) {
                    None => None,
                    Some((h, i4)) => match parse_nat_tok(s, i4, 59) {
                        None => None,
                        Some((mi, i5)) => match parse_nat_tok(s, i5, 59) {
                            None => None,
                            Some((sec, i6)) => match parse_nat_tok(s, i6, 1_999_999_999) {
                                None => None,
                                Some((na, i7)) => match parse_int_tok(s, i7, 86_399) {
                                    None => None,
                                    Some((off, i8)) => {
                                        let t = Timestamp {
                                            year: y as i32,
                                            month: mo as u8,
                                            day: d as u8,
                                            hour: h as u8,
                                            minute: mi as u8,
                                            second: sec as u8,
                                            nanos: na as u32,
                                            offset_secs: off as i32,
                                        };
                                        if t.valid() {
                                            Some((t, i8))
                                        } else {
                                            None
                                        }
                                    },
                                },
                            },
                        },
                    },
                },
            },
        },
    }
}

/// A task end at `i`: `R` for none, `C` and a timestamp otherwise.
pub open spec fn parse_end(s: Seq<char>, i: int) -> Option<(Option<Timestamp>, int)> {
    if 0 <= i && i + 2 <= s.len() && s[i] == 'R' && s[i + 1] == ' ' {
        Some((None, i + 2))
    } else if 0 <= i && i + 2 <= s.len() && s[i] == 'C' && s[i + 1] == ' ' {
        match parse_ts(s, i + 2) {
            None => None,
            Some((t, j)) => Some((Some(t), j)),
        }
    } else {
        None
    }
}

/// `k` text tokens at `i`.
pub open spec fn parse_tags(s: Seq<char>, i: int, k: nat) -> Option<(Seq<Seq<char>>, int)>
    decreases k,
{
    if k == 0 {
        Some((Seq::<Seq<char>>::empty(), i))
    } else {
        match parse_str_tok(s, i) {
            None => None,
            Some((x, j)) => match parse_tags(s, j, (k - 1) as nat) {
                None => None,
                Some((rest, j2)) => Some((seq![x] + rest, j2)),
            },
        }
    }
}

/// A task at `i`: name, tag count, tags, start timestamp, end.
pub open spec fn parse_task(s: Seq<char>, i: int) -> Option<(TaskView, int)> {
    match parse_str_tok(s, i) {
        None => None,
        Some((name, i1)) => match parse_nat_tok(s, i1, s.len() as int) {
            None => None,
            Some((cnt, i2)) => match parse_tags(s, i2, cnt as nat) {
                None => None,
                Some((tags, i3)) => match parse_ts(s, i3) {
                    None => None,
                    Some((st, i4)) => match parse_end(s, i4) {
                        None => None,
                        Some((e, i5)) => Some(
                            (TaskView { name, tags, start_time: st, end_time: e }, i5),
                        ),
                    },
                },
            },
        },
    }
}

/// An entry at `i`: the identifier, then the task.
pub open spec fn parse_entry(s: Seq<char>, i: int) -> Option<((u32, TaskView), int)> {
    match parse_nat_tok(s, i, 0xFFFF_FFFF) {
        None => None,
        Some((id, i1)) => match parse_task(s, i1) {
            None => None,
            Some((t, i2)) => Some((((id as u32), t), i2)),
        },
    }
}

/// `k` entries at `i` whose identifiers ascend strictly above `prev`.
pub open spec fn parse_entries(s: Seq<char>, i: int, k: nat, prev: u32) -> Option<
    (Seq<(u32, TaskView)>, int),
>
    decreases k,
{
    if k == 0 {
        Some((Seq::<(u32, TaskView)>::empty(), i))
    } else {
        match parse_entry(s, i) {
            None => None,
            Some(((id, t), j)) => if id <= prev {
                None
            } else {
                match parse_entries(s, j, (k - 1) as nat, id) {
                    None => None,
                    Some((rest, j2)) => Some((seq![(id, t)] + rest, j2)),
                }
            },
        }
    }
}

/// A whole store file: header, count, that many entries, nothing after.
pub open spec fn parse_store(s: Seq<char>) -> Option<Seq<(u32, TaskView)>> {
    if s.len() >= 6 && s.subrange(0, 6) == header() {
        match parse_nat_tok(s, 6, 0xFFFF_FFFF) {
            None => None,
            Some((cnt, i1)) => match parse_entries(s, i1, cnt as nat, 0) {
                None => None,
                Some((es, i2)) => if i2 == s.len() {
                    Some(es)
                } else {
                    None
                },
            },
        }
    } else {
        None
    }
}

/// Relies on `String::push`: appends one character to the end of the
/// string.
#[verifier::external_body]
fn push_char(s: &mut String, c: char)
    ensures
        final(s)@ == old(s)@.push(c),
{
    s.push(c);
}

/// Builds a string out of the given characters, in order.
pub fn chars_to_string(v: &Vec<char>) -> (s: String)
    ensures
        s@ == v@,
{
    let mut s = String::new();
    let n = v.len();
    let mut i: usize = 0;
    while i < n
        invariant
            n == v@.len(),
            0 <= i <= n,
            s@ == v@.subrange(0, i as int),
        decreases n - i,
    {
        push_char(&mut s, v[i]);
        proof {
            assert(s@ =~= v@.subrange(0, i + 1 as int));
        }
        i = i + 1;
    }
    proof {
        assert(v@.subrange(0, n as int) =~= v@);
    }
    s
}

/// The characters of a string, in order.
pub fn str_chars(s: &str) -> (v: Vec<char>)
    ensures
        v@ == s@,
{
    let n = s.unicode_len();
    let mut v: Vec<char> = Vec::new();
    let mut i: usize = 0;
    while i < n
        invariant
            n == s@.len(),
            0 <= i <= n,
            v@ == s@.subrange(0, i as int),
        decreases n - i,
    {
        v.push(s.get_char(i));
        proof {
            assert(v@ =~= s@.subrange(0, i + 1 as int));
        }
        i = i + 1;
    }
    proof {
        assert(s@.subrange(0, n as int) =~= s@);
    }
    v
}

/// Reads a number token.
fn parse_nat_tok_exec(s: &Vec<char>, i: usize, bound: u64) -> (r: Option<(u64, usize)>)
    requires
        i <= s@.len(),
    ensures
        match r {
            Some((v, j)) => parse_nat_tok(s@, i as int, bound as int) == Some((v as int, j as int))
                && i < j <= s@.len() && v <= bound,
            None => parse_nat_tok(s@, i as int, bound as int) is None,
        },
{
    match parse_nat_exec(s, i, bound) {
        None => None,
        Some((v, j)) => {
            if j < s.len() && s[j] == ' ' {
                Some((v, j + 1))
            } else {
                None
            }
        },
    }
}

/// Reads a signed number token.
fn parse_int_tok_exec(s: &Vec<char>, i: usize, bound: u64) -> (r: Option<(i64, usize)>)
    requires
        i <= s@.len(),
        bound <= 0x7FFF_FFFF,
    ensures
        match r {
            Some((v, j)) => parse_int_tok(s@, i as int, bound as int) == Some((v as int, j as int))
                && i < j <= s@.len() && -(bound as int) <= v <= bound as int,
            None => parse_int_tok(s@, i as int, bound as int) is None,
        },
{
    if i < s.len() && s[i] == '-' {
        match parse_nat_tok_exec(s, i + 1, bound) {
            None => None,
            Some((v, j)) => Some((-(v as i64), j)),
        }
    } else {
        match parse_nat_tok_exec(s, i, bound) {
            None => None,
            Some((v, j)) => Some((v as i64, j)),
        }
    }
}

/// Reads a text token.
fn parse_str_tok_exec(s: &Vec<char>, i: usize) -> (r: Option<(String, usize)>)
    requires
        i <= s@.len(),
    ensures
        match r {
            Some((x, j)) => parse_str_tok(s@, i as int) == Some((x@, j as int)) && i < j
                <= s@.len(),
            None => parse_str_tok(s@, i as int) is None,
        },
{
    let len64: u64 = s.len() as u64;
    match parse_nat_tok_exec(s, i, len64) {
        None => None,
        Some((n64, j)) => {
            let n = n64 as usize;
            let m = s.len();
            if m - j >= 1 && n <= m - j - 1 && s[j + n] == ' ' {
                let mut x = String::new();
                let mut k: usize = 0;
                while k < n
                    invariant
                        m == s@.len(),
                        j + n + 1 <= m,
                        0 <= k <= n,
                        x@ == s@.subrange(j as int, j + k as int),
                    decreases n - k,
                {
                    assert(j + k < m);
                    push_char(&mut x, s[j + k]);
                    proof {
                        assert(x@ =~= s@.subrange(j as int, j + k + 1 as int));
                    }
                    k = k + 1;
                }
                Some((x, j + n + 1))
            } else {
                None
            }
        },
    }
}

/// Reads a timestamp.
fn parse_ts_exec(s: &Vec<char>, i: usize) -> (r: Option<(Timestamp, usize)>)
    requires
        i <= s@.len(),
    ensures
        match r {
            Some((t, j)) => parse_ts(s@, i as int) == Some((t, j as int)) && i < j <= s@.len()
                && t.valid(),
            None => parse_ts(s@, i as int) is None,
        },
{
    let (y, i1) = match parse_int_tok_exec(s, i, 400_000) {
        None => {
            return None;
        },
        Some(p) => p,
    };
    let (mo, i2) = match parse_nat_tok_exec(s, i1, 12) {
        None => {
            return None;
        },
        Some(p) => p,
    };
    let (d, i3) = match parse_nat_tok_exec(s, i2, 31) {
        None => {
            return None;
        },
        Some(p) => p,
    };
    let (h, i4) = match parse_nat_tok_exec(s, i3, 23) {
        None => {
            return None;
        },
        Some(p) => p,
    };
    let (mi, i5) = match parse_nat_tok_exec(s, i4, 59) {
        None => {
            return None;
        },
        Some(p) => p,
    };
    let (sec, i6) = match parse_nat_tok_exec(s, i5, 59) {
        None => {
            return None;
        },
        Some(p) => p,
    };
    let (na, i7) = match parse_nat_tok_exec(s, i6, 1_999_999_999) {
        None => {
            return None;
        },
        Some(p) => p,
    };
    let (off, i8) = match parse_int_tok_exec(s, i7, 86_399) {
        None => {
            return None;
        },
        Some(p) => p,
    };
    match Timestamp::new(
        y as i32,
        mo as u8,
        d as u8,
        h as u8,
        mi as u8,
        sec as u8,
        na as u32,
        off as i32,
    ) {
        Some(t) => Some((t, i8)),
        None => None,
    }
}

/// Reads a task end marker.
fn parse_end_exec(s: &Vec<char>, i: usize) -> (r: Option<(Option<Timestamp>, usize)>)
    requires
        i <= s@.len(),
    ensures
        match r {
            Some((e, j)) => parse_end(s@, i as int) == Some((e, j as int)) && i < j <= s@.len()
                && (e matches Some(t) ==> t.valid()),
            None => parse_end(s@, i as int) is None,
        },
{
    if s.len() - i >= 2 && s[i] == 'R' && s[i + 1] == ' ' {
        Some((None, i + 2))
    } else if s.len() - i >= 2 && s[i] == 'C' && s[i + 1] == ' ' {
        match parse_ts_exec(s, i + 2) {
            None => None,
            Some((t, j)) => Some((Some(t), j)),
        }
    } else {
        None
    }
}

/// Reads `k` text tokens.
fn parse_tags_exec(s: &Vec<char>, i: usize, k: u64) -> (r: Option<(Vec<String>, usize)>)
    requires
        i <= s@.len(),
    ensures
        match r {
            Some((v, j)) => parse_tags(s@, i as int, k as nat) == Some((v.deep_view(), j as int))
                && i <= j <= s@.len(),
            None => parse_tags(s@, i as int, k as nat) is None,
        },
    decreases k,
{
    if k == 0 {
        let v: Vec<String> = Vec::new();
        proof {
            assert(v.deep_view() =~= Seq::<Seq<char>>::empty());
        }
        Some((v, i))
    } else {
        match parse_str_tok_exec(s, i) {
            None => None,
            Some((x, j)) => {
                match parse_tags_exec(s, j, k - 1) {
                    None => None,
                    Some((rest, j2)) => {
                        let ghost xview = x@;
                        let ghost restview = rest.deep_view();
                        let mut v = rest;
                        v.insert(0, x);
                        proof {
                            assert(v.deep_view() =~= seq![xview] + restview);
                        }
                        Some((v, j2))
                    },
                }
            },
        }
    }
}

/// Reads a task.
fn parse_task_exec(s: &Vec<char>, i: usize) -> (r: Option<(Task, usize)>)
    requires
        i <= s@.len(),
    ensures
        match r {
            Some((t, j)) => parse_task(s@, i as int) == Some((t@, j as int)) && i < j <= s@.len()
                && t.wf(),
            None => parse_task(s@, i as int) is None,
        },
{
    let (name, i1) = match parse_str_tok_exec(s, i) {
        None => {
            return None;
        },
        Some(p) => p,
    };
    let len64: u64 = s.len() as u64;
    let (cnt, i2) = match parse_nat_tok_exec(s, i1, len64) {
        None => {
            return None;
        },
        Some(p) => p,
    };
    let (tags, i3) = match parse_tags_exec(s, i2, cnt) {
        None => {
            return None;
        },
        Some(p) => p,
    };
    let (st, i4) = match parse_ts_exec(s, i3) {
        None => {
            return None;
        },
        Some(p) => p,
    };
    let (e, i5) = match parse_end_exec(s, i4) {
        None => {
            return None;
        },
        Some(p) => p,
    };
    let t = Task { name, tags, start_time: st, end_time: e };
    Some((t, i5))
}

/// Reads an entry.
fn parse_entry_exec(s: &Vec<char>, i: usize) -> (r: Option<((u32, Task), usize)>)
    requires
        i <= s@.len(),
    ensures
        match r {
            Some(((id, t), j)) => parse_entry(s@, i as int) == Some(((id, t@), j as int)) && i < j
                <= s@.len() && t.wf(),
            None => parse_entry(s@, i as int) is None,
        },
{
    let (id, i1) = match parse_nat_tok_exec(s, i, 0xFFFF_FFFF) {
        None => {
            return None;
        },
        Some(p) => p,
    };
    match parse_task_exec(s, i1) {
        None => None,
        Some((t, i2)) => Some(((id as u32, t), i2)),
    }
}

/// Reads `k` entries with strictly ascending identifiers above `prev`.
fn parse_entries_exec(s: &Vec<char>, i: usize, k: u64, prev: u32) -> (r: Option<
    (Vec<(u32, Task)>, usize),
>)
    requires
        i <= s@.len(),
    ensures
        match r {
            Some((v, j)) => parse_entries(s@, i as int, k as nat, prev) == Some(
                (entry_views(v@), j as int),
            ) && i <= j <= s@.len(),
            None => parse_entries(s@, i as int, k as nat, prev) is None,
        },
    decreases k,
{
    if k == 0 {
        let v: Vec<(u32, Task)> = Vec::new();
        proof {
            assert(entry_views(v@) =~= Seq::<(u32, TaskView)>::empty());
        }
        Some((v, i))
    } else {
        match parse_entry_exec(s, i) {
            None => None,
            Some(((id, t), j)) => {
                if id <= prev {
                    None
                } else {
                    match parse_entries_exec(s, j, k - 1, id) {
                        None => None,
                        Some((rest, j2)) => {
                            let ghost tview = t@;
                            let ghost restviews = entry_views(rest@);
                            let mut v = rest;
                            v.insert(0, (id, t));
                            proof {
                                assert(entry_views(v@) =~= seq![(id, tview)] + restviews);
                            }
                            Some((v, j2))
                        },
                    }
                }
            },
        }
    }
}

/// Reads a whole store file; `None` when the text is not a store file.
pub fn parse_store_exec(s: &Vec<char>) -> (r: Option<Vec<(u32, Task)>>)
    ensures
        match r {
            Some(v) => parse_store(s@) == Some(entry_views(v@)),
            None => parse_store(s@) is None,
        },
{
    if s.len() < 6 {
        return None;
    }
    if !(s[0] == 't' && s[1] == 'a' && s[2] == 's' && s[3] == 'k' && s[4] == 's' && s[5] == ' ') {
        proof {
            assert(s@.subrange(0, 6) != header()) by {
                if s@.subrange(0, 6) == header() {
                    assert(s@[0] == header()[0] && s@[1] == header()[1] && s@[2] == header()[2]
                        && s@[3] == header()[3] && s@[4] == header()[4] && s@[5] == header()[5]);
                }
            }
        }
        return None;
    }
    proof {
        assert(s@.subrange(0, 6) =~= header());
    }
    let (cnt, i1) = match parse_nat_tok_exec(s, 6, 0xFFFF_FFFF) {
        None => {
            return None;
        },
        Some(p) => p,
    };
    match parse_entries_exec(s, i1, cnt, 0) {
        None => None,
        Some((v, i2)) => {
            if i2 == s.len() {
                Some(v)
            } else {
                None
            }
        },
    }
}

/// Reading back a rendered number token finds the number.
pub proof fn lemma_parse_nat_tok_of_enc(s: Seq<char>, i: int, n: nat, bound: int)
    requires
        at(s, i, enc_nat(n)),
        n <= bound,
    ensures
        parse_nat_tok(s, i, bound) == Some((n as int, i + enc_nat(n).len())),
{
    let d = dec_digits(n);
    lemma_dec_digits_shape(n);
    lemma_at_concat(s, i, d, seq![' ']);
    assert(s[i + d.len()] == ' ') by {
        assert(s.subrange(i + d.len(), i + d.len() + 1)[0] == s[i + d.len()]);
    }
    assert(!is_digit(' '));
    lemma_parse_nat_of_digits(s, i, n, bound);
}

/// Reading back a rendered signed number token finds the number.
pub proof fn lemma_parse_int_tok_of_enc(s: Seq<char>, i: int, v: int, bound: int)
    requires
        at(s, i, enc_int(v)),
        -bound <= v <= bound,
        0 <= bound,
    ensures
        parse_int_tok(s, i, bound) == Some((v, i + enc_int(v).len())),
{
    if v < 0 {
        lemma_at_concat(s, i, seq!['-'], enc_nat((-v) as nat));
        assert(s[i] == '-') by {
            assert(s.subrange(i, i + 1)[0] == s[i]);
        }
        lemma_parse_nat_tok_of_enc(s, i + 1, (-v) as nat, bound);
    } else {
        lemma_dec_digits_shape(v as nat);
        assert(s[i] == dec_digits(v as nat)[0]) by {
            assert(s.subrange(i, i + enc_nat(v as nat).len() as int)[0] == s[i]);
            assert(enc_nat(v as nat)[0] == dec_digits(v as nat)[0]);
        }
        assert(is_digit(dec_digits(v as nat)[0]));
        assert(s[i] != '-');
        lemma_parse_nat_tok_of_enc(s, i, v as nat, bound);
    }
}

/// Reading back a rendered text token finds the text.
pub proof fn lemma_parse_str_tok_of_enc(s: Seq<char>, i: int, x: Seq<char>)
    requires
        at(s, i, enc_str(x)),
    ensures
        parse_str_tok(s, i) == Some((x, i + enc_str(x).len())),
{
    let lenc = enc_nat(x.len());
    assert(enc_str(x) =~= lenc + (x + seq![' ']));
    lemma_at_concat(s, i, lenc, x + seq![' ']);
    lemma_dec_digits_shape(x.len());
    assert(x.len() <= s.len());
    lemma_parse_nat_tok_of_enc(s, i, x.len(), s.len() as int);
    let j = i + lenc.len();
    lemma_at_concat(s, j, x, seq![' ']);
    assert(s[j + x.len()] == ' ') by {
        assert(s.subrange(j + x.len(), j + x.len() + 1)[0] == s[j + x.len()]);
    }
    assert(s.subrange(j, j + x.len() as int) == x);
}

/// Reading back a rendered timestamp finds the timestamp.
#[verifier::rlimit(100)]
#[verifier::spinoff_prover]
pub proof fn lemma_parse_ts_of_enc(s: Seq<char>, i: int, t: Timestamp)
    requires
        at(s, i, enc_ts(t)),
        t.valid(),
    ensures
        parse_ts(s, i) == Some((t, i + enc_ts(t).len())),
{
    let e1 = enc_int(t.year as int);
    let e2 = enc_nat(t.month as nat);
    let e3 = enc_nat(t.day as nat);
    let e4 = enc_nat(t.hour as nat);
    let e5 = enc_nat(t.minute as nat);
    let e6 = enc_nat(t.second as nat);
    let e7 = enc_nat(t.nanos as nat);
    let e8 = enc_int(t.offset_secs as int);
    assert(enc_ts(t) =~= e1 + (e2 + (e3 + (e4 + (e5 + (e6 + (e7 + e8)))))));
    lemma_at_concat(s, i, e1, e2 + (e3 + (e4 + (e5 + (e6 + (e7 + e8))))));
    let i1 = i + e1.len();
    lemma_at_concat(s, i1, e2, e3 + (e4 + (e5 + (e6 + (e7 + e8)))));
    let i2 = i1 + e2.len();
    lemma_at_concat(s, i2, e3, e4 + (e5 + (e6 + (e7 + e8))));
    let i3 = i2 + e3.len();
    lemma_at_concat(s, i3, e4, e5 + (e6 + (e7 + e8)));
    let i4 = i3 + e4.len();
    lemma_at_concat(s, i4, e5, e6 + (e7 + e8));
    let i5 = i4 + e5.len();
    lemma_at_concat(s, i5, e6, e7 + e8);
    let i6 = i5 + e6.len();
    lemma_at_concat(s, i6, e7, e8);
    let i7 = i6 + e7.len();
    lemma_parse_int_tok_of_enc(s, i, t.year as int, 400_000);
    lemma_parse_nat_tok_of_enc(s, i1, t.month as nat, 12);
    assert(days_in_month(t.year as int, t.month as int) <= 31);
    lemma_parse_nat_tok_of_enc(s, i2, t.day as nat, 31);
    lemma_parse_nat_tok_of_enc(s, i3, t.hour as nat, 23);
    lemma_parse_nat_tok_of_enc(s, i4, t.minute as nat, 59);
    lemma_parse_nat_tok_of_enc(s, i5, t.second as nat, 59);
    lemma_parse_nat_tok_of_enc(s, i6, t.nanos as nat, 1_999_999_999);
    lemma_parse_int_tok_of_enc(s, i7, t.offset_secs as int, 86_399);
    let rebuilt = Timestamp {
        year: (t.year as int) as i32,
        month: (t.month as nat) as u8,
        day: (t.day as nat) as u8,
        hour: (t.hour as nat) as u8,
        minute: (t.minute as nat) as u8,
        second: (t.second as nat) as u8,
        nanos: (t.nanos as nat) as u32,
        offset_secs: (t.offset_secs as int) as i32,
    };
    assert(rebuilt == t);
}

/// Reading back a rendered end marker finds the end marker.
pub proof fn lemma_parse_end_of_enc(s: Seq<char>, i: int, e: Option<Timestamp>)
    requires
        at(s, i, enc_end(e)),
        e matches Some(t) ==> t.valid(),
    ensures
        parse_end(s, i) == Some((e, i + enc_end(e).len())),
{
    match e {
        None => {
            assert(s[i] == 'R' && s[i + 1] == ' ') by {
                assert(s.subrange(i, i + 2)[0] == s[i]);
                assert(s.subrange(i, i + 2)[1] == s[i + 1]);
            }
        },
        Some(t) => {
            assert(enc_end(e) =~= seq!['C', ' '] + enc_ts(t));
            lemma_at_concat(s, i, seq!['C', ' '], enc_ts(t));
            assert(s[i] == 'C' && s[i + 1] == ' ') by {
                assert(s.subrange(i, i + 2)[0] == s[i]);
                assert(s.subrange(i, i + 2)[1] == s[i + 1]);
            }
            lemma_parse_ts_of_enc(s, i + 2, t);
        },
    }
}

/// A rendered tag list is at least as long as the number of tags.
pub proof fn lemma_enc_tags_len(tags: Seq<Seq<char>>)
    ensures
        enc_tags(tags).len() >= tags.len(),
    decreases tags.len(),
{
    if tags.len() > 0 {
        lemma_dec_digits_shape(tags[0].len());
        lemma_enc_tags_len(tags.drop_first());
    }
}

/// Reading back a rendered tag list finds the tags.
pub proof fn lemma_parse_tags_of_enc(s: Seq<char>, i: int, tags: Seq<Seq<char>>)
    requires
        at(s, i, enc_tags(tags)),
    ensures
        parse_tags(s, i, tags.len()) == Some((tags, i + enc_tags(tags).len())),
    decreases tags.len(),
{
    if tags.len() == 0 {
        assert(tags =~= Seq::<Seq<char>>::empty());
    } else {
        lemma_at_concat(s, i, enc_str(tags[0]), enc_tags(tags.drop_first()));
        lemma_parse_str_tok_of_enc(s, i, tags[0]);
        let j = i + enc_str(tags[0]).len();
        lemma_parse_tags_of_enc(s, j, tags.drop_first());
        assert(seq![tags[0]] + tags.drop_first() =~= tags);
    }
}

/// Reading back a rendered task finds the task.
pub proof fn lemma_parse_task_of_enc(s: Seq<char>, i: int, t: TaskView)
    requires
        at(s, i, enc_task(t)),
        t.wf(),
    ensures
        parse_task(s, i) == Some((t, i + enc_task(t).len())),
{
    let e1 = enc_str(t.name);
    let e2 = enc_nat(t.tags.len());
    let e3 = enc_tags(t.tags);
    let e4 = enc_ts(t.start_time);
    let e5 = enc_end(t.end_time);
    assert(enc_task(t) =~= e1 + (e2 + (e3 + (e4 + e5))));
    lemma_at_concat(s, i, e1, e2 + (e3 + (e4 + e5)));
    let i1 = i + e1.len();
    lemma_at_concat(s, i1, e2, e3 + (e4 + e5));
    let i2 = i1 + e2.len();
    lemma_at_concat(s, i2, e3, e4 + e5);
    let i3 = i2 + e3.len();
    lemma_at_concat(s, i3, e4, e5);
    let i4 = i3 + e4.len();
    lemma_parse_str_tok_of_enc(s, i, t.name);
    lemma_enc_tags_len(t.tags);
    assert(t.tags.len() <= s.len());
    lemma_parse_nat_tok_of_enc(s, i1, t.tags.len(), s.len() as int);
    lemma_parse_tags_of_enc(s, i2, t.tags);
    lemma_parse_ts_of_enc(s, i3, t.start_time);
    lemma_parse_end_of_enc(s, i4, t.end_time);
    let rebuilt = TaskView {
        name: t.name,
        tags: t.tags,
        start_time: t.start_time,
        end_time: t.end_time,
    };
    assert(rebuilt == t);
}

/// Reading back a rendered entry finds the entry.
pub proof fn lemma_parse_entry_of_enc(s: Seq<char>, i: int, e: (u32, TaskView))
    requires
        at(s, i, enc_entry(e)),
        e.1.wf(),
    ensures
        parse_entry(s, i) == Some((e, i + enc_entry(e).len())),
{
    assert(enc_entry(e) =~= enc_nat(e.0 as nat) + enc_task(e.1));
    lemma_at_concat(s, i, enc_nat(e.0 as nat), enc_task(e.1));
    lemma_parse_nat_tok_of_enc(s, i, e.0 as nat, 0xFFFF_FFFF);
    let i1 = i + enc_nat(e.0 as nat).len();
    lemma_parse_task_of_enc(s, i1, e.1);
    assert((((e.0 as nat) as u32), e.1) == e);
}

/// Reading back a rendered entry list with ascending identifiers finds the
/// entries.
pub proof fn lemma_parse_entries_of_enc(s: Seq<char>, i: int, es: Seq<(u32, TaskView)>, prev: u32)
    requires
        at(s, i, enc_entries(es)),
        forall|a: int, b: int| 0 <= a < b < es.len() ==> es[a].0 < es[b].0,
        forall|q: int| 0 <= q < es.len() ==> (#[trigger] es[q]).0 > prev,
        forall|q: int| 0 <= q < es.len() ==> (#[trigger] es[q]).1.wf(),
    ensures
        parse_entries(s, i, es.len(), prev) == Some((es, i + enc_entries(es).len())),
    decreases es.len(),
{
    if es.len() == 0 {
        assert(es =~= Seq::<(u32, TaskView)>::empty());
    } else {
        let rest = es.drop_first();
        lemma_at_concat(s, i, enc_entry(es[0]), enc_entries(rest));
        lemma_parse_entry_of_enc(s, i, es[0]);
        let j = i + enc_entry(es[0]).len();
        assert(forall|q: int| 0 <= q < rest.len() ==> (#[trigger] rest[q]).0 > es[0].0) by {
            assert(forall|q: int| 0 <= q < rest.len() ==> rest[q] == es[q + 1]);
        }
        lemma_parse_entries_of_enc(s, j, rest, es[0].0);
        assert(seq![es[0]] + rest =~= es);
    }
}

/// In a well-formed entry list the identifier at each position is at least
/// the position plus one.
pub proof fn lemma_ascending_ids_lower(es: Seq<(u32, TaskView)>, i: int)
    requires
        forall|a: int, b: int| 0 <= a < b < es.len() ==> es[a].0 < es[b].0,
        forall|q: int| 0 <= q < es.len() ==> (#[trigger] es[q]).0 >= 1,
        0 <= i < es.len(),
    ensures
        es[i].0 >= i + 1,
    decreases i,
{
    if i > 0 {
        lemma_ascending_ids_lower(es, i - 1);
        assert(es[i - 1].0 < es[i].0);
    }
}

/// A well-formed entry list never outgrows the identifier space.
pub proof fn lemma_wf_len_bound(es: Seq<(u32, TaskView)>)
    requires
        entries_wf(es),
    ensures
        es.len() <= 0xFFFF_FFFF,
{
    if es.len() > 0xFFFF_FFFF {
        lemma_ascending_ids_lower(es, 0xFFFF_FFFF);
        assert(es[0xFFFF_FFFF].0 >= 0x1_0000_0000);
    }
}

/// The round trip of the store file: rendering the entries of a
/// well-formed store and parsing the result gives back exactly the same
/// entries — identifiers, names, tags and timestamps alike.
#[verifier::rlimit(100)]
#[verifier::spinoff_prover]
pub proof fn lemma_store_round_trip(es: Seq<(u32, TaskView)>)
    requires
        entries_wf(es),
    ensures
        parse_store(enc_store(es)) == Some(es),
{
    lemma_wf_len_bound(es);
    let s = enc_store(es);
    assert(s =~= header() + (enc_nat(es.len()) + enc_entries(es)));
    assert(at(s, 0, header() + (enc_nat(es.len()) + enc_entries(es)))) by {
        assert(s.subrange(0, s.len() as int) =~= s);
    }
    lemma_at_concat(s, 0, header(), enc_nat(es.len()) + enc_entries(es));
    assert(s.len() >= 6);
    assert(s.subrange(0, 6) == header());
    lemma_at_concat(s, 6, enc_nat(es.len()), enc_entries(es));
    lemma_parse_nat_tok_of_enc(s, 6, es.len(), 0xFFFF_FFFF);
    let i1: int = 6 + enc_nat(es.len()).len() as int;
    assert(forall|q: int| 0 <= q < es.len() ==> (#[trigger] es[q]).0 > 0u32);
    lemma_parse_entries_of_enc(s, i1, es, 0);
}

/// Whatever text they are read from, parsed tasks carry valid timestamps.
pub proof fn lemma_parse_task_wf(s: Seq<char>, i: int)
    ensures
        parse_task(s, i) matches Some((t, j)) ==> t.wf(),
{
    match parse_str_tok(s, i) {
        None => {},
        Some((name, i1)) => {
            match parse_nat_tok(s, i1, s.len() as int) {
                None => {},
                Some((cnt, i2)) => {
                    match parse_tags(s, i2, cnt as nat) {
                        None => {},
                        Some((tags, i3)) => {
                            match parse_ts(s, i3) {
                                None => {},
                                Some((st, i4)) => {
                                    assert(st.valid());
                                    match parse_end(s, i4) {
                                        None => {},
                                        Some((e, i5)) => {
                                            match e {
                                                None => {},
                                                Some(t2) => {
                                                    assert(t2.valid());
                                                },
                                            }
                                        },
                                    }
                                },
                            }
                        },
                    }
                },
            }
        },
    }
}

/// Whatever text they are read from, parsed entry lists are well formed:
/// identifiers ascend strictly above `prev` and the tasks carry valid
/// timestamps.
pub proof fn lemma_parse_entries_wf(s: Seq<char>, i: int, k: nat, prev: u32)
    ensures
        parse_entries(s, i, k, prev) matches Some((es, j)) ==> {
            &&& forall|a: int, b: int| 0 <= a < b < es.len() ==> es[a].0 < es[b].0
            &&& forall|q: int| 0 <= q < es.len() ==> (#[trigger] es[q]).0 > prev
            &&& forall|q: int| 0 <= q < es.len() ==> (#[trigger] es[q]).1.wf()
        },
    decreases k,
{
    if k == 0 {
    } else {
        match parse_entry(s, i) {
            None => {},
            Some(((id, t), j)) => {
                if id > prev {
                    match parse_nat_tok(s, i, 0xFFFF_FFFF) {
                        None => {},
                        Some((id0, i1)) => {
                            lemma_parse_task_wf(s, i1);
                        },
                    }
                    lemma_parse_entries_wf(s, j, (k - 1) as nat, id);
                    match parse_entries(s, j, (k - 1) as nat, id) {
                        None => {},
                        Some((rest, j2)) => {
                            let es = seq![(id, t)] + rest;
                            assert(es[0] == (id, t));
                            assert(forall|q: int| 1 <= q < es.len() ==> es[q] == rest[q - 1]);
                            assert(forall|q: int|
                                0 <= q < es.len() ==> (#[trigger] es[q]).0 > prev);
                            assert(forall|q: int|
                                0 <= q < es.len() ==> (#[trigger] es[q]).1.wf());
                            assert(forall|a: int, b: int|
                                0 <= a < b < es.len() ==> es[a].0 < es[b].0);
                        },
                    }
                }
            },
        }
    }
}

/// Whatever text it is read from, a parsed store file is well formed.
pub proof fn lemma_parse_store_wf(s: Seq<char>)
    ensures
        parse_store(s) matches Some(es) ==> entries_wf(es),
{
    if s.len() >= 6 && s.subrange(0, 6) == header() {
        match parse_nat_tok(s, 6, 0xFFFF_FFFF) {
            None => {},
            Some((cnt, i1)) => {
                lemma_parse_entries_wf(s, i1, cnt as nat, 0);
            },
        }
    }
}

} // verus!
