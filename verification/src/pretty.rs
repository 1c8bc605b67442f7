//! Human-readable rendering of durations and timestamps for the display
//! layer: a duration as days, hours, minutes and seconds, a timestamp as
//! its calendar date and time of day.

use vstd::prelude::*;

use crate::codec::chars_to_string;
use crate::numeral::{dec_digits, push_u128_dec, push_u64_dec};
use crate::task::{Task, TaskView};
use crate::time::{Duration, Timestamp};

verus! {

/// A value with a human-readable rendering.
pub trait Pretty {
    /// What the rendering reads, character by character.
    spec fn spec_pretty(&self) -> Seq<char>;

    /// The human-readable rendering.
    fn pretty(&self) -> (r: String)
        ensures
            r@ == self.spec_pretty(),
    ;
}

/// A number in at least two columns: zero-padded below ten, with a minus
/// sign ahead of a negative value.
pub open spec fn pad2(n: int) -> Seq<char> {
    if n < 0 {
        seq!['-'] + dec_digits((-n) as nat)
    } else if n < 10 {
        seq!['0'] + dec_digits(n as nat)
    } else {
        dec_digits(n as nat)
    }
}

/// A nonnegative number in at least four columns, zero-padded below a
/// thousand.
pub open spec fn pad4_mag(n: nat) -> Seq<char> {
    if n < 10 {
        seq!['0', '0', '0'] + dec_digits(n)
    } else if n < 100 {
        seq!['0', '0'] + dec_digits(n)
    } else if n < 1000 {
        seq!['0'] + dec_digits(n)
    } else {
        dec_digits(n)
    }
}

/// A number in at least four columns: zero-padded below a thousand, with a
/// minus sign ahead of a negative value.
pub open spec fn pad4(n: int) -> Seq<char> {
    if n < 0 {
        seq!['-'] + pad4_mag((-n) as nat)
    } else {
        pad4_mag(n as nat)
    }
}

/// A plain number, with a minus sign where negative.
pub open spec fn int_str(n: int) -> Seq<char> {
    if n < 0 {
        seq!['-'] + dec_digits((-n) as nat)
    } else {
        dec_digits(n as nat)
    }
}

/// The rendering of a duration's components: hours, minutes and seconds,
/// preceded by the whole days when there are any; each nonzero component
/// of a negative span carries a minus sign, as truncating division leaves
/// it.
pub open spec fn duration_body(days: int, hours: int, minutes: int, secs: int, neg: bool) -> Seq<
    char,
> {
    let sh = if neg { -hours } else { hours };
    let sm = if neg { -minutes } else { minutes };
    let ss = if neg { -secs } else { secs };
    let head = pad2(sh) + seq!['h', ' '] + pad2(sm) + seq!['m', 'i', 'n', ' '] + pad2(ss) + seq![
        's',
    ];
    if days == 0 {
        head
    } else {
        int_str(if neg { -days } else { days }) + seq!['d', ' '] + head
    }
}

/// The rendering of a span of `nanos` nanoseconds.
pub open spec fn duration_pretty(nanos: int) -> Seq<char> {
    let neg = nanos < 0;
    let m = if neg { -nanos } else { nanos };
    let ts = m / 1_000_000_000;
    duration_body(ts / 86_400, (ts / 3600) % 24, (ts / 60) % 60, ts % 60, neg)
}

/// The rendering of a timestamp: calendar date, a space, time of day.
pub open spec fn timestamp_pretty(t: Timestamp) -> Seq<char> {
    pad4(t.year as int) + seq!['-'] + pad2(t.month as int) + seq!['-'] + pad2(t.day as int) + seq![
        ' ',
    ] + pad2(t.hour as int) + seq![':'] + pad2(t.minute as int) + seq![':'] + pad2(t.second as int)
}

/// Appends a component in at least two columns, negated when `neg` holds.
fn push_pad2(out: &mut Vec<char>, mag: u64, neg: bool)
    ensures
        final(out)@ == old(out)@ + pad2(if neg { -(mag as int) } else { mag as int }),
{
    if neg && mag > 0 {
        out.push('-');
        push_u64_dec(out, mag);
        proof {
            assert(out@ =~= old(out)@ + pad2(-(mag as int)));
        }
    } else if mag < 10 {
        out.push('0');
        push_u64_dec(out, mag);
        proof {
            assert(out@ =~= old(out)@ + pad2(mag as int));
        }
    } else {
        push_u64_dec(out, mag);
    }
}

/// Appends a year in at least four columns.
fn push_pad4(out: &mut Vec<char>, v: i64)
    requires
        -2_147_483_648 <= v <= 2_147_483_647,
    ensures
        final(out)@ == old(out)@ + pad4(v as int),
{
    let mag: u64 = if v < 0 {
        out.push('-');
        (-v) as u64
    } else {
        v as u64
    };
    if mag < 10 {
        out.push('0');
        out.push('0');
        out.push('0');
    } else if mag < 100 {
        out.push('0');
        out.push('0');
    } else if mag < 1000 {
        out.push('0');
    }
    push_u64_dec(out, mag);
    proof {
        assert(out@ =~= old(out)@ + pad4(v as int));
    }
}

impl Pretty for Duration {
    /// The rendering of this span: hours, minutes and seconds, preceded by
    /// whole days when there are any.
    open spec fn spec_pretty(&self) -> Seq<char> {
        duration_pretty(self.nanos as int)
    }

    fn pretty(&self) -> (r: String)
        ensures
            r@ == self.spec_pretty(),
    {
        let neg = self.nanos < 0;
        let m: u128 = if neg {
            ((-(self.nanos + 1)) as u128) + 1
        } else {
            self.nanos as u128
        };
        let ts: u128 = m / 1_000_000_000;
        let days: u128 = ts / 86_400;
        let hours: u64 = ((ts / 3600) % 24) as u64;
        let minutes: u64 = ((ts / 60) % 60) as u64;
        let secs: u64 = (ts % 60) as u64;
        let out = render_duration_body(days, hours, minutes, secs, neg);
        proof {
            let nn = self.nanos as int;
            let mm: int = if nn < 0 { -nn } else { nn };
            assert(m == mm);
            assert(ts == mm / 1_000_000_000);
            assert(out@ == duration_pretty(nn));
        }
        chars_to_string(&out)
    }
}

/// Renders the components of a duration.
#[verifier::rlimit(100)]
#[verifier::spinoff_prover]
fn render_duration_body(days: u128, hours: u64, minutes: u64, secs: u64, neg: bool) -> (out: Vec<
    char,
>)
    ensures
        out@ == duration_body(days as int, hours as int, minutes as int, secs as int, neg),
{
    let mut out: Vec<char> = Vec::new();
    if days != 0 {
        if neg {
            out.push('-');
        }
        push_u128_dec(&mut out, days);
        out.push('d');
        out.push(' ');
        proof {
            let sd: int = if neg { -(days as int) } else { days as int };
            assert(out@ =~= int_str(sd) + seq!['d', ' ']);
        }
    }
    let ghost pre = out@;
    let ghost sh: int = if neg { -(hours as int) } else { hours as int };
    let ghost sm: int = if neg { -(minutes as int) } else { minutes as int };
    let ghost ss: int = if neg { -(secs as int) } else { secs as int };
    push_pad2(&mut out, hours, neg);
    out.push('h');
    out.push(' ');
    proof {
        assert(out@ =~= pre + (pad2(sh) + seq!['h', ' ']));
    }
    let ghost p1 = out@;
    push_pad2(&mut out, minutes, neg);
    out.push('m');
    out.push('i');
    out.push('n');
    out.push(' ');
    proof {
        assert(out@ =~= p1 + (pad2(sm) + seq!['m', 'i', 'n', ' ']));
    }
    let ghost p2 = out@;
    push_pad2(&mut out, secs, neg);
    out.push('s');
    proof {
        assert(out@ =~= p2 + (pad2(ss) + seq!['s']));
        let head = pad2(sh) + seq!['h', ' '] + pad2(sm) + seq!['m', 'i', 'n', ' '] + pad2(ss)
            + seq!['s'];
        assert(out@ =~= pre + head);
        assert(duration_body(days as int, hours as int, minutes as int, secs as int, neg) == pre
            + head) by {
            if days == 0 {
                assert(pre =~= Seq::<char>::empty());
                assert(pre + head =~= head);
            }
        }
    }
    out
}

impl Pretty for Timestamp {
    /// The rendering of this timestamp: calendar date, a space, time of
    /// day.
    open spec fn spec_pretty(&self) -> Seq<char> {
        timestamp_pretty(*self)
    }

    fn pretty(&self) -> (r: String)
        ensures
            r@ == self.spec_pretty(),
    {
        let mut out: Vec<char> = Vec::new();
        push_pad4(&mut out, self.year as i64);
        out.push('-');
        push_pad2(&mut out, self.month as u64, false);
        out.push('-');
        push_pad2(&mut out, self.day as u64, false);
        out.push(' ');
        push_pad2(&mut out, self.hour as u64, false);
        out.push(':');
        push_pad2(&mut out, self.minute as u64, false);
        out.push(':');
        push_pad2(&mut out, self.second as u64, false);
        proof {
            assert(out@ =~= timestamp_pretty(*self));
        }
        chars_to_string(&out)
    }
}

/// The tags joined with commas, in order: nothing for no tags, otherwise
/// each tag with a comma before every one but the first.
pub open spec fn joined_tags(tags: Seq<Seq<char>>) -> Seq<char>
    decreases tags.len(),
{
    if tags.len() == 0 {
        Seq::<char>::empty()
    } else if tags.len() == 1 {
        tags[0]
    } else {
        tags[0] + seq![','] + joined_tags(tags.drop_first())
    }
}

/// Appends the characters of `s` to `out`.
fn push_str_chars(out: &mut Vec<char>, s: &String)
    ensures
        final(out)@ == old(out)@ + s@,
{
    let n = s.as_str().unicode_len();
    let mut k: usize = 0;
    while k < n
        invariant
            n == s@.len(),
            0 <= k <= n,
            out@ == old(out)@ + s@.subrange(0, k as int),
        decreases n - k,
    {
        out.push(s.as_str().get_char(k));
        proof {
            assert(out@ =~= old(out)@ + s@.subrange(0, k + 1 as int));
        }
        k = k + 1;
    }
    proof {
        assert(s@.subrange(0, n as int) =~= s@);
    }
}

/// Appends the tags from index `i` on, comma-separated, to `out`.
fn push_joined_from(out: &mut Vec<char>, tags: &Vec<String>, i: usize)
    requires
        i <= tags@.len(),
    ensures
        final(out)@ == old(out)@ + joined_tags(tags.deep_view().skip(i as int)),
    decreases tags@.len() - i,
{
    let n = tags.len();
    let ghost rest = tags.deep_view().skip(i as int);
    if i == n {
        proof {
            assert(rest.len() == 0);
            assert(out@ =~= old(out)@ + joined_tags(rest));
        }
    } else {
        push_str_chars(out, &tags[i]);
        proof {
            assert(rest[0] == tags.deep_view()[i as int]);
        }
        if i + 1 == n {
            proof {
                assert(rest.len() == 1);
                assert(out@ =~= old(out)@ + joined_tags(rest));
            }
        } else {
            out.push(',');
            push_joined_from(out, tags, i + 1);
            proof {
                assert(rest.drop_first() =~= tags.deep_view().skip(i + 1 as int));
                assert(out@ =~= old(out)@ + joined_tags(rest));
            }
        }
    }
}

/// The task's tags joined with commas, for one display cell.
pub fn join_tags(tags: &Vec<String>) -> (r: String)
    ensures
        r@ == joined_tags(tags.deep_view()),
{
    let mut out: Vec<char> = Vec::new();
    push_joined_from(&mut out, tags, 0);
    proof {
        assert(tags.deep_view().skip(0) =~= tags.deep_view());
    }
    chars_to_string(&out)
}

/// The interval a task covers, as one display cell: its start timestamp,
/// a dash, and its end timestamp — or an ellipsis while it is running.
pub open spec fn interval_pretty(t: TaskView) -> Seq<char> {
    timestamp_pretty(t.start_time) + seq![' ', '-', ' '] + (match t.end_time {
        Some(e) => timestamp_pretty(e),
        None => seq!['.', '.', '.'],
    })
}

/// The interval a task covers, rendered for display.
pub fn interval_string(t: &Task) -> (r: String)
    ensures
        r@ == interval_pretty(t@),
{
    let mut s = t.start_time.pretty();
    s.append(" - ");
    proof {
        reveal_strlit(" - ");
        assert(" - "@ =~= seq![' ', '-', ' ']);
    }
    match &t.end_time {
        Some(e) => {
            let es = e.pretty();
            s.append(es.as_str());
        },
        None => {
            s.append("...");
            proof {
                reveal_strlit("...");
                assert("..."@ =~= seq!['.', '.', '.']);
            }
        },
    }
    proof {
        assert(s@ =~= interval_pretty(t@));
    }
    s
}

} // verus!
