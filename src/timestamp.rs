use vstd::prelude::*;

use crate::decimal::{
    all_digits, decimal, field_value, lemma_decimal_field, lemma_decimal_reads_back, parse_field,
    push_decimal,
};

verus! {

/// Why a timestamp could not be read.
#[derive(Debug, Clone, Copy, PartialEq, Eq, Structural)]
pub enum ParseError {
    /// A field is empty, holds a character other than a digit, does not fit in
    /// a `u32`, or there are more than three colon-separated fields.
    MalformedField,
}

/// A point in a media file, kept field by field as it was written.
///
/// The fields are not normalised: `minute` may exceed 59, `millis` 999.
#[derive(Debug, Clone, Copy, PartialEq, Eq, Structural)]
pub struct TimeStamp {
    pub hour: u32,
    pub minute: u32,
    pub second: u32,
    pub millis: u32,
}

/// The index of the last `c` in `s`, or -1 where `s` holds none.
pub open spec fn last_index(s: Seq<char>, c: char) -> int
    decreases s.len(),
{
    if s.len() == 0 {
        -1
    } else if s.last() == c {
        s.len() - 1
    } else {
        last_index(s.drop_last(), c)
    }
}

/// The four fields as a timestamp, where each of them was read.
pub open spec fn assemble(
    hour: Option<u32>,
    minute: Option<u32>,
    second: Option<u32>,
    millis: Option<u32>,
) -> Option<TimeStamp> {
    if hour is Some && minute is Some && second is Some && millis is Some {
        Some(
            TimeStamp {
                hour: hour->0,
                minute: minute->0,
                second: second->0,
                millis: millis->0,
            },
        )
    } else {
        None
    }
}

/// Reads `[[H:]M:]S[.mmm]`: the text after the last `.` is the milliseconds
/// (0 without a `.`), and the colon-separated fields before it are read from
/// the right, seconds first, then minutes, then hours.
pub open spec fn parse_time(s: Seq<char>) -> Option<TimeStamp> {
    let d = last_index(s, '.');
    let time = if d < 0 { s } else { s.take(d) };
    let millis = if d < 0 { Some(0u32) } else { field_value(s.skip(d + 1)) };
    let c1 = last_index(time, ':');
    if c1 < 0 {
        assemble(Some(0u32), Some(0u32), field_value(time), millis)
    } else {
        let second = field_value(time.skip(c1 + 1));
        let rest = time.take(c1);
        let c2 = last_index(rest, ':');
        if c2 < 0 {
            assemble(Some(0u32), field_value(rest), second, millis)
        } else if last_index(rest.take(c2), ':') >= 0 {
            None
        } else {
            assemble(field_value(rest.take(c2)), field_value(rest.skip(c2 + 1)), second, millis)
        }
    }
}

/// The text `H:M:S.mmm` of a timestamp, each field in shortest decimal form.
pub open spec fn render(t: TimeStamp) -> Seq<char> {
    decimal(t.hour as nat) + seq![':'] + decimal(t.minute as nat) + seq![':'] + decimal(
        t.second as nat,
    ) + seq!['.'] + decimal(t.millis as nat)
}

/// The offset of a timestamp in milliseconds, which orders timestamps by the
/// time they stand for.
pub open spec fn offset_millis(t: TimeStamp) -> int {
    ((t.hour * 60 + t.minute) * 60 + t.second) * 1000 + t.millis
}

/// What `last_index` returns: -1, or a position of `c` with no `c` after it.
pub proof fn lemma_last_index(s: Seq<char>, c: char)
    ensures
        -1 <= last_index(s, c) < s.len(),
        last_index(s, c) >= 0 ==> s[last_index(s, c)] == c,
        forall|j: int| last_index(s, c) < j < s.len() ==> s[j] != c,
    decreases s.len(),
{
    if s.len() > 0 && s.last() != c {
        lemma_last_index(s.drop_last(), c);
        assert forall|j: int| last_index(s, c) < j < s.len() implies s[j] != c by {
            if j < s.len() - 1 {
                assert(s[j] == s.drop_last()[j]);
            }
        }
    }
}

/// In `a + [c] + b`, where `b` holds no `c`, the last `c` is the one between them.
pub proof fn lemma_last_index_split(a: Seq<char>, b: Seq<char>, c: char)
    requires
        forall|j: int| 0 <= j < b.len() ==> b[j] != c,
    ensures
        last_index(a + seq![c] + b, c) == a.len(),
        (a + seq![c] + b).take(a.len() as int) == a,
        (a + seq![c] + b).skip(a.len() as int + 1) == b,
{
    let s = a + seq![c] + b;
    lemma_last_index(s, c);
    assert(s[a.len() as int] == c);
    let k = last_index(s, c);
    if k > a.len() {
        assert(s[k] == b[k - a.len() - 1]);
    }
    assert(s.take(a.len() as int) =~= a);
    assert(s.skip(a.len() as int + 1) =~= b);
}

/// A digit string holds no `:` and no `.`.
proof fn lemma_digits_have_no_separator(s: Seq<char>)
    requires
        all_digits(s),
    ensures
        last_index(s, ':') == -1,
        last_index(s, '.') == -1,
        forall|j: int| 0 <= j < s.len() ==> s[j] != ':' && s[j] != '.',
{
    lemma_last_index(s, ':');
    lemma_last_index(s, '.');
    assert forall|j: int| 0 <= j < s.len() implies s[j] != ':' && s[j] != '.' by {
        assert(crate::decimal::is_digit(s[j]));
    }
}

/// Reading the rendered text of a timestamp gives back the same four fields.
pub proof fn lemma_parse_render(t: TimeStamp)
    ensures
        parse_time(render(t)) == Some(t),
{
    let dh = decimal(t.hour as nat);
    let dm = decimal(t.minute as nat);
    let ds = decimal(t.second as nat);
    let dms = decimal(t.millis as nat);
    lemma_decimal_reads_back(t.hour as nat);
    lemma_decimal_reads_back(t.minute as nat);
    lemma_decimal_reads_back(t.second as nat);
    lemma_decimal_reads_back(t.millis as nat);
    lemma_decimal_field(t.hour);
    lemma_decimal_field(t.minute);
    lemma_decimal_field(t.second);
    lemma_decimal_field(t.millis);
    lemma_digits_have_no_separator(dh);
    lemma_digits_have_no_separator(dm);
    lemma_digits_have_no_separator(ds);
    lemma_digits_have_no_separator(dms);
    let rest = dh + seq![':'] + dm;
    let time = rest + seq![':'] + ds;
    assert(render(t) == time + seq!['.'] + dms);
    lemma_last_index_split(time, dms, '.');
    lemma_last_index_split(rest, ds, ':');
    lemma_last_index_split(dh, dm, ':');
}

/// The index of the last `c` in `cs[lo..hi]`.
fn find_last(cs: &Vec<char>, lo: usize, hi: usize, c: char) -> (r: Option<usize>)
    requires
        lo <= hi <= cs@.len(),
    ensures
        match r {
            None => last_index(cs@.subrange(lo as int, hi as int), c) < 0,
            Some(i) => lo <= i < hi && last_index(cs@.subrange(lo as int, hi as int), c) == i
                - lo,
        },
{
    let ghost s = cs@.subrange(lo as int, hi as int);
    proof {
        lemma_last_index(s, c);
    }
    let mut i = hi;
    while i > lo
        invariant
            lo <= i <= hi <= cs@.len(),
            s == cs@.subrange(lo as int, hi as int),
            forall|j: int| i <= j < hi ==> cs@[j] != c,
        decreases i,
    {
        if cs[i - 1] == c {
            proof {
                lemma_last_index(s, c);
                let k = last_index(s, c);
                assert(s[i - 1 - lo] == c);
                if k >= 0 && k != i - 1 - lo {
                    assert(s[k] == cs@[k + lo]);
                }
            }
            return Some(i - 1);
        }
        i = i - 1;
    }
    proof {
        lemma_last_index(s, c);
        let k = last_index(s, c);
        if k >= 0 {
            assert(s[k] == cs@[k + lo]);
        }
    }
    None
}

impl TimeStamp {
    /// Returns the timestamp as `H:M:S.mmm`, each field without leading zeros.
    pub fn get(&self) -> (r: String)
        ensures
            r@ == render(*self),
    {
        let mut out = String::new();
        push_decimal(&mut out, self.hour as u64);
        out.append(":");
        push_decimal(&mut out, self.minute as u64);
        out.append(":");
        push_decimal(&mut out, self.second as u64);
        out.append(".");
        push_decimal(&mut out, self.millis as u64);
        proof {
            reveal_strlit(":");
            reveal_strlit(".");
        }
        assert(out@ =~= render(*self));
        out
    }

    /// Reads a timestamp written `[[H:]M:]S[.mmm]`.
    pub fn from_str(input: &str) -> (r: Result<TimeStamp, ParseError>)
        ensures
            match parse_time(input@) {
                Some(t) => r == Ok::<TimeStamp, ParseError>(t),
                None => r == Err::<TimeStamp, ParseError>(ParseError::MalformedField),
            },
    {
        let n = input.unicode_len();
        let mut cs: Vec<char> = Vec::new();
        let mut k: usize = 0;
        while k < n
            invariant
                k <= n,
                n == input@.len(),
                cs@ == input@.take(k as int),
            decreases n - k,
        {
            cs.push(input.get_char(k));
            k = k + 1;
            assert(cs@ =~= input@.take(k as int));
        }
        assert(cs@ =~= input@);
        let ghost s = cs@;
        let dot = find_last(&cs, 0, n, '.');
        let (end, millis) = match dot {
            None => (n, Some(0u32)),
            Some(d) => (d, parse_field(&cs, d + 1, n)),
        };
        let ghost time = cs@.subrange(0, end as int);
        assert(s.subrange(0, n as int) == s);
        proof {
            match dot {
                None => {
                    assert(time == s);
                },
                Some(d) => {
                    assert(time == s.take(d as int));
                    assert(cs@.subrange(d + 1, n as int) == s.skip(d + 1));
                },
            }
        }
        let c1 = find_last(&cs, 0, end, ':');
        let r = match c1 {
            None => TimeStamp::assemble_fields(Some(0), Some(0), parse_field(&cs, 0, end), millis),
            Some(c1) => {
                let second = parse_field(&cs, c1 + 1, end);
                assert(cs@.subrange(c1 + 1, end as int) == time.skip(c1 + 1));
                let ghost rest = time.take(c1 as int);
                assert(cs@.subrange(0, c1 as int) == rest);
                match find_last(&cs, 0, c1, ':') {
                    None => TimeStamp::assemble_fields(
                        Some(0),
                        parse_field(&cs, 0, c1),
                        second,
                        millis,
                    ),
                    Some(c2) => {
                        assert(cs@.subrange(0, c2 as int) == rest.take(c2 as int));
                        assert(cs@.subrange(c2 + 1, c1 as int) == rest.skip(c2 + 1));
                        if find_last(&cs, 0, c2, ':').is_some() {
                            None
                        } else {
                            TimeStamp::assemble_fields(
                                parse_field(&cs, 0, c2),
                                parse_field(&cs, c2 + 1, c1),
                                second,
                                millis,
                            )
                        }
                    },
                }
            },
        };
        match r {
            Some(t) => Ok(t),
            None => Err(ParseError::MalformedField),
        }
    }

    fn assemble_fields(
        hour: Option<u32>,
        minute: Option<u32>,
        second: Option<u32>,
        millis: Option<u32>,
    ) -> (r: Option<TimeStamp>)
        ensures
            r == assemble(hour, minute, second, millis),
    {
        match (hour, minute, second, millis) {
            (Some(hour), Some(minute), Some(second), Some(millis)) => Some(
                TimeStamp { hour, minute, second, millis },
            ),
            _ => None,
        }
    }
}

} // verus!
