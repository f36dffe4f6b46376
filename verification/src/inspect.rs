//! Text for the record tables of the inspector and for the case panel's filter box.

use vstd::prelude::*;

use crate::text::{
    chars_of, find, find_chars, int_decimal, int_decimal_chars, lower_ascii_chars, slice_range,
    string_of, to_lower_ascii, trim, trimmed,
};

verus! {

/// One row of a record table.
pub fn row(key: &str, value: String) -> (r: (String, String))
    ensures
        r.0@ == key@,
        r.1@ == value@,
{
    (key.to_string(), value)
}

/// How a record's status column reads.
pub fn in_service(status: i32) -> (s: String)
    ensures
        s@ == if status == 0 {
            "out of service"@
        } else {
            "in service"@
        },
{
    if status == 0 {
        "out of service".to_string()
    } else {
        "in service".to_string()
    }
}

/// What a bus's `IDE` code means.
pub fn bus_type(ide: i32) -> (s: &'static str)
    ensures
        s@ == match ide {
            2 => "generator (PV)"@,
            3 => "swing"@,
            4 => "isolated"@,
            _ => "load (PQ)"@,
        },
{
    match ide {
        2 => "generator (PV)",
        3 => "swing",
        4 => "isolated",
        _ => "load (PQ)",
    }
}

/// What the filter box makes of a bus before its nominal voltage is looked at.
#[derive(Debug, Clone)]
pub enum FilterOutcome {
    /// The bus matches on its number or name, or the box is empty.
    Match,
    /// No text matched; the bus matches when its nominal voltage is within 0.05 kV of this
    /// text read as a number.
    Voltage(String),
}

/// `s` without any run of trailing `kv`.
pub open spec fn strip_kv(s: Seq<char>) -> Seq<char>
    decreases s.len(),
{
    if s.len() >= 2 && s[s.len() - 2] == 'k' && s[s.len() - 1] == 'v' {
        strip_kv(s.subrange(0, s.len() - 2))
    } else {
        s
    }
}

/// What the filter box makes of bus `number` named `name` when `filter` is typed in it.
pub open spec fn filter_spec(number: i32, name: Seq<char>, filter: Seq<char>) -> Result<(), Seq<char>> {
    let f = trim(filter);
    let lower = to_lower_ascii(f);
    if f.len() == 0 {
        Ok(())
    } else if find(to_lower_ascii(name), lower) is Some || find(int_decimal(number as int), lower) is Some {
        Ok(())
    } else {
        Err(trim(strip_kv(lower)))
    }
}

fn strip_kv_chars(s: &[char]) -> (r: Vec<char>)
    ensures
        r@ == strip_kv(s@),
{
    let mut end: usize = s.len();
    proof {
        assert(s@.subrange(0, end as int) =~= s@);
    }
    while end >= 2 && s[end - 2] == 'k' && s[end - 1] == 'v'
        invariant
            end <= s@.len(),
            strip_kv(s@) == strip_kv(s@.subrange(0, end as int)),
        decreases end,
    {
        proof {
            let t = s@.subrange(0, end as int);
            assert(t.subrange(0, t.len() - 2) =~= s@.subrange(0, end - 2));
        }
        end = end - 2;
    }
    slice_range(s, 0, end)
}

/// Match on bus number, name or nominal voltage, so one box covers every way of looking: the
/// text part of the match, leaving the voltage comparison to the caller.
pub fn filter_match(number: i32, name: &str, filter: &str) -> (o: FilterOutcome)
    ensures
        match o {
            FilterOutcome::Match => filter_spec(number, name@, filter@) is Ok,
            FilterOutcome::Voltage(t) => filter_spec(number, name@, filter@) == Err::<(), Seq<char>>(t@),
        },
{
    let fc = chars_of(filter);
    let f = trimmed(fc.as_slice());
    if f.len() == 0 {
        return FilterOutcome::Match;
    }
    let lower = lower_ascii_chars(f.as_slice());
    let nc = chars_of(name);
    let lname = lower_ascii_chars(nc.as_slice());
    if find_chars(lname.as_slice(), lower.as_slice()).is_some() {
        return FilterOutcome::Match;
    }
    let digits = int_decimal_chars(number as i64);
    if find_chars(digits.as_slice(), lower.as_slice()).is_some() {
        return FilterOutcome::Match;
    }
    let stripped = strip_kv_chars(lower.as_slice());
    let t = trimmed(stripped.as_slice());
    FilterOutcome::Voltage(string_of(t.as_slice()))
}

} // verus!
