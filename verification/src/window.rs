//! Evaluation windows.

use vstd::prelude::*;
use vstd::string::StringExecFns;
use crate::ast::{Window, WindowView};
use crate::literal::{digits, digits_from};
use crate::text::{
    begins, begins_at, chars_of, copy_of, decimal, digit, numeral_value, push_decimal, same,
    string_of,
};

verus! {

/// The seconds and the name of a unit of time. A month has 30 days.
pub open spec fn unit_of(unit: Seq<char>) -> Option<(u64, Seq<char>)> {
    if unit == "s"@ {
        Some((1, "second"@))
    } else if unit == "m"@ {
        Some((60, "minute"@))
    } else if unit == "h"@ {
        Some((3600, "hour"@))
    } else if unit == "d"@ {
        Some((86400, "day"@))
    } else if unit == "w"@ {
        Some((604800, "week"@))
    } else if unit == "mo"@ {
        Some((2592000, "month"@))
    } else {
        None
    }
}

/// The word that a window is displayed with, and the token behind its prefix.
pub open spec fn window_prefix(raw: Seq<char>) -> (Seq<char>, Seq<char>) {
    if begins(raw, "last_"@) {
        ("last"@, raw.skip("last_"@.len() as int))
    } else if begins(raw, "current_"@) {
        ("current"@, raw.skip("current_"@.len() as int))
    } else {
        ("last"@, raw)
    }
}

/// The human-readable rendering of a window.
pub open spec fn window_text(word: Seq<char>, count: nat, unit: Seq<char>) -> Seq<char> {
    word + " "@ + decimal(count) + " "@ + unit + if count == 1 {
        ""@
    } else {
        "s"@
    }
}

/// The window that a token denotes: an optional prefix `last_` or `current_`,
/// a number and a unit, with a length that fits 64 bits.
pub open spec fn window_of(raw: Seq<char>) -> Option<WindowView> {
    let (word, body) = window_prefix(raw);
    let n = digits(body);
    let count = numeral_value(body.take(n as int));
    match unit_of(body.skip(n as int)) {
        Some((seconds, unit)) => if n > 0 && count * seconds <= u64::MAX {
            Some(
                WindowView {
                    raw,
                    seconds: (count * seconds) as u64,
                    display: window_text(word, count, unit),
                },
            )
        } else {
            None
        },
        None => None,
    }
}

/// A longer numeral has no smaller value.
proof fn lemma_numeral_monotone(s: Seq<char>, k: int)
    requires
        0 <= k <= s.len(),
    ensures
        numeral_value(s.take(k)) <= numeral_value(s),
    decreases s.len(),
{
    if k < s.len() {
        lemma_numeral_monotone(s.drop_last(), k);
        assert(s.drop_last().take(k) =~= s.take(k));
    } else {
        assert(s.take(k) =~= s);
    }
}

/// The value of the digits `v[from..to]`, if it fits 64 bits.
fn read_count(v: &Vec<char>, from: usize, to: usize) -> (r: Option<u64>)
    requires
        from <= to <= v@.len(),
        forall|i: int| from <= i < to ==> digit(#[trigger] v@[i]),
    ensures
        match r {
            Some(n) => n == numeral_value(v@.subrange(from as int, to as int)),
            None => numeral_value(v@.subrange(from as int, to as int)) > u64::MAX,
        },
{
    let mut n: u64 = 0;
    let mut i: usize = from;
    let ghost all = v@.subrange(from as int, to as int);
    assert(v@.subrange(from as int, from as int) =~= Seq::<char>::empty());
    while i < to
        invariant
            from <= i <= to <= v@.len(),
            all == v@.subrange(from as int, to as int),
            n == numeral_value(v@.subrange(from as int, i as int)),
            forall|k: int| from <= k < to ==> digit(#[trigger] v@[k]),
        decreases to - i,
    {
        let c: char = v[i];
        assert(digit(v@[i as int]));
        let d: u64 = (c as u32 - 48) as u64;
        let ghost next = v@.subrange(from as int, i + 1);
        proof {
            assert(next.drop_last() =~= v@.subrange(from as int, i as int));
            assert(next.last() == c);
            assert(all.take(i + 1 - from) =~= next);
            lemma_numeral_monotone(all, i + 1 - from);
        }
        if n > (u64::MAX - d) / 10 {
            assert(numeral_value(next) > u64::MAX);
            return None;
        }
        n = n * 10 + d;
        i += 1;
    }
    Some(n)
}

/// The seconds and the name of a unit of time.
fn read_unit(unit: &str) -> (r: Option<(u64, &'static str)>)
    ensures
        match r {
            Some((seconds, name)) => unit_of(unit@) == Some((seconds, name@)),
            None => unit_of(unit@) is None,
        },
{
    if same(unit, "s") {
        Some((1, "second"))
    } else if same(unit, "m") {
        Some((60, "minute"))
    } else if same(unit, "h") {
        Some((3600, "hour"))
    } else if same(unit, "d") {
        Some((86400, "day"))
    } else if same(unit, "w") {
        Some((604800, "week"))
    } else if same(unit, "mo") {
        Some((2592000, "month"))
    } else {
        None
    }
}

impl Window {
    /// Parses and normalizes a window token such as `last_5m` or `5m`.
    ///
    /// Recognized prefixes are `last_`, the default, and `current_`, for the
    /// period in progress. Recognized units are `s`, `m`, `h`, `d`, `w` and
    /// `mo`, a month of 30 days. Any other token gives `None`.
    #[must_use]
    pub fn parse(raw: &str) -> (r: Option<Self>)
        ensures
            match r {
                Some(w) => window_of(raw@) == Some(w@),
                None => window_of(raw@) is None,
            },
    {
        let v: Vec<char> = chars_of(raw);
        let last: Vec<char> = chars_of("last_");
        let current: Vec<char> = chars_of("current_");
        assert(v@.skip(0) =~= v@);
        let (start, word): (usize, &str) = if begins_at(&v, 0, &last) {
            (last.len(), "last")
        } else if begins_at(&v, 0, &current) {
            (current.len(), "current")
        } else {
            (0, "last")
        };
        let ghost body = window_prefix(raw@).1;
        assert(body =~= v@.skip(start as int));
        let n: usize = digits_from(&v, start);
        let unit = string_of(&v, start + n, v.len());
        proof {
            assert(unit@ =~= body.skip(n as int));
            assert(v@.subrange(start as int, start + n) =~= body.take(n as int));
        }
        match read_unit(unit.as_str()) {
            None => None,
            Some((seconds, name)) => {
                if n == 0 {
                    return None;
                }
                match read_count(&v, start, start + n) {
                    None => {
                        proof {
                            let count = numeral_value(body.take(n as int));
                            assert(count * seconds > u64::MAX) by (nonlinear_arith)
                                requires
                                    count > u64::MAX,
                                    seconds >= 1,
                            ;
                        }
                        None
                    },
                    Some(count) => match count.checked_mul(seconds) {
                        None => None,
                        Some(total) => {
                            let mut display = copy_of(word);
                            display.append(" ");
                            push_decimal(&mut display, count);
                            display.append(" ");
                            display.append(name);
                            if count != 1 {
                                display.append("s");
                            } else {
                                display.append("");
                            }
                            assert(display@ =~= window_text(word@, count as nat, name@));
                            Some(Window { raw: copy_of(raw), seconds: total, display })
                        },
                    },
                }
            },
        }
    }
}

} // verus!
