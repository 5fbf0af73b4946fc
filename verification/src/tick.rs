use vstd::prelude::*;
use crate::text::{chars_of, trim, trim_str};

verus! {

/// What a tick asks the caller to do.
#[derive(Debug, Clone, Copy, PartialEq, Eq, Structural)]
pub enum TickAction {
    /// Under the context threshold and not at the snapshot interval: nothing to do.
    Idle,
    /// Time for a lightweight heuristic snapshot.
    Snapshot,
    /// The context threshold is reached: deep extraction is needed.
    Extract,
}

/// The outcome of a tick: the action, the tick counter to store, and how full the context is.
#[derive(Debug, Clone, Copy, PartialEq, Eq, Structural)]
pub struct TickResult {
    pub action: TickAction,
    pub counter: u64,
    pub used_pct: u64,
}

/// How full the context window is, as the transcript shows it.
#[derive(Debug, Clone, Copy, PartialEq, Eq, Structural)]
pub struct ContextUsage {
    pub used_pct: u64,
    pub should_extract: bool,
}

/// The value of a string of decimal digits.
pub open spec fn digits_value(d: Seq<char>) -> nat
    decreases d.len(),
{
    if d.len() == 0 {
        0
    } else {
        digits_value(d.drop_last()) * 10 + (d.last() as nat - '0' as nat) as nat
    }
}

/// Every character is an ASCII digit.
pub open spec fn all_digits(d: Seq<char>) -> bool {
    forall|i: int| 0 <= i < d.len() ==> '0' <= #[trigger] d[i] <= '9'
}

/// What `str::parse::<u64>` reads from `s`: an optional `+`, then at least one digit and nothing
/// else, of a value that fits in 64 bits.
pub open spec fn parsed_u64(s: Seq<char>) -> Option<u64> {
    let d = if s.len() > 0 && s[0] == '+' { s.drop_first() } else { s };
    if d.len() > 0 && all_digits(d) && digits_value(d) <= u64::MAX {
        Some(digits_value(d) as u64)
    } else {
        None
    }
}

/// The count that a counter file holds: its trimmed content read as a number, 0 when it is not one.
pub open spec fn stored_count(content: Seq<char>) -> u64 {
    match parsed_u64(trim(content)) {
        Some(v) => v,
        None => 0,
    }
}

/// Reads the tick counter from the content of the counter file; 0 when it is not a number.
pub fn parse_counter(content: &str) -> (n: u64)
    ensures
        n == stored_count(content@),
{
    let t = trim_str(content);
    let v = chars_of(t.as_str());
    let start: usize = if v.len() > 0 && v[0] == '+' { 1 } else { 0 };
    let ghost d = if t@.len() > 0 && t@[0] == '+' { t@.drop_first() } else { t@ };
    assert(d == v@.subrange(start as int, v@.len() as int));
    if start == v.len() {
        return 0;
    }
    let mut value: u64 = 0;
    let mut i: usize = start;
    while i < v.len()
        invariant
            start <= i <= v@.len(),
            v@ == t@,
            t@ == trim(content@),
            d == (if t@.len() > 0 && t@[0] == '+' { t@.drop_first() } else { t@ }),
            d == v@.subrange(start as int, v@.len() as int),
            all_digits(v@.subrange(start as int, i as int)),
            value == digits_value(v@.subrange(start as int, i as int)),
        decreases v@.len() - i,
    {
        let c = v[i];
        proof {
            assert(v@.subrange(start as int, i + 1).drop_last() == v@.subrange(start as int, i as int));
            assert(v@.subrange(start as int, i + 1).last() == c);
        }
        if c < '0' || c > '9' {
            proof {
                assert(d[i - start] == c);
                assert(!all_digits(d));
                assert(parsed_u64(t@) is None);
            }
            return 0;
        }
        let digit = (c as u32 - '0' as u32) as u64;
        if value > (u64::MAX - digit) / 10 {
            proof {
                lemma_digits_grow(d, (i - start) as int);
                assert(digits_value(v@.subrange(start as int, i + 1)) == value * 10 + digit);
                assert(value * 10 + digit > u64::MAX) by (nonlinear_arith)
                    requires value > (u64::MAX - digit) / 10, digit <= 9;
                assert(d.take(i - start + 1) == v@.subrange(start as int, i + 1));
                assert(parsed_u64(t@) is None);
            }
            return 0;
        }
        proof {
            assert(value * 10 + digit <= u64::MAX) by (nonlinear_arith)
                requires value <= (u64::MAX - digit) / 10, digit <= 9;
        }
        value = value * 10 + digit;
        i += 1;
    }
    value
}

/// A prefix of digits is worth no more than the digits it starts.
proof fn lemma_digits_grow(d: Seq<char>, k: int)
    requires
        0 <= k < d.len(),
        all_digits(d.take(k + 1)) || all_digits(d),
    ensures
        all_digits(d) ==> digits_value(d.take(k + 1)) <= digits_value(d),
    decreases d.len(),
{
    if all_digits(d) {
        if k + 1 < d.len() {
            let t = d.drop_last();
            assert(all_digits(t));
            assert(t.take(k + 1) == d.take(k + 1));
            lemma_digits_grow(t, k);
            assert(digits_value(d) >= digits_value(t));
        } else {
            assert(d.take(k + 1) == d);
        }
    }
}

/// One tick: the counter goes up by one; a context past its threshold asks for extraction
/// (and wins over a snapshot); reaching the snapshot interval asks for a snapshot; either
/// resets the counter to 0. The result's counter is what the counter file is to hold next.
pub fn tick_step(previous: u64, usage: Option<ContextUsage>, snapshot_every: u64) -> (r: TickResult)
    requires
        previous < u64::MAX,
    ensures
        match usage {
            Some(u) if u.should_extract => r == (TickResult { action: TickAction::Extract, counter: 0, used_pct: u.used_pct }),
            _ => {
                let used = match usage { Some(u) => u.used_pct, None => 0 };
                if previous + 1 >= snapshot_every {
                    r == (TickResult { action: TickAction::Snapshot, counter: 0, used_pct: used })
                } else {
                    r == (TickResult { action: TickAction::Idle, counter: (previous + 1) as u64, used_pct: used })
                }
            },
        },
{
    let current = previous + 1;
    let used_pct = match usage {
        Some(u) => {
            if u.should_extract {
                return TickResult { action: TickAction::Extract, counter: 0, used_pct: u.used_pct };
            }
            u.used_pct
        },
        None => 0,
    };
    if current >= snapshot_every {
        return TickResult { action: TickAction::Snapshot, counter: 0, used_pct };
    }
    TickResult { action: TickAction::Idle, counter: current, used_pct }
}

} // verus!
