//! The changelog walk: where it stands (the state file that records it), and
//! the decisions taken for each batch of changelog entries.
use vstd::prelude::*;

use crate::text::{
    chars_of, lemma_split_concat, lemma_split_free, lemma_split_nonempty, push_char, split_on,
    split_str,
};

verus! {

/// A position in the filesystem changelog: the sequence numbers of an entry
/// and its inode.
#[derive(Clone, Copy, Debug, PartialEq, Eq, Structural)]
pub struct WalkInodesEntry {
    pub major: u64,
    pub ino: u64,
    pub minor: u32,
}

/// A character with the Unicode `White_Space` property, which `str::trim`
/// removes.
pub open spec fn is_white(c: char) -> bool {
    ||| ('\t' <= c && c <= '\r')
    ||| c == ' '
    ||| c == '\u{85}'
    ||| c == '\u{a0}'
    ||| c == '\u{1680}'
    ||| ('\u{2000}' <= c && c <= '\u{200a}')
    ||| c == '\u{2028}'
    ||| c == '\u{2029}'
    ||| c == '\u{202f}'
    ||| c == '\u{205f}'
    ||| c == '\u{3000}'
}

/// `s` without its leading white space.
pub open spec fn trim_start(s: Seq<char>) -> Seq<char>
    decreases s.len(),
{
    if s.len() > 0 && is_white(s[0]) {
        trim_start(s.drop_first())
    } else {
        s
    }
}

/// `s` without its trailing white space.
pub open spec fn trim_end(s: Seq<char>) -> Seq<char>
    decreases s.len(),
{
    if s.len() > 0 && is_white(s.last()) {
        trim_end(s.drop_last())
    } else {
        s
    }
}

/// `s` without leading and trailing white space, as `str::trim` gives it.
pub open spec fn trimmed(s: Seq<char>) -> Seq<char> {
    trim_end(trim_start(s))
}

pub open spec fn is_digit(c: char) -> bool {
    '0' <= c && c <= '9'
}

pub open spec fn all_digits(s: Seq<char>) -> bool {
    forall|i: int| 0 <= i < s.len() ==> #[trigger] is_digit(s[i])
}

/// The value of a digit character.
pub open spec fn digit_value(c: char) -> nat {
    (c as int - '0' as int) as nat
}

/// The value of a string of decimal digits.
pub open spec fn digits_value(s: Seq<char>) -> nat
    decreases s.len(),
{
    if s.len() == 0 {
        0
    } else {
        digits_value(s.drop_last()) * 10 + digit_value(s.last())
    }
}

/// What `str::parse` gives for an unsigned integer type whose largest value
/// is `max`: the value of an optional `+` followed by one or more decimal
/// digits, if it is at most `max`; nothing for any other text.
pub open spec fn parse_unsigned(s: Seq<char>, max: nat) -> Option<nat> {
    let ds = if s.len() > 0 && s[0] == '+' {
        s.drop_first()
    } else {
        s
    };
    if ds.len() > 0 && all_digits(ds) && digits_value(ds) <= max {
        Some(digits_value(ds))
    } else {
        None
    }
}

/// The state that a state file holds: its text cut into lines, the first
/// three lines trimmed and read as the major number, the inode and the minor
/// number. Nothing when there are fewer than three lines or a line is not a
/// number of its type.
pub open spec fn state_from_text(text: Seq<char>) -> Option<WalkInodesEntry> {
    let lines = split_on(text, '\n');
    if lines.len() < 3 {
        None
    } else {
        match (
            parse_unsigned(trimmed(lines[0]), u64::MAX as nat),
            parse_unsigned(trimmed(lines[1]), u64::MAX as nat),
            parse_unsigned(trimmed(lines[2]), u32::MAX as nat),
        ) {
            (Some(major), Some(ino), Some(minor)) => Some(
                WalkInodesEntry { major: major as u64, ino: ino as u64, minor: minor as u32 },
            ),
            _ => None,
        }
    }
}

/// The character of a digit value below ten.
pub open spec fn digit_char(d: nat) -> char {
    ('0' as int + d) as char
}

/// The decimal digits of `n`, most significant first, without leading zeros.
pub open spec fn decimal(n: nat) -> Seq<char>
    decreases n,
{
    if n < 10 {
        seq![digit_char(n)]
    } else {
        decimal(n / 10).push(digit_char(n % 10))
    }
}

/// The text of a state file: major number, inode and minor number in
/// decimal, one per line, without a final line break.
pub open spec fn state_text(e: WalkInodesEntry) -> Seq<char> {
    decimal(e.major as nat) + seq!['\n'] + decimal(e.ino as nat) + seq!['\n'] + decimal(
        e.minor as nat,
    )
}

fn is_white_char(c: char) -> (w: bool)
    ensures
        w == is_white(c),
{
    ('\t' <= c && c <= '\r') || c == ' ' || c == '\u{85}' || c == '\u{a0}' || c == '\u{1680}' || (
    '\u{2000}' <= c && c <= '\u{200a}') || c == '\u{2028}' || c == '\u{2029}' || c == '\u{202f}'
        || c == '\u{205f}' || c == '\u{3000}'
}

proof fn lemma_trim_start_at(s: Seq<char>, lo: int)
    requires
        0 <= lo <= s.len(),
        forall|i: int| 0 <= i < lo ==> is_white(#[trigger] s[i]),
        lo < s.len() ==> !is_white(s[lo]),
    ensures
        trim_start(s) == s.skip(lo),
    decreases lo,
{
    if lo == 0 {
        assert(s.skip(0) =~= s);
    } else {
        let t = s.drop_first();
        assert forall|i: int| 0 <= i < lo - 1 implies is_white(#[trigger] t[i]) by {
            assert(t[i] == s[i + 1]);
        }
        lemma_trim_start_at(t, lo - 1);
        assert(t.skip(lo - 1) =~= s.skip(lo));
    }
}

proof fn lemma_trim_end_at(s: Seq<char>, hi: int)
    requires
        0 <= hi <= s.len(),
        forall|i: int| hi <= i < s.len() ==> is_white(#[trigger] s[i]),
        hi > 0 ==> !is_white(s[hi - 1]),
    ensures
        trim_end(s) == s.take(hi),
    decreases s.len() - hi,
{
    if hi == s.len() {
        assert(s.take(hi) =~= s);
    } else {
        let t = s.drop_last();
        assert forall|i: int| hi <= i < t.len() implies is_white(#[trigger] t[i]) by {
            assert(t[i] == s[i]);
        }
        lemma_trim_end_at(t, hi);
        assert(t.take(hi) =~= s.take(hi));
    }
}

/// The bounds of the text that is left of `s[lo..]` once white space is
/// removed at both ends.
fn trim_bounds(s: &Vec<char>) -> (bounds: (usize, usize))
    ensures
        bounds.0 <= bounds.1 <= s.len(),
        s@.subrange(bounds.0 as int, bounds.1 as int) == trimmed(s@),
{
    let mut lo: usize = 0;
    while lo < s.len() && is_white_char(s[lo])
        invariant
            lo <= s.len(),
            forall|i: int| 0 <= i < lo ==> is_white(#[trigger] s@[i]),
        decreases s.len() - lo,
    {
        lo = lo + 1;
    }
    proof {
        lemma_trim_start_at(s@, lo as int);
    }
    let ghost t = s@.skip(lo as int);
    let mut hi: usize = s.len();
    while hi > lo && is_white_char(s[hi - 1])
        invariant
            lo <= hi <= s.len(),
            t == s@.skip(lo as int),
            forall|i: int| hi <= i < s.len() ==> is_white(#[trigger] s@[i]),
        decreases hi,
    {
        hi = hi - 1;
    }
    proof {
        assert forall|i: int| hi - lo <= i < t.len() implies is_white(#[trigger] t[i]) by {
            assert(t[i] == s@[lo + i]);
        }
        if hi > lo {
            assert(t[hi - lo - 1] == s@[hi - 1]);
        }
        lemma_trim_end_at(t, hi - lo);
        assert(t.take(hi - lo) =~= s@.subrange(lo as int, hi as int));
    }
    (lo, hi)
}

proof fn lemma_digits_grow(s: Seq<char>, k: int)
    requires
        0 <= k <= s.len(),
    ensures
        digits_value(s.take(k)) <= digits_value(s),
    decreases s.len() - k,
{
    if k < s.len() {
        lemma_digits_grow(s.drop_last(), k);
        assert(s.drop_last().take(k) =~= s.take(k));
    } else {
        assert(s.take(k) =~= s);
    }
}

/// The value of the decimal digits `s[lo..hi]`, if they are one or more
/// digits, possibly after a `+`, whose value is at most `max`.
fn parse_unsigned_range(s: &Vec<char>, lo: usize, hi: usize, max: u64) -> (v: Option<u64>)
    requires
        lo <= hi <= s.len(),
    ensures
        match parse_unsigned(s@.subrange(lo as int, hi as int), max as nat) {
            Some(n) => v == Some(n as u64),
            None => v is None,
        },
{
    let ghost text = s@.subrange(lo as int, hi as int);
    let mut start = lo;
    if lo < hi && s[lo] == '+' {
        start = lo + 1;
    }
    let ghost ds = s@.subrange(start as int, hi as int);
    assert(ds =~= if text.len() > 0 && text[0] == '+' {
        text.drop_first()
    } else {
        text
    });
    if start == hi {
        return None;
    }
    let mut value: u64 = 0;
    let mut k: usize = start;
    assert(ds.take(0) =~= Seq::<char>::empty());
    while k < hi
        invariant
            start <= k <= hi <= s.len(),
            ds == s@.subrange(start as int, hi as int),
            ds.len() > 0,
            parse_unsigned(s@.subrange(lo as int, hi as int), max as nat) == (if all_digits(ds)
                && digits_value(ds) <= max {
                Some(digits_value(ds))
            } else {
                None
            }),
            all_digits(ds.take(k - start)),
            value == digits_value(ds.take(k - start)),
            value <= max,
        decreases hi - k,
    {
        let c = s[k];
        assert(ds[k - start] == c);
        assert(ds.take(k - start + 1).drop_last() =~= ds.take(k - start));
        if !('0' <= c && c <= '9') {
            assert(!is_digit(ds[k - start]));
            return None;
        }
        let d = (c as u32 - '0' as u32) as u64;
        assert(digit_value(c) == d);
        assert(ds.take(k - start + 1).last() == c);
        assert(digits_value(ds.take(k - start + 1)) == value * 10 + d);
        match value.checked_mul(10) {
            None => {
                proof {
                    lemma_digits_grow(ds, k - start + 1);
                }
                return None;
            },
            Some(tens) => match tens.checked_add(d) {
                None => {
                    proof {
                        lemma_digits_grow(ds, k - start + 1);
                    }
                    return None;
                },
                Some(next) => {
                    if next > max {
                        proof {
                            lemma_digits_grow(ds, k - start + 1);
                        }
                        return None;
                    }
                    value = next;
                },
            },
        }
        k = k + 1;
        assert forall|i: int| 0 <= i < k - start implies #[trigger] is_digit(ds.take(k - start)[i]) by {
            if i < k - start - 1 {
                assert(ds.take(k - start)[i] == ds.take(k - start - 1)[i]);
            }
        }
    }
    assert(ds.take(k - start) =~= ds);
    Some(value)
}

/// Reads the state of a state file from its text: the first three lines,
/// trimmed, as the major number, the inode and the minor number. Nothing
/// where the text has fewer than three lines or a line is not a number.
pub fn parse_state(text: &str) -> (state: Option<WalkInodesEntry>)
    ensures
        state == state_from_text(text@),
{
    let lines = split_str(text, '\n');
    if lines.len() < 3 {
        return None;
    }
    let l0 = chars_of(lines[0].as_str());
    let l1 = chars_of(lines[1].as_str());
    let l2 = chars_of(lines[2].as_str());
    let (a0, b0) = trim_bounds(&l0);
    let (a1, b1) = trim_bounds(&l1);
    let (a2, b2) = trim_bounds(&l2);
    let major = parse_unsigned_range(&l0, a0, b0, u64::MAX);
    let ino = parse_unsigned_range(&l1, a1, b1, u64::MAX);
    let minor = parse_unsigned_range(&l2, a2, b2, u32::MAX as u64);
    match (major, ino, minor) {
        (Some(major), Some(ino), Some(minor)) => Some(
            WalkInodesEntry { major, ino, minor: minor as u32 },
        ),
        _ => None,
    }
}

/// What `str::parse` gives for an `i64`: the value of an optional `+` or
/// `-` followed by one or more decimal digits, if it lies within the range
/// of `i64`; nothing for any other text.
pub open spec fn parse_i64(s: Seq<char>) -> Option<int> {
    if s.len() > 0 && s[0] == '-' {
        let ds = s.drop_first();
        if ds.len() > 0 && all_digits(ds) && digits_value(ds) <= 0x8000_0000_0000_0000 {
            Some(-(digits_value(ds) as int))
        } else {
            None
        }
    } else {
        match parse_unsigned(s, i64::MAX as nat) {
            Some(n) => Some(n as int),
            None => None,
        }
    }
}

/// An `i64` value taken as a `u64` (`as`): negative values wrap around.
pub open spec fn wrap_u64(x: int) -> nat {
    if x >= 0 {
        x as nat
    } else {
        (x + 0x1_0000_0000_0000_0000) as nat
    }
}

/// The state that the change finder reads from a state file: the first
/// three lines, trimmed, read as `i64` values; the major number and the inode
/// taken as `u64`, the minor number as `u32` (its low 32 bits). Nothing when
/// there are fewer than three lines or a line is not an `i64`.
pub open spec fn signed_state_from_text(text: Seq<char>) -> Option<WalkInodesEntry> {
    let lines = split_on(text, '\n');
    if lines.len() < 3 {
        None
    } else {
        match (
            parse_i64(trimmed(lines[0])),
            parse_i64(trimmed(lines[1])),
            parse_i64(trimmed(lines[2])),
        ) {
            (Some(major), Some(ino), Some(minor)) => Some(
                WalkInodesEntry {
                    major: wrap_u64(major) as u64,
                    ino: wrap_u64(ino) as u64,
                    minor: (wrap_u64(minor) % 0x1_0000_0000) as u32,
                },
            ),
            _ => None,
        }
    }
}

/// Reads one trimmed line `s[lo..hi]` as an `i64` and gives it as a `u64`.
fn parse_i64_range(s: &Vec<char>, lo: usize, hi: usize) -> (v: Option<u64>)
    requires
        lo <= hi <= s.len(),
    ensures
        match parse_i64(s@.subrange(lo as int, hi as int)) {
            Some(x) => v == Some(wrap_u64(x) as u64),
            None => v is None,
        },
{
    let ghost text = s@.subrange(lo as int, hi as int);
    if lo < hi && s[lo] == '-' {
        assert(text.drop_first() =~= s@.subrange(lo + 1, hi as int));
        let ghost ds = s@.subrange(lo + 1, hi as int);
        if lo + 1 < hi && s[lo + 1] == '+' {
            // `-+5` is no number
            assert(!is_digit(ds[0]));
            return None;
        }
        match parse_unsigned_range(s, lo + 1, hi, 0x8000_0000_0000_0000) {
            Some(m) => {
                if m == 0 {
                    Some(0)
                } else {
                    Some(u64::MAX - (m - 1))
                }
            },
            None => None,
        }
    } else {
        parse_unsigned_range(s, lo, hi, i64::MAX as u64)
    }
}

/// Reads a state file the way the change finder does (see
/// `signed_state_from_text`).
pub fn parse_signed_state(text: &str) -> (state: Option<WalkInodesEntry>)
    ensures
        state == signed_state_from_text(text@),
{
    let lines = split_str(text, '\n');
    if lines.len() < 3 {
        return None;
    }
    let l0 = chars_of(lines[0].as_str());
    let l1 = chars_of(lines[1].as_str());
    let l2 = chars_of(lines[2].as_str());
    let (a0, b0) = trim_bounds(&l0);
    let (a1, b1) = trim_bounds(&l1);
    let (a2, b2) = trim_bounds(&l2);
    let major = parse_i64_range(&l0, a0, b0);
    let ino = parse_i64_range(&l1, a1, b1);
    let minor = parse_i64_range(&l2, a2, b2);
    match (major, ino, minor) {
        (Some(major), Some(ino), Some(minor)) => Some(
            WalkInodesEntry { major, ino, minor: (minor % 0x1_0000_0000) as u32 },
        ),
        _ => None,
    }
}

/// Where the walk starts when the reindexer's validated state is checked:
/// at the validated state, which replaces the starting state when the two
/// differ (the last batch was not reindexed).
pub fn start_after_validation(start: &WalkInodesEntry, validated: &WalkInodesEntry) -> (result: (
    WalkInodesEntry,
    bool,
))
    ensures
        result.0 == *validated,
        result.1 == (*validated != *start),
{
    let differs = !(validated.major == start.major && validated.ino == start.ino
        && validated.minor == start.minor);
    (*validated, differs)
}

/// Appends the decimal digits of `n`.
fn push_decimal(out: &mut String, n: u64)
    ensures
        final(out)@ == old(out)@ + decimal(n as nat),
    decreases n,
{
    if n >= 10 {
        push_decimal(out, n / 10);
    }
    let d = (n % 10) as u32;
    let c = ('0' as u32 + d) as u8 as char;
    assert(c == digit_char((n % 10) as nat)) by {
        assert(d < 10);
    }
    push_char(out, c);
    assert(out@ =~= old(out)@ + decimal(n as nat));
}

/// The text of a state file for `state`: major number, inode and minor
/// number in decimal, one per line.
pub fn format_state(state: &WalkInodesEntry) -> (text: String)
    ensures
        text@ == state_text(*state),
{
    let mut text = String::new();
    push_decimal(&mut text, state.major);
    push_char(&mut text, '\n');
    push_decimal(&mut text, state.ino);
    push_char(&mut text, '\n');
    push_decimal(&mut text, state.minor as u64);
    assert(text@ =~= state_text(*state));
    text
}

proof fn lemma_decimal(n: nat)
    ensures
        decimal(n).len() >= 1,
        all_digits(decimal(n)),
        digits_value(decimal(n)) == n,
    decreases n,
{
    if n >= 10 {
        lemma_decimal(n / 10);
        let d = decimal(n);
        assert(d.drop_last() =~= decimal(n / 10));
        assert(digit_value(digit_char((n % 10) as nat)) == n % 10);
        assert(digits_value(d.drop_last()) == n / 10);
        assert forall|i: int| 0 <= i < d.len() implies #[trigger] is_digit(d[i]) by {
            if i < d.len() - 1 {
                assert(d[i] == decimal(n / 10)[i]);
            }
        }
    } else {
        assert(decimal(n).drop_last() =~= Seq::<char>::empty());
        assert(digit_value(digit_char(n)) == n);
        assert(digits_value(decimal(n).drop_last()) == 0);
    }
}

proof fn lemma_digits_plain(s: Seq<char>)
    requires
        s.len() >= 1,
        all_digits(s),
    ensures
        trimmed(s) == s,
        !s.contains('\n'),
        s[0] != '+',
{
    assert(is_digit(s[0]));
    assert(is_digit(s[s.len() - 1]));
    assert(trim_start(s) == s);
    if s.contains('\n') {
        let i = choose|i: int| 0 <= i < s.len() && s[i] == '\n';
        assert(is_digit(s[i]));
    }
}

/// A state written to a state file reads back as the same state: the text
/// that `format_state` writes is read by `parse_state` as the state it was
/// written for.
pub proof fn law_state_roundtrip(e: WalkInodesEntry)
    ensures
        state_from_text(state_text(e)) == Some(e),
{
    let a = decimal(e.major as nat);
    let b = decimal(e.ino as nat);
    let c = decimal(e.minor as nat);
    lemma_decimal(e.major as nat);
    lemma_decimal(e.ino as nat);
    lemma_decimal(e.minor as nat);
    lemma_digits_plain(a);
    lemma_digits_plain(b);
    lemma_digits_plain(c);
    lemma_split_free(a, '\n');
    lemma_split_free(b, '\n');
    lemma_split_free(c, '\n');
    lemma_split_concat(a, b, '\n');
    lemma_split_concat(a + seq!['\n'] + b, c, '\n');
    let lines = split_on(state_text(e), '\n');
    assert(lines =~= seq![a, b, c]);
}

/// What the walk does with one entry of a batch.
#[derive(Clone, Copy, Debug, PartialEq, Eq, Structural)]
pub enum EntryStep {
    /// The entry has the inode of the last entry of a full batch: the next
    /// batch starts at that last entry, and this batch ends here.
    CarryOver,
    /// The entry is the state the walk started from, handled by the run
    /// before: it is passed over.
    SkipStart,
    /// The entry is as far as the quota tool has got: the walk stops here and
    /// this is the last batch.
    ReachedQuota,
    /// The paths of the entry's inode are looked up and reported.
    Resolve,
}

/// The step for `entry`, where `last_ino` is the inode of the batch's last
/// entry and `last_batch` says whether the batch is the last one.
pub open spec fn entry_step(
    entry: WalkInodesEntry,
    last_ino: u64,
    last_batch: bool,
    start: WalkInodesEntry,
    quota: WalkInodesEntry,
) -> EntryStep {
    if !last_batch && entry.ino == last_ino {
        EntryStep::CarryOver
    } else if entry == start {
        EntryStep::SkipStart
    } else if entry.major >= quota.major && entry.minor >= quota.minor {
        EntryStep::ReachedQuota
    } else {
        EntryStep::Resolve
    }
}

/// Decides what the walk does with `entry`.
pub fn classify_entry(
    entry: &WalkInodesEntry,
    last_ino: u64,
    last_batch: bool,
    start: &WalkInodesEntry,
    quota: &WalkInodesEntry,
) -> (step: EntryStep)
    ensures
        step == entry_step(*entry, last_ino, last_batch, *start, *quota),
{
    if !last_batch && entry.ino == last_ino {
        EntryStep::CarryOver
    } else if entry.major == start.major && entry.ino == start.ino && entry.minor == start.minor {
        EntryStep::SkipStart
    } else if entry.major >= quota.major && entry.minor >= quota.minor {
        EntryStep::ReachedQuota
    } else {
        EntryStep::Resolve
    }
}

/// What a batch comes to: the entries whose paths are to be looked up, in
/// order; where the next batch starts, if the walk carries over; and whether
/// this is the last batch.
pub struct BatchPlan {
    pub resolve: Vec<WalkInodesEntry>,
    pub next_first: Option<WalkInodesEntry>,
    pub last_batch: bool,
}

/// The plan for the entries `es` from position `i` on: the entries to
/// resolve, the start of the next batch, and whether the quota was reached.
pub open spec fn plan_from(
    es: Seq<WalkInodesEntry>,
    i: int,
    last_batch: bool,
    start: WalkInodesEntry,
    quota: WalkInodesEntry,
) -> (Seq<WalkInodesEntry>, Option<WalkInodesEntry>, bool)
    decreases es.len() - i,
{
    if i < 0 || i >= es.len() {
        (Seq::<WalkInodesEntry>::empty(), None, false)
    } else {
        match entry_step(es[i], es.last().ino, last_batch, start, quota) {
            EntryStep::CarryOver => (Seq::<WalkInodesEntry>::empty(), Some(es.last()), false),
            EntryStep::SkipStart => plan_from(es, i + 1, last_batch, start, quota),
            EntryStep::ReachedQuota => (Seq::<WalkInodesEntry>::empty(), None, true),
            EntryStep::Resolve => {
                let rest = plan_from(es, i + 1, last_batch, start, quota);
                (seq![es[i]] + rest.0, rest.1, rest.2)
            },
        }
    }
}

/// The plan for a batch `es` that the walk asked `batch_size` entries for:
/// a batch with fewer entries is the last one; entries are taken in order
/// as `entry_step` says until the walk carries over or reaches the quota.
pub open spec fn batch_plan(
    es: Seq<WalkInodesEntry>,
    batch_size: usize,
    start: WalkInodesEntry,
    quota: WalkInodesEntry,
) -> (Seq<WalkInodesEntry>, Option<WalkInodesEntry>, bool) {
    let short = es.len() < batch_size;
    let p = plan_from(es, 0, short, start, quota);
    (p.0, p.1, short || p.2)
}

/// Plans one batch of changelog entries (see `batch_plan`).
pub fn plan_batch(
    entries: &Vec<WalkInodesEntry>,
    batch_size: usize,
    start: &WalkInodesEntry,
    quota: &WalkInodesEntry,
) -> (plan: BatchPlan)
    ensures
        plan.resolve@ == batch_plan(entries@, batch_size, *start, *quota).0,
        plan.next_first == batch_plan(entries@, batch_size, *start, *quota).1,
        plan.last_batch == batch_plan(entries@, batch_size, *start, *quota).2,
{
    let ghost es = entries@;
    let short = entries.len() < batch_size;
    let mut resolve: Vec<WalkInodesEntry> = Vec::new();
    let mut i: usize = 0;
    while i < entries.len()
        invariant
            es == entries@,
            short == (es.len() < batch_size),
            0 <= i <= entries.len(),
            plan_from(es, 0, short, *start, *quota) == (
                resolve@ + plan_from(es, i as int, short, *start, *quota).0,
                plan_from(es, i as int, short, *start, *quota).1,
                plan_from(es, i as int, short, *start, *quota).2,
            ),
        decreases entries.len() - i,
    {
        let last = entries[entries.len() - 1];
        let entry = entries[i];
        match classify_entry(&entry, last.ino, short, start, quota) {
            EntryStep::CarryOver => {
                assert(es.last() == last);
                assert(resolve@ + Seq::<WalkInodesEntry>::empty() =~= resolve@);
                return BatchPlan { resolve, next_first: Some(last), last_batch: short };
            },
            EntryStep::SkipStart => {},
            EntryStep::ReachedQuota => {
                assert(resolve@ + Seq::<WalkInodesEntry>::empty() =~= resolve@);
                return BatchPlan { resolve, next_first: None, last_batch: true };
            },
            EntryStep::Resolve => {
                let ghost before = resolve@;
                resolve.push(entry);
                assert(resolve@ + plan_from(es, i + 1, short, *start, *quota).0 =~= before + (
                seq![entry] + plan_from(es, i + 1, short, *start, *quota).0));
            },
        }
        i = i + 1;
    }
    assert(resolve@ + Seq::<WalkInodesEntry>::empty() =~= resolve@);
    BatchPlan { resolve, next_first: None, last_batch: short }
}

/// Where the next lookup of the paths of an inode starts, after a lookup
/// that ended at directory entry `dir_pos` of directory `dir_ino`: the next
/// position, or the first position of the next directory when the position
/// wraps around; nothing when the directory wraps around too.
pub fn next_ino_path_cursor(dir_ino: u64, dir_pos: u64) -> (next: Option<(u64, u64)>)
    ensures
        next == (if dir_pos < u64::MAX {
            Some((dir_ino, (dir_pos + 1) as u64))
        } else if dir_ino < u64::MAX {
            Some(((dir_ino + 1) as u64, 0u64))
        } else {
            None
        }),
{
    if dir_pos < u64::MAX {
        Some((dir_ino, dir_pos + 1))
    } else if dir_ino < u64::MAX {
        Some((dir_ino + 1, 0))
    } else {
        None
    }
}

/// The state file is rewritten at the end of the walk only when the walk got
/// to a new major number (and got anywhere at all).
pub fn should_save_state(final_state: &WalkInodesEntry, start: &WalkInodesEntry) -> (save: bool)
    ensures
        save == (final_state.major != start.major && final_state.major != 0),
{
    final_state.major != start.major && final_state.major != 0
}

/// The walk got nowhere: its final state is still all zeros.
pub fn no_changes(final_state: &WalkInodesEntry) -> (none: bool)
    ensures
        none == (final_state.major == 0 && final_state.ino == 0 && final_state.minor == 0),
{
    final_state.major == 0 && final_state.ino == 0 && final_state.minor == 0
}

/// A checkpoint of the state is due after the last batch, or once more than
/// `checkpoint_ms` milliseconds have passed since the last checkpoint (times
/// in nanoseconds since the start).
pub fn checkpoint_due(
    last_batch: bool,
    now_nanos: u128,
    last_checkpoint_nanos: u128,
    checkpoint_ms: u64,
) -> (due: bool)
    requires
        last_checkpoint_nanos <= now_nanos,
    ensures
        due == (last_batch || now_nanos - last_checkpoint_nanos > checkpoint_ms * 1_000_000),
{
    let period: u128 = checkpoint_ms as u128 * 1_000_000;
    last_batch || now_nanos - last_checkpoint_nanos > period
}

/// The line reported for one path of a changed inode: the path, a tab, a
/// NUL byte, the inode in decimal and a line break.
pub fn changed_path_line(path: &str, ino: u64) -> (line: String)
    ensures
        line@ == path@ + seq!['\t', '\0'] + decimal(ino as nat) + seq!['\n'],
{
    let mut line = path.to_owned();
    push_char(&mut line, '\t');
    push_char(&mut line, '\0');
    push_decimal(&mut line, ino);
    push_char(&mut line, '\n');
    assert(line@ =~= path@ + seq!['\t', '\0'] + decimal(ino as nat) + seq!['\n']);
    line
}

/// The line written for one directory to rescan: its path, a NUL byte, a
/// comma, its inode in decimal and a line break.
pub fn rescan_line(path: &str, ino: u64) -> (line: String)
    ensures
        line@ == path@ + seq!['\0', ','] + decimal(ino as nat) + seq!['\n'],
{
    let mut line = path.to_owned();
    push_char(&mut line, '\0');
    push_char(&mut line, ',');
    push_decimal(&mut line, ino);
    push_char(&mut line, '\n');
    assert(line@ =~= path@ + seq!['\0', ','] + decimal(ino as nat) + seq!['\n']);
    line
}

/// `sub` is made of entries of `es` from position `i` on, in their order.
pub open spec fn ordered_within(sub: Seq<WalkInodesEntry>, es: Seq<WalkInodesEntry>, i: int) -> bool {
    exists|pos: Seq<int>|
        #![trigger pos.len()]
        pos.len() == sub.len() && (forall|k: int| 0 <= k < pos.len() ==> i <= #[trigger] pos[k] < es.len() && es[pos[k]] == sub[k])
            && (forall|k: int, l: int| 0 <= k < l < pos.len() ==> pos[k] < pos[l])
}

proof fn lemma_plan_from_respects(
    es: Seq<WalkInodesEntry>,
    i: int,
    last_batch: bool,
    start: WalkInodesEntry,
    quota: WalkInodesEntry,
)
    requires
        0 <= i,
    ensures
        forall|k: int|
            0 <= k < plan_from(es, i, last_batch, start, quota).0.len() ==> {
                let e = #[trigger] plan_from(es, i, last_batch, start, quota).0[k];
                e != start && !(e.major >= quota.major && e.minor >= quota.minor)
            },
        ordered_within(plan_from(es, i, last_batch, start, quota).0, es, i),
    decreases es.len() - i,
{
    let r = plan_from(es, i, last_batch, start, quota).0;
    if i >= es.len() {
        let pos = Seq::<int>::empty();
        assert(pos.len() == r.len());
    } else {
        lemma_plan_from_respects(es, i + 1, last_batch, start, quota);
        let rest = plan_from(es, i + 1, last_batch, start, quota).0;
        let pos1 = choose|pos: Seq<int>|
            #![trigger pos.len()]
            pos.len() == rest.len() && (forall|k: int| 0 <= k < pos.len() ==> i + 1 <= #[trigger] pos[k] < es.len() && es[pos[k]] == rest[k])
                && (forall|k: int, l: int| 0 <= k < l < pos.len() ==> pos[k] < pos[l]);
        match entry_step(es[i], es.last().ino, last_batch, start, quota) {
            EntryStep::CarryOver => {
                let pos = Seq::<int>::empty();
                assert(pos.len() == r.len());
            },
            EntryStep::ReachedQuota => {
                let pos = Seq::<int>::empty();
                assert(pos.len() == r.len());
            },
            EntryStep::SkipStart => {
                assert(pos1.len() == r.len());
            },
            EntryStep::Resolve => {
                let pos = seq![i] + pos1;
                assert(r == seq![es[i]] + rest);
                assert forall|k: int| 0 <= k < pos.len() implies i <= #[trigger] pos[k] < es.len() && es[pos[k]] == r[k] by {
                    if k > 0 {
                        assert(pos[k] == pos1[k - 1]);
                        assert(r[k] == rest[k - 1]);
                    }
                }
                assert forall|k: int, l: int| 0 <= k < l < pos.len() implies pos[k] < pos[l] by {
                    if k > 0 {
                        assert(pos[k] == pos1[k - 1]);
                    }
                    assert(pos[l] == pos1[l - 1]);
                }
                assert(pos.len() == r.len());
                assert forall|k: int| 0 <= k < r.len() implies {
                    let e = #[trigger] r[k];
                    e != start && !(e.major >= quota.major && e.minor >= quota.minor)
                } by {
                    if k > 0 {
                        assert(r[k] == rest[k - 1]);
                    }
                }
            },
        }
    }
}

/// The walk does not get ahead of the quota tool and does not redo the
/// entry it started from: no entry to resolve is the starting state, none
/// has reached the quota state, and they come from the batch in its order.
pub proof fn law_plan_respects_quota(
    es: Seq<WalkInodesEntry>,
    batch_size: usize,
    start: WalkInodesEntry,
    quota: WalkInodesEntry,
)
    ensures
        forall|k: int|
            0 <= k < batch_plan(es, batch_size, start, quota).0.len() ==> {
                let e = #[trigger] batch_plan(es, batch_size, start, quota).0[k];
                e != start && !(e.major >= quota.major && e.minor >= quota.minor)
            },
        ordered_within(batch_plan(es, batch_size, start, quota).0, es, 0),
{
    lemma_plan_from_respects(es, 0, es.len() < batch_size, start, quota);
}

/// How the walk treats one entry, in terms of the entry, the batch and the
/// two states: it carries over exactly at an entry with the inode of a full
/// batch's last entry; it skips an entry as the start only when the entry
/// equals the starting state in major number, inode and minor number; it
/// stops at the quota only at an entry whose major and minor numbers have
/// both reached the quota state's; every other entry is resolved.
pub proof fn law_entry_step(
    entry: WalkInodesEntry,
    last_ino: u64,
    last_batch: bool,
    start: WalkInodesEntry,
    quota: WalkInodesEntry,
)
    ensures
        (entry_step(entry, last_ino, last_batch, start, quota) == EntryStep::CarryOver) <==> (
        !last_batch && entry.ino == last_ino),
        entry_step(entry, last_ino, last_batch, start, quota) == EntryStep::SkipStart ==> (
        entry.major == start.major && entry.ino == start.ino && entry.minor == start.minor),
        entry_step(entry, last_ino, last_batch, start, quota) == EntryStep::ReachedQuota ==> (
        entry.major >= quota.major && entry.minor >= quota.minor),
        (!(!last_batch && entry.ino == last_ino) && (entry.major == start.major && entry.ino
            == start.ino && entry.minor == start.minor)) ==> entry_step(
            entry,
            last_ino,
            last_batch,
            start,
            quota,
        ) == EntryStep::SkipStart,
        (!(!last_batch && entry.ino == last_ino) && !(entry.major == start.major && entry.ino
            == start.ino && entry.minor == start.minor) && !(entry.major >= quota.major
            && entry.minor >= quota.minor)) ==> entry_step(
            entry,
            last_ino,
            last_batch,
            start,
            quota,
        ) == EntryStep::Resolve,
{
}

proof fn lemma_plan_from_complete(
    es: Seq<WalkInodesEntry>,
    i: int,
    short: bool,
    start: WalkInodesEntry,
    quota: WalkInodesEntry,
    k: int,
)
    requires
        0 <= i <= k < es.len(),
        forall|t: int|
            #![trigger es[t]]
            i <= t <= k ==> !(!short && es[t].ino == es.last().ino) && !(!(es[t].major
                == start.major && es[t].ino == start.ino && es[t].minor == start.minor)
                && es[t].major >= quota.major && es[t].minor >= quota.minor),
        !(es[k].major == start.major && es[k].ino == start.ino && es[k].minor == start.minor),
    ensures
        plan_from(es, i, short, start, quota).0.contains(es[k]),
    decreases k - i,
{
    let e = es[i];
    law_entry_step(e, es.last().ino, short, start, quota);
    let rest = plan_from(es, i + 1, short, start, quota);
    if i == k {
        assert(entry_step(e, es.last().ino, short, start, quota) == EntryStep::Resolve);
        assert(plan_from(es, i, short, start, quota).0 == seq![e] + rest.0);
        assert((seq![e] + rest.0)[0] == e);
    } else {
        lemma_plan_from_complete(es, i + 1, short, start, quota, k);
        let r = rest.0;
        let j = choose|j: int| 0 <= j < r.len() && r[j] == es[k];
        if entry_step(e, es.last().ino, short, start, quota) == EntryStep::Resolve {
            assert(plan_from(es, i, short, start, quota).0 == seq![e] + r);
            assert((seq![e] + r)[j + 1] == es[k]);
        } else {
            assert(entry_step(e, es.last().ino, short, start, quota) == EntryStep::SkipStart);
            assert(plan_from(es, i, short, start, quota).0 == r);
        }
    }
}

/// Nothing before the point where the walk stops is lost: every entry of
/// the batch that differs from the starting state, and up to which no entry
/// carries over (the inode of a full batch's last entry) and no entry other
/// than the start has reached the quota, is among the entries resolved.
pub proof fn law_plan_resolves_every_change(
    es: Seq<WalkInodesEntry>,
    batch_size: usize,
    start: WalkInodesEntry,
    quota: WalkInodesEntry,
    k: int,
)
    requires
        0 <= k < es.len(),
        forall|t: int|
            #![trigger es[t]]
            0 <= t <= k ==> !(es.len() >= batch_size && es[t].ino == es.last().ino) && !(!(
            es[t].major == start.major && es[t].ino == start.ino && es[t].minor == start.minor)
                && es[t].major >= quota.major && es[t].minor >= quota.minor),
        !(es[k].major == start.major && es[k].ino == start.ino && es[k].minor == start.minor),
    ensures
        batch_plan(es, batch_size, start, quota).0.contains(es[k]),
{
    lemma_plan_from_complete(es, 0, es.len() < batch_size, start, quota, k);
}

} // verus!
