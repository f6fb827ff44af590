//! Formatting of download progress figures.
use vstd::prelude::*;

verus! {

/// The decimal digits of `n`, without leading zeros (`"0"` for zero).
pub open spec fn decimal_text(n: nat) -> Seq<char>
    decreases n,
{
    if n < 10 {
        seq![(0x30 + n) as char]
    } else {
        decimal_text(n / 10) + seq![(0x30 + n % 10) as char]
    }
}

/// The text of the decimal digit `d`.
fn digit_text(d: u64) -> (s: &'static str)
    requires
        d < 10,
    ensures
        s@ == seq![(0x30 + d) as char],
{
    proof {
        reveal_strlit("0");
        reveal_strlit("1");
        reveal_strlit("2");
        reveal_strlit("3");
        reveal_strlit("4");
        reveal_strlit("5");
        reveal_strlit("6");
        reveal_strlit("7");
        reveal_strlit("8");
        reveal_strlit("9");
    }
    match d {
        0 => "0",
        1 => "1",
        2 => "2",
        3 => "3",
        4 => "4",
        5 => "5",
        6 => "6",
        7 => "7",
        8 => "8",
        _ => "9",
    }
}

/// Writes a number in decimal, as `Display` writes integers: digits without sign,
/// separators or leading zeros.
pub(crate) fn decimal_u64(n: u64) -> (s: String)
    ensures
        s@ == decimal_text(n as nat),
    decreases n,
{
    if n < 10 {
        let mut s = String::new();
        s.append(digit_text(n));
        s
    } else {
        let mut s = decimal_u64(n / 10);
        s.append(digit_text(n % 10));
        s
    }
}

/// Writes a number in decimal.
pub(crate) fn decimal(n: usize) -> (s: String)
    ensures
        s@ == decimal_text(n as nat),
{
    decimal_u64(n as u64)
}

/// A remaining time in seconds, shown as hours, minutes and seconds.
pub struct Eta(pub usize);

/// How an estimated time reads: `1h2m3s`, `2m3s` or `3s`, leading zero units left out.
pub open spec fn eta_text(total: nat) -> Seq<char> {
    let hours = total / 3600;
    let minutes = (total % 3600) / 60;
    let seconds = total % 60;
    if hours > 0 {
        decimal_text(hours) + "h"@ + decimal_text(minutes) + "m"@ + decimal_text(seconds) + "s"@
    } else if minutes > 0 {
        decimal_text(minutes) + "m"@ + decimal_text(seconds) + "s"@
    } else {
        decimal_text(seconds) + "s"@
    }
}

impl Eta {
    /// The time as text: `1h2m3s`, `2m3s` or `3s`.
    pub fn to_string(&self) -> (s: String)
        ensures
            s@ == eta_text(self.0 as nat),
    {
        let total = self.0;
        let hours = total / 3600;
        let minutes = (total % 3600) / 60;
        let seconds = total % 60;
        let mut s = String::new();
        if hours > 0 {
            s.append(decimal(hours).as_str());
            s.append("h");
            s.append(decimal(minutes).as_str());
            s.append("m");
        } else if minutes > 0 {
            s.append(decimal(minutes).as_str());
            s.append("m");
        }
        s.append(decimal(seconds).as_str());
        s.append("s");
        proof {
            assert(s@ =~= eta_text(self.0 as nat));
        }
        s
    }
}

/// The counters behind a download's progress report: parts and bytes done in all, and
/// in this session (parts skipped because they were already on disk do not count
/// towards the session's speed).
pub struct ProgressInner {
    /// Parts done, downloaded or skipped.
    pub counter: usize,
    /// The label of the progress item.
    pub id: String,
    /// Parts downloaded in this session.
    pub session_counter: usize,
    /// Bytes downloaded in this session.
    pub session_bytes: usize,
    /// Parts expected; never below the parts done after an update.
    pub total: usize,
    /// Bytes done, downloaded or skipped.
    pub total_bytes: usize,
}

impl ProgressInner {
    /// Counters for `total` expected parts, none done yet.
    pub fn new(id: &str, total: usize) -> (p: Self)
        ensures
            p.id@ == id@,
            p.total == total,
            p.counter == 0,
            p.session_counter == 0,
            p.session_bytes == 0,
            p.total_bytes == 0,
    {
        ProgressInner {
            counter: 0,
            id: id.to_owned(),
            session_counter: 0,
            session_bytes: 0,
            total,
            total_bytes: 0,
        }
    }

    /// Sets the number of parts expected.
    pub fn update_total(&mut self, total: usize)
        ensures
            final(self).total == total,
            final(self).counter == old(self).counter,
            final(self).session_counter == old(self).session_counter,
            final(self).session_bytes == old(self).session_bytes,
            final(self).total_bytes == old(self).total_bytes,
            final(self).id == old(self).id,
    {
        self.total = total;
    }

    /// Counts a downloaded part of `size` bytes; the expected total grows to the parts
    /// done where they pass it.
    pub fn update(&mut self, size: usize)
        requires
            old(self).counter < usize::MAX,
            old(self).session_counter < usize::MAX,
            old(self).total_bytes + size <= usize::MAX,
            old(self).session_bytes + size <= usize::MAX,
        ensures
            final(self).counter == old(self).counter + 1,
            final(self).session_counter == old(self).session_counter + 1,
            final(self).total_bytes == old(self).total_bytes + size,
            final(self).session_bytes == old(self).session_bytes + size,
            final(self).total == if old(self).total < old(self).counter + 1 {
                old(self).counter + 1
            } else {
                old(self).total as int
            },
            final(self).counter <= final(self).total,
            final(self).id == old(self).id,
    {
        self.counter = self.counter + 1;
        self.session_counter = self.session_counter + 1;
        self.total_bytes = self.total_bytes + size;
        self.session_bytes = self.session_bytes + size;
        if self.counter > self.total {
            self.total = self.counter;
        }
    }

    /// Counts a part of `size` bytes that was already there; the session's figures do
    /// not change.
    pub fn skip(&mut self, size: usize)
        requires
            old(self).counter < usize::MAX,
            old(self).total_bytes + size <= usize::MAX,
        ensures
            final(self).counter == old(self).counter + 1,
            final(self).session_counter == old(self).session_counter,
            final(self).total_bytes == old(self).total_bytes + size,
            final(self).session_bytes == old(self).session_bytes,
            final(self).total == if old(self).total < old(self).counter + 1 {
                old(self).counter + 1
            } else {
                old(self).total as int
            },
            final(self).counter <= final(self).total,
            final(self).id == old(self).id,
    {
        self.counter = self.counter + 1;
        self.total_bytes = self.total_bytes + size;
        if self.counter > self.total {
            self.total = self.counter;
        }
    }

    /// Whether every expected part is done.
    pub fn is_done(&self) -> (b: bool)
        ensures
            b == (self.counter >= self.total),
    {
        self.counter >= self.total
    }
}

} // verus!
