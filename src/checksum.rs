use vstd::prelude::*;

verus! {

/// The little-endian 16-bit word made of bytes `lo` and `hi`.
pub open spec fn word_le(lo: u8, hi: u8) -> u16 {
    (lo as int + 256 * hi as int) as u16
}

/// Word `j` of `data`: bytes `2j` and `2j + 1`, a missing last byte read
/// as zero.
pub open spec fn word_at(data: Seq<u8>, j: int) -> u16 {
    word_le(data[2 * j], if 2 * j + 1 < data.len() { data[2 * j + 1] } else { 0 })
}

/// The XOR of the first `n` words of `data`, folded from the left.
pub open spec fn xor_words(data: Seq<u8>, n: int) -> u16
    decreases n,
{
    if n <= 0 {
        0
    } else {
        xor_words(data, n - 1) ^ word_at(data, n - 1)
    }
}

/// The checksum of a file's contents: all its words XORed together.
pub open spec fn checksum_of(data: Seq<u8>) -> u16 {
    xor_words(data, (data.len() as int + 1) / 2)
}

/// Folds the contents two bytes at a time, read as a little-endian word
/// (a last odd byte padded with zero), into an XOR checksum that starts
/// at zero.
pub fn read_foldr(data: &[u8]) -> (r: u16)
    ensures
        r == checksum_of(data@),
{
    let mut acc: u16 = 0;
    let len: usize = data.len();
    let n_words: usize = len / 2 + len % 2;
    let mut w: usize = 0;
    while w < n_words
        invariant
            len == data@.len(),
            n_words == (data@.len() as int + 1) / 2,
            0 <= w <= n_words,
            acc == xor_words(data@, w as int),
        decreases n_words - w,
    {
        let pos = 2 * w;
        let lo = data[pos];
        let hi: u8 = if pos + 1 < len {
            data[pos + 1]
        } else {
            0
        };
        let curr: u16 = (lo as u16) + (hi as u16) * 256;
        acc = acc ^ curr;
        w = w + 1;
    }
    acc
}


/// How a file compares with the checksum recorded for it.
#[derive(PartialEq, Eq, Structural, Clone, Copy, Debug)]
pub enum ReportEntry {
    Unmodified { now: u16 },
    Modified { was: u16, now: u16 },
    Deleted { was: u16 },
    New,
}

/// The checksum recorded for file `f`, if any (the last record wins).
pub open spec fn recorded(previous: Seq<(String, u16)>, f: Seq<char>) -> Option<u16>
    decreases previous.len(),
{
    if previous.len() == 0 {
        None
    } else if previous.last().0@ == f {
        Some(previous.last().1)
    } else {
        recorded(previous.drop_last(), f)
    }
}

pub open spec fn is_present(current: Seq<(String, Result<u16, String>)>, f: Seq<char>) -> bool {
    exists|i: int| 0 <= i < current.len() && (#[trigger] current[i]).0@ == f
}

/// The verdict on a file present now: new where nothing was recorded,
/// else unmodified or modified by its checksum; a failed checksum stays
/// an error.
pub open spec fn verdict(was: Option<u16>, now: Result<u16, String>) -> Result<ReportEntry, String> {
    match was {
        None => Ok(ReportEntry::New),
        Some(p) => match now {
            Ok(c) => Ok(
                if p == c {
                    ReportEntry::Unmodified { now: c }
                } else {
                    ReportEntry::Modified { was: p, now: c }
                },
            ),
            Err(e) => Err(e),
        },
    }
}

/// The recorded files that are gone now, in their recorded order.
pub open spec fn deleted_files(
    previous: Seq<(String, u16)>,
    current: Seq<(String, Result<u16, String>)>,
) -> Seq<(String, Result<ReportEntry, String>)>
    decreases previous.len(),
{
    if previous.len() == 0 {
        Seq::empty()
    } else {
        let rest = deleted_files(previous.drop_last(), current);
        if is_present(current, previous.last().0@) {
            rest
        } else {
            rest.push((previous.last().0, Ok(ReportEntry::Deleted { was: previous.last().1 })))
        }
    }
}

/// The report: a verdict for each present file, in order, then each
/// deleted one.
pub open spec fn report_of(
    previous: Seq<(String, u16)>,
    current: Seq<(String, Result<u16, String>)>,
) -> Seq<(String, Result<ReportEntry, String>)> {
    Seq::new(
        current.len(),
        |i: int| (current[i].0, verdict(recorded(previous, current[i].0@), current[i].1)),
    ) + deleted_files(previous, current)
}

fn find_recorded(previous: &[(String, u16)], f: &String) -> (r: Option<u16>)
    ensures
        r == recorded(previous@, f@),
{
    let mut i: usize = previous.len();
    assert(previous@.take(i as int) =~= previous@);
    while i > 0
        invariant
            i <= previous@.len(),
            recorded(previous@, f@) == recorded(previous@.take(i as int), f@),
        decreases i,
    {
        assert(previous@.take(i as int).drop_last() =~= previous@.take(i - 1));
        if previous[i - 1].0 == *f {
            return Some(previous[i - 1].1);
        }
        i = i - 1;
    }
    None
}

fn find_present(current: &[(String, Result<u16, String>)], f: &String) -> (r: bool)
    ensures
        r == is_present(current@, f@),
{
    let mut i: usize = 0;
    while i < current.len()
        invariant
            0 <= i <= current@.len(),
            forall|j: int| 0 <= j < i ==> (#[trigger] current@[j]).0@ != f@,
        decreases current@.len() - i,
    {
        if current[i].0 == *f {
            return true;
        }
        i = i + 1;
    }
    false
}

/// Compares previous and freshly calculated checksums.
pub fn compare_hashes(previous: &[(String, u16)], current: &[(String, Result<u16, String>)]) -> (r:
    Vec<(String, Result<ReportEntry, String>)>)
    ensures
        r@ == report_of(previous@, current@),
{
    let mut report: Vec<(String, Result<ReportEntry, String>)> = Vec::new();
    let mut i: usize = 0;
    while i < current.len()
        invariant
            0 <= i <= current@.len(),
            report@ =~= Seq::new(
                i as nat,
                |j: int|
                    (current@[j].0, verdict(recorded(previous@, current@[j].0@), current@[j].1)),
            ),
        decreases current@.len() - i,
    {
        let f = current[i].0.clone();
        let entry = match find_recorded(previous, &f) {
            None => Ok(ReportEntry::New),
            Some(p) => match &current[i].1 {
                Ok(c) => Ok(
                    if p == *c {
                        ReportEntry::Unmodified { now: *c }
                    } else {
                        ReportEntry::Modified { was: p, now: *c }
                    },
                ),
                Err(e) => Err(e.clone()),
            },
        };
        report.push((f, entry));
        i = i + 1;
    }
    let ghost present = report@;
    let mut k: usize = 0;
    while k < previous.len()
        invariant
            0 <= k <= previous@.len(),
            report@ =~= present + deleted_files(previous@.take(k as int), current@),
        decreases previous@.len() - k,
    {
        assert(previous@.take(k + 1).drop_last() =~= previous@.take(k as int));
        if !find_present(current, &previous[k].0) {
            report.push((previous[k].0.clone(), Ok(ReportEntry::Deleted { was: previous[k].1 })));
        }
        k = k + 1;
    }
    assert(previous@.take(k as int) =~= previous@);
    report
}


/// Where the last `": "` of a line starts, if it holds one.
pub open spec fn last_separator(s: Seq<u8>) -> Option<int>
    decreases s.len(),
{
    if s.len() < 2 {
        None
    } else if s[s.len() - 2] == 58 && s[s.len() - 1] == 32 {
        Some(s.len() - 2)
    } else {
        last_separator(s.drop_last())
    }
}

pub open spec fn is_digit(b: u8) -> bool {
    48 <= b <= 57
}

/// The number that a string of decimal digits writes.
pub open spec fn digits_value(s: Seq<u8>) -> int
    decreases s.len(),
{
    if s.len() == 0 {
        0
    } else {
        digits_value(s.drop_last()) * 10 + (s.last() - 48)
    }
}

/// The value of one digit or more, where it fits in 16 bits.
pub open spec fn digits_u16(d: Seq<u8>) -> Option<u16> {
    if d.len() > 0 && (forall|i: int| 0 <= i < d.len() ==> is_digit(#[trigger] d[i]))
        && digits_value(d) <= 65535 {
        Some(digits_value(d) as u16)
    } else {
        None
    }
}

/// A decimal checksum: an optional `+`, then one digit or more, with a
/// value that fits in 16 bits.
pub open spec fn decimal_u16(s: Seq<u8>) -> Option<u16> {
    if s.len() > 0 && s[0] == 43 {
        digits_u16(s.drop_first())
    } else {
        digits_u16(s)
    }
}

/// A line of the checksum file: a file name and its checksum, split at the
/// last `": "`.
pub open spec fn line_entry(line: Seq<u8>) -> Option<(Seq<u8>, u16)> {
    match last_separator(line) {
        None => None,
        Some(p) => match decimal_u16(line.skip(p + 2)) {
            None => None,
            Some(c) => Some((line.take(p), c)),
        },
    }
}

proof fn lemma_separator(s: Seq<u8>)
    ensures
        last_separator(s) matches Some(p) ==> 0 <= p && p + 2 <= s.len(),
    decreases s.len(),
{
    if s.len() >= 2 {
        lemma_separator(s.drop_last());
    }
}

proof fn lemma_digits_grow(s: Seq<u8>, i: int)
    requires
        0 <= i <= s.len(),
        forall|j: int| 0 <= j < s.len() ==> is_digit(#[trigger] s[j]),
    ensures
        digits_value(s.take(i)) <= digits_value(s),
        0 <= digits_value(s.take(i)),
    decreases s.len(),
{
    if i < s.len() {
        assert(s.drop_last().take(i) =~= s.take(i));
        lemma_digits_grow(s.drop_last(), i);
        lemma_digits_grow(s.drop_last(), s.len() - 1);
        assert(s.drop_last().take(s.len() - 1) =~= s.drop_last());
    } else {
        assert(s.take(i) =~= s);
        if s.len() > 0 {
            lemma_digits_grow(s.drop_last(), s.len() - 1);
            assert(s.drop_last().take(s.len() - 1) =~= s.drop_last());
        }
    }
}

fn parse_decimal(s: &[u8]) -> (r: Option<u16>)
    ensures
        r == decimal_u16(s@),
{
    let start: usize = if s.len() > 0 && s[0] == 43 {
        1
    } else {
        0
    };
    let ghost d = s@.skip(start as int);
    assert(decimal_u16(s@) == digits_u16(d)) by {
        if start == 1 {
            assert(d =~= s@.drop_first());
        } else {
            assert(d =~= s@);
        }
    }
    if start == s.len() {
        return None;
    }
    let mut value: u32 = 0;
    let mut i: usize = start;
    while i < s.len()
        invariant
            start <= i <= s@.len(),
            d == s@.skip(start as int),
            decimal_u16(s@) == digits_u16(d),
            value as int == digits_value(d.take(i - start)),
            value <= 65535,
            forall|j: int| 0 <= j < i - start ==> is_digit(#[trigger] d[j]),
        decreases s@.len() - i,
    {
        let b = s[i];
        assert(d[i - start] == b);
        if b < 48 || b > 57 {
            assert(!is_digit(d[i - start]));
            return None;
        }
        assert(d.take(i - start + 1).drop_last() =~= d.take(i - start));
        value = value * 10 + (b - 48) as u32;
        i = i + 1;
        assert(value as int == digits_value(d.take(i - start)));
        if value > 65535 {
            proof {
                if forall|j: int| 0 <= j < d.len() ==> is_digit(#[trigger] d[j]) {
                    lemma_digits_grow(d, i - start);
                }
            }
            return None;
        }
    }
    assert(d.take(i - start) =~= d);
    Some(value as u16)
}

/// Parses one line of the checksum file into a file name and its checksum;
/// `None` for a line that holds no such record.
pub fn parse_line(line: &[u8]) -> (r: Option<(Vec<u8>, u16)>)
    ensures
        r is None <==> line_entry(line@) is None,
        r matches Some(e) ==> line_entry(line@) == Some((e.0@, e.1)),
{
    let mut i: usize = line.len();
    assert(line@.take(i as int) =~= line@);
    while i >= 2 && !(line[i - 2] == 58 && line[i - 1] == 32)
        invariant
            i <= line@.len(),
            last_separator(line@) == last_separator(line@.take(i as int)),
        decreases i,
    {
        assert(line@.take(i as int).drop_last() =~= line@.take(i - 1));
        i = i - 1;
    }
    let found: Option<usize> = if i >= 2 {
        Some(i - 2)
    } else {
        None
    };
    proof {
        lemma_separator(line@);
    }
    match found {
        None => None,
        Some(p) => {
            let mut rest: Vec<u8> = Vec::new();
            let mut j: usize = p + 2;
            while j < line.len()
                invariant
                    p + 2 <= j <= line@.len(),
                    rest@ =~= line@.subrange(p + 2, j as int),
                decreases line@.len() - j,
            {
                rest.push(line[j]);
                j = j + 1;
            }
            assert(rest@ =~= line@.skip(p + 2));
            match parse_decimal(rest.as_slice()) {
                None => None,
                Some(c) => {
                    let mut name: Vec<u8> = Vec::new();
                    let mut k: usize = 0;
                    while k < p
                        invariant
                            0 <= k <= p,
                            p + 2 <= line@.len(),
                            name@ =~= line@.take(k as int),
                        decreases p - k,
                    {
                        name.push(line[k]);
                        k = k + 1;
                    }
                    Some((name, c))
                },
            }
        },
    }
}

} // verus!
