//! The per-viewpoint record of detections, one text line per light of the
//! form `<index> = <x>,<y>`, and its correction after loading.
use vstd::prelude::*;
use crate::fusion::Detection;

verus! {

/// Why a stored record could not be read back.
#[derive(Debug, Clone, Copy, PartialEq, Eq, Structural)]
pub enum RecordError {
    /// The line at this position holds no readable `x,y` pair.
    Malformed(usize),
    /// Fewer than two lines: the first entry cannot be corrected.
    TooShort,
}

pub open spec fn is_digit(c: u8) -> bool {
    48 <= c <= 57
}

pub open spec fn all_digits(s: Seq<u8>) -> bool {
    forall|i: int| 0 <= i < s.len() ==> #[trigger] is_digit(s[i])
}

/// The number that a string of decimal digits writes.
pub open spec fn digits_value(s: Seq<u8>) -> int
    decreases s.len(),
{
    if s.len() == 0 {
        0
    } else {
        digits_value(s.drop_last()) * 10 + (s.last() - 48)
    }
}

/// The integer that a decimal text writes: an optional `+` or `-`, then one
/// or more digits.
pub open spec fn int_text_value(s: Seq<u8>) -> Option<int> {
    if s.len() > 0 && (s[0] == 45 || s[0] == 43) {
        let d = s.subrange(1, s.len() as int);
        if d.len() > 0 && all_digits(d) {
            Some(if s[0] == 45 { -digits_value(d) } else { digits_value(d) })
        } else {
            None
        }
    } else if s.len() > 0 && all_digits(s) {
        Some(digits_value(s))
    } else {
        None
    }
}

/// The value of a decimal text when it fits an `i32`.
pub open spec fn i32_text_value(s: Seq<u8>) -> Option<i32> {
    match int_text_value(s) {
        Some(v) => if i32::MIN <= v <= i32::MAX { Some(v as i32) } else { None },
        None => None,
    }
}

/// Where the text after the last space of `s[..n]` starts (0 without a space).
pub open spec fn field_start(s: Seq<u8>, n: int) -> int
    decreases n,
{
    if n <= 0 {
        0
    } else if s[n - 1] == 32 {
        n
    } else {
        field_start(s, n - 1)
    }
}

/// The first position at or after `i` that holds a comma, or the length.
pub open spec fn comma_from(s: Seq<u8>, i: int) -> int
    decreases s.len() - i,
{
    if i >= s.len() {
        s.len() as int
    } else if s[i] == 44 {
        i
    } else {
        comma_from(s, i + 1)
    }
}

/// The detection that one line of a record holds: the text after its last
/// space, split at commas, gives `x` in its first part and `y` in its second.
pub open spec fn line_value(line: Seq<u8>) -> Option<Detection> {
    let f = line.subrange(field_start(line, line.len() as int), line.len() as int);
    let c1 = comma_from(f, 0);
    let c2 = comma_from(f, c1 + 1);
    if c1 >= f.len() {
        None
    } else {
        match (i32_text_value(f.subrange(0, c1)), i32_text_value(f.subrange(c1 + 1, c2))) {
            (Some(x), Some(y)) => Some(Detection { x, y }),
            _ => None,
        }
    }
}

proof fn lemma_prefix_value_bounded(s: Seq<u8>, j: int)
    requires
        all_digits(s),
        0 <= j <= s.len(),
    ensures
        digits_value(s.subrange(0, j)) <= digits_value(s),
    decreases s.len(),
{
    if j < s.len() {
        let t = s.drop_last();
        assert(all_digits(t)) by {
            assert forall|i: int| 0 <= i < t.len() implies #[trigger] is_digit(t[i]) by {
                assert(is_digit(s[i]));
            }
        }
        lemma_prefix_value_bounded(t, j);
        assert(t.subrange(0, j) =~= s.subrange(0, j));
        assert(is_digit(s.last()));
        assert(digits_value(t) >= 0) by {
            lemma_digits_value_nonneg(t);
        }
    } else {
        assert(s.subrange(0, j) =~= s);
    }
}

proof fn lemma_digits_value_nonneg(s: Seq<u8>)
    requires
        all_digits(s),
    ensures
        digits_value(s) >= 0,
    decreases s.len(),
{
    if s.len() > 0 {
        let t = s.drop_last();
        assert(all_digits(t)) by {
            assert forall|i: int| 0 <= i < t.len() implies #[trigger] is_digit(t[i]) by {
                assert(is_digit(s[i]));
            }
        }
        lemma_digits_value_nonneg(t);
        assert(is_digit(s[s.len() - 1]));
    }
}

/// Reads the decimal integer written in `s[lo..hi]`, if it is one and fits an
/// `i32`.
pub fn parse_i32(s: &[u8], lo: usize, hi: usize) -> (r: Option<i32>)
    requires
        lo <= hi <= s@.len(),
    ensures
        r == i32_text_value(s@.subrange(lo as int, hi as int)),
{
    let ghost t = s@.subrange(lo as int, hi as int);
    let mut i: usize = lo;
    let mut neg = false;
    if lo < hi && (s[lo] == 45 || s[lo] == 43) {
        neg = s[lo] == 45;
        i = lo + 1;
    }
    let ghost signed = i == lo + 1;
    assert(signed == (t.len() > 0 && (t[0] == 45 || t[0] == 43)));
    let start = i;
    let ghost d = s@.subrange(start as int, hi as int);
    assert(signed ==> d =~= t.subrange(1, t.len() as int));
    assert(!signed ==> d =~= t);
    if i >= hi {
        return None;
    }
    let mut acc: i64 = 0;
    while i < hi
        invariant
            lo <= start <= i <= hi <= s@.len(),
            d == s@.subrange(start as int, hi as int),
            t == s@.subrange(lo as int, hi as int),
            signed == (t.len() > 0 && (t[0] == 45 || t[0] == 43)),
            signed ==> d == t.subrange(1, t.len() as int),
            !signed ==> d == t,
            neg == (signed && t[0] == 45),
            d.len() > 0,
            all_digits(s@.subrange(start as int, i as int)),
            acc == digits_value(s@.subrange(start as int, i as int)),
            0 <= acc <= 2147483648,
        decreases hi - i,
    {
        let c = s[i];
        let ghost pre = s@.subrange(start as int, i as int);
        let ghost next = s@.subrange(start as int, i as int + 1);
        assert(next.drop_last() =~= pre);
        assert(d[i - start] == c);
        if c < 48 || c > 57 {
            assert(!is_digit(d[i - start]));
            return None;
        }
        acc = acc * 10 + (c - 48) as i64;
        assert(all_digits(next)) by {
            assert forall|k: int| 0 <= k < next.len() implies #[trigger] is_digit(next[k]) by {
                if k < pre.len() {
                    assert(next[k] == pre[k]);
                }
            }
        }
        if acc > 2147483648 {
            proof {
                if all_digits(d) {
                    assert(d.subrange(0, i - start + 1) =~= next);
                    lemma_prefix_value_bounded(d, i - start + 1);
                }
            }
            return None;
        }
        i = i + 1;
    }
    assert(s@.subrange(start as int, i as int) =~= d);
    if neg {
        Some((-acc) as i32)
    } else if acc <= 2147483647 {
        Some(acc as i32)
    } else {
        None
    }
}

/// Position in `line` of the first comma at or after `i`, counted within the
/// field that starts at `st` (the line's length when there is none).
fn comma_in(line: &[u8], st: usize, i: usize) -> (r: usize)
    requires
        st <= i <= line@.len(),
    ensures
        r == st + comma_from(line@.subrange(st as int, line@.len() as int), i - st),
        i <= r <= line@.len(),
{
    let ghost f = line@.subrange(st as int, line@.len() as int);
    let mut k: usize = i;
    while k < line.len() && line[k] != 44
        invariant
            st <= i <= k <= line@.len(),
            f == line@.subrange(st as int, line@.len() as int),
            comma_from(f, k - st) == comma_from(f, i - st),
        decreases line@.len() - k,
    {
        assert(f[k - st] == line@[k as int]);
        k = k + 1;
    }
    if k < line.len() {
        assert(f[k - st] == line@[k as int]);
    }
    k
}

/// Reads one line of a record, `<index> = <x>,<y>`: the text after the last
/// space is split at commas, and its first two parts must be `i32` numbers.
pub fn parse_line(line: &[u8]) -> (r: Option<Detection>)
    ensures
        r == line_value(line@),
{
    let n = line.len();
    let mut st: usize = n;
    while st > 0 && line[st - 1] != 32
        invariant
            st <= n == line@.len(),
            field_start(line@, n as int) == field_start(line@, st as int),
        decreases st,
    {
        st = st - 1;
    }
    let ghost f = line@.subrange(st as int, n as int);
    let c1 = comma_in(line, st, st);
    if c1 >= n {
        return None;
    }
    let c2 = comma_in(line, st, c1 + 1);
    assert(f.subrange(0, c1 - st) =~= line@.subrange(st as int, c1 as int));
    assert(f.subrange(c1 - st + 1, c2 - st) =~= line@.subrange(c1 + 1, c2 as int));
    let x = parse_i32(line, st, c1);
    let y = parse_i32(line, c1 + 1, c2);
    match (x, y) {
        (Some(x), Some(y)) => Some(Detection { x, y }),
        _ => None,
    }
}

/// Overwrites the first entry with the second: capture records the first
/// light twice, so the entry stored first belongs to the second light's
/// trigger and the second light's entry stands for both.
pub fn correct_first(record: &mut Vec<Detection>)
    requires
        old(record)@.len() >= 2,
    ensures
        final(record)@ == old(record)@.update(0, old(record)@[1]),
{
    let second = record[1];
    record.set(0, second);
}

/// What reading a record's lines gives: the detection of every line, the
/// first replaced by the second's, or the first line that does not parse, or
/// `TooShort` when all parse but there are fewer than two.
pub open spec fn loaded(lines: Seq<Vec<u8>>, r: Result<Vec<Detection>, RecordError>) -> bool {
    match r {
        Ok(v) => {
            &&& lines.len() >= 2
            &&& forall|i: int| 0 <= i < lines.len() ==> line_value(#[trigger] lines[i]@) is Some
            &&& v@.len() == lines.len()
            &&& v@[0] == line_value(lines[1]@)->Some_0
            &&& forall|i: int| 1 <= i < lines.len() ==> Some(v@[i]) == line_value(#[trigger] lines[i]@)
        },
        Err(RecordError::Malformed(k)) => {
            &&& k < lines.len()
            &&& line_value(lines[k as int]@) is None
            &&& forall|i: int| 0 <= i < k ==> line_value(#[trigger] lines[i]@) is Some
        },
        Err(RecordError::TooShort) => {
            &&& lines.len() < 2
            &&& forall|i: int| 0 <= i < lines.len() ==> line_value(#[trigger] lines[i]@) is Some
        },
    }
}

/// Reads a stored record back, one line per light, and corrects its first
/// entry. Fails on the first line that does not parse, or when there are
/// fewer than two lines.
pub fn load_record(lines: &Vec<Vec<u8>>) -> (r: Result<Vec<Detection>, RecordError>)
    ensures
        loaded(lines@, r),
{
    let mut v: Vec<Detection> = Vec::new();
    let mut i: usize = 0;
    while i < lines.len()
        invariant
            i <= lines@.len(),
            v@.len() == i,
            forall|j: int| 0 <= j < i ==> Some(v@[j]) == line_value(#[trigger] lines@[j]@),
        decreases lines@.len() - i,
    {
        let parsed = parse_line(lines[i].as_slice());
        match parsed {
            Some(d) => v.push(d),
            None => return Err(RecordError::Malformed(i)),
        }
        i = i + 1;
    }
    if v.len() < 2 {
        return Err(RecordError::TooShort);
    }
    let ghost before = v@;
    correct_first(&mut v);
    assert(forall|j: int| 1 <= j < v@.len() ==> v@[j] == before[j]);
    Ok(v)
}

/// The decimal digits of `n`, most significant first, without leading zeros.
pub open spec fn decimal(n: nat) -> Seq<u8>
    decreases n,
{
    if n < 10 {
        seq![(48 + n) as u8]
    } else {
        decimal(n / 10).push((48 + n % 10) as u8)
    }
}

/// An integer as it is written: digits, after a `-` when negative.
pub open spec fn int_text(v: int) -> Seq<u8> {
    if v < 0 {
        seq![45u8] + decimal((-v) as nat)
    } else {
        decimal(v as nat)
    }
}

/// The line that capture writes for light `k` seen at (`x`, `y`):
/// `<k> = <x>,<y>`.
pub open spec fn record_line(k: nat, x: i32, y: i32) -> Seq<u8> {
    decimal(k) + seq![32u8, 61u8, 32u8] + int_text(x as int) + seq![44u8] + int_text(y as int)
}

proof fn lemma_decimal(n: nat)
    ensures
        decimal(n).len() > 0,
        all_digits(decimal(n)),
        digits_value(decimal(n)) == n,
    decreases n,
{
    let s = decimal(n);
    if n < 10 {
        assert(s.drop_last() =~= Seq::<u8>::empty());
        assert(digits_value(s) == digits_value(s.drop_last()) * 10 + (s.last() - 48));
    } else {
        let t = decimal(n / 10);
        lemma_decimal(n / 10);
        assert(s.drop_last() =~= t);
        assert(s.last() == (48 + n % 10) as u8);
        assert(n == (n / 10) * 10 + n % 10);
        assert(digits_value(s) == digits_value(t) * 10 + (s.last() - 48));
        assert forall|i: int| 0 <= i < s.len() implies #[trigger] is_digit(s[i]) by {
            if i < t.len() {
                assert(is_digit(t[i]));
            }
        }
    }
}

proof fn lemma_int_text(v: int)
    requires
        i32::MIN <= v <= i32::MAX,
    ensures
        i32_text_value(int_text(v)) == Some(v as i32),
        int_text(v).len() > 0,
        forall|i: int| 0 <= i < int_text(v).len() ==> #[trigger] int_text(v)[i] != 32 && int_text(v)[i] != 44,
{
    let s = int_text(v);
    if v < 0 {
        let d = decimal((-v) as nat);
        lemma_decimal((-v) as nat);
        assert(s.subrange(1, s.len() as int) =~= d);
        assert forall|i: int| 0 <= i < s.len() implies #[trigger] s[i] != 32 && s[i] != 44 by {
            if i > 0 {
                assert(is_digit(d[i - 1]));
            }
        }
    } else {
        lemma_decimal(v as nat);
        assert(is_digit(s[0]));
        assert forall|i: int| 0 <= i < s.len() implies #[trigger] s[i] != 32 && s[i] != 44 by {
            assert(is_digit(s[i]));
        }
    }
}

proof fn lemma_field_start_at(s: Seq<u8>, m: int, n: int)
    requires
        0 < m <= n <= s.len(),
        s[m - 1] == 32,
        forall|i: int| m <= i < n ==> #[trigger] s[i] != 32,
    ensures
        field_start(s, n) == m,
    decreases n,
{
    if n > m {
        lemma_field_start_at(s, m, n - 1);
    }
}

proof fn lemma_comma_at(s: Seq<u8>, i: int, j: int)
    requires
        0 <= i <= j <= s.len(),
        j < s.len() ==> s[j] == 44,
        forall|t: int| i <= t < j ==> #[trigger] s[t] != 44,
    ensures
        comma_from(s, i) == j,
    decreases j - i,
{
    if i < j {
        lemma_comma_at(s, i + 1, j);
    }
}

/// A line written as `<k> = <x>,<y>` reads back as (`x`, `y`).
pub proof fn lemma_record_line_reads_back(k: nat, x: i32, y: i32)
    ensures
        line_value(record_line(k, x, y)) == Some(Detection { x, y }),
{
    let dk = decimal(k);
    let tx = int_text(x as int);
    let ty = int_text(y as int);
    lemma_decimal(k);
    lemma_int_text(x as int);
    lemma_int_text(y as int);
    let line = record_line(k, x, y);
    let m = dk.len() + 3int;
    let f = tx + seq![44u8] + ty;
    assert(line =~= dk + seq![32u8, 61u8, 32u8] + f);
    assert(line[m - 1] == 32);
    assert forall|i: int| m <= i < line.len() implies #[trigger] line[i] != 32 by {
        assert(line[i] == f[i - m]);
        if i - m < tx.len() {
            assert(f[i - m] == tx[i - m]);
        } else if i - m > tx.len() {
            assert(f[i - m] == ty[i - m - tx.len() - 1]);
        }
    }
    lemma_field_start_at(line, m, line.len() as int);
    assert(line.subrange(m, line.len() as int) =~= f);
    let c1 = tx.len() as int;
    assert forall|t: int| 0 <= t < c1 implies #[trigger] f[t] != 44 by {
        assert(f[t] == tx[t]);
    }
    lemma_comma_at(f, 0, c1);
    assert forall|t: int| c1 + 1 <= t < f.len() implies #[trigger] f[t] != 44 by {
        assert(f[t] == ty[t - c1 - 1]);
    }
    lemma_comma_at(f, c1 + 1, f.len() as int);
    assert(f.subrange(0, c1) =~= tx);
    assert(f.subrange(c1 + 1, f.len() as int) =~= ty);
}

/// A record whose every line is written as `<k> = <x_k>,<y_k>` for light
/// `k` loads successfully: each light keeps its written detection, except the
/// first, which is replaced by the second light's; the second stays as
/// written.
pub proof fn lemma_written_record_loads(
    lines: Seq<Vec<u8>>,
    xs: Seq<i32>,
    ys: Seq<i32>,
    r: Result<Vec<Detection>, RecordError>,
)
    requires
        lines.len() >= 2,
        xs.len() == lines.len(),
        ys.len() == lines.len(),
        forall|k: int| 0 <= k < lines.len() ==> #[trigger] lines[k]@ == record_line(k as nat, xs[k], ys[k]),
        loaded(lines, r),
    ensures
        r is Ok,
        r->Ok_0@.len() == lines.len(),
        r->Ok_0@[0] == (Detection { x: xs[1], y: ys[1] }),
        r->Ok_0@[1] == (Detection { x: xs[1], y: ys[1] }),
        forall|k: int| 1 <= k < lines.len() ==> #[trigger] r->Ok_0@[k] == (Detection { x: xs[k], y: ys[k] }),
{
    assert forall|k: int| 0 <= k < lines.len() implies
        line_value(#[trigger] lines[k]@) == Some(Detection { x: xs[k], y: ys[k] }) by {
        lemma_record_line_reads_back(k as nat, xs[k], ys[k]);
    }
    match r {
        Ok(v) => {
            assert forall|k: int| 1 <= k < lines.len() implies
                #[trigger] v@[k] == (Detection { x: xs[k], y: ys[k] }) by {
                assert(line_value(lines[k]@) == Some(Detection { x: xs[k], y: ys[k] }));
            }
        },
        Err(RecordError::Malformed(k)) => {
            assert(line_value(lines[k as int]@) is Some);
        },
        Err(RecordError::TooShort) => {},
    }
}

} // verus!
