//! The score report that the solver writes last on its error output, a line
//! `label:value`, and how the test runner reads it back.
use vstd::prelude::*;

verus! {

/// The largest index `k < end` with `b[k] == c`, or `-1`.
pub open spec fn last_index_of(b: Seq<u8>, c: u8, end: int) -> int
    decreases end,
{
    if end <= 0 {
        -1
    } else if b[end - 1] == c {
        end - 1
    } else {
        last_index_of(b, c, end - 1)
    }
}

/// The smallest index `k >= start` with `b[k] == c`, or `b.len()`.
pub open spec fn first_index_of(b: Seq<u8>, c: u8, start: int) -> int
    decreases b.len() - start,
{
    if start >= b.len() {
        b.len() as int
    } else if b[start] == c {
        start
    } else {
        first_index_of(b, c, start + 1)
    }
}

/// The next-to-last piece of `b` split at line breaks: the last complete
/// line when `b` ends with a line break; `None` when `b` holds no line
/// break.
pub open spec fn report_line(b: Seq<u8>) -> Option<Seq<u8>> {
    let j = last_index_of(b, 10u8, b.len() as int);
    if j < 0 {
        None
    } else {
        Some(b.subrange(last_index_of(b, 10u8, j) + 1, j))
    }
}

/// The value of a string of decimal digits.
pub open spec fn digits_value(d: Seq<u8>) -> int
    decreases d.len(),
{
    if d.len() == 0 { 0 } else { digits_value(d.drop_last()) * 10 + (d.last() - 48) }
}

pub open spec fn all_digits(d: Seq<u8>) -> bool {
    forall|i: int| 0 <= i < d.len() ==> 48 <= #[trigger] d[i] <= 57
}

/// The `i64` written in decimal in `f`: an optional sign `+` or `-`, then at
/// least one digit, the value within the range of `i64`.
pub open spec fn parsed_i64(f: Seq<u8>) -> Option<int> {
    let signed = f.len() > 0 && (f[0] == 45u8 || f[0] == 43u8);
    let negative = f.len() > 0 && f[0] == 45u8;
    let d = if signed { f.drop_first() } else { f };
    let v = if negative { -digits_value(d) } else { digits_value(d) };
    if d.len() > 0 && all_digits(d) && i64::MIN <= v <= i64::MAX {
        Some(v)
    } else {
        None
    }
}

/// The report read from `b`: the label before the first `:` of the report
/// line and the value written between that `:` and the next one (or the end
/// of the line).
pub open spec fn report_spec(b: Seq<u8>) -> Option<(Seq<u8>, int)> {
    match report_line(b) {
        None => None,
        Some(line) => {
            let c1 = first_index_of(line, 58u8, 0);
            if c1 >= line.len() {
                None
            } else {
                let c2 = first_index_of(line, 58u8, c1 + 1);
                match parsed_i64(line.subrange(c1 + 1, c2)) {
                    None => None,
                    Some(v) => Some((line.subrange(0, c1), v)),
                }
            }
        },
    }
}

/// Finds the largest index below `end` holding `c`.
fn find_last(b: &Vec<u8>, c: u8, end: usize) -> (k: Option<usize>)
    requires
        end <= b@.len(),
    ensures
        match k {
            Some(k) => k == last_index_of(b@, c, end as int) && k < end,
            None => last_index_of(b@, c, end as int) == -1,
        },
{
    let mut e = end;
    while e > 0
        invariant
            e <= end <= b@.len(),
            last_index_of(b@, c, end as int) == last_index_of(b@, c, e as int),
        decreases e,
    {
        if b[e - 1] == c {
            return Some(e - 1);
        }
        e = e - 1;
    }
    None
}

/// Finds the smallest index from `start` on holding `c` in `b[..len]`.
fn find_first(b: &Vec<u8>, c: u8, start: usize) -> (k: usize)
    requires
        start <= b@.len(),
    ensures
        k == first_index_of(b@, c, start as int),
        start <= k <= b@.len(),
{
    let mut s = start;
    while s < b.len()
        invariant
            start <= s <= b@.len(),
            first_index_of(b@, c, start as int) == first_index_of(b@, c, s as int),
        decreases b@.len() - s,
    {
        if b[s] == c {
            return s;
        }
        s = s + 1;
    }
    s
}

/// The bytes `b[from..to]`.
fn slice_copy(b: &Vec<u8>, from: usize, to: usize) -> (r: Vec<u8>)
    requires
        from <= to <= b@.len(),
    ensures
        r@ == b@.subrange(from as int, to as int),
{
    let mut r: Vec<u8> = Vec::new();
    let mut i = from;
    while i < to
        invariant
            from <= i <= to <= b@.len(),
            r@ == b@.subrange(from as int, i as int),
        decreases to - i,
    {
        r.push(b[i]);
        proof {
            assert(b@.subrange(from as int, i + 1) =~= b@.subrange(from as int, i as int).push(b@[i as int]));
        }
        i = i + 1;
    }
    r
}

/// Digits never lower a value when appended.
proof fn lemma_digits_grow(d: Seq<u8>, k: int)
    requires
        all_digits(d),
        0 <= k <= d.len(),
    ensures
        0 <= digits_value(d.take(k)) <= digits_value(d),
    decreases d.len() - k,
{
    if k < d.len() {
        lemma_digits_grow(d, k + 1);
        assert(d.take(k + 1).drop_last() =~= d.take(k));
        assert(48 <= d[k] <= 57);
    } else {
        assert(d.take(k) =~= d);
    }
    lemma_digits_nonneg(d.take(k));
}

proof fn lemma_digits_nonneg(d: Seq<u8>)
    requires
        all_digits(d),
    ensures
        digits_value(d) >= 0,
    decreases d.len(),
{
    if d.len() > 0 {
        assert(all_digits(d.drop_last()));
        lemma_digits_nonneg(d.drop_last());
        assert(48 <= d[d.len() - 1]);
    }
}

/// Reads an `i64` written in decimal, as `str::parse::<i64>` does.
pub fn parse_i64(f: &Vec<u8>) -> (r: Option<i64>)
    ensures
        match r {
            Some(v) => parsed_i64(f@) == Some(v as int),
            None => parsed_i64(f@) is None,
        },
{
    let len = f.len();
    let signed = len > 0 && (f[0] == 45u8 || f[0] == 43u8);
    let negative = len > 0 && f[0] == 45u8;
    let start: usize = if signed { 1 } else { 0 };
    let ghost d = if signed { f@.drop_first() } else { f@ };
    proof {
        assert(d =~= f@.subrange(start as int, len as int));
    }
    if start >= len {
        return None;
    }
    let mut acc: i128 = 0;
    let mut i = start;
    proof {
        assert(d.take(0) =~= Seq::<u8>::empty());
    }
    while i < len
        invariant
            len == f@.len(),
            start <= i <= len,
            start == 0 || start == 1,
            signed == (start == 1),
            signed == (len > 0 && (f@[0] == 45u8 || f@[0] == 43u8)),
            negative ==> signed,
            negative == (len > 0 && f@[0] == 45u8),
            d == f@.subrange(start as int, len as int),
            d == (if signed { f@.drop_first() } else { f@ }),
            forall|k: int| 0 <= k < i - start ==> 48 <= #[trigger] d[k] <= 57,
            acc == (if negative { -digits_value(d.take(i - start)) } else { digits_value(d.take(i - start)) }),
            i64::MIN <= acc <= i64::MAX,
        decreases len - i,
    {
        let c = f[i];
        let ghost k = i - start;
        if c < 48u8 || c > 57u8 {
            proof {
                assert(d[k] == c);
            }
            return None;
        }
        let digit = (c - 48u8) as i128;
        proof {
            assert(d[k] == c);
            assert(d.take(k + 1).drop_last() =~= d.take(k));
            assert(d.take(k + 1).last() == c);
        }
        acc = if negative { acc * 10 - digit } else { acc * 10 + digit };
        if acc < i64::MIN as i128 || acc > i64::MAX as i128 {
            proof {
                if all_digits(d) {
                    lemma_digits_grow(d, k + 1);
                }
            }
            return None;
        }
        i = i + 1;
    }
    proof {
        assert(d.take(len - start) =~= d);
    }
    Some(acc as i64)
}

/// Reads the score report from the solver's error output `report`: the
/// label and the value of the report line.
pub fn parse_score_report(report: &Vec<u8>) -> (res: Option<(Vec<u8>, i64)>)
    ensures
        match res {
            Some((label, v)) => report_spec(report@) == Some((label@, v as int)),
            None => report_spec(report@) is None,
        },
{
    let j = match find_last(report, 10u8, report.len()) {
        None => return None,
        Some(j) => j,
    };
    let i = match find_last(report, 10u8, j) {
        None => 0,
        Some(k) => k + 1,
    };
    let line = slice_copy(report, i, j);
    proof {
        assert(report_line(report@) == Some(line@));
    }
    let c1 = find_first(&line, 58u8, 0);
    if c1 >= line.len() {
        return None;
    }
    let c2 = find_first(&line, 58u8, c1 + 1);
    let field = slice_copy(&line, c1 + 1, c2);
    let label = slice_copy(&line, 0, c1);
    match parse_i64(&field) {
        None => None,
        Some(v) => Some((label, v)),
    }
}

/// The decimal digits of `n`, most significant first, with no leading zero.
pub open spec fn decimal_digits(n: nat) -> Seq<u8>
    decreases n,
{
    if n < 10 {
        seq![(48 + n) as u8]
    } else {
        decimal_digits(n / 10).push((48 + n % 10) as u8)
    }
}

/// `v` written in decimal: a `-` before the digits of a negative value.
pub open spec fn decimal(v: int) -> Seq<u8> {
    if v < 0 {
        seq![45u8] + decimal_digits((-v) as nat)
    } else {
        decimal_digits(v as nat)
    }
}

/// The digits of `n` are digits, at least one, and read back as `n`.
proof fn lemma_decimal_digits(n: nat)
    ensures
        decimal_digits(n).len() >= 1,
        all_digits(decimal_digits(n)),
        digits_value(decimal_digits(n)) == n,
    decreases n,
{
    let d = decimal_digits(n);
    if n >= 10 {
        lemma_decimal_digits(n / 10);
        let p = decimal_digits(n / 10);
        assert(d.drop_last() =~= p);
        assert(0 <= n % 10 < 10 && (n / 10) * 10 + n % 10 == n) by (nonlinear_arith)
            requires
                n >= 10,
        ;
        assert(d.last() == 48 + n % 10);
        assert(digits_value(d) == digits_value(p) * 10 + (d.last() - 48));
    } else {
        assert(d.drop_last() =~= Seq::<u8>::empty());
        assert(d.last() == 48 + n);
        assert(digits_value(d) == digits_value(d.drop_last()) * 10 + (d.last() - 48));
    }
}

/// Every `i64` written in decimal reads back as itself.
pub proof fn lemma_decimal_parses(v: int)
    requires
        i64::MIN <= v <= i64::MAX,
    ensures
        parsed_i64(decimal(v)) == Some(v),
        forall|i: int| 0 <= i < decimal(v).len() ==> #[trigger] decimal(v)[i] != 58u8 && decimal(v)[i] != 10u8,
{
    let f = decimal(v);
    if v < 0 {
        let n = (-v) as nat;
        lemma_decimal_digits(n);
        assert(f.drop_first() =~= decimal_digits(n));
        assert forall|i: int| 0 <= i < f.len() implies #[trigger] f[i] != 58u8 && f[i] != 10u8 by {
            if i > 0 {
                assert(f[i] == decimal_digits(n)[i - 1]);
            }
        }
    } else {
        lemma_decimal_digits(v as nat);
        assert(48 <= f[0] <= 57);
    }
}

/// Past bytes other than `c`, the last `c` below `end` is the last one below
/// `start`.
proof fn lemma_last_index_skip(b: Seq<u8>, c: u8, start: int, end: int)
    requires
        0 <= start <= end <= b.len(),
        forall|k: int| start <= k < end ==> b[k] != c,
    ensures
        last_index_of(b, c, end) == last_index_of(b, c, start),
    decreases end - start,
{
    if end > start {
        lemma_last_index_skip(b, c, start, end - 1);
    }
}

/// Past bytes other than `c`, the first `c` at or after `start` is the first
/// one at or after `end`.
proof fn lemma_first_index_skip(b: Seq<u8>, c: u8, start: int, end: int)
    requires
        0 <= start <= end <= b.len(),
        forall|k: int| start <= k < end ==> b[k] != c,
    ensures
        first_index_of(b, c, start) == first_index_of(b, c, end),
    decreases end - start,
{
    if end > start {
        lemma_first_index_skip(b, c, start + 1, end);
    }
}

/// The last complete line of `before + line + "\n"` is `line`, when `line`
/// holds no line break and `before` is empty or ends with one.
proof fn lemma_last_line(before: Seq<u8>, line: Seq<u8>)
    requires
        before.len() == 0 || before.last() == 10u8,
        forall|i: int| 0 <= i < line.len() ==> #[trigger] line[i] != 10u8,
    ensures
        report_line(before + line + seq![10u8]) == Some(line),
{
    let b = before + line + seq![10u8];
    let j = b.len() - 1;
    assert(b[j] == 10u8);
    assert(last_index_of(b, 10u8, b.len() as int) == j);
    assert forall|k: int| before.len() <= k < j implies b[k] != 10u8 by {
        assert(b[k] == line[k - before.len()]);
    }
    lemma_last_index_skip(b, 10u8, before.len() as int, j);
    if before.len() > 0 {
        assert(b[before.len() - 1] == before.last());
        assert(last_index_of(b, 10u8, before.len() as int) == before.len() - 1);
    }
    assert(last_index_of(b, 10u8, j) + 1 == before.len());
    assert(b.subrange(before.len() as int, j) =~= line);
}

/// The report the solver writes is read back: after any earlier complete
/// lines `before`, a last line made of a label without `:` or line break, a
/// `:` and an `i64` written in decimal reads as that label and that value.
pub proof fn lemma_report_reads_back(before: Seq<u8>, label: Seq<u8>, v: int)
    requires
        before.len() == 0 || before.last() == 10u8,
        forall|i: int| 0 <= i < label.len() ==> #[trigger] label[i] != 58u8 && label[i] != 10u8,
        i64::MIN <= v <= i64::MAX,
    ensures
        report_spec(before + label + seq![58u8] + decimal(v) + seq![10u8]) == Some((label, v)),
{
    lemma_decimal_parses(v);
    let dec = decimal(v);
    let line = label + seq![58u8] + dec;
    assert(before + line + seq![10u8] =~= before + label + seq![58u8] + decimal(v) + seq![10u8]);
    assert forall|i: int| 0 <= i < line.len() implies #[trigger] line[i] != 10u8 by {
        if i < label.len() {
            assert(line[i] == label[i]);
        } else if i > label.len() {
            assert(line[i] == dec[i - label.len() - 1]);
        }
    }
    lemma_last_line(before, line);
    let c = label.len() as int;
    assert forall|k: int| 0 <= k < c implies line[k] != 58u8 by {
        assert(line[k] == label[k]);
    }
    lemma_first_index_skip(line, 58u8, 0, c);
    assert(line[c] == 58u8);
    assert(first_index_of(line, 58u8, 0) == c);
    assert forall|k: int| c + 1 <= k < line.len() implies line[k] != 58u8 by {
        assert(line[k] == dec[k - c - 1]);
    }
    lemma_first_index_skip(line, 58u8, c + 1, line.len() as int);
    assert(first_index_of(line, 58u8, c + 1) == line.len());
    assert(line.subrange(c + 1, line.len() as int) =~= dec);
    assert(line.subrange(0, c) =~= label);
}

/// Output with no line break holds no report.
pub proof fn lemma_no_line_no_report(b: Seq<u8>)
    requires
        forall|i: int| 0 <= i < b.len() ==> #[trigger] b[i] != 10u8,
    ensures
        report_spec(b) is None,
{
    lemma_last_index_skip(b, 10u8, 0, b.len() as int);
}

/// A last line without `:` holds no report.
pub proof fn lemma_no_colon_no_report(before: Seq<u8>, line: Seq<u8>)
    requires
        before.len() == 0 || before.last() == 10u8,
        forall|i: int| 0 <= i < line.len() ==> #[trigger] line[i] != 10u8 && line[i] != 58u8,
    ensures
        report_spec(before + line + seq![10u8]) is None,
{
    lemma_last_line(before, line);
    lemma_first_index_skip(line, 58u8, 0, line.len() as int);
}

/// A value that is not a decimal number gives no report: when the text
/// after the label's `:` is empty, or holds a byte other than a digit past
/// its first byte, or begins with a byte that is neither a digit nor a sign,
/// nothing is read.
pub proof fn lemma_bad_value_no_report(before: Seq<u8>, label: Seq<u8>, field: Seq<u8>)
    requires
        before.len() == 0 || before.last() == 10u8,
        forall|i: int| 0 <= i < label.len() ==> #[trigger] label[i] != 58u8 && label[i] != 10u8,
        forall|i: int| 0 <= i < field.len() ==> #[trigger] field[i] != 58u8 && field[i] != 10u8,
        field.len() == 0
            || (exists|i: int| 1 <= i < field.len() && !(48 <= #[trigger] field[i] <= 57))
            || !(48 <= field[0] <= 57 || field[0] == 43u8 || field[0] == 45u8),
    ensures
        report_spec(before + label + seq![58u8] + field + seq![10u8]) is None,
{
    let line = label + seq![58u8] + field;
    assert(before + line + seq![10u8] =~= before + label + seq![58u8] + field + seq![10u8]);
    assert forall|i: int| 0 <= i < line.len() implies #[trigger] line[i] != 10u8 by {
        if i < label.len() {
            assert(line[i] == label[i]);
        } else if i > label.len() {
            assert(line[i] == field[i - label.len() - 1]);
        }
    }
    lemma_last_line(before, line);
    let c = label.len() as int;
    assert forall|k: int| 0 <= k < c implies line[k] != 58u8 by {
        assert(line[k] == label[k]);
    }
    lemma_first_index_skip(line, 58u8, 0, c);
    assert(line[c] == 58u8);
    assert forall|k: int| c + 1 <= k < line.len() implies line[k] != 58u8 by {
        assert(line[k] == field[k - c - 1]);
    }
    lemma_first_index_skip(line, 58u8, c + 1, line.len() as int);
    assert(line.subrange(c + 1, line.len() as int) =~= field);
    let signed = field.len() > 0 && (field[0] == 45u8 || field[0] == 43u8);
    let d = if signed { field.drop_first() } else { field };
    if field.len() > 0 {
        if exists|i: int| 1 <= i < field.len() && !(48 <= #[trigger] field[i] <= 57) {
            let i = choose|i: int| 1 <= i < field.len() && !(48 <= #[trigger] field[i] <= 57);
            if signed {
                assert(d[i - 1] == field[i]);
            } else {
                assert(d[i] == field[i]);
            }
        } else {
            if !signed {
                assert(d[0] == field[0]);
            }
        }
    }
    assert(parsed_i64(field) is None);
}

} // verus!
