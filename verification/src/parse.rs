//! Verified text parsing for broker exports: integer fields with the
//! broker-specific noise stripped, fixed-point lot and rate fields, and
//! dotted version strings.

use vstd::prelude::*;
use vstd::string::StrSliceExecFns;

verus! {

/// Cap on the magnitude a numeric field may reach; far above every domain
/// limit, so the cap never cuts off a value the engine could accept.
pub const FIELD_MAX: i64 = 100_000_000_000_000_000;

/// One decimal digit.
pub open spec fn is_digit(c: char) -> bool {
    '0' <= c && c <= '9'
}

pub open spec fn digit_val(c: char) -> int {
    c as int - '0' as int
}

/// Every character of `s` is a decimal digit.
pub open spec fn all_digits(s: Seq<char>) -> bool {
    forall|i: int| 0 <= i < s.len() ==> is_digit(#[trigger] s[i])
}

/// The value of a digit string read in base ten.
pub open spec fn digits_value(s: Seq<char>) -> int
    decreases s.len(),
{
    if s.len() == 0 {
        0
    } else {
        digits_value(s.drop_last()) * 10 + digit_val(s.last())
    }
}

/// A longer digit string never has a smaller value.
pub proof fn lemma_digits_value_grows(s: Seq<char>)
    requires
        s.len() > 0,
        all_digits(s),
    ensures
        digits_value(s) >= digits_value(s.drop_last()),
        digits_value(s) >= 0,
    decreases s.len(),
{
    if s.len() > 1 {
        assert(all_digits(s.drop_last()));
        lemma_digits_value_grows(s.drop_last());
    }
    assert(digits_value(s.drop_last()) * 10 >= digits_value(s.drop_last())) by (nonlinear_arith)
        requires
            digits_value(s.drop_last()) >= 0,
    ;
}

/// What `str::parse` accepts for an integer: an optional sign followed by
/// at least one digit, with the value inside `[min, max]`.
pub open spec fn parse_signed_spec(s: Seq<char>, min: int, max: int) -> Option<int> {
    let sign: int = if s.len() > 0 && s[0] == '-' {
        -1int
    } else {
        1int
    };
    let body: Seq<char> = if s.len() > 0 && (s[0] == '+' || s[0] == '-') {
        s.drop_first()
    } else {
        s
    };
    if body.len() == 0 || !all_digits(body) {
        None
    } else {
        let v = sign * digits_value(body);
        if min <= v <= max {
            Some(v)
        } else {
            None
        }
    }
}

/// The white space `str::trim` removes.
pub open spec fn is_space(c: char) -> bool {
    ||| c == ' '
    ||| c == '\t'
    ||| c == '\n'
    ||| c == '\r'
    ||| c == '\u{b}'
    ||| c == '\u{c}'
    ||| c == '\u{85}'
    ||| c == '\u{a0}'
    ||| c == '\u{1680}'
    ||| ('\u{2000}' <= c && c <= '\u{200a}')
    ||| c == '\u{2028}'
    ||| c == '\u{2029}'
    ||| c == '\u{202f}'
    ||| c == '\u{205f}'
    ||| c == '\u{3000}'
}

pub open spec fn trim_front(s: Seq<char>) -> Seq<char>
    decreases s.len(),
{
    if s.len() > 0 && is_space(s[0]) {
        trim_front(s.drop_first())
    } else {
        s
    }
}

pub open spec fn trim_back(s: Seq<char>) -> Seq<char>
    decreases s.len(),
{
    if s.len() > 0 && is_space(s.last()) {
        trim_back(s.drop_last())
    } else {
        s
    }
}

pub open spec fn trim_spec(s: Seq<char>) -> Seq<char> {
    trim_back(trim_front(s))
}

/// A character the integer cleaner drops: escape noise, thousands
/// separators and currency glyphs.
pub open spec fn is_dropped(c: char) -> bool {
    c == '\\' || c == ',' || c == '\u{a5}' || c == '\u{ffe5}'
}

/// Full-width plus and minus fold to their ASCII forms.
pub open spec fn fold_sign(c: char) -> char {
    if c == '\u{ff0b}' {
        '+'
    } else if c == '\u{ff0d}' {
        '-'
    } else {
        c
    }
}

/// The cleaning pass of the integer field parser.
pub open spec fn clean_spec(s: Seq<char>) -> Seq<char>
    decreases s.len(),
{
    if s.len() == 0 {
        Seq::empty()
    } else if is_dropped(s.last()) {
        clean_spec(s.drop_last())
    } else {
        clean_spec(s.drop_last()).push(fold_sign(s.last()))
    }
}

/// Accounting notation: a fully parenthesised number is negative.
pub open spec fn unparen_spec(s: Seq<char>) -> Seq<char> {
    if s.len() >= 2 && s[0] == '(' && s.last() == ')' {
        seq!['-'].add(s.subrange(1, s.len() - 1))
    } else {
        s
    }
}

/// What `parse_i32_from_csv` yields on a raw field.
pub open spec fn csv_i32_spec(s: Seq<char>) -> Option<int> {
    parse_signed_spec(unparen_spec(clean_spec(trim_spec(s))), i32::MIN as int, i32::MAX as int)
}

/// The characters of `s`, in order.
pub fn str_chars(s: &str) -> (v: Vec<char>)
    ensures
        v@ == s@,
{
    let n: usize = s.unicode_len();
    let mut v: Vec<char> = Vec::new();
    let mut i: usize = 0;
    while i < n
        invariant
            n == s@.len(),
            i <= n,
            v@ == s@.subrange(0, i as int),
        decreases n - i,
    {
        let c = s.get_char(i);
        v.push(c);
        assert(v@ =~= s@.subrange(0, i + 1 as int));
        i = i + 1;
    }
    assert(v@ =~= s@);
    v
}

fn is_space_exec(c: char) -> (r: bool)
    ensures
        r == is_space(c),
{
    c == ' ' || c == '\t' || c == '\n' || c == '\r' || c == '\u{b}' || c == '\u{c}'
        || c == '\u{85}' || c == '\u{a0}' || c == '\u{1680}' || ('\u{2000}' <= c && c <= '\u{200a}')
        || c == '\u{2028}' || c == '\u{2029}' || c == '\u{202f}' || c == '\u{205f}'
        || c == '\u{3000}'
}

/// Trims white space from both ends of `v`.
pub fn trim_chars_pub(v: &Vec<char>) -> (r: Vec<char>)
    ensures
        r@ == trim_spec(v@),
{
    let mut start: usize = 0;
    let n: usize = v.len();
    assert(v@.subrange(0, n as int) =~= v@);
    while start < n && is_space_exec(v[start])
        invariant
            start <= n,
            n == v@.len(),
            trim_front(v@) == trim_front(v@.subrange(start as int, n as int)),
        decreases n - start,
    {
        assert(v@.subrange(start as int, n as int).drop_first() =~= v@.subrange(
            start + 1,
            n as int,
        ));
        start = start + 1;
    }
    assert(trim_front(v@) =~= v@.subrange(start as int, n as int));
    let mut end: usize = n;
    while end > start && is_space_exec(v[end - 1])
        invariant
            start <= end <= n,
            n == v@.len(),
            trim_front(v@) == v@.subrange(start as int, n as int),
            trim_back(trim_front(v@)) == trim_back(v@.subrange(start as int, end as int)),
        decreases end,
    {
        assert(v@.subrange(start as int, end as int).drop_last() =~= v@.subrange(
            start as int,
            end - 1,
        ));
        end = end - 1;
    }
    assert(trim_back(v@.subrange(start as int, end as int)) =~= v@.subrange(
        start as int,
        end as int,
    ));
    let mut r: Vec<char> = Vec::new();
    let mut i: usize = start;
    while i < end
        invariant
            start <= i <= end <= n,
            n == v@.len(),
            r@ == v@.subrange(start as int, i as int),
        decreases end - i,
    {
        r.push(v[i]);
        assert(r@ =~= v@.subrange(start as int, i + 1 as int));
        i = i + 1;
    }
    r
}

/// The cleaning pass: drop separator noise, fold full-width signs.
fn clean_chars(v: &Vec<char>) -> (r: Vec<char>)
    ensures
        r@ == clean_spec(v@),
{
    let mut r: Vec<char> = Vec::new();
    let mut i: usize = 0;
    while i < v.len()
        invariant
            i <= v@.len(),
            r@ == clean_spec(v@.subrange(0, i as int)),
        decreases v@.len() - i,
    {
        let c = v[i];
        proof {
            assert(v@.subrange(0, i + 1 as int).drop_last() =~= v@.subrange(0, i as int));
        }
        if c == '\\' || c == ',' || c == '\u{a5}' || c == '\u{ffe5}' {
        } else if c == '\u{ff0b}' {
            r.push('+');
        } else if c == '\u{ff0d}' {
            r.push('-');
        } else {
            r.push(c);
        }
        i = i + 1;
    }
    assert(v@.subrange(0, v@.len() as int) =~= v@);
    r
}

/// Rewrites `(123)` into `-123`; anything else passes through.
fn unparen_chars(v: Vec<char>) -> (r: Vec<char>)
    ensures
        r@ == unparen_spec(v@),
{
    let n = v.len();
    if n >= 2 && v[0] == '(' && v[n - 1] == ')' {
        let mut r: Vec<char> = Vec::new();
        r.push('-');
        let mut i: usize = 1;
        while i < n - 1
            invariant
                1 <= i <= n - 1,
                n == v@.len(),
                n >= 2,
                r@ == seq!['-'].add(v@.subrange(1, i as int)),
            decreases n - i,
        {
            r.push(v[i]);
            assert(r@ =~= seq!['-'].add(v@.subrange(1, i + 1 as int)));
            i = i + 1;
        }
        r
    } else {
        v
    }
}

/// Parses `v` as a signed integer within `[min, max]`, as `str::parse`
/// would.
#[verifier::loop_isolation(false)]
fn parse_signed(v: &Vec<char>, min: i64, max: i64) -> (r: Option<i64>)
    requires
        -FIELD_MAX <= min <= 0 <= max <= FIELD_MAX,
    ensures
        match r {
            Some(x) => parse_signed_spec(v@, min as int, max as int) == Some(x as int),
            None => parse_signed_spec(v@, min as int, max as int) is None,
        },
{
    let n: usize = v.len();
    let mut start: usize = 0;
    let mut negative: bool = false;
    if n > 0 && (v[0] == '+' || v[0] == '-') {
        negative = v[0] == '-';
        start = 1;
    }
    let ghost body = if n > 0 && (v@[0] == '+' || v@[0] == '-') {
        v@.drop_first()
    } else {
        v@
    };
    proof {
        assert(body =~= v@.subrange(start as int, n as int));
    }
    if start >= n {
        return None;
    }
    let mut acc: i64 = 0;
    let mut capped: bool = false;
    let mut i: usize = start;
    while i < n
        invariant
            start <= i <= n,
            n == v@.len(),
            body == v@.subrange(start as int, n as int),
            all_digits(v@.subrange(start as int, i as int)),
            !capped ==> acc == digits_value(v@.subrange(start as int, i as int)),
            !capped ==> 0 <= acc <= FIELD_MAX / 10 * 10 + 9,
            capped ==> digits_value(v@.subrange(start as int, i as int)) > FIELD_MAX,
        decreases n - i,
    {
        let c = v[i];
        proof {
            assert(v@.subrange(start as int, i + 1 as int).drop_last() =~= v@.subrange(
                start as int,
                i as int,
            ));
        }
        if !('0' <= c && c <= '9') {
            proof {
                assert(body[i - start] == v@[i as int]);
                assert(!is_digit(body[(i - start) as int]));
            }
            return None;
        }
        let d: i64 = (c as u32 as i64) - 48;
        assert(0 <= d <= 9 && d == digit_val(c));
        if capped {
            proof {
                lemma_digits_value_grows(v@.subrange(start as int, i + 1 as int));
            }
        } else {
            if acc > FIELD_MAX / 10 {
                capped = true;
                proof {
                    let pre = v@.subrange(start as int, i as int);
                    let cur = v@.subrange(start as int, i + 1 as int);
                    assert(digits_value(cur) == digits_value(pre) * 10 + digit_val(c));
                    assert(digits_value(pre) * 10 > FIELD_MAX) by (nonlinear_arith)
                        requires
                            digits_value(pre) > FIELD_MAX / 10,
                            digits_value(pre) >= 0,
                    ;
                }
            } else {
                acc = acc * 10 + d;
            }
        }
        i = i + 1;
    }
    proof {
        assert(v@.subrange(start as int, n as int) =~= body);
    }
    if capped {
        assert(all_digits(body) && body.len() > 0);
        assert(digits_value(body) > FIELD_MAX);
        return None;
    }
    assert(acc == digits_value(body));
    proof {
        let spec_sign: int = if v@.len() > 0 && v@[0] == '-' { -1int } else { 1int };
        assert(all_digits(body));
        assert(body.len() > 0);
        assert(parse_signed_spec(v@, min as int, max as int) == (if min <= spec_sign
            * digits_value(body) <= max {
            Some(spec_sign * digits_value(body))
        } else {
            None::<int>
        }));
    }
    if negative {
        let value: i64 = -acc;
        if value < min {
            None
        } else {
            Some(value)
        }
    } else {
        if acc > max {
            None
        } else {
            Some(acc)
        }
    }
}

/// Reads an integer field of a broker export: trims it, strips separator
/// and currency noise, folds full-width signs, honours parenthesised
/// negatives, and parses the rest as an `i32`. An unparseable field is
/// `None`, never an error.
pub fn parse_i32_from_csv(s: &str) -> (r: Option<i32>)
    ensures
        match r {
            Some(x) => csv_i32_spec(s@) == Some(x as int),
            None => csv_i32_spec(s@) is None,
        },
{
    let chars = str_chars(s);
    let trimmed = trim_chars_pub(&chars);
    let cleaned = clean_chars(&trimmed);
    let plain = unparen_chars(cleaned);
    match parse_signed(&plain, -2147483648i64, 2147483647i64) {
        Some(x) => Some(x as i32),
        None => None,
    }
}


/// Ten to the `k`-th power.
pub open spec fn pow10(k: nat) -> int
    decreases k,
{
    if k == 0 {
        1
    } else {
        10 * pow10((k - 1) as nat)
    }
}

pub proof fn lemma_pow10_pos(k: nat)
    ensures
        pow10(k) >= 1,
    decreases k,
{
    if k > 0 {
        lemma_pow10_pos((k - 1) as nat);
    }
}

/// Index of the first `.` in `s`, or `-1` if there is none.
pub open spec fn find_dot(s: Seq<char>) -> int
    decreases s.len(),
{
    if s.len() == 0 {
        -1
    } else if s[0] == '.' {
        0
    } else {
        let r = find_dot(s.drop_first());
        if r == -1 {
            -1
        } else {
            r + 1
        }
    }
}

/// `find_dot` names the first dot: before it there is none.
pub proof fn lemma_find_dot_at(s: Seq<char>, i: int)
    requires
        0 <= i < s.len(),
        s[i] == '.',
        forall|j: int| 0 <= j < i ==> s[j] != '.',
    ensures
        find_dot(s) == i,
    decreases i,
{
    if i > 0 {
        assert(forall|j: int| 0 <= j < i - 1 ==> s.drop_first()[j] == s[j + 1] && s[j + 1] != '.');
        lemma_find_dot_at(s.drop_first(), i - 1);
    }
}

pub proof fn lemma_find_dot_none(s: Seq<char>)
    requires
        forall|j: int| 0 <= j < s.len() ==> s[j] != '.',
    ensures
        find_dot(s) == -1,
    decreases s.len(),
{
    if s.len() > 0 {
        assert(forall|j: int|
            0 <= j < s.drop_first().len() ==> s.drop_first()[j] == s[j + 1] && s[j + 1] != '.');
        lemma_find_dot_none(s.drop_first());
    }
}

/// What a fixed-point field of `k` decimal places yields: the decimal
/// number scaled by ten to the `k`, extra decimal places cut off, and
/// magnitudes above `FIELD_MAX` refused.
pub open spec fn scaled_spec(s: Seq<char>, k: nat) -> Option<int> {
    let sign: int = if s.len() > 0 && s[0] == '-' {
        -1int
    } else {
        1int
    };
    let body: Seq<char> = if s.len() > 0 && (s[0] == '+' || s[0] == '-') {
        s.drop_first()
    } else {
        s
    };
    let dot = find_dot(body);
    let ip: Seq<char> = if dot == -1 {
        body
    } else {
        body.take(dot)
    };
    let fp: Seq<char> = if dot == -1 {
        Seq::empty()
    } else {
        body.skip(dot + 1)
    };
    if ip.len() == 0 && fp.len() == 0 {
        None
    } else if !all_digits(ip) || !all_digits(fp) {
        None
    } else {
        let m: nat = if k <= fp.len() {
            k
        } else {
            fp.len()
        };
        let v = sign * (digits_value(ip) * pow10(k) + digits_value(fp.take(m as int)) * pow10(
            (k - m) as nat,
        ));
        if -FIELD_MAX <= v <= FIELD_MAX {
            Some(v)
        } else {
            None
        }
    }
}

/// Whether every character of the span is a digit.
fn span_all_digits(v: &Vec<char>, from: usize, to: usize) -> (r: bool)
    requires
        from <= to <= v@.len(),
    ensures
        r == all_digits(v@.subrange(from as int, to as int)),
{
    let mut i: usize = from;
    while i < to
        invariant
            from <= i <= to <= v@.len(),
            all_digits(v@.subrange(from as int, i as int)),
        decreases to - i,
    {
        let c = v[i];
        if !('0' <= c && c <= '9') {
            assert(v@.subrange(from as int, to as int)[i - from] == c);
            return false;
        }
        assert forall|j: int| 0 <= j < i + 1 - from implies is_digit(
            #[trigger] v@.subrange(from as int, i + 1 as int)[j],
        ) by {
            assert(v@.subrange(from as int, i + 1 as int)[j] == v@.subrange(
                from as int,
                i as int,
            ).push(c)[j]);
        };
        i = i + 1;
    }
    assert(v@.subrange(from as int, to as int) =~= v@.subrange(from as int, i as int));
    true
}

/// The value of a digit span, saturated to `FIELD_MAX + 1` when it is
/// larger than `FIELD_MAX`.
#[verifier::loop_isolation(false)]
fn span_value_capped(v: &Vec<char>, from: usize, to: usize) -> (r: i64)
    requires
        from <= to <= v@.len(),
        all_digits(v@.subrange(from as int, to as int)),
    ensures
        digits_value(v@.subrange(from as int, to as int)) <= FIELD_MAX ==> r == digits_value(
            v@.subrange(from as int, to as int),
        ),
        digits_value(v@.subrange(from as int, to as int)) > FIELD_MAX ==> r == FIELD_MAX + 1,
        0 <= r <= FIELD_MAX + 1,
{
    let mut acc: i64 = 0;
    let mut i: usize = from;
    while i < to
        invariant
            from <= i <= to,
            digits_value(v@.subrange(from as int, i as int)) <= FIELD_MAX ==> acc == digits_value(
                v@.subrange(from as int, i as int),
            ),
            digits_value(v@.subrange(from as int, i as int)) > FIELD_MAX ==> acc == FIELD_MAX + 1,
            0 <= acc <= FIELD_MAX + 1,
        decreases to - i,
    {
        let c = v[i];
        let ghost pre = v@.subrange(from as int, i as int);
        let ghost cur = v@.subrange(from as int, i + 1 as int);
        proof {
            assert(cur.drop_last() =~= pre);
            assert(cur[i - from] == c);
            assert(is_digit(c));
            assert(digits_value(pre) >= 0 && digit_val(c) >= 0) by {
                if pre.len() > 0 {
                    lemma_digits_value_grows(pre);
                }
            };
        }
        let d: i64 = (c as u32 as i64) - 48;
        assert(d == digit_val(c));
        if acc > FIELD_MAX / 10 {
            proof {
                assert(digits_value(pre) * 10 > FIELD_MAX) by (nonlinear_arith)
                    requires
                        digits_value(pre) > FIELD_MAX / 10,
                        digits_value(pre) >= 0,
                ;
            }
            acc = FIELD_MAX + 1;
        } else {
            proof {
                if digits_value(pre) > FIELD_MAX {
                    assert(acc == FIELD_MAX + 1);
                    assert(false);
                }
            }
            acc = acc * 10 + d;
            proof {
                if digits_value(cur) > FIELD_MAX {
                    assert(acc == digits_value(cur));
                }
            }
            if acc > FIELD_MAX {
                acc = FIELD_MAX + 1;
            }
        }
        i = i + 1;
    }
    acc
}

fn pow10_exec(k: usize) -> (r: i64)
    requires
        k <= 5,
    ensures
        r == pow10(k as nat),
        1 <= r <= 100000,
{
    let r: i64 = if k == 0 {
        1
    } else if k == 1 {
        10
    } else if k == 2 {
        100
    } else if k == 3 {
        1000
    } else if k == 4 {
        10000
    } else {
        100000
    };
    assert(pow10(0) == 1);
    assert(pow10(1) == 10);
    assert(pow10(2) == 100);
    assert(pow10(3) == 1000);
    assert(pow10(4) == 10000);
    assert(pow10(5) == 100000);
    r
}

/// Reads a fixed-point decimal field with `k` decimal places, as the
/// normaliser needs for lots and rates. An unparseable or out-of-range
/// field is `None`.
#[verifier::loop_isolation(false)]
#[verifier::rlimit(60)]
pub fn parse_scaled(s: &str, k: usize) -> (r: Option<i64>)
    requires
        k <= 5,
    ensures
        match r {
            Some(x) => scaled_spec(s@, k as nat) == Some(x as int),
            None => scaled_spec(s@, k as nat) is None,
        },
{
    let v = str_chars(s);
    let n: usize = v.len();
    let mut start: usize = 0;
    let mut negative: bool = false;
    if n > 0 && (v[0] == '+' || v[0] == '-') {
        negative = v[0] == '-';
        start = 1;
    }
    let ghost body = if n > 0 && (v@[0] == '+' || v@[0] == '-') {
        v@.drop_first()
    } else {
        v@
    };
    proof {
        assert(body =~= v@.subrange(start as int, n as int));
    }
    // find the first dot in the body
    let mut dot_idx: usize = n;
    let mut has_dot: bool = false;
    let mut i: usize = start;
    while i < n && !has_dot
        invariant
            start <= i <= n,
            !has_dot ==> forall|j: int| start <= j < i ==> v@[j] != '.',
            !has_dot ==> dot_idx == n,
            has_dot ==> start <= dot_idx < n && v@[dot_idx as int] == '.' && forall|j: int|
                start <= j < dot_idx ==> v@[j] != '.',
        decreases n - i + (if has_dot { 0int } else { 1int }),
    {
        if v[i] == '.' {
            has_dot = true;
            dot_idx = i;
        } else {
            i = i + 1;
        }
    }
    proof {
        if has_dot {
            assert(forall|j: int|
                0 <= j < dot_idx - start ==> body[j] == v@[j + start] && v@[j + start] != '.');
            lemma_find_dot_at(body, dot_idx - start);
        } else {
            assert(forall|j: int| 0 <= j < body.len() ==> body[j] == v@[j + start] && v@[j + start] != '.');
            lemma_find_dot_none(body);
        }
    }
    let ip_from: usize = start;
    let ip_to: usize = dot_idx.min(n);
    let fp_from: usize = if has_dot {
        dot_idx + 1
    } else {
        n
    };
    let fp_to: usize = n;
    let ghost ip = if find_dot(body) == -1 {
        body
    } else {
        body.take(find_dot(body))
    };
    let ghost fp = if find_dot(body) == -1 {
        Seq::<char>::empty()
    } else {
        body.skip(find_dot(body) + 1)
    };
    proof {
        assert(ip =~= v@.subrange(ip_from as int, ip_to as int));
        assert(fp =~= v@.subrange(fp_from as int, fp_to as int));
    }
    if ip_to == ip_from && fp_to == fp_from {
        return None;
    }
    if !span_all_digits(&v, ip_from, ip_to) {
        return None;
    }
    if !span_all_digits(&v, fp_from, fp_to) {
        return None;
    }
    let m: usize = if k <= fp_to - fp_from {
        k
    } else {
        fp_to - fp_from
    };
    let ghost gm: nat = if k as nat <= fp.len() {
        k as nat
    } else {
        fp.len()
    };
    assert(m == gm);
    let ip_val: i64 = span_value_capped(&v, ip_from, ip_to);
    assert(all_digits(v@.subrange(fp_from as int, (fp_from + m) as int))) by {
        assert(forall|j: int|
            0 <= j < m ==> v@.subrange(fp_from as int, (fp_from + m) as int)[j] == v@.subrange(
                fp_from as int,
                fp_to as int,
            )[j]);
    };
    let fp_val: i64 = span_value_capped(&v, fp_from, fp_from + m);
    proof {
        assert(fp.take(gm as int) =~= v@.subrange(fp_from as int, (fp_from + m) as int));
    }
    let p_all: i64 = pow10_exec(k);
    let p_rest: i64 = pow10_exec(k - m);
    proof {
        assert(0 <= ip_val * p_all <= (FIELD_MAX + 1) * 100000) by (nonlinear_arith)
            requires
                0 <= ip_val <= FIELD_MAX + 1,
                1 <= p_all <= 100000,
        ;
        assert(0 <= fp_val * p_rest <= (FIELD_MAX + 1) * 100000) by (nonlinear_arith)
            requires
                0 <= fp_val <= FIELD_MAX + 1,
                1 <= p_rest <= 100000,
        ;
    }
    let mag: i128 = (ip_val as i128) * (p_all as i128) + (fp_val as i128) * (p_rest as i128);
    let ghost true_mag = digits_value(ip) * pow10(k as nat) + digits_value(fp.take(gm as int))
        * pow10((k - gm) as nat);
    proof {
        assert(digits_value(ip) >= 0) by {
            if ip.len() > 0 {
                lemma_digits_value_grows(ip);
            }
        };
        assert(digits_value(fp.take(gm as int)) >= 0) by {
            if gm > 0 {
                lemma_digits_value_grows(fp.take(gm as int));
            }
        };
        if digits_value(ip) <= FIELD_MAX && digits_value(fp.take(gm as int)) <= FIELD_MAX {
            assert(mag == true_mag);
            assert(true_mag >= 0) by (nonlinear_arith)
                requires
                    digits_value(ip) >= 0,
                    pow10(k as nat) >= 1,
                    digits_value(fp.take(gm as int)) >= 0,
                    pow10((k - gm) as nat) >= 1,
                    true_mag == digits_value(ip) * pow10(k as nat) + digits_value(
                        fp.take(gm as int),
                    ) * pow10((k - gm) as nat),
            ;
        } else {
            assert(true_mag > FIELD_MAX && mag > FIELD_MAX) by (nonlinear_arith)
                requires
                    digits_value(ip) > FIELD_MAX || digits_value(fp.take(gm as int)) > FIELD_MAX,
                    digits_value(ip) >= 0,
                    digits_value(fp.take(gm as int)) >= 0,
                    pow10(k as nat) >= 1,
                    pow10((k - gm) as nat) >= 1,
                    ip_val == (if digits_value(ip) > FIELD_MAX {
                        FIELD_MAX + 1 as int
                    } else {
                        digits_value(ip)
                    }),
                    fp_val == (if digits_value(fp.take(gm as int)) > FIELD_MAX {
                        FIELD_MAX + 1 as int
                    } else {
                        digits_value(fp.take(gm as int))
                    }),
                    mag == ip_val * pow10(k as nat) + fp_val * pow10((k - gm) as nat),
                    true_mag == digits_value(ip) * pow10(k as nat) + digits_value(
                        fp.take(gm as int),
                    ) * pow10((k - gm) as nat),
            ;
        }
    }
    if mag > (FIELD_MAX as i128) {
        return None;
    }
    let small: i64 = mag as i64;
    if negative {
        Some(-small)
    } else {
        Some(small)
    }
}


/// Splits on `.`: the components of a dotted version string, scanned left
/// to right with `cur` the component being built.
pub open spec fn split_acc(s: Seq<char>, cur: Seq<char>) -> Seq<Seq<char>>
    decreases s.len(),
{
    if s.len() == 0 {
        seq![cur]
    } else if s[0] == '.' {
        seq![cur].add(split_acc(s.drop_first(), Seq::empty()))
    } else {
        split_acc(s.drop_first(), cur.push(s[0]))
    }
}

pub open spec fn split_dots(s: Seq<char>) -> Seq<Seq<char>> {
    split_acc(s, Seq::empty())
}

/// The numeric value of one version component: what `str::parse::<u32>`
/// yields, or zero where it fails.
pub open spec fn comp_val(c: Seq<char>) -> int {
    match parse_signed_spec(c, 0, u32::MAX as int) {
        Some(v) => v,
        None => 0,
    }
}

/// Compares two component lists from index `i` on, missing components
/// reading as zero.
pub open spec fn version_lt_from(a: Seq<Seq<char>>, b: Seq<Seq<char>>, i: int) -> bool
    decreases a.len() + b.len() - i,
{
    if i >= a.len() && i >= b.len() {
        false
    } else if i < 0 {
        false
    } else {
        let va: int = if i < a.len() {
            comp_val(a[i])
        } else {
            0
        };
        let vb: int = if i < b.len() {
            comp_val(b[i])
        } else {
            0
        };
        if va < vb {
            true
        } else if va > vb {
            false
        } else {
            version_lt_from(a, b, i + 1)
        }
    }
}

/// Whether version string `a` names an older version than `b`.
pub open spec fn version_lt_spec(a: Seq<char>, b: Seq<char>) -> bool {
    version_lt_from(split_dots(a), split_dots(b), 0)
}

/// Splits a version string into its dot-separated components.
#[verifier::loop_isolation(false)]
fn split_chars(v: &Vec<char>) -> (r: Vec<Vec<char>>)
    ensures
        r.deep_view() == split_dots(v@),
{
    let n: usize = v.len();
    let mut comps: Vec<Vec<char>> = Vec::new();
    let mut cur: Vec<char> = Vec::new();
    proof {
        assert(v@.subrange(0, n as int) =~= v@);
        assert(comps.deep_view() =~~= Seq::<Seq<char>>::empty());
        assert(Seq::<Seq<char>>::empty().add(split_acc(v@, Seq::<char>::empty())) =~~= split_acc(
            v@,
            Seq::<char>::empty(),
        ));
    }
    let mut i: usize = 0;
    while i < n
        invariant
            i <= n,
            split_dots(v@) == comps.deep_view().add(
                split_acc(v@.subrange(i as int, n as int), cur@),
            ),
        decreases n - i,
    {
        let ghost rest = v@.subrange(i as int, n as int);
        proof {
            assert(rest.drop_first() =~= v@.subrange(i + 1, n as int));
            assert(rest[0] == v@[i as int]);
        }
        let c = v[i];
        if c == '.' {
            proof {
                assert(split_acc(rest, cur@) =~~= seq![cur@].add(
                    split_acc(rest.drop_first(), Seq::empty()),
                ));
            }
            comps.push(cur);
            cur = Vec::new();
            proof {
                assert(comps.deep_view() =~~= comps.deep_view().subrange(
                    0,
                    comps.deep_view().len() - 1,
                ).push(cur@).update(comps.deep_view().len() - 1, comps.deep_view().last()));
            }
            assert(split_dots(v@) =~~= comps.deep_view().add(
                split_acc(v@.subrange(i + 1, n as int), Seq::<char>::empty()),
            ));
        } else {
            cur.push(c);
        }
        i = i + 1;
    }
    proof {
        assert(v@.subrange(n as int, n as int) =~= Seq::<char>::empty());
        assert(split_acc(Seq::<char>::empty(), cur@) =~~= seq![cur@]);
    }
    comps.push(cur);
    assert(comps.deep_view() =~~= split_dots(v@));
    comps
}

fn comp_value(v: &Vec<char>) -> (r: i64)
    ensures
        r == comp_val(v@),
{
    match parse_signed(v, 0, 4294967295i64) {
        Some(x) => x,
        None => 0,
    }
}

/// Whether version string `a` names an older version than `b`: the
/// dot-separated components compare numerically, left to right, missing
/// or unparseable components reading as zero.
#[verifier::loop_isolation(false)]
pub fn version_lt(a: &str, b: &str) -> (r: bool)
    ensures
        r == version_lt_spec(a@, b@),
{
    let ca = split_chars(&str_chars(a));
    let cb = split_chars(&str_chars(b));
    let ghost ga = split_dots(a@);
    let ghost gb = split_dots(b@);
    let la: usize = ca.len();
    let lb: usize = cb.len();
    let max_len: usize = if la > lb {
        la
    } else {
        lb
    };
    proof {
        assert(ga.len() == la as int);
        assert(gb.len() == lb as int);
    }
    let mut i: usize = 0;
    while i < max_len
        invariant
            i <= max_len,
            version_lt_from(ga, gb, 0) == version_lt_from(ga, gb, i as int),
        decreases max_len - i,
    {
        let va: i64 = if i < la {
            comp_value(&ca[i])
        } else {
            0
        };
        let vb: i64 = if i < lb {
            comp_value(&cb[i])
        } else {
            0
        };
        proof {
            if i < la {
                assert(ca.deep_view()[i as int] == ca[i as int].deep_view());
                assert(ca[i as int].deep_view() =~= ca[i as int]@);
                assert(va == comp_val(ga[i as int]));
            }
            if i < lb {
                assert(cb.deep_view()[i as int] == cb[i as int].deep_view());
                assert(cb[i as int].deep_view() =~= cb[i as int]@);
                assert(vb == comp_val(gb[i as int]));
            }
        }
        if va < vb {
            return true;
        }
        if va > vb {
            return false;
        }
        i = i + 1;
    }
    false
}


/// A digit string of `n` digits is smaller than ten to the `n`.
pub proof fn lemma_digits_value_bound(s: Seq<char>)
    requires
        all_digits(s),
    ensures
        0 <= digits_value(s) < pow10(s.len()),
    decreases s.len(),
{
    if s.len() == 0 {
    } else {
        assert(all_digits(s.drop_last()));
        lemma_digits_value_bound(s.drop_last());
        assert(digits_value(s.drop_last()) * 10 + 10 <= pow10((s.len() - 1) as nat) * 10) by (nonlinear_arith)
            requires
                digits_value(s.drop_last()) < pow10((s.len() - 1) as nat),
        ;
    }
}

/// The value of a short, non-empty span of digits; `None` where the span
/// holds a non-digit.
pub fn digits_span_value(v: &Vec<char>, from: usize, to: usize) -> (r: Option<i64>)
    requires
        from < to <= v@.len(),
        to - from <= 10,
    ensures
        match r {
            Some(x) => all_digits(v@.subrange(from as int, to as int)) && x == digits_value(
                v@.subrange(from as int, to as int),
            ) && 0 <= x < 10_000_000_000,
            None => !all_digits(v@.subrange(from as int, to as int)),
        },
{
    if !span_all_digits(v, from, to) {
        return None;
    }
    proof {
        lemma_digits_value_bound(v@.subrange(from as int, to as int));
        assert(pow10(0) == 1);
        assert(pow10(1) == 10);
        assert(pow10(2) == 100);
        assert(pow10(3) == 1000);
        assert(pow10(4) == 10000);
        assert(pow10(5) == 100000);
        assert(pow10(6) == 1000000);
        assert(pow10(7) == 10000000);
        assert(pow10(8) == 100000000);
        assert(pow10(9) == 1000000000);
        assert(pow10(10) == 10000000000);
        lemma_pow10_monotone((to - from) as nat, 10);
    }
    let x: i64 = span_value_capped(v, from, to);
    Some(x)
}

/// Ten to a larger power is never smaller.
pub proof fn lemma_pow10_monotone(a: nat, b: nat)
    requires
        a <= b,
    ensures
        pow10(a) <= pow10(b),
    decreases b - a,
{
    if a < b {
        lemma_pow10_monotone(a, (b - 1) as nat);
        lemma_pow10_pos((b - 1) as nat);
    }
}

} // verus!
