//! Sizes and rates as users type them.
//!
//! `500MB`, `1.5 GiB`, `200m` and `104857600` are all understood. `KB`/`MB`/`GB`
//! count in thousands, `KiB`/`MiB`/`GiB` and the bare letters `k`/`m`/`g` in 1024s,
//! and a bare number is a number of bytes.

use vstd::arithmetic::power2::{lemma2_to64_rest, pow2};
use vstd::prelude::*;
use vstd::string::*;

use crate::binary64::{lemma_no_overflow, lemma_overflow_whole, lemma_product_large, overflow_limit, overflows, product, scaled, whole_sizes_are_exact};
use crate::digits::{digits_ok, lemma_pow10_pos, lemma_value_bound, lemma_value_concat, lemma_value_push, less, pow10, value_of};
use crate::text::{ascii_lower, chars_eq, chars_of, copy_of, decimal, is_digit, is_white, lowered, string_of, to_lower, trim, trim_end, trim_start, trimmed, white_space_is_cut_off_the_ends};

verus! {

/// Why a typed size was not understood.
#[derive(Debug)]
pub enum SizeError {
    /// Nothing was typed.
    Empty,
    /// The part before the unit is not a number.
    BadNumber(String),
    /// The number is beyond every finite double.
    NotPositive,
    /// The unit is unknown.
    BadUnit(String),
    /// The size does not fit in 64 bits.
    TooLarge,
}

/// What a typed size means.
pub enum SizeReading {
    Bytes(nat),
    Empty,
    BadNumber(Seq<char>),
    NotPositive,
    BadUnit(Seq<char>),
    TooLarge,
}

/// The meaning that a parse result stands for.
pub open spec fn reading(r: Result<u64, SizeError>) -> SizeReading {
    match r {
        Ok(n) => SizeReading::Bytes(n as nat),
        Err(SizeError::Empty) => SizeReading::Empty,
        Err(SizeError::BadNumber(s)) => SizeReading::BadNumber(s@),
        Err(SizeError::NotPositive) => SizeReading::NotPositive,
        Err(SizeError::BadUnit(s)) => SizeReading::BadUnit(s@),
        Err(SizeError::TooLarge) => SizeReading::TooLarge,
    }
}

/// The typed text without surrounding white space, blanks and underscores.
pub open spec fn squeezed(s: Seq<char>) -> Seq<char> {
    trimmed(s).filter(|c: char| c != '_' && c != ' ')
}

/// How many leading characters are digits or dots.
pub open spec fn number_len(s: Seq<char>) -> nat
    decreases s.len(),
{
    if s.len() > 0 && (is_digit(s[0]) || s[0] == '.') {
        1 + number_len(s.drop_first())
    } else {
        0
    }
}

/// The place of the first dot, or the length where there is none.
pub open spec fn dot_at(s: Seq<char>) -> nat
    decreases s.len(),
{
    if s.len() > 0 && s[0] != '.' {
        1 + dot_at(s.drop_first())
    } else {
        0
    }
}

/// Whether digits and dots make a number: some digit, and at most one dot.
pub open spec fn is_number(s: Seq<char>) -> bool {
    &&& exists|i: int| 0 <= i < s.len() && is_digit(#[trigger] s[i])
    &&& forall|i: int| dot_at(s) < i < s.len() ==> #[trigger] s[i] != '.'
}

/// The digits that characters stand for.
pub open spec fn digit_values(s: Seq<char>) -> Seq<u8> {
    s.map_values(|c: char| (c as u32 - 48) as u8)
}

/// The digits before the dot.
pub open spec fn whole_digits(s: Seq<char>) -> Seq<u8> {
    digit_values(s.take(dot_at(s) as int))
}

/// The digits behind the dot.
pub open spec fn fraction_digits(s: Seq<char>) -> Seq<u8> {
    if dot_at(s) < s.len() {
        digit_values(s.skip(dot_at(s) as int + 1))
    } else {
        Seq::empty()
    }
}

/// The number of bytes in one unit.
pub open spec fn unit_bytes(u: Seq<char>) -> Option<nat> {
    if u == ""@ || u == "b"@ {
        Some(1)
    } else if u == "k"@ || u == "kib"@ {
        Some(0x400)
    } else if u == "kb"@ {
        Some(1_000)
    } else if u == "m"@ || u == "mib"@ {
        Some(0x10_0000)
    } else if u == "mb"@ {
        Some(1_000_000)
    } else if u == "g"@ || u == "gib"@ {
        Some(0x4000_0000)
    } else if u == "gb"@ {
        Some(1_000_000_000)
    } else if u == "t"@ || u == "tib"@ {
        Some(0x100_0000_0000)
    } else if u == "tb"@ {
        Some(1_000_000_000_000)
    } else {
        None
    }
}

/// What the size typed as `input` means: a decimal number, read as a double, times
/// its unit.
pub open spec fn size_of(input: Seq<char>) -> SizeReading {
    let s = squeezed(input);
    let n = number_len(s);
    let num = s.take(n as int);
    let unit = lowered(s.skip(n as int));
    let q = pow10(fraction_digits(num).len());
    let p = value_of(whole_digits(num) + fraction_digits(num));
    if s.len() == 0 {
        SizeReading::Empty
    } else if !is_number(num) {
        SizeReading::BadNumber(num)
    } else if overflows(p, q) {
        SizeReading::NotPositive
    } else {
        match unit_bytes(unit) {
            None => SizeReading::BadUnit(unit),
            Some(k) => {
                let bytes = product(p, q, k);
                if bytes <= u64::MAX {
                    SizeReading::Bytes(bytes)
                } else {
                    SizeReading::TooLarge
                }
            },
        }
    }
}

/// The message shown to the user where a typed size was not understood.
pub open spec fn complaint(r: SizeReading) -> Seq<char> {
    match r {
        SizeReading::Bytes(_) => Seq::empty(),
        SizeReading::Empty => "请输入一个大小，例如 500MB 或 2GiB"@,
        SizeReading::BadNumber(num) => "看不懂的数字「"@ + num + "」，请输入如 500MB 或 2GiB"@,
        SizeReading::NotPositive => "大小必须是正数"@,
        SizeReading::BadUnit(unit) => "看不懂的单位「"@ + unit
            + "」，可用 B/KB/MB/GB 或 KiB/MiB/GiB"@,
        SizeReading::TooLarge => "这个大小太大了，请输入更小的值"@,
    }
}

impl SizeError {
    /// The message shown to the user.
    pub open spec fn text(self) -> Seq<char> {
        complaint(reading(Err(self)))
    }

    /// The message shown to the user.
    pub fn message(&self) -> (r: String)
        ensures
            r@ == self.text(),
    {
        match self {
            SizeError::Empty => copy_of("请输入一个大小，例如 500MB 或 2GiB"),
            SizeError::BadNumber(num) => {
                let mut s = copy_of("看不懂的数字「");
                s.append(num.as_str());
                s.append("」，请输入如 500MB 或 2GiB");
                s
            },
            SizeError::NotPositive => copy_of("大小必须是正数"),
            SizeError::BadUnit(unit) => {
                let mut s = copy_of("看不懂的单位「");
                s.append(unit.as_str());
                s.append("」，可用 B/KB/MB/GB 或 KiB/MiB/GiB");
                s
            },
            SizeError::TooLarge => copy_of("这个大小太大了，请输入更小的值"),
        }
    }
}

fn squeeze(cs: &[char]) -> (r: Vec<char>)
    ensures
        r@ == squeezed(cs@),
{
    let t = trim(cs);
    let ghost keep = |c: char| c != '_' && c != ' ';
    let mut r: Vec<char> = Vec::new();
    let mut i: usize = 0;
    assert(t@.take(0).filter(keep) =~= Seq::<char>::empty()) by {
        reveal(Seq::filter);
    }
    while i < t.len()
        invariant
            i <= t.len(),
            keep == (|c: char| c != '_' && c != ' '),
            r@ == t@.take(i as int).filter(keep),
        decreases t.len() - i,
    {
        let c = t[i];
        proof {
            reveal(Seq::filter);
            assert(t@.take(i + 1).drop_last() =~= t@.take(i as int));
            assert(t@.take(i + 1).last() == c);
        }
        if c != '_' && c != ' ' {
            r.push(c);
        }
        i += 1;
    }
    assert(t@.take(t@.len() as int) =~= t@);
    r
}

proof fn lemma_number_len(s: Seq<char>, n: int)
    requires
        0 <= n <= s.len(),
        forall|i: int| 0 <= i < n ==> is_digit(#[trigger] s[i]) || s[i] == '.',
        n == s.len() || !(is_digit(s[n]) || s[n] == '.'),
    ensures
        number_len(s) == n,
    decreases n,
{
    if n > 0 {
        assert(is_digit(s[0]) || s[0] == '.');
        assert forall|i: int| 0 <= i < n - 1 implies is_digit(#[trigger] s.drop_first()[i])
            || s.drop_first()[i] == '.' by {
            assert(is_digit(s[i + 1]) || s[i + 1] == '.');
        }
        lemma_number_len(s.drop_first(), n - 1);
    }
}

proof fn lemma_dot_at(s: Seq<char>, n: int)
    requires
        0 <= n <= s.len(),
        forall|i: int| 0 <= i < n ==> #[trigger] s[i] != '.',
        n == s.len() || s[n] == '.',
    ensures
        dot_at(s) == n,
    decreases n,
{
    if n > 0 {
        assert(s[0] != '.');
        assert forall|i: int| 0 <= i < n - 1 implies #[trigger] s.drop_first()[i] != '.' by {
            assert(s[i + 1] != '.');
        }
        lemma_dot_at(s.drop_first(), n - 1);
    }
}

fn unit_of(u: &[char]) -> (r: Option<u64>)
    ensures
        match r {
            Some(k) => unit_bytes(u@) == Some(k as nat) && 0 < k <= 0x100_0000_0000,
            None => unit_bytes(u@) is None,
        },
{
    if chars_eq(u, "") || chars_eq(u, "b") {
        Some(1)
    } else if chars_eq(u, "k") || chars_eq(u, "kib") {
        Some(0x400)
    } else if chars_eq(u, "kb") {
        Some(1_000)
    } else if chars_eq(u, "m") || chars_eq(u, "mib") {
        Some(0x10_0000)
    } else if chars_eq(u, "mb") {
        Some(1_000_000)
    } else if chars_eq(u, "g") || chars_eq(u, "gib") {
        Some(0x4000_0000)
    } else if chars_eq(u, "gb") {
        Some(1_000_000_000)
    } else if chars_eq(u, "t") || chars_eq(u, "tib") {
        Some(0x100_0000_0000)
    } else if chars_eq(u, "tb") {
        Some(1_000_000_000_000)
    } else {
        None
    }
}

/// The digit values of the characters from `from` to `to`.
fn read_digits(cs: &[char], from: usize, to: usize) -> (r: Vec<u8>)
    requires
        from <= to <= cs@.len(),
        forall|i: int| from <= i < to ==> is_digit(#[trigger] cs@[i]),
    ensures
        r@ == digit_values(cs@.subrange(from as int, to as int)),
        digits_ok(r@),
{
    let mut r: Vec<u8> = Vec::new();
    let mut i: usize = from;
    while i < to
        invariant
            from <= i <= to <= cs@.len(),
            forall|k: int| from <= k < to ==> is_digit(#[trigger] cs@[k]),
            r@ == digit_values(cs@.subrange(from as int, i as int)),
            digits_ok(r@),
        decreases to - i,
    {
        assert(is_digit(cs@[i as int]));
        r.push(((cs[i] as u32) - 48) as u8);
        i += 1;
        assert(r@ =~= digit_values(cs@.subrange(from as int, i as int)));
    }
    r
}

/// The number that the digits spell, or `None` from `2^64` on.
fn small_value(d: &Vec<u8>) -> (r: Option<u64>)
    requires
        digits_ok(d@),
    ensures
        r == if value_of(d@) <= u64::MAX {
            Some(value_of(d@) as u64)
        } else {
            None
        },
{
    let mut acc: u128 = 0;
    let mut i: usize = 0;
    assert(value_of(d@.take(0)) == 0);
    while i < d.len()
        invariant
            i <= d.len(),
            digits_ok(d@),
            acc <= u64::MAX,
            acc == value_of(d@.take(i as int)),
        decreases d.len() - i,
    {
        proof {
            assert(digits_ok(d@) && d@[i as int] < 10);
            assert(d@.take(i + 1) =~= d@.take(i as int).push(d@[i as int]));
            lemma_value_push(d@.take(i as int), d@[i as int]);
        }
        acc = 10 * acc + d[i] as u128;
        i += 1;
        if acc > 0xffff_ffff_ffff_ffff {
            proof {
                let head = d@.take(i as int);
                let tail = d@.skip(i as int);
                assert(head + tail =~= d@);
                lemma_value_concat(head, tail);
                lemma_pow10_pos(tail.len());
                assert(value_of(head) * pow10(tail.len()) >= value_of(head)) by (nonlinear_arith)
                    requires
                        pow10(tail.len()) >= 1,
                ;
            }
            return None;
        }
    }
    assert(d@.take(d@.len() as int) =~= d@);
    Some(acc as u64)
}

/// Reads a typed size.
pub fn parse_byte_size(input: &str) -> (r: Result<u64, SizeError>)
    ensures
        reading(r) == size_of(input@),
{
    let typed = chars_of(input);
    let s = squeeze(&typed);
    if s.len() == 0 {
        return Err(SizeError::Empty);
    }
    let mut n: usize = 0;
    let mut some_digit: bool = false;
    let mut dots: usize = 0;
    let mut dot: usize = 0;
    while n < s.len() && (('0' <= s[n] && s[n] <= '9') || s[n] == '.')
        invariant
            n <= s.len(),
            forall|i: int| 0 <= i < n ==> is_digit(#[trigger] s@[i]) || s@[i] == '.',
            some_digit == exists|i: int| 0 <= i < n && is_digit(#[trigger] s@[i]),
            dots <= 2,
            dots == 0 ==> forall|i: int| 0 <= i < n ==> #[trigger] s@[i] != '.',
            dots > 0 ==> dot < n && s@[dot as int] == '.' && forall|i: int|
                0 <= i < dot ==> #[trigger] s@[i] != '.',
            dots == 1 ==> forall|i: int| dot < i < n ==> #[trigger] s@[i] != '.',
            dots == 2 ==> exists|i: int| dot < i < n && #[trigger] s@[i] == '.',
        decreases s.len() - n,
    {
        if s[n] == '.' {
            if dots == 0 {
                dot = n;
                dots = 1;
            } else {
                dots = 2;
            }
        } else {
            some_digit = true;
            assert(is_digit(s@[n as int]));
        }
        n += 1;
    }
    let num = vstd::slice::slice_subrange(s.as_slice(), 0, n);
    let rest = vstd::slice::slice_subrange(s.as_slice(), n, s.len());
    let ghost ns = s@.take(n as int);
    if dots == 0 {
        dot = n;
    }
    proof {
        lemma_number_len(s@, n as int);
        assert(num@ =~= ns);
        assert(rest@ =~= s@.skip(n as int));
        assert forall|i: int| 0 <= i < dot implies #[trigger] ns[i] != '.' by {
            assert(s@[i] != '.');
        }
        lemma_dot_at(ns, dot as int);
        assert(some_digit == exists|i: int| 0 <= i < ns.len() && is_digit(#[trigger] ns[i])) by {
            if some_digit {
                let i = choose|i: int| 0 <= i < n && is_digit(#[trigger] s@[i]);
                assert(is_digit(ns[i]));
            }
        }
        assert((dots < 2) == forall|i: int| dot < i < ns.len() ==> #[trigger] ns[i] != '.') by {
            if dots == 2 {
                let i = choose|i: int| dot < i < n && #[trigger] s@[i] == '.';
                assert(ns[i] == '.');
            } else if dots == 1 {
                assert forall|i: int| dot < i < ns.len() implies #[trigger] ns[i] != '.' by {
                    assert(s@[i] != '.');
                }
            }
        }
    }
    if !some_digit || dots == 2 {
        return Err(SizeError::BadNumber(string_of(num)));
    }
    assert forall|i: int| 0 <= i < n && i != dot implies is_digit(#[trigger] num@[i]) by {
        assert(is_digit(s@[i]) || s@[i] == '.');
        assert(ns[i] == s@[i]);
    }
    let whole = read_digits(num, 0, dot);
    let frac = if dot < n {
        read_digits(num, dot + 1, n)
    } else {
        Vec::new()
    };
    let ghost q = pow10(frac@.len());
    let ghost p = value_of(whole@ + frac@);
    proof {
        assert(num@.subrange(0, dot as int) =~= ns.take(dot as int));
        if dot < n {
            assert(num@.subrange(dot + 1, n as int) =~= ns.skip(dot + 1));
        }
        assert(whole@ == whole_digits(ns));
        assert(frac@ == fraction_digits(ns));
        lemma_value_concat(whole@, frac@);
        lemma_value_bound(frac@);
        lemma_pow10_pos(frac@.len());
        lemma_overflow_whole(value_of(whole@), value_of(frac@), q);
        lemma2_to64_rest();
    }
    let small = small_value(&whole);
    if small.is_none() {
        let limit = overflow_limit();
        if !less(&whole, &limit) {
            return Err(SizeError::NotPositive);
        }
    } else {
        proof {
            assert(p < pow2(64) * q) by (nonlinear_arith)
                requires
                    p == value_of(whole@) * q + value_of(frac@),
                    value_of(frac@) < q,
                    value_of(whole@) + 1 <= pow2(64),
            ;
            lemma_no_overflow(p, q);
        }
    }
    let unit = to_lower(rest);
    match unit_of(&unit) {
        None => Err(SizeError::BadUnit(string_of(&unit))),
        Some(k) => match small {
            None => {
                proof {
                    assert(p >= pow2(64) * q) by (nonlinear_arith)
                        requires
                            p == value_of(whole@) * q + value_of(frac@),
                            value_of(whole@) >= pow2(64),
                    ;
                    lemma_product_large(p, q, k as nat);
                }
                Err(SizeError::TooLarge)
            },
            Some(w) => match scaled(w, frac, k) {
                Some(n) => Ok(n),
                None => Err(SizeError::TooLarge),
            },
        },
    }
}

/// `s` with every trailing copy of `end` removed.
pub open spec fn without_end(s: Seq<char>, end: Seq<char>) -> Seq<char>
    decreases s.len(),
{
    if 0 < end.len() <= s.len() && s.skip(s.len() - end.len()) == end {
        without_end(s.take(s.len() - end.len()), end)
    } else {
        s
    }
}

/// The words for "no limit".
pub open spec fn means_unlimited(s: Seq<char>) -> bool {
    s == "0"@ || s == "不限速"@ || s == "无限制"@ || s == "unlimited"@ || s == "none"@
}

/// What the rate typed as `input` means, in bytes per second; zero is no limit.
pub open spec fn rate_of(input: Seq<char>) -> SizeReading {
    let s = lowered(trimmed(input));
    if means_unlimited(s) {
        SizeReading::Bytes(0)
    } else {
        size_of(without_end(without_end(without_end(without_end(s, "每秒"@), "/s"@), "ps"@), "/秒"@))
    }
}

fn strip_end(s: Vec<char>, end: &str) -> (r: Vec<char>)
    ensures
        r@ == without_end(s@, end@),
{
    let e = chars_of(end);
    let mut s = s;
    let ghost whole = s@;
    while e.len() > 0 && e.len() <= s.len()
        invariant
            e@ == end@,
            without_end(s@, end@) == without_end(whole, end@),
        ensures
            s@ == without_end(whole, end@),
        decreases s.len(),
    {
        let at: usize = s.len() - e.len();
        let tail = vstd::slice::slice_subrange(s.as_slice(), at, s.len());
        assert(tail@ =~= s@.skip(s@.len() - e@.len()));
        if !chars_eq(tail, end) {
            break;
        }
        s.truncate(at);
    }
    s
}

/// Reads a typed rate such as `10MB/s`, `20mbps` or `不限速`.
pub fn parse_rate(input: &str) -> (r: Result<u64, SizeError>)
    ensures
        reading(r) == rate_of(input@),
{
    let typed = chars_of(input);
    let t = trim(&typed);
    let s = to_lower(&t);
    if chars_eq(&s, "0") || chars_eq(&s, "不限速") || chars_eq(&s, "无限制") || chars_eq(
        &s,
        "unlimited",
    ) || chars_eq(&s, "none") {
        return Ok(0);
    }
    let s = strip_end(s, "每秒");
    let s = strip_end(s, "/s");
    let s = strip_end(s, "ps");
    let s = strip_end(s, "/秒");
    let text = string_of(&s);
    parse_byte_size(text.as_str())
}

proof fn lemma_lowered_trim(s: Seq<char>)
    ensures
        trim_start(lowered(s)) == lowered(trim_start(s)),
        trim_end(lowered(s)) == lowered(trim_end(s)),
    decreases s.len(),
{
    if s.len() > 0 {
        assert(lowered(s).drop_first() =~= lowered(s.drop_first()));
        assert(lowered(s).drop_last() =~= lowered(s.drop_last()));
        lemma_lowered_trim(s.drop_first());
        lemma_lowered_trim(s.drop_last());
    }
}

proof fn lemma_lowered_filter(s: Seq<char>)
    ensures
        lowered(s).filter(|c: char| c != '_' && c != ' ') == lowered(
            s.filter(|c: char| c != '_' && c != ' '),
        ),
    decreases s.len(),
{
    reveal(Seq::filter);
    let keep = |c: char| c != '_' && c != ' ';
    if s.len() > 0 {
        assert(lowered(s).drop_last() =~= lowered(s.drop_last()));
        lemma_lowered_filter(s.drop_last());
        let t = s.drop_last().filter(keep);
        assert(lowered(t.push(s.last())) =~= lowered(t).push(ascii_lower(s.last())));
    } else {
        assert(lowered(s).filter(keep) =~= lowered(s.filter(keep)));
    }
}

proof fn lemma_lowered_number(s: Seq<char>)
    ensures
        number_len(lowered(s)) == number_len(s),
        number_len(s) <= s.len(),
        lowered(s).take(number_len(s) as int) == s.take(number_len(s) as int),
    decreases s.len(),
{
    if s.len() > 0 && (is_digit(s[0]) || s[0] == '.') {
        let t = s.drop_first();
        assert(lowered(s).drop_first() =~= lowered(t));
        lemma_lowered_number(t);
        let n = number_len(t) as int;
        let a = lowered(s).take(n + 1);
        let b = s.take(n + 1);
        assert forall|i: int| 0 <= i < n + 1 implies a[i] == b[i] by {
            if i > 0 {
                assert(lowered(t).take(n)[i - 1] == t.take(n)[i - 1]);
            }
        }
        assert(a =~= b);
    } else {
        assert(lowered(s).take(0) =~= s.take(0));
    }
}

/// Capital and small letters read alike: `100MiB` and `100mib` are one size.
pub proof fn letter_case_is_ignored(s: Seq<char>)
    ensures
        size_of(lowered(s)) == size_of(s),
{
    lemma_lowered_trim(s);
    lemma_lowered_trim(trim_start(s));
    lemma_lowered_filter(trimmed(s));
    let t = squeezed(s);
    assert(squeezed(lowered(s)) == lowered(t));
    lemma_lowered_number(t);
    let n = number_len(t) as int;
    assert(lowered(lowered(t).skip(n)) =~= lowered(t.skip(n)));
}

/// A plain whole number of a known unit is that many units, exactly, as long as
/// the size stays below `2^53` bytes.
pub proof fn whole_numbers_of_units_are_exact(s: Seq<char>, n: nat, k: nat)
    requires
        ({
            let t = squeezed(s);
            let num = t.take(number_len(t) as int);
            &&& is_number(num)
            &&& dot_at(num) == num.len()
            &&& value_of(whole_digits(num)) == n
            &&& unit_bytes(lowered(t.skip(number_len(t) as int))) == Some(k)
        }),
        n * k < pow2(53),
    ensures
        size_of(s) == SizeReading::Bytes(n * k),
{
    let t = squeezed(s);
    let num = t.take(number_len(t) as int);
    lemma_lowered_number(t);
    assert(t.len() > 0);
    let q = pow10(fraction_digits(num).len());
    assert(q == 1);
    assert(whole_digits(num) + fraction_digits(num) =~= whole_digits(num));
    whole_sizes_are_exact(n, k);
    lemma2_to64_rest();
    vstd::arithmetic::power2::lemma2_to64();
    vstd::arithmetic::power2::lemma_pow2_strictly_increases(53, 64);
    assert(n <= n * k) by (nonlinear_arith)
        requires
            k >= 1,
    ;
    assert(pow2(64) * 1 == pow2(64));
    lemma_no_overflow(n, 1);
}

/// How a typed size may end: with a digit, a dot or the last letter of a unit.
spec fn ends_a_size(c: char) -> bool {
    is_digit(c) || c == '.' || c == 'b' || c == 'k' || c == 'm' || c == 'g' || c == 't'
}

proof fn lemma_unit_end(u: Seq<char>)
    requires
        unit_bytes(u) is Some,
        u.len() > 0,
    ensures
        ends_a_size(u.last()),
{
    reveal_strlit("");
    reveal_strlit("b");
    reveal_strlit("k");
    reveal_strlit("kib");
    reveal_strlit("kb");
    reveal_strlit("m");
    reveal_strlit("mib");
    reveal_strlit("mb");
    reveal_strlit("g");
    reveal_strlit("gib");
    reveal_strlit("gb");
    reveal_strlit("t");
    reveal_strlit("tib");
    reveal_strlit("tb");
}

proof fn lemma_number_chars(s: Seq<char>)
    ensures
        number_len(s) <= s.len(),
        forall|i: int| 0 <= i < number_len(s) ==> is_digit(#[trigger] s[i]) || s[i] == '.',
    decreases s.len(),
{
    if s.len() > 0 && (is_digit(s[0]) || s[0] == '.') {
        let t = s.drop_first();
        lemma_number_chars(t);
        assert forall|i: int| 0 <= i < number_len(s) implies is_digit(#[trigger] s[i]) || s[i]
            == '.' by {
            if i > 0 {
                assert(is_digit(t[i - 1]) || t[i - 1] == '.');
            }
        }
    }
}

proof fn lemma_trims(s: Seq<char>)
    ensures
        trim_start(trim_start(s)) == trim_start(s),
        trim_start(s).len() > 0 ==> !is_white(trim_start(s)[0]) && trim_start(s).last()
            == s.last() && s.len() > 0,
        trim_end(s).len() <= s.len(),
        trim_end(s) == s.take(trim_end(s).len() as int),
        trim_end(s).len() > 0 ==> !is_white(trim_end(s).last()),
        s.len() > 0 && !is_white(s[0]) ==> trim_end(s).len() > 0,
    decreases s.len(),
{
    if s.len() > 0 {
        lemma_trims(s.drop_first());
        lemma_trims(s.drop_last());
        if is_white(s.last()) {
            let n = trim_end(s).len() as int;
            assert(s.drop_last().take(n) =~= s.take(n));
        } else {
            assert(s.take(s.len() as int) =~= s);
        }
    } else {
        assert(s.take(0) =~= s);
    }
}

proof fn lemma_trimmed_twice(s: Seq<char>)
    ensures
        trimmed(trimmed(s)) == trimmed(s),
        trimmed(trim_start(s)) == trimmed(s),
{
    let y = trim_start(s);
    let w = trim_end(y);
    lemma_trims(s);
    lemma_trims(y);
    if w.len() > 0 {
        assert(w[0] == y[0]);
        assert(trim_start(w) == w);
        assert(trim_end(w) == w);
    }
}

proof fn lemma_trim_before(s: Seq<char>, end: Seq<char>)
    requires
        trim_start(s).len() > 0,
    ensures
        trim_start(s + end) == trim_start(s) + end,
    decreases s.len(),
{
    assert((s + end)[0] == s[0]);
    if is_white(s[0]) {
        assert((s + end).drop_first() =~= s.drop_first() + end);
        lemma_trim_before(s.drop_first(), end);
    }
}

/// A text that reads as a size ends like one, blanks and underscores aside.
proof fn lemma_size_end(x: Seq<char>)
    requires
        size_of(x) is Bytes,
    ensures
        trimmed(x).len() > 0,
        ({
            let c = ascii_lower(trimmed(x).last());
            ends_a_size(c) || c == '_' || c == ' '
        }),
{
    reveal(Seq::filter);
    let y = trimmed(x);
    let z = squeezed(x);
    let n = number_len(z) as int;
    lemma_number_chars(z);
    let unit = lowered(z.skip(n));
    if n < z.len() {
        assert(unit.last() == ascii_lower(z.last()));
        lemma_unit_end(unit);
    } else {
        assert(is_digit(z[n - 1]) || z[n - 1] == '.');
    }
}

proof fn lemma_plain_zero()
    ensures
        size_of("0"@) == SizeReading::Bytes(0),
{
    reveal_strlit("0");
    reveal_strlit("");
    reveal(Seq::filter);
    let s = "0"@;
    let keep = |c: char| c != '_' && c != ' ';
    assert(trimmed(s) == s);
    assert(s.drop_last().filter(keep) =~= Seq::<char>::empty());
    assert(squeezed(s) =~= s);
    assert(s.drop_first() =~= Seq::<char>::empty());
    assert(number_len(s.drop_first()) == 0);
    assert(number_len(s) == 1);
    let num = s.take(1);
    assert(num =~= s);
    assert(is_digit(num[0]));
    assert(dot_at(s.drop_first()) == 0);
    assert(dot_at(num) == 1);
    let d = whole_digits(num);
    assert(d =~= seq![0u8]);
    assert(d =~= Seq::<u8>::empty().push(0u8));
    lemma_value_push(Seq::<u8>::empty(), 0u8);
    assert(value_of(Seq::<u8>::empty()) == 0);
    assert(lowered(s.skip(1)) =~= ""@);
    lemma2_to64_rest();
    vstd::arithmetic::power2::lemma_pow2_pos(53);
    whole_numbers_of_units_are_exact(s, 0, 1);
}

/// The endings that say "per second".
pub open spec fn per_second(end: Seq<char>) -> bool {
    end == "/s"@ || end == "ps"@ || end == "每秒"@ || end == "/秒"@
}

/// Nothing is taken off a text that does not end like a rate.
proof fn lemma_nothing_to_strip(s: Seq<char>, end: Seq<char>)
    requires
        per_second(end),
        s.len() > 0 ==> s.last() != 's' && s.last() != '秒',
    ensures
        without_end(s, end) == s,
{
    reveal_strlit("/s");
    reveal_strlit("ps");
    reveal_strlit("每秒");
    reveal_strlit("/秒");
    if end.len() <= s.len() {
        assert(s.skip(s.len() - end.len()).last() == s.last());
    }
}

/// One ending is taken off, and no other one is found before it.
proof fn lemma_one_stripped(t: Seq<char>, end: Seq<char>, other: Seq<char>)
    requires
        per_second(end),
        per_second(other),
        t.len() > 0,
        t.last() != 's' && t.last() != '秒',
    ensures
        without_end(t + end, other) == if other == end {
            t
        } else {
            t + end
        },
{
    reveal_strlit("/s");
    reveal_strlit("ps");
    reveal_strlit("每秒");
    reveal_strlit("/秒");
    let s = t + end;
    let tail = s.skip(s.len() - other.len());
    assert(tail =~= end);
    assert(s.take(s.len() - end.len()) =~= t);
    lemma_nothing_to_strip(t, other);
}

/// "Per second" never changes the number: what reads as a size reads as the same rate,
/// bare or with any such ending.
pub proof fn per_second_is_no_part_of_the_number(x: Seq<char>, end: Seq<char>)
    requires
        size_of(x) is Bytes,
        per_second(end),
    ensures
        rate_of(x) == size_of(x),
        rate_of(x + end) == size_of(x),
{
    reveal_strlit("/s");
    reveal_strlit("ps");
    reveal_strlit("每秒");
    reveal_strlit("/秒");
    reveal_strlit("0");
    reveal_strlit("不限速");
    reveal_strlit("无限制");
    reveal_strlit("unlimited");
    reveal_strlit("none");
    lemma_size_end(x);
    lemma_trimmed_twice(x);
    lemma_trims(x);
    let y = trim_start(x);
    lemma_trims(y);
    let plain = lowered(trimmed(x));
    assert(plain.last() == ascii_lower(trimmed(x).last()));
    letter_case_is_ignored(trimmed(x));
    assert(size_of(plain) == size_of(x));
    if means_unlimited(plain) {
        assert(plain == "0"@);
        lemma_plain_zero();
    } else {
        lemma_nothing_to_strip(plain, "每秒"@);
        lemma_nothing_to_strip(plain, "/s"@);
        lemma_nothing_to_strip(plain, "ps"@);
        lemma_nothing_to_strip(plain, "/秒"@);
    }
    let t = lowered(y);
    assert(y.len() > 0);
    assert(t.last() == ascii_lower(y.last()));
    assert(t.last() != 's' && t.last() != '秒') by {
        if !is_white(y.last()) {
            assert(trimmed(x) == y);
        }
    }
    letter_case_is_ignored(y);
    assert(size_of(t) == size_of(x));
    lemma_trim_before(x, end);
    let s = y + end;
    assert(s.last() == end.last());
    assert(trimmed(x + end) == s);
    assert(lowered(s) =~= t + end) by {
        assert(lowered(end) =~= end);
    }
    assert(lowered(s).last() == end.last());
    lemma_one_stripped(t, end, "每秒"@);
    lemma_one_stripped(t, end, "/s"@);
    lemma_one_stripped(t, end, "ps"@);
    lemma_one_stripped(t, end, "/秒"@);
    lemma_nothing_to_strip(t, "每秒"@);
    lemma_nothing_to_strip(t, "/s"@);
    lemma_nothing_to_strip(t, "ps"@);
    lemma_nothing_to_strip(t, "/秒"@);
}

proof fn lemma_digit_values(n: nat)
    ensures
        value_of(digit_values(decimal(n))) == n,
        decimal(n).len() > 0,
        forall|i: int| 0 <= i < decimal(n).len() ==> is_digit(#[trigger] decimal(n)[i]),
    decreases n,
{
    let s = decimal(n);
    if n < 10 {
        lemma_value_push(Seq::<u8>::empty(), n as u8);
        assert(value_of(Seq::<u8>::empty()) == 0);
        assert(digit_values(s) =~= Seq::<u8>::empty().push(n as u8));
    } else {
        lemma_digit_values(n / 10);
        let t = decimal(n / 10);
        let d = (n % 10) as u8;
        assert(digit_values(s) =~= digit_values(t).push(d));
        lemma_value_push(digit_values(t), d);
        assert forall|i: int| 0 <= i < s.len() implies is_digit(#[trigger] s[i]) by {
            if i < t.len() {
                assert(is_digit(t[i]));
            }
        }
    }
}

proof fn lemma_number_prefix(d: Seq<char>, u: Seq<char>)
    requires
        forall|i: int| 0 <= i < d.len() ==> is_digit(#[trigger] d[i]),
        u.len() > 0 ==> !is_digit(u[0]) && u[0] != '.',
    ensures
        number_len(d + u) == d.len(),
        dot_at(d) == d.len(),
    decreases d.len(),
{
    if d.len() > 0 {
        let e = d.drop_first();
        assert(is_digit(d[0]));
        assert forall|i: int| 0 <= i < e.len() implies is_digit(#[trigger] e[i]) by {
            assert(is_digit(d[i + 1]));
        }
        lemma_number_prefix(e, u);
        assert((d + u).drop_first() =~= e + u);
        assert((d + u)[0] == d[0]);
    } else {
        assert(d + u =~= u);
    }
}

proof fn lemma_all_kept(s: Seq<char>, keep: spec_fn(char) -> bool)
    requires
        forall|i: int| 0 <= i < s.len() ==> keep(#[trigger] s[i]),
    ensures
        s.filter(keep) == s,
    decreases s.len(),
{
    reveal(Seq::filter);
    if s.len() > 0 {
        let t = s.drop_last();
        assert(keep(s[s.len() - 1]));
        assert forall|i: int| 0 <= i < t.len() implies keep(#[trigger] t[i]) by {
            assert(keep(s[i]));
        }
        lemma_all_kept(t, keep);
        assert(s =~= t.push(s.last()));
    }
}

/// What can stand behind a number without being taken for a part of it: no white space, no
/// underscore, and no digit or dot in front.
pub open spec fn plain_unit(u: Seq<char>) -> bool {
    &&& forall|i: int| 0 <= i < u.len() ==> !is_white(#[trigger] u[i]) && u[i] != '_'
    &&& u.len() > 0 ==> !is_digit(u[0]) && u[0] != '.'
}

proof fn lemma_written_size(n: nat, u: Seq<char>)
    requires
        plain_unit(u),
    ensures
        ({
            let s = decimal(n) + u;
            &&& squeezed(s) == s
            &&& s.len() > 0
            &&& number_len(s) == decimal(n).len()
            &&& s.take(number_len(s) as int) == decimal(n)
            &&& s.skip(number_len(s) as int) == u
            &&& is_number(decimal(n))
            &&& dot_at(decimal(n)) == decimal(n).len()
            &&& value_of(whole_digits(decimal(n))) == n
        }),
{
    let d = decimal(n);
    let s = d + u;
    lemma_digit_values(n);
    lemma_number_prefix(d, u);
    let keep = |c: char| c != '_' && c != ' ';
    assert forall|i: int| 0 <= i < s.len() implies keep(#[trigger] s[i]) && !is_white(s[i]) by {
        if i < d.len() {
            assert(is_digit(d[i]));
        } else {
            assert(!is_white(u[i - d.len()]));
        }
    }
    assert(!is_white(s[0]) && !is_white(s[s.len() - 1]));
    assert(trimmed(s) == s);
    lemma_all_kept(s, keep);
    assert(s.take(d.len() as int) =~= d);
    assert(s.skip(d.len() as int) =~= u);
    assert(is_digit(d[0]));
    assert(d.take(d.len() as int) =~= d);
}

proof fn lemma_unit_reads(n: nat, u: Seq<char>, k: nat)
    requires
        plain_unit(u),
        unit_bytes(lowered(u)) == Some(k),
        n * k < pow2(53),
    ensures
        size_of(decimal(n) + u) == SizeReading::Bytes(n * k),
{
    lemma_written_size(n, u);
    whole_numbers_of_units_are_exact(decimal(n) + u, n, k);
}

proof fn lemma_units()
    ensures
        unit_bytes(""@) == Some(1nat),
        unit_bytes("b"@) == Some(1nat),
        unit_bytes("k"@) == Some(0x400nat),
        unit_bytes("kib"@) == Some(0x400nat),
        unit_bytes("kb"@) == Some(1_000nat),
        unit_bytes("m"@) == Some(0x10_0000nat),
        unit_bytes("mib"@) == Some(0x10_0000nat),
        unit_bytes("mb"@) == Some(1_000_000nat),
        unit_bytes("g"@) == Some(0x4000_0000nat),
        unit_bytes("gib"@) == Some(0x4000_0000nat),
        unit_bytes("gb"@) == Some(1_000_000_000nat),
        unit_bytes("t"@) == Some(0x100_0000_0000nat),
        unit_bytes("tib"@) == Some(0x100_0000_0000nat),
        unit_bytes("tb"@) == Some(1_000_000_000_000nat),
{
    reveal_strlit("");
    reveal_strlit("b");
    reveal_strlit("k");
    reveal_strlit("kib");
    reveal_strlit("kb");
    reveal_strlit("m");
    reveal_strlit("mib");
    reveal_strlit("mb");
    reveal_strlit("g");
    reveal_strlit("gib");
    reveal_strlit("gb");
    reveal_strlit("t");
    reveal_strlit("tib");
    reveal_strlit("tb");
    assert("b"@[0] == 'b' && "k"@[0] == 'k' && "m"@[0] == 'm' && "g"@[0] == 'g' && "t"@[0] == 't');
    assert("kib"@[0] == 'k' && "mib"@[0] == 'm' && "gib"@[0] == 'g' && "tib"@[0] == 't');
    assert("kb"@[0] == 'k' && "mb"@[0] == 'm' && "gb"@[0] == 'g' && "tb"@[0] == 't');
    assert(""@.len() == 0);
    assert("b"@.len() == 1 && "k"@.len() == 1 && "m"@.len() == 1 && "g"@.len() == 1 && "t"@.len() == 1);
    assert("b"@ != "k"@);
    assert("b"@ != "m"@);
    assert("b"@ != "g"@);
    assert("b"@ != "t"@);
    assert("k"@ != "m"@);
    assert("k"@ != "g"@);
    assert("k"@ != "t"@);
    assert("m"@ != "g"@);
    assert("m"@ != "t"@);
    assert("g"@ != "t"@);
    assert("kb"@.len() == 2 && "mb"@.len() == 2 && "gb"@.len() == 2 && "tb"@.len() == 2);
    assert("kb"@ != "mb"@);
    assert("kb"@ != "gb"@);
    assert("kb"@ != "tb"@);
    assert("mb"@ != "gb"@);
    assert("mb"@ != "tb"@);
    assert("gb"@ != "tb"@);
    assert("kib"@.len() == 3 && "mib"@.len() == 3 && "gib"@.len() == 3 && "tib"@.len() == 3);
    assert("kib"@ != "mib"@);
    assert("kib"@ != "gib"@);
    assert("kib"@ != "tib"@);
    assert("mib"@ != "gib"@);
    assert("mib"@ != "tib"@);
    assert("gib"@ != "tib"@);
}

/// A number alone, or with a `B`, is a number of bytes, as long as it stays far below `2^53`.
pub proof fn bare_numbers_are_bytes(n: nat)
    requires
        n * 0x100_0000_0000 < pow2(53),
    ensures
        size_of(decimal(n)) == SizeReading::Bytes(n),
        size_of(decimal(n) + "B"@) == SizeReading::Bytes(n),
{
    lemma_units();
    reveal_strlit("");
    assert(decimal(n) + ""@ =~= decimal(n));
    assert(lowered(""@) =~= ""@);
    lemma_unit_reads(n, ""@, 1);
    reveal_strlit("B");
    reveal_strlit("b");
    assert(lowered("B"@) =~= "b"@);
    lemma_unit_reads(n, "B"@, 1);
}

/// Each of the letters `K`, `M`, `G` and `T` is 1024 of the one before; the sizes are exact as
/// long as they stay below `2^53` bytes.
pub proof fn single_letters_are_powers_of_1024(n: nat)
    requires
        n * 0x100_0000_0000 < pow2(53),
    ensures
        size_of(decimal(n) + "K"@) == SizeReading::Bytes(n * 1024),
        size_of(decimal(n) + "M"@) == SizeReading::Bytes(n * (1024 * 1024)),
        size_of(decimal(n) + "G"@) == SizeReading::Bytes(n * (1024 * 1024 * 1024)),
        size_of(decimal(n) + "T"@) == SizeReading::Bytes(n * (1024 * 1024 * 1024 * 1024)),
{
    lemma_units();
    reveal_strlit("K");
    reveal_strlit("k");
    assert(lowered("K"@) =~= "k"@);
    lemma_unit_reads(n, "K"@, 0x400);
    reveal_strlit("M");
    reveal_strlit("m");
    assert(lowered("M"@) =~= "m"@);
    lemma_unit_reads(n, "M"@, 0x10_0000);
    reveal_strlit("G");
    reveal_strlit("g");
    assert(lowered("G"@) =~= "g"@);
    lemma_unit_reads(n, "G"@, 0x4000_0000);
    reveal_strlit("T");
    reveal_strlit("t");
    assert(lowered("T"@) =~= "t"@);
    lemma_unit_reads(n, "T"@, 0x100_0000_0000);
}

/// Each of the units with an `i` is 1024 of the one before; the sizes are exact as long as
/// they stay below `2^53` bytes.
pub proof fn binary_units_are_powers_of_1024(n: nat)
    requires
        n * 0x100_0000_0000 < pow2(53),
    ensures
        size_of(decimal(n) + "KiB"@) == SizeReading::Bytes(n * 1024),
        size_of(decimal(n) + "MiB"@) == SizeReading::Bytes(n * (1024 * 1024)),
        size_of(decimal(n) + "GiB"@) == SizeReading::Bytes(n * (1024 * 1024 * 1024)),
        size_of(decimal(n) + "TiB"@) == SizeReading::Bytes(n * (1024 * 1024 * 1024 * 1024)),
{
    lemma_units();
    reveal_strlit("KiB");
    reveal_strlit("kib");
    assert(lowered("KiB"@) =~= "kib"@);
    lemma_unit_reads(n, "KiB"@, 0x400);
    reveal_strlit("MiB");
    reveal_strlit("mib");
    assert(lowered("MiB"@) =~= "mib"@);
    lemma_unit_reads(n, "MiB"@, 0x10_0000);
    reveal_strlit("GiB");
    reveal_strlit("gib");
    assert(lowered("GiB"@) =~= "gib"@);
    lemma_unit_reads(n, "GiB"@, 0x4000_0000);
    reveal_strlit("TiB");
    reveal_strlit("tib");
    assert(lowered("TiB"@) =~= "tib"@);
    lemma_unit_reads(n, "TiB"@, 0x100_0000_0000);
}

/// Each of the units without an `i` is a thousand of the one before; the sizes are exact as
/// long as they stay below `2^53` bytes.
pub proof fn decimal_units_are_powers_of_1000(n: nat)
    requires
        n * 0x100_0000_0000 < pow2(53),
    ensures
        size_of(decimal(n) + "KB"@) == SizeReading::Bytes(n * 1000),
        size_of(decimal(n) + "MB"@) == SizeReading::Bytes(n * (1000 * 1000)),
        size_of(decimal(n) + "GB"@) == SizeReading::Bytes(n * (1000 * 1000 * 1000)),
        size_of(decimal(n) + "TB"@) == SizeReading::Bytes(n * (1000 * 1000 * 1000 * 1000)),
{
    lemma_units();
    reveal_strlit("KB");
    reveal_strlit("kb");
    assert(lowered("KB"@) =~= "kb"@);
    lemma_unit_reads(n, "KB"@, 1_000);
    reveal_strlit("MB");
    reveal_strlit("mb");
    assert(lowered("MB"@) =~= "mb"@);
    lemma_unit_reads(n, "MB"@, 1_000_000);
    reveal_strlit("GB");
    reveal_strlit("gb");
    assert(lowered("GB"@) =~= "gb"@);
    lemma_unit_reads(n, "GB"@, 1_000_000_000);
    reveal_strlit("TB");
    reveal_strlit("tb");
    assert(lowered("TB"@) =~= "tb"@);
    lemma_unit_reads(n, "TB"@, 1_000_000_000_000);
}

/// A number with anything behind it that is no unit is refused, and what stood there is
/// named.
pub proof fn unknown_units_are_refused(n: nat, u: Seq<char>)
    requires
        plain_unit(u),
        n < pow2(53),
        u.len() > 3 || (u.len() > 0 && !"bkmgtBKMGT"@.contains(u[0])),
    ensures
        size_of(decimal(n) + u) == SizeReading::BadUnit(lowered(u)),
{
    reveal_strlit("bkmgtBKMGT");
    reveal_strlit("");
    reveal_strlit("b");
    reveal_strlit("k");
    reveal_strlit("kib");
    reveal_strlit("kb");
    reveal_strlit("m");
    reveal_strlit("mib");
    reveal_strlit("mb");
    reveal_strlit("g");
    reveal_strlit("gib");
    reveal_strlit("gb");
    reveal_strlit("t");
    reveal_strlit("tib");
    reveal_strlit("tb");
    lemma_written_size(n, u);
    let num = decimal(n);
    assert(whole_digits(num) + fraction_digits(num) =~= whole_digits(num));
    assert(pow10(0) == 1);
    vstd::arithmetic::power2::lemma2_to64_rest();
    vstd::arithmetic::power2::lemma_pow2_strictly_increases(53, 64);
    lemma_no_overflow(n, 1);
    let l = lowered(u);
    assert(l.len() == u.len());
    assert(l[0] == ascii_lower(u[0]));
    let all = "bkmgtBKMGT"@;
    if unit_bytes(l) is Some {
        let c = u[0];
        assert(all[0] == 'b' && all[1] == 'k' && all[2] == 'm' && all[3] == 'g' && all[4] == 't');
        assert(all[5] == 'B' && all[6] == 'K' && all[7] == 'M' && all[8] == 'G' && all[9] == 'T');
        assert(l[0] == 'b' || l[0] == 'k' || l[0] == 'm' || l[0] == 'g' || l[0] == 't');
        assert(all.contains(c));
    }
}

/// Underscores and blanks between the characters of a size do not matter.
pub proof fn separators_are_ignored(a: Seq<char>, c: char, b: Seq<char>)
    requires
        c == '_' || c == ' ',
        a.len() > 0,
        b.len() > 0,
        !is_white(a[0]),
        !is_white(b.last()),
    ensures
        size_of(a + seq![c] + b) == size_of(a + b),
{
    let keep = |c: char| c != '_' && c != ' ';
    let s = a + seq![c] + b;
    assert(s[0] == a[0] && s.last() == b.last());
    assert(trimmed(s) == s);
    assert((a + b)[0] == a[0] && (a + b).last() == b.last());
    assert(trimmed(a + b) == a + b);
    Seq::filter_distributes_over_add(a + seq![c], b, keep);
    Seq::filter_distributes_over_add(a, b, keep);
    Seq::filter_distributes_over_add(a, seq![c], keep);
    let one = seq![c];
    assert(one.filter(keep) =~= Seq::<char>::empty()) by {
        reveal(Seq::filter);
        one.drop_last().lemma_filter_len(keep);
        assert(!keep(one.last()));
    }
    assert(a.filter(keep) + Seq::<char>::empty() =~= a.filter(keep));
}

/// Nothing typed is nothing; text without a number in front is no size.
pub proof fn a_size_starts_with_a_number(s: Seq<char>)
    ensures
        (forall|i: int| 0 <= i < s.len() ==> s[i] == ' ' || s[i] == '_') ==> size_of(s)
            == SizeReading::Empty,
        plain_unit(s) && s.len() > 0 ==> size_of(s) is BadNumber,
{
    let keep = |c: char| c != '_' && c != ' ';
    if forall|i: int| 0 <= i < s.len() ==> s[i] == ' ' || s[i] == '_' {
        let (a, b) = white_space_is_cut_off_the_ends(s);
        let t = trimmed(s);
        assert forall|i: int| 0 <= i < t.len() implies !keep(#[trigger] t[i]) by {
            assert(s[a.len() + i] == t[i]);
        }
        if t.filter(keep).len() > 0 {
            t.lemma_filter_pred(keep, 0);
            let c = t.filter(keep)[0];
            t.lemma_filter_contains_rev(keep, c);
            let i = choose|i: int| 0 <= i < t.len() && t[i] == c;
            assert(!keep(t[i]));
        }
    }
    if plain_unit(s) && s.len() > 0 {
        assert(!is_white(s[0]) && !is_white(s[s.len() - 1]));
        assert(trimmed(s) == s);
        assert forall|i: int| 0 <= i < s.len() implies keep(#[trigger] s[i]) by {
            assert(!is_white(s[i]));
        }
        lemma_all_kept(s, keep);
        assert(number_len(s) == 0);
        assert(s.take(0).len() == 0);
    }
}

} // verus!
