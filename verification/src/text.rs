//! Character sequences: reading, cutting and building strings.
//!
//! Every label, message and user-typed value in this crate is stated as a
//! `Seq<char>`; this module holds the vocabulary those statements share.

use vstd::prelude::*;
use vstd::string::*;

verus! {

/// `String::push` of the standard library: appends one character at the end.
pub assume_specification[ String::push ](s: &mut String, c: char)
    ensures
        final(s)@ == old(s)@.push(c),
;

/// The characters of `s`, in order.
pub fn chars_of(s: &str) -> (r: Vec<char>)
    ensures
        r@ == s@,
{
    let mut r: Vec<char> = Vec::new();
    for c in it: s.chars()
        invariant
            r@ == it.seq().take(it.index() as int),
            it.seq() == s@,
    {
        r.push(c);
    }
    r
}

/// The string made of the characters `cs`, in order.
pub fn string_of(cs: &[char]) -> (r: String)
    ensures
        r@ == cs@,
{
    let mut r = String::new();
    let mut i: usize = 0;
    while i < cs.len()
        invariant
            i <= cs.len(),
            r@ == cs@.take(i as int),
        decreases cs.len() - i,
    {
        r.push(cs[i]);
        i += 1;
    }
    assert(cs@.take(cs@.len() as int) =~= cs@);
    r
}

/// A copy of `s`.
pub fn copy_of(s: &str) -> (r: String)
    ensures
        r@ == s@,
{
    String::from_str(s)
}

/// Whether the characters `a` spell `b`.
pub fn chars_eq(a: &[char], b: &str) -> (r: bool)
    ensures
        r == (a@ == b@),
{
    let cs = chars_of(b);
    if a.len() != cs.len() {
        return false;
    }
    let mut i: usize = 0;
    while i < a.len()
        invariant
            i <= a.len(),
            a@.len() == cs@.len(),
            cs@ == b@,
            forall|k: int| 0 <= k < i ==> a@[k] == cs@[k],
        decreases a.len() - i,
    {
        if a[i] != cs[i] {
            return false;
        }
        i += 1;
    }
    assert(a@ =~= cs@);
    true
}

/// Whether two strings hold the same characters.
pub fn str_eq(a: &str, b: &str) -> (r: bool)
    ensures
        r == (a@ == b@),
{
    let cs = chars_of(a);
    chars_eq(&cs, b)
}

/// The Unicode `White_Space` property.
pub open spec fn is_white(c: char) -> bool {
    let u = c as u32;
    ||| 0x09 <= u <= 0x0d
    ||| u == 0x20
    ||| u == 0x85
    ||| u == 0xa0
    ||| u == 0x1680
    ||| 0x2000 <= u <= 0x200a
    ||| u == 0x2028
    ||| u == 0x2029
    ||| u == 0x202f
    ||| u == 0x205f
    ||| u == 0x3000
}

/// Whether `c` has the Unicode `White_Space` property.
pub fn whitespace(c: char) -> (r: bool)
    ensures
        r == is_white(c),
{
    let u: u32 = c as u32;
    (0x09 <= u && u <= 0x0d) || u == 0x20 || u == 0x85 || u == 0xa0 || u == 0x1680 || (0x2000 <= u
        && u <= 0x200a) || u == 0x2028 || u == 0x2029 || u == 0x202f || u == 0x205f || u == 0x3000
}

/// `s` without its leading white space.
pub open spec fn trim_start(s: Seq<char>) -> Seq<char>
    decreases s.len(),
{
    if s.len() > 0 && is_white(s[0]) {
        trim_start(s.drop_first())
    } else {
        s
    }
}

/// `s` without its trailing white space.
pub open spec fn trim_end(s: Seq<char>) -> Seq<char>
    decreases s.len(),
{
    if s.len() > 0 && is_white(s.last()) {
        trim_end(s.drop_last())
    } else {
        s
    }
}

/// `s` without white space at either end.
pub open spec fn trimmed(s: Seq<char>) -> Seq<char> {
    trim_end(trim_start(s))
}

/// The characters `cs` without white space at either end.
pub fn trim(cs: &[char]) -> (r: Vec<char>)
    ensures
        r@ == trimmed(cs@),
{
    let mut i: usize = 0;
    assert(cs@.skip(0) =~= cs@);
    while i < cs.len() && whitespace(cs[i])
        invariant
            i <= cs.len(),
            trim_start(cs@.skip(i as int)) == trim_start(cs@),
        decreases cs.len() - i,
    {
        assert(cs@.skip(i as int).drop_first() =~= cs@.skip(i + 1));
        i += 1;
    }
    let ghost s = cs@.skip(i as int);
    assert(s == trim_start(cs@));
    let mut j: usize = cs.len();
    assert(s.take(s.len() as int) =~= s);
    while j > i && whitespace(cs[j - 1])
        invariant
            i <= j <= cs.len(),
            s == cs@.skip(i as int),
            trim_end(s.take(j - i)) == trim_end(s),
        decreases j,
    {
        assert(s.take(j - i).drop_last() =~= s.take(j - i - 1));
        assert(s.take(j - i).last() == cs@[j - 1]);
        j -= 1;
    }
    if j > i {
        assert(s.take(j - i).last() == cs@[j - 1]);
    }
    let mut r: Vec<char> = Vec::new();
    let mut k: usize = i;
    while k < j
        invariant
            i <= k <= j <= cs.len(),
            r@ == cs@.subrange(i as int, k as int),
        decreases j - k,
    {
        r.push(cs[k]);
        k += 1;
    }
    assert(r@ =~= s.take(j - i));
    r
}

/// `c` with an ASCII capital letter turned into the small one.
pub open spec fn ascii_lower(c: char) -> char {
    if 'A' <= c <= 'Z' {
        ((c as u32) + 32) as char
    } else {
        c
    }
}

/// `s` with every ASCII capital letter turned into the small one.
pub open spec fn lowered(s: Seq<char>) -> Seq<char> {
    s.map_values(|c: char| ascii_lower(c))
}

fn lower_char(c: char) -> (r: char)
    ensures
        r == ascii_lower(c),
{
    if 'A' <= c && c <= 'Z' {
        let b: u8 = c as u8;
        (b + 32) as char
    } else {
        c
    }
}

/// The characters `cs` with every ASCII capital letter turned into the small one.
pub fn to_lower(cs: &[char]) -> (r: Vec<char>)
    ensures
        r@ == lowered(cs@),
{
    let mut r: Vec<char> = Vec::new();
    let mut i: usize = 0;
    while i < cs.len()
        invariant
            i <= cs.len(),
            r@ == lowered(cs@.take(i as int)),
        decreases cs.len() - i,
    {
        r.push(lower_char(cs[i]));
        i += 1;
        assert(r@ =~= lowered(cs@.take(i as int)));
    }
    assert(cs@.take(cs@.len() as int) =~= cs@);
    r
}

/// The decimal digit `d` as a character.
pub open spec fn digit_char(d: int) -> char {
    (48 + d) as char
}

/// Whether `c` is one of the ten ASCII digits.
pub open spec fn is_digit(c: char) -> bool {
    '0' <= c <= '9'
}

/// `n` written in decimal, without leading zeros.
pub open spec fn decimal(n: nat) -> Seq<char>
    decreases n,
{
    if n < 10 {
        seq![digit_char(n as int)]
    } else {
        decimal(n / 10).push(digit_char((n % 10) as int))
    }
}

fn digit(d: u64) -> (r: char)
    requires
        d < 10,
    ensures
        r == digit_char(d as int),
{
    (48u8 + d as u8) as char
}

/// `n` written in decimal.
pub fn decimal_of(n: u64) -> (r: String)
    ensures
        r@ == decimal(n as nat),
    decreases n,
{
    if n < 10 {
        let mut s = String::new();
        s.push(digit(n));
        assert(s@ =~= decimal(n as nat));
        s
    } else {
        let mut s = decimal_of(n / 10);
        s.push(digit(n % 10));
        s
    }
}

/// A number below `10^k` has at most `k` digits, and nothing but digits.
pub proof fn lemma_decimal_digits(n: nat, k: nat)
    requires
        k > 0,
        n < crate::digits::pow10(k),
    ensures
        0 < decimal(n).len() <= k,
        forall|i: int| 0 <= i < decimal(n).len() ==> is_digit(#[trigger] decimal(n)[i]),
    decreases n,
{
    if n >= 10 {
        if k == 1 {
            assert(crate::digits::pow10(1) == 10 * crate::digits::pow10(0));
        }
        lemma_decimal_digits(n / 10, (k - 1) as nat);
        let d = decimal(n / 10);
        assert forall|i: int| 0 <= i < decimal(n).len() implies is_digit(
            #[trigger] decimal(n)[i],
        ) by {
            if i < d.len() {
                assert(is_digit(d[i]));
            }
        }
    }
}

/// How often `c` occurs in `s`.
pub open spec fn occurrences(s: Seq<char>, c: char) -> nat
    decreases s.len(),
{
    if s.len() == 0 {
        0
    } else {
        occurrences(s.drop_last(), c) + if s.last() == c {
            1nat
        } else {
            0
        }
    }
}

pub proof fn lemma_occurrences_concat(a: Seq<char>, b: Seq<char>, c: char)
    ensures
        occurrences(a + b, c) == occurrences(a, c) + occurrences(b, c),
    decreases b.len(),
{
    if b.len() == 0 {
        assert(a + b =~= a);
    } else {
        assert((a + b).drop_last() =~= a + b.drop_last());
        lemma_occurrences_concat(a, b.drop_last(), c);
    }
}

pub proof fn lemma_occurrences_none(s: Seq<char>, c: char)
    requires
        forall|i: int| 0 <= i < s.len() ==> #[trigger] s[i] != c,
    ensures
        occurrences(s, c) == 0,
    decreases s.len(),
{
    if s.len() > 0 {
        assert(s[s.len() - 1] != c);
        assert forall|i: int| 0 <= i < s.drop_last().len() implies #[trigger] s.drop_last()[i] != c by {
            assert(s[i] != c);
        }
        lemma_occurrences_none(s.drop_last(), c);
    }
}

/// `n` in decimal with at least two digits: a leading zero below ten.
pub open spec fn two_digits(n: nat) -> Seq<char> {
    if n < 10 {
        seq!['0'] + decimal(n)
    } else {
        decimal(n)
    }
}

/// `n` in decimal with at least two digits.
pub fn two_digits_of(n: u64) -> (r: String)
    ensures
        r@ == two_digits(n as nat),
{
    if n < 10 {
        let mut s = String::new();
        s.push('0');
        let d = decimal_of(n);
        s.append(d.as_str());
        assert(s@ =~= two_digits(n as nat));
        s
    } else {
        decimal_of(n)
    }
}

/// The hexadecimal digit `d` as a small letter.
pub open spec fn hex_char(d: int) -> char {
    if d < 10 {
        (48 + d) as char
    } else {
        (87 + d) as char
    }
}

/// The last `width` hexadecimal digits of `n`.
pub open spec fn hex(n: nat, width: nat) -> Seq<char>
    decreases width,
{
    if width == 0 {
        Seq::empty()
    } else {
        hex(n / 16, (width - 1) as nat).push(hex_char((n % 16) as int))
    }
}

/// The last `width` hexadecimal digits of `n`.
pub fn hex_of(n: u64, width: u32) -> (r: String)
    ensures
        r@ == hex(n as nat, width as nat),
    decreases width,
{
    if width == 0 {
        String::new()
    } else {
        let mut s = hex_of(n / 16, width - 1);
        let d: u8 = (n % 16) as u8;
        s.push(if d < 10 {
            (48u8 + d) as char
        } else {
            (87u8 + d) as char
        });
        s
    }
}

/// Different numbers have different hexadecimal digits.
pub proof fn lemma_hex_injective(a: nat, b: nat, width: nat)
    requires
        hex(a, width) == hex(b, width),
    ensures
        a % vstd::arithmetic::power::pow(16, width) as nat == b % vstd::arithmetic::power::pow(
            16,
            width,
        ) as nat,
    decreases width,
{
    vstd::arithmetic::power::lemma_pow_positive(16, width);
    if width == 0 {
        vstd::arithmetic::power::lemma_pow0(16);
    } else {
        let w = (width - 1) as nat;
        let (x, y) = (hex(a, width), hex(b, width));
        assert(x.last() == y.last());
        assert(x.drop_last() =~= hex(a / 16, w));
        assert(y.drop_last() =~= hex(b / 16, w));
        lemma_hex_injective(a / 16, b / 16, w);
        assert(a % 16 == b % 16) by {
            let (c, d) = ((a % 16) as int, (b % 16) as int);
            assert(hex_char(c) == hex_char(d));
            assert(hex_char(c) as u32 == if c < 10 {
                48 + c
            } else {
                87 + c
            });
            assert(hex_char(d) as u32 == if d < 10 {
                48 + d
            } else {
                87 + d
            });
        }
        let p = vstd::arithmetic::power::pow(16, w);
        vstd::arithmetic::power::lemma_pow_positive(16, w);
        assert(vstd::arithmetic::power::pow(16, width) == 16 * p) by {
            reveal(vstd::arithmetic::power::pow);
        }
        vstd::arithmetic::div_mod::lemma_mod_breakdown(a as int, 16, p);
        vstd::arithmetic::div_mod::lemma_mod_breakdown(b as int, 16, p);
    }
}

/// Whether `part` stands in `s` from place `i` on.
pub open spec fn stands_at(s: Seq<char>, part: Seq<char>, i: int) -> bool {
    0 <= i <= s.len() - part.len() && s.subrange(i, i + part.len()) == part
}

/// Whether `part` stands somewhere in `s`.
pub open spec fn has_part(s: Seq<char>, part: Seq<char>) -> bool {
    exists|i: int| stands_at(s, part, i)
}

fn stands(s: &[char], part: &[char], i: usize) -> (r: bool)
    requires
        i + part@.len() <= s@.len(),
    ensures
        r == stands_at(s@, part@, i as int),
{
    let n: usize = s.len();
    let mut k: usize = 0;
    while k < part.len()
        invariant
            k <= part.len(),
            n == s@.len(),
            i + part@.len() <= s@.len(),
            forall|j: int| 0 <= j < k ==> s@[i + j] == part@[j],
        decreases part.len() - k,
    {
        if s[i + k] != part[k] {
            assert(s@.subrange(i as int, i + part@.len())[k as int] != part@[k as int]);
            return false;
        }
        k += 1;
    }
    assert(s@.subrange(i as int, i + part@.len()) =~= part@);
    true
}

/// Whether `part` stands somewhere in `s`.
pub fn contains_part(s: &[char], part: &str) -> (r: bool)
    ensures
        r == has_part(s@, part@),
{
    let p = chars_of(part);
    if p.len() > s.len() {
        return false;
    }
    if p.len() == 0 {
        assert(s@.subrange(0, 0) =~= part@);
        assert(stands_at(s@, part@, 0));
        return true;
    }
    let last: usize = s.len() - p.len();
    let mut i: usize = 0;
    while i <= last
        invariant
            p@ == part@,
            p@.len() > 0,
            last == s@.len() - p@.len(),
            s@.len() <= usize::MAX,
            i <= last + 1,
            forall|j: int| 0 <= j < i ==> !stands_at(s@, part@, j),
        decreases last + 1 - i,
    {
        if stands(s, &p, i) {
            return true;
        }
        i += 1;
    }
    false
}

/// Trimming cuts white space off both ends and nothing else, and leaves none there. The
/// result is what was cut off.
pub proof fn white_space_is_cut_off_the_ends(s: Seq<char>) -> (r: (Seq<char>, Seq<char>))
    ensures
        s == r.0 + trimmed(s) + r.1,
        forall|i: int| 0 <= i < r.0.len() ==> is_white(#[trigger] r.0[i]),
        forall|i: int| 0 <= i < r.1.len() ==> is_white(#[trigger] r.1[i]),
        trimmed(s).len() > 0 ==> !is_white(trimmed(s)[0]) && !is_white(trimmed(s).last()),
{
    let a = lemma_cut_start(s);
    let t = trim_start(s);
    let b = lemma_cut_end(t);
    assert(s =~= a + trimmed(s) + b);
    (a, b)
}

proof fn lemma_cut_start(s: Seq<char>) -> (a: Seq<char>)
    ensures
        s == a + trim_start(s),
        forall|i: int| 0 <= i < a.len() ==> is_white(#[trigger] a[i]),
        trim_start(s).len() > 0 ==> !is_white(trim_start(s)[0]),
    decreases s.len(),
{
    if s.len() > 0 && is_white(s[0]) {
        let a = lemma_cut_start(s.drop_first());
        let b = seq![s[0]] + a;
        let t = trim_start(s.drop_first());
        assert(s =~= seq![s[0]] + s.drop_first());
        assert(seq![s[0]] + (a + t) =~= b + t);
        b
    } else {
        assert(s =~= Seq::<char>::empty() + s);
        Seq::empty()
    }
}

proof fn lemma_cut_end(s: Seq<char>) -> (b: Seq<char>)
    ensures
        s == trim_end(s) + b,
        forall|i: int| 0 <= i < b.len() ==> is_white(#[trigger] b[i]),
        trim_end(s).len() > 0 ==> !is_white(trim_end(s).last()),
    decreases s.len(),
{
    if s.len() > 0 && is_white(s.last()) {
        let a = lemma_cut_end(s.drop_last());
        let b = a.push(s.last());
        let t = trim_end(s.drop_last());
        assert(s =~= s.drop_last().push(s.last()));
        assert((t + a).push(s.last()) =~= t + b);
        b
    } else {
        assert(s =~= s + Seq::<char>::empty());
        Seq::empty()
    }
}

/// A text is blank exactly where nothing is left of it once it is trimmed.
pub proof fn only_blank_texts_vanish(s: Seq<char>)
    ensures
        trimmed(s).len() == 0 <==> forall|i: int| 0 <= i < s.len() ==> is_white(#[trigger] s[i]),
{
    let (a, b) = white_space_is_cut_off_the_ends(s);
    let t = trimmed(s);
    if t.len() > 0 {
        assert(s[a.len() as int] == t[0]);
    } else {
        assert forall|i: int| 0 <= i < s.len() implies is_white(#[trigger] s[i]) by {
            if i < a.len() {
                assert(s[i] == a[i]);
            } else {
                assert(s[i] == b[i - a.len()]);
            }
        }
    }
}

/// A text without white space at its ends is not changed by trimming.
pub proof fn trimmed_text_stays(s: Seq<char>)
    requires
        s.len() > 0 ==> !is_white(s[0]) && !is_white(s.last()),
    ensures
        trimmed(s) == s,
{
}

/// Lowering changes the ASCII capitals alone, each into its small letter.
pub proof fn only_capitals_are_lowered(s: Seq<char>, i: int)
    requires
        0 <= i < s.len(),
    ensures
        lowered(s).len() == s.len(),
        'A' <= s[i] <= 'Z' ==> lowered(s)[i] as u32 == s[i] as u32 + 32,
        !('A' <= s[i] <= 'Z') ==> lowered(s)[i] == s[i],
{
}

/// A hexadecimal digit is one of the ten digits or one of the small letters `a` to `f`, and
/// a number of `width` of them has exactly so many, the last one counting least.
pub proof fn hexadecimal_digits_count(n: nat, d: nat, width: nat)
    requires
        d < 16,
    ensures
        hex(n, width).len() == width,
        hex(16 * n + d, width + 1) == hex(n, width) + if d < 10 {
            seq![('0' as u32 + d) as char]
        } else {
            seq![('a' as u32 + (d - 10)) as char]
        },
    decreases width,
{
    if width > 0 {
        hexadecimal_digits_count(n / 16, n % 16, (width - 1) as nat);
    }
    assert((16 * n + d) / 16 == n && (16 * n + d) % 16 == d);
    assert(hex(16 * n + d, width + 1) =~= hex(n, width) + if d < 10 {
        seq![('0' as u32 + d) as char]
    } else {
        seq![('a' as u32 + (d - 10)) as char]
    });
}

} // verus!
