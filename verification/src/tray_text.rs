//! How the tray's status lines are set: what is cut, where lines break, which units are
//! written twice.

use vstd::prelude::*;
use vstd::string::*;

use crate::text::{chars_of, copy_of, string_of};
use crate::tray_menu::{human_bytes, human_parts, size_text, size_value, SizeUnit};

verus! {

/// How many characters of a long name are kept at its start.
pub const NAME_HEAD: usize = 5;

/// How many characters of a long name are kept at its end.
pub const NAME_TAIL: usize = 5;

/// How many characters a tooltip may have; the system cuts off the rest.
pub const TOOLTIP_MAX_CHARS: usize = 63;

/// `s` cut to `max` characters, the last one an ellipsis where something was cut.
pub open spec fn fitted(s: Seq<char>, max: nat) -> Seq<char> {
    if s.len() <= max {
        s
    } else if max == 0 {
        seq!['…']
    } else {
        s.take(max - 1).push('…')
    }
}

/// `s` cut to `max` characters.
pub fn fit_chars(s: &str, max: usize) -> (r: String)
    ensures
        r@ == fitted(s@, max as nat),
{
    let cs = chars_of(s);
    if cs.len() <= max {
        return copy_of(s);
    }
    let keep: usize = if max == 0 {
        0
    } else {
        max - 1
    };
    let mut r = string_of(vstd::slice::slice_subrange(cs.as_slice(), 0, keep));
    r.push('…');
    assert(r@ =~= fitted(s@, max as nat));
    r
}

/// A name of at most eleven characters as it is; of a longer one the first and the last
/// five, around an ellipsis.
pub open spec fn ellipsized(s: Seq<char>) -> Seq<char> {
    if s.len() <= NAME_HEAD + 1 + NAME_TAIL {
        s
    } else {
        s.take(NAME_HEAD as int) + seq!['…'] + s.skip(s.len() - NAME_TAIL)
    }
}

/// A name shortened in its middle.
pub fn ellipsize_middle(s: &str) -> (r: String)
    ensures
        r@ == ellipsized(s@),
{
    let cs = chars_of(s);
    let n: usize = cs.len();
    if n <= NAME_HEAD + 1 + NAME_TAIL {
        return copy_of(s);
    }
    let mut r = string_of(vstd::slice::slice_subrange(cs.as_slice(), 0, NAME_HEAD));
    r.push('…');
    let tail = string_of(vstd::slice::slice_subrange(cs.as_slice(), n - NAME_TAIL, n));
    r.append(tail.as_str());
    assert(r@ =~= ellipsized(s@));
    r
}

/// A shortened name never has more than eleven characters, and exactly eleven where
/// anything was left out.
pub proof fn shortened_names_have_one_width(s: Seq<char>)
    ensures
        ellipsized(s).len() <= NAME_HEAD + 1 + NAME_TAIL,
        s.len() > NAME_HEAD + 1 + NAME_TAIL ==> ellipsized(s).len() == NAME_HEAD + 1 + NAME_TAIL,
        s.len() <= NAME_HEAD + 1 + NAME_TAIL ==> ellipsized(s) == s,
{
}

/// `done / total`, the unit written once where both have the same.
pub open spec fn pair_text(done: nat, total: nat) -> Seq<char> {
    if SizeUnit::of(done) == SizeUnit::of(total) {
        size_value(done) + " / "@ + size_text(total)
    } else {
        size_text(done) + " / "@ + size_text(total)
    }
}

/// `done / total`, the unit written once where both have the same.
pub fn bytes_pair(done: u64, total: u64) -> (r: String)
    ensures
        r@ == pair_text(done as nat, total as nat),
{
    let (value, unit) = human_parts(done);
    let (_, total_unit) = human_parts(total);
    let mut s = if unit == total_unit {
        value
    } else {
        human_bytes(done)
    };
    s.append(" / ");
    s.append(human_bytes(total).as_str());
    s
}

/// How much of `total` is done, in percent.
pub open spec fn percent(done: nat, total: nat) -> nat {
    if total == 0 {
        0
    } else if 100 * done <= u64::MAX {
        100 * done / total
    } else {
        u64::MAX as nat / total
    }
}

/// How much of `total` is done, in percent.
pub fn percent_of(done: u64, total: u64) -> (r: u64)
    ensures
        r == percent(done as nat, total as nat),
{
    if total == 0 {
        return 0;
    }
    let p: u128 = 100 * (done as u128);
    if p <= 0xffff_ffff_ffff_ffff {
        (p as u64) / total
    } else {
        u64::MAX / total
    }
}

/// What fits is shown as it is. What does not keeps its start, as far as there is room, and
/// ends in an ellipsis.
pub proof fn cut_texts_end_in_an_ellipsis(s: Seq<char>, max: nat)
    requires
        max > 0,
    ensures
        s.len() <= max ==> fitted(s, max) == s,
        s.len() > max ==> {
            &&& fitted(s, max).len() == max
            &&& fitted(s, max)[max - 1] == '…'
            &&& forall|i: int| 0 <= i < max - 1 ==> #[trigger] fitted(s, max)[i] == s[i]
        },
{
}

/// A long name keeps its first and its last five characters, with an ellipsis between them.
pub proof fn shortened_names_keep_both_ends(s: Seq<char>)
    ensures
        s.len() <= 11 ==> ellipsized(s) == s,
        s.len() > 11 ==> {
            &&& ellipsized(s).len() == 11
            &&& forall|i: int| 0 <= i < 5 ==> #[trigger] ellipsized(s)[i] == s[i]
            &&& ellipsized(s)[5] == '…'
            &&& forall|i: int|
                6 <= i < 11 ==> #[trigger] ellipsized(s)[i] == s[s.len() - 11 + i]
        },
{
}

/// The percentage is the whole number of hundredths that are done: none at the start, a
/// hundred at the end, never more than that, and never falling while more is done.
pub proof fn percentages_follow_the_transfer(done: nat, more: nat, total: nat)
    requires
        0 < total,
        done <= more <= total,
        100 * total <= u64::MAX,
    ensures
        percent(done, total) * total <= 100 * done < (percent(done, total) + 1) * total,
        percent(done, total) <= percent(more, total) <= 100,
        percent(0, total) == 0,
        percent(total, total) == 100,
{
    vstd::arithmetic::div_mod::lemma_fundamental_div_mod(100 * done as int, total as int);
    vstd::arithmetic::div_mod::lemma_mod_bound(100 * done as int, total as int);
    vstd::arithmetic::div_mod::lemma_div_is_ordered(
        100 * done as int,
        100 * more as int,
        total as int,
    );
    vstd::arithmetic::div_mod::lemma_div_is_ordered(
        100 * more as int,
        100 * total as int,
        total as int,
    );
    vstd::arithmetic::div_mod::lemma_div_multiples_vanish(100, total as int);
    vstd::arithmetic::div_mod::lemma_div_of0(total as int);
    let p = percent(done, total) as int;
    let t = total as int;
    assert(t * p == p * t) by (nonlinear_arith);
    assert((p + 1) * t == p * t + t) by (nonlinear_arith);
    assert(100 * t == t * 100);
}

/// Both sizes are legible, what is done before what there is in all, and the unit is left out
/// of the first only where it is that of the second.
pub proof fn pairs_name_both_sizes(done: nat, total: nat) -> (first: Seq<char>)
    ensures
        pair_text(done, total) == first + " / "@ + size_text(total),
        SizeUnit::of(done) == SizeUnit::of(total) ==> first + " "@ + SizeUnit::of(total).text()
            == size_text(done),
        SizeUnit::of(done) != SizeUnit::of(total) ==> first == size_text(done),
{
    if SizeUnit::of(done) == SizeUnit::of(total) {
        size_value(done)
    } else {
        size_text(done)
    }
}

} // verus!
