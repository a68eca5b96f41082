//! This device's name, as other devices show it.

use vstd::prelude::*;

use crate::text::{chars_of, copy_of, is_white, only_blank_texts_vanish, string_of, trim, trimmed};

verus! {

/// A found name without surrounding white space; a blank one counts as not found.
pub open spec fn usable(v: Option<String>) -> Option<Seq<char>> {
    match v {
        Some(s) => if trimmed(s@).len() > 0 {
            Some(trimmed(s@))
        } else {
            None
        },
        None => None,
    }
}

/// A found name without surrounding white space; a blank one counts as not found.
pub fn non_empty(v: Option<String>) -> (r: Option<String>)
    ensures
        match r {
            Some(t) => usable(v) == Some(t@),
            None => usable(v) is None,
        },
{
    match v {
        Some(s) => {
            let cs = chars_of(s.as_str());
            let t = trim(&cs);
            if t.len() > 0 {
                Some(string_of(&t))
            } else {
                None
            }
        },
        None => None,
    }
}

/// What stands before the first dot.
pub open spec fn first_segment(s: Seq<char>) -> Seq<char>
    decreases s.len(),
{
    if s.len() == 0 || s[0] == '.' {
        Seq::empty()
    } else {
        seq![s[0]] + first_segment(s.drop_first())
    }
}

proof fn lemma_first_segment(s: Seq<char>, n: int)
    requires
        0 <= n <= s.len(),
        forall|i: int| 0 <= i < n ==> #[trigger] s[i] != '.',
        n == s.len() || s[n] == '.',
    ensures
        first_segment(s) == s.take(n),
    decreases n,
{
    if n == 0 {
        assert(s.take(0) =~= Seq::<char>::empty());
    } else {
        assert(s[0] != '.');
        let t = s.drop_first();
        assert forall|i: int| 0 <= i < n - 1 implies #[trigger] t[i] != '.' by {
            assert(s[i + 1] != '.');
        }
        lemma_first_segment(t, n - 1);
        assert(seq![s[0]] + t.take(n - 1) =~= s.take(n));
    }
}

fn segment(s: &str) -> (r: String)
    ensures
        r@ == first_segment(s@),
{
    let cs = chars_of(s);
    let mut n: usize = 0;
    while n < cs.len() && cs[n] != '.'
        invariant
            n <= cs.len(),
            forall|i: int| 0 <= i < n ==> #[trigger] cs@[i] != '.',
        decreases cs.len() - n,
    {
        n += 1;
    }
    proof {
        lemma_first_segment(cs@, n as int);
    }
    string_of(vstd::slice::slice_subrange(cs.as_slice(), 0, n))
}

/// The host name fit for display: its first segment, without surrounding white space.
pub open spec fn short_host(hostname: Option<String>) -> Option<Seq<char>> {
    match usable(hostname) {
        Some(n) => if trimmed(first_segment(n)).len() > 0 {
            Some(trimmed(first_segment(n)))
        } else {
            None
        },
        None => None,
    }
}

/// The first of several names that was found.
pub open spec fn first_found(
    a: Option<Seq<char>>,
    b: Option<Seq<char>>,
    c: Option<Seq<char>>,
    d: Option<Seq<char>>,
    e: Option<Seq<char>>,
) -> Seq<char> {
    if a is Some {
        a->0
    } else if b is Some {
        b->0
    } else if c is Some {
        c->0
    } else if d is Some {
        d->0
    } else if e is Some {
        e->0
    } else {
        "unknown-host"@
    }
}

/// This device's name from the places where it may be found, in order: the user's own
/// choice, the system's computer name, the name shown in the system's settings, the
/// host name without its domain, and the shell's host name.
pub fn device_name_best_effort(
    chosen: Option<String>,
    computer_name: Option<String>,
    settings_name: Option<String>,
    hostname: Option<String>,
    shell_hostname: Option<String>,
) -> (r: String)
    ensures
        r@ == first_found(
            usable(chosen),
            usable(computer_name),
            usable(settings_name),
            short_host(hostname),
            usable(shell_hostname),
        ),
{
    if let Some(name) = non_empty(chosen) {
        return name;
    }
    if let Some(name) = non_empty(computer_name) {
        return name;
    }
    if let Some(name) = non_empty(settings_name) {
        return name;
    }
    if let Some(name) = non_empty(hostname) {
        let short = segment(name.as_str());
        if let Some(short) = non_empty(Some(short)) {
            return short;
        }
    }
    if let Some(name) = non_empty(shell_hostname) {
        return name;
    }
    copy_of("unknown-host")
}

/// A device always has a name.
pub proof fn device_name_is_never_blank(
    chosen: Option<String>,
    computer_name: Option<String>,
    settings_name: Option<String>,
    hostname: Option<String>,
    shell_hostname: Option<String>,
)
    ensures
        first_found(
            usable(chosen),
            usable(computer_name),
            usable(settings_name),
            short_host(hostname),
            usable(shell_hostname),
        ).len() > 0,
{
    reveal_strlit("unknown-host");
}

/// Whether a place held a name, and not just white space.
pub open spec fn holds_text(v: Option<String>) -> bool {
    v is Some && exists|i: int| 0 <= i < v->0@.len() && !is_white(#[trigger] v->0@[i])
}

proof fn lemma_usable(v: Option<String>)
    ensures
        holds_text(v) <==> usable(v) is Some,
        holds_text(v) ==> usable(v) == Some(trimmed(v->0@)),
{
    if let Some(s) = v {
        only_blank_texts_vanish(s@);
    }
}

/// The places are asked in their order: the user's own choice, the computer's name, the
/// name in the settings, the host name up to its first dot, and the shell's. What they say
/// counts without the white space around it.
pub proof fn names_are_looked_for_in_order(
    chosen: Option<String>,
    computer_name: Option<String>,
    settings_name: Option<String>,
    hostname: Option<String>,
    shell_hostname: Option<String>,
    n: int,
)
    requires
        holds_text(hostname) ==> {
            let h = trimmed(hostname->0@);
            &&& 0 <= n <= h.len()
            &&& forall|i: int| 0 <= i < n ==> #[trigger] h[i] != '.'
            &&& n == h.len() || h[n] == '.'
        },
    ensures
        ({
            let name = first_found(
                usable(chosen),
                usable(computer_name),
                usable(settings_name),
                short_host(hostname),
                usable(shell_hostname),
            );
            let short = trimmed(trimmed(hostname->0@).take(n));
            if holds_text(chosen) {
                name == trimmed(chosen->0@)
            } else if holds_text(computer_name) {
                name == trimmed(computer_name->0@)
            } else if holds_text(settings_name) {
                name == trimmed(settings_name->0@)
            } else if holds_text(hostname) && short.len() > 0 {
                name == short
            } else if holds_text(shell_hostname) {
                name == trimmed(shell_hostname->0@)
            } else {
                name == "unknown-host"@
            }
        }),
{
    lemma_usable(chosen);
    lemma_usable(computer_name);
    lemma_usable(settings_name);
    lemma_usable(hostname);
    lemma_usable(shell_hostname);
    if holds_text(hostname) {
        lemma_first_segment(trimmed(hostname->0@), n);
    }
}

} // verus!
