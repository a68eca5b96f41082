//! Which language the interface speaks.
//!
//! An explicit choice in the settings comes first, then the system's language, then
//! Chinese.

use vstd::prelude::*;

use crate::text::{ascii_lower, chars_eq, chars_of, lowered, to_lower, trim, trimmed};

verus! {

/// A language of the interface.
#[derive(Debug, Clone, Copy, PartialEq, Eq, Structural)]
pub enum Lang {
    Zh,
    English,
}

impl Lang {
    /// How the language is written in the settings file.
    pub open spec fn code(self) -> Seq<char> {
        match self {
            Lang::Zh => "zh"@,
            Lang::English => "en"@,
        }
    }

    /// How the language is written in the settings file.
    pub fn as_str(self) -> (r: &'static str)
        ensures
            r@ == self.code(),
    {
        match self {
            Lang::Zh => "zh",
            Lang::English => "en",
        }
    }
}

impl Default for Lang {
    fn default() -> (r: Self)
        ensures
            r == Lang::Zh,
    {
        Lang::Zh
    }
}

/// The language asked for in the settings.
#[derive(Debug, Clone, Copy, PartialEq, Eq, Structural)]
pub enum LangPref {
    /// Whatever the system speaks.
    Auto,
    Fixed(Lang),
}

impl Default for LangPref {
    fn default() -> (r: Self)
        ensures
            r == LangPref::Auto,
    {
        LangPref::Auto
    }
}

/// The preference that a settings value stands for; anything unknown follows the
/// system.
pub open spec fn preference(s: Seq<char>) -> LangPref {
    let t = lowered(trimmed(s));
    if t == "zh"@ {
        LangPref::Fixed(Lang::Zh)
    } else if t == "en"@ {
        LangPref::Fixed(Lang::English)
    } else {
        LangPref::Auto
    }
}

impl LangPref {
    /// How the preference is written in the settings file.
    pub open spec fn code(self) -> Seq<char> {
        match self {
            LangPref::Auto => "auto"@,
            LangPref::Fixed(l) => l.code(),
        }
    }

    /// How the preference is written in the settings file: `auto`, `zh` or `en`.
    pub fn as_str(self) -> (r: &'static str)
        ensures
            r@ == self.code(),
    {
        match self {
            LangPref::Auto => "auto",
            LangPref::Fixed(l) => l.as_str(),
        }
    }

    /// Reads a settings value.
    pub fn parse(s: &str) -> (r: Self)
        ensures
            r == preference(s@),
    {
        let cs = chars_of(s);
        let t = trim(&cs);
        let t = to_lower(&t);
        if chars_eq(&t, "zh") {
            LangPref::Fixed(Lang::Zh)
        } else if chars_eq(&t, "en") {
            LangPref::Fixed(Lang::English)
        } else {
            LangPref::Auto
        }
    }

    /// The language in effect, given the system's if it is known.
    pub fn resolve(self, system: Option<Lang>) -> (r: Lang)
        ensures
            r == match self {
                LangPref::Fixed(l) => l,
                LangPref::Auto => match system {
                    Some(l) => l,
                    None => Lang::Zh,
                },
            },
    {
        match self {
            LangPref::Fixed(l) => l,
            LangPref::Auto => match system {
                Some(l) => l,
                None => Lang::default(),
            },
        }
    }
}

/// Where a locale's name ends and its encoding or variant begins.
pub open spec fn locale_end(s: Seq<char>) -> nat
    decreases s.len(),
{
    if s.len() == 0 || s[0] == '.' || s[0] == '@' {
        0
    } else {
        1 + locale_end(s.drop_first())
    }
}

/// The language of a locale such as `zh_CN.UTF-8`: Chinese where it starts with `zh`,
/// English else.
pub open spec fn locale_language(s: Seq<char>) -> Lang {
    let name = lowered(s.take(locale_end(s) as int));
    if name.len() >= 2 && name[0] == 'z' && name[1] == 'h' {
        Lang::Zh
    } else {
        Lang::English
    }
}

/// The language of a locale such as `zh_CN.UTF-8`.
pub fn system_language(locale: &str) -> (r: Lang)
    ensures
        r == locale_language(locale@),
{
    let cs = chars_of(locale);
    let mut name: Vec<char> = Vec::new();
    let mut i: usize = 0;
    assert(cs@.skip(0) =~= cs@);
    while i < cs.len() && cs[i] != '.' && cs[i] != '@'
        invariant
            i <= cs.len(),
            name@ == cs@.take(i as int),
            locale_end(cs@) == i + locale_end(cs@.skip(i as int)),
        decreases cs.len() - i,
    {
        proof {
            assert(cs@.skip(i as int)[0] == cs@[i as int]);
            assert(cs@.skip(i as int).drop_first() =~= cs@.skip(i + 1));
        }
        name.push(cs[i]);
        i += 1;
    }
    proof {
        if i < cs.len() {
            assert(cs@.skip(i as int)[0] == cs@[i as int]);
        }
    }
    let name = to_lower(&name);
    if name.len() >= 2 && name[0] == 'z' && name[1] == 'h' {
        Lang::Zh
    } else {
        Lang::English
    }
}

/// What is written to the settings file reads back as the same preference.
pub proof fn written_preference_reads_back(p: LangPref)
    ensures
        preference(p.code()) == p,
{
    reveal_strlit("auto");
    reveal_strlit("zh");
    reveal_strlit("en");
    let s = p.code();
    assert(crate::text::trim_start(s) == s);
    assert(crate::text::trim_end(s) == s);
    assert(lowered(s) =~= s);
    if p == LangPref::Auto {
        assert(s.len() == 4);
    } else if p == LangPref::Fixed(Lang::English) {
        assert(s[0] != "zh"@[0]);
    }
}

/// A locale is Chinese exactly where it starts with `zh`, in capital or small letters.
pub proof fn chinese_locales_start_with_zh(s: Seq<char>)
    ensures
        locale_language(s) == Lang::Zh <==> s.len() >= 2 && (s[0] == 'z' || s[0] == 'Z') && (s[1]
            == 'h' || s[1] == 'H'),
{
    reveal_with_fuel(locale_end, 3);
    if s.len() >= 2 {
        assert(s.drop_first()[0] == s[1]);
    }
    lemma_locale_end(s);
    let name = s.take(locale_end(s) as int);
    if name.len() >= 2 {
        assert(lowered(name)[0] == ascii_lower(s[0]) && lowered(name)[1] == ascii_lower(s[1]));
        lemma_lower_is(s[0], 'z');
        lemma_lower_is(s[1], 'h');
    }
}

proof fn lemma_locale_end(s: Seq<char>)
    ensures
        locale_end(s) <= s.len(),
    decreases s.len(),
{
    if s.len() > 0 {
        lemma_locale_end(s.drop_first());
    }
}

proof fn lemma_lower_is(c: char, small: char)
    requires
        'a' <= small <= 'z',
    ensures
        ascii_lower(c) == small <==> c == small || c as u32 + 32 == small as u32,
{
}

/// White space around a settings value and the case of its letters do not matter, and no
/// value but `zh` and `en` fixes a language.
pub proof fn a_preference_is_zh_or_en(s: Seq<char>)
    ensures
        preference(s) == LangPref::Fixed(Lang::Zh) <==> ({
            let t = trimmed(s);
            t.len() == 2 && (t[0] == 'z' || t[0] == 'Z') && (t[1] == 'h' || t[1] == 'H')
        }),
        preference(s) == LangPref::Fixed(Lang::English) <==> ({
            let t = trimmed(s);
            t.len() == 2 && (t[0] == 'e' || t[0] == 'E') && (t[1] == 'n' || t[1] == 'N')
        }),
{
    reveal_strlit("zh");
    reveal_strlit("en");
    let t = trimmed(s);
    let u = lowered(t);
    assert(u.len() == t.len());
    if t.len() == 2 {
        assert(u[0] == ascii_lower(t[0]) && u[1] == ascii_lower(t[1]));
        lemma_lower_is(t[0], 'z');
        lemma_lower_is(t[1], 'h');
        lemma_lower_is(t[0], 'e');
        lemma_lower_is(t[1], 'n');
        assert(u == "zh"@ <==> u[0] == 'z' && u[1] == 'h') by {
            if u[0] == 'z' && u[1] == 'h' {
                assert(u =~= "zh"@);
            }
        }
        assert(u == "en"@ <==> u[0] == 'e' && u[1] == 'n') by {
            if u[0] == 'e' && u[1] == 'n' {
                assert(u =~= "en"@);
            }
        }
    }
}

} // verus!
