//! Starting with the user's session.
//!
//! On Windows this is a value in the registry, on macOS a launch agent. Both belong to
//! the user alone and need no special rights. Writing them is the caller's; what is
//! written is decided here.

use vstd::prelude::*;
use vstd::string::*;

use crate::text::{chars_of, copy_of, str_eq};

verus! {

/// The name under which the program is entered.
pub const APP_KEY: &'static str = "ClipSync";

/// The registry key that holds what starts with the session.
pub const RUN_KEY: &'static str = "HKCU\\Software\\Microsoft\\Windows\\CurrentVersion\\Run";

/// The launch agent's file name.
pub const PLIST_NAME: &'static str = "com.clipsync.plist";

/// Whether the program starts with the session; no where that cannot be told.
pub fn is_enabled<E>(asked: Result<bool, E>) -> (r: bool)
    ensures
        r == match asked {
            Ok(v) => v,
            Err(_) => false,
        },
{
    match asked {
        Ok(v) => v,
        Err(_) => false,
    }
}

/// Whether a program lies where builds put their results, going by the parts of its path.
/// An entry that points there stops working, unnoticed, when the build is cleaned.
pub fn is_transient(parts: &Vec<String>) -> (r: bool)
    ensures
        r == exists|i: int|
            0 <= i < parts@.len() && ((#[trigger] parts@[i])@ == "target"@ || parts@[i]@
                == "deps"@),
{
    let mut i: usize = 0;
    while i < parts.len()
        invariant
            i <= parts.len(),
            forall|k: int|
                0 <= k < i ==> (#[trigger] parts@[k])@ != "target"@ && parts@[k]@ != "deps"@,
        decreases parts.len() - i,
    {
        if str_eq(parts[i].as_str(), "target") || str_eq(parts[i].as_str(), "deps") {
            return true;
        }
        i += 1;
    }
    false
}

/// What is said where the entry would point to a build's result.
pub fn transient_warning(exe: &str) -> (r: String)
    ensures
        r@ == "自启将指向构建产物 "@ + exe@
            + "，cargo clean 或移动目录后会失效；正式使用请指向安装后的位置或 .app 内的可执行文件"@,
{
    let mut s = copy_of("自启将指向构建产物 ");
    s.append(exe);
    s.append(
        "，cargo clean 或移动目录后会失效；正式使用请指向安装后的位置或 .app 内的可执行文件",
    );
    s
}

/// The registry value: the program's path in quotes, for it may hold blanks.
pub fn registry_value(exe: &str) -> (r: String)
    ensures
        r@ == "\""@ + exe@ + "\""@,
{
    let mut s = copy_of("\"");
    s.append(exe);
    s.append("\"");
    s
}

/// Whether a change of the registry failed. Deleting an entry that is not there reports
/// failure too, and is none.
pub fn registry_failed(enable: bool, success: bool) -> (r: bool)
    ensures
        r == (enable && !success),
{
    enable && !success
}

/// How a character is written in an XML text.
pub open spec fn entity(c: char) -> Seq<char> {
    if c == '&' {
        "&amp;"@
    } else if c == '<' {
        "&lt;"@
    } else if c == '>' {
        "&gt;"@
    } else if c == '"' {
        "&quot;"@
    } else if c == '\'' {
        "&apos;"@
    } else {
        seq![c]
    }
}

/// How a text is written in XML.
pub open spec fn escaped(s: Seq<char>) -> Seq<char>
    decreases s.len(),
{
    if s.len() == 0 {
        Seq::empty()
    } else {
        entity(s[0]) + escaped(s.drop_first())
    }
}

/// Writes a text in XML. A path may hold any character, and one `&` left as it is would
/// make the whole file invalid.
pub fn xml_escape(s: &str) -> (r: String)
    ensures
        r@ == escaped(s@),
{
    let cs = chars_of(s);
    let mut out = String::new();
    let mut i: usize = 0;
    assert(cs@.skip(0) =~= cs@);
    assert(out@ + escaped(cs@) =~= escaped(cs@));
    while i < cs.len()
        invariant
            i <= cs.len(),
            out@ + escaped(cs@.skip(i as int)) == escaped(cs@),
        decreases cs.len() - i,
    {
        let c = cs[i];
        let ghost before = out@;
        if c == '&' {
            out.append("&amp;");
        } else if c == '<' {
            out.append("&lt;");
        } else if c == '>' {
            out.append("&gt;");
        } else if c == '"' {
            out.append("&quot;");
        } else if c == '\'' {
            out.append("&apos;");
        } else {
            out.push(c);
        }
        proof {
            let rest = cs@.skip(i as int);
            assert(rest[0] == c);
            assert(rest.drop_first() =~= cs@.skip(i + 1));
            assert(out@ =~= before + entity(c));
            assert(out@ + escaped(cs@.skip(i + 1)) =~= before + escaped(rest));
        }
        i += 1;
    }
    assert(cs@.skip(cs@.len() as int) =~= Seq::<char>::empty());
    assert(out@ =~= out@ + Seq::<char>::empty());
    out
}

/// A character that XML gives a meaning of its own.
pub open spec fn is_special(c: char) -> bool {
    c == '&' || c == '<' || c == '>' || c == '"' || c == '\''
}

/// What an XML text stands for.
pub open spec fn unescaped(s: Seq<char>) -> Seq<char>
    decreases s.len(),
{
    if s.len() == 0 {
        Seq::empty()
    } else if s.len() >= 5 && s.take(5) == "&amp;"@ {
        seq!['&'] + unescaped(s.skip(5))
    } else if s.len() >= 4 && s.take(4) == "&lt;"@ {
        seq!['<'] + unescaped(s.skip(4))
    } else if s.len() >= 4 && s.take(4) == "&gt;"@ {
        seq!['>'] + unescaped(s.skip(4))
    } else if s.len() >= 6 && s.take(6) == "&quot;"@ {
        seq!['"'] + unescaped(s.skip(6))
    } else if s.len() >= 6 && s.take(6) == "&apos;"@ {
        seq!['\''] + unescaped(s.skip(6))
    } else {
        seq![s[0]] + unescaped(s.drop_first())
    }
}

proof fn reveal_entities()
    ensures
        "&amp;"@ =~= seq!['&', 'a', 'm', 'p', ';'],
        "&lt;"@ =~= seq!['&', 'l', 't', ';'],
        "&gt;"@ =~= seq!['&', 'g', 't', ';'],
        "&quot;"@ =~= seq!['&', 'q', 'u', 'o', 't', ';'],
        "&apos;"@ =~= seq!['&', 'a', 'p', 'o', 's', ';'],
{
    reveal_strlit("&amp;");
    reveal_strlit("&lt;");
    reveal_strlit("&gt;");
    reveal_strlit("&quot;");
    reveal_strlit("&apos;");
}

/// What is written in XML reads back as the same text, whatever it holds.
pub proof fn escaping_loses_nothing(s: Seq<char>)
    ensures
        unescaped(escaped(s)) == s,
    decreases s.len(),
{
    if s.len() > 0 {
        reveal_entities();
        let t = s.drop_first();
        escaping_loses_nothing(t);
        let e = entity(s[0]);
        let w = escaped(s);
        assert(w == e + escaped(t));
        let n = e.len() as int;
        assert(w.take(n) =~= e);
        assert(w.skip(n) =~= escaped(t));
        assert(s =~= seq![s[0]] + t);
        if s[0] == '&' {
        } else if s[0] == '<' {
            assert(w[1] == 'l');
            assert(w.len() >= 5 ==> w.take(5)[1] == 'l');
        } else if s[0] == '>' {
            assert(w[1] == 'g');
            assert(w.len() >= 5 ==> w.take(5)[1] == 'g');
            assert(w.take(4)[1] == 'g');
        } else if s[0] == '"' {
            assert(w.take(5)[1] == 'q');
            assert(w.take(4)[1] == 'q');
        } else if s[0] == '\'' {
            assert(w.take(5)[2] == 'p');
            assert(w.take(4)[1] == 'a');
            assert(w.take(6)[1] == 'a');
        } else {
            assert(w[0] == s[0]);
            assert(w.len() >= 5 ==> w.take(5)[0] == s[0]);
            assert(w.len() >= 4 ==> w.take(4)[0] == s[0]);
            assert(w.len() >= 6 ==> w.take(6)[0] == s[0]);
            assert(w.drop_first() =~= escaped(t));
        }
    }
}

/// Nothing that ends a text or starts an element is left in it.
pub proof fn escaped_text_is_inert(s: Seq<char>, i: int)
    requires
        0 <= i < escaped(s).len(),
    ensures
        escaped(s)[i] != '<',
        escaped(s)[i] != '>',
        escaped(s)[i] != '"',
        escaped(s)[i] != '\'',
    decreases s.len(),
{
    reveal_entities();
    let e = entity(s[0]);
    if i >= e.len() {
        escaped_text_is_inert(s.drop_first(), i - e.len());
    }
}

/// A text without special characters stays as it is.
pub proof fn ordinary_text_is_untouched(s: Seq<char>)
    requires
        forall|i: int| 0 <= i < s.len() ==> !is_special(#[trigger] s[i]),
    ensures
        escaped(s) == s,
    decreases s.len(),
{
    if s.len() > 0 {
        assert(!is_special(s[0]));
        let t = s.drop_first();
        assert forall|i: int| 0 <= i < t.len() implies !is_special(#[trigger] t[i]) by {
            assert(!is_special(s[i + 1]));
        }
        ordinary_text_is_untouched(t);
        assert(s =~= seq![s[0]] + t);
    }
}

/// What the launch agent's file holds before the program's path.
pub const PLIST_HEAD: &'static str = "<?xml version=\"1.0\" encoding=\"UTF-8\"?>
<!DOCTYPE plist PUBLIC \"-//Apple//DTD PLIST 1.0//EN\" \"http://www.apple.com/DTDs/PropertyList-1.0.dtd\">
<plist version=\"1.0\">
<dict>
    <key>Label</key>
    <string>com.clipsync</string>
    <key>ProgramArguments</key>
    <array>
        <string>";

/// What it holds behind that.
pub const PLIST_TAIL: &'static str = "</string>
    </array>
    <key>RunAtLoad</key>
    <true/>
    <key>KeepAlive</key>
    <false/>
</dict>
</plist>
";

/// The launch agent that starts `exe`.
pub fn launch_agent(exe: &str) -> (r: String)
    ensures
        r@ == PLIST_HEAD@ + escaped(exe@) + PLIST_TAIL@,
{
    let mut s = copy_of(PLIST_HEAD);
    s.append(xml_escape(exe).as_str());
    s.append(PLIST_TAIL);
    s
}

} // verus!
