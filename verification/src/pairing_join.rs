//! Joining a pairing from the tray, step by step.
//!
//! The user types a code; the host is searched for. Where none is found, the code has
//! most likely expired, so that a new one is offered first and typing an address second.

use vstd::prelude::*;
use vstd::string::*;

use crate::pairing_cli::{addr_block, all_lines, indented, pairing_input, parse_pairing_input, HOST_SESSION_TIMEOUT};
use crate::text::{chars_of, copy_of, decimal, decimal_of, string_of, trim, trimmed};
use crate::types::Ip;

verus! {

/// What the user wants who was told that no host was found.
#[derive(Debug, Clone, Copy, PartialEq, Eq, Structural)]
pub enum NotFound {
    /// The other device shows a new code, to be typed anew.
    RetryWithNewCode,
    EnterAddress,
}

/// What comes next.
#[derive(Debug)]
pub enum JoinStep {
    AskCode,
    /// Connect to this host, or search for one.
    Connect(Option<String>),
    /// Ask what to do without a host.
    AskNext,
    AskAddress,
    /// Try the code on the connections that were made.
    Pair,
    /// The user gave up.
    End,
    /// Tell the user what went wrong, and stop.
    Complain(String),
}

/// Joining, so far.
#[derive(Debug)]
pub struct JoinFlow {
    /// The four digits; empty until they are typed.
    pub code: String,
    /// Whether the user typed an address after the search had failed.
    pub typed_address: bool,
}

/// What is said of a text that is no code.
pub open spec fn bad_code_text(input: Seq<char>) -> Seq<char> {
    "「"@ + input + "」不是有效的配对码。\n\n应为 4 位数字。"@
}

impl JoinFlow {
    pub fn new() -> (r: Self)
        ensures
            !r.typed_address,
            r.code@.len() == 0,
    {
        proof {
            reveal_strlit("");
        }
        JoinFlow { code: copy_of(""), typed_address: false }
    }

    /// The user typed a code, perhaps with an address, or gave up.
    pub fn code_typed(&mut self, input: Option<String>) -> (r: JoinStep)
        ensures
            match input {
                None => r is End && *final(self) == *old(self),
                Some(t) => match pairing_input(t@) {
                    None => {
                        &&& r matches JoinStep::Complain(m) && m@ == bad_code_text(t@)
                        &&& *final(self) == *old(self)
                    },
                    Some((code, host)) => {
                        &&& final(self).code@ == code
                        &&& !final(self).typed_address
                        &&& r matches JoinStep::Connect(h) && match h {
                            Some(x) => host == Some(x@),
                            None => host is None,
                        }
                    },
                },
            },
    {
        match input {
            None => JoinStep::End,
            Some(t) => match parse_pairing_input(t.as_str()) {
                None => {
                    let mut s = copy_of("「");
                    s.append(t.as_str());
                    s.append("」不是有效的配对码。\n\n应为 4 位数字。");
                    JoinStep::Complain(s)
                },
                Some((code, host)) => {
                    self.code = copy_of(code.as_str());
                    self.typed_address = false;
                    JoinStep::Connect(host)
                },
            },
        }
    }

    /// The search for a host, or the attempt at the typed address, ended.
    pub fn connected(&self, result: Result<(), String>) -> (r: JoinStep)
        ensures
            match result {
                Ok(_) => r is Pair,
                Err(e) => if self.typed_address {
                    r == JoinStep::Complain(e)
                } else {
                    r is AskNext
                },
            },
    {
        match result {
            Ok(_) => JoinStep::Pair,
            Err(e) => if self.typed_address {
                JoinStep::Complain(e)
            } else {
                JoinStep::AskNext
            },
        }
    }

    /// The user said what to do without a host.
    pub fn next_chosen(&self, what: Option<NotFound>) -> (r: JoinStep)
        ensures
            match what {
                Some(NotFound::RetryWithNewCode) => r is AskCode,
                Some(NotFound::EnterAddress) => r is AskAddress,
                None => r is End,
            },
    {
        match what {
            Some(NotFound::RetryWithNewCode) => JoinStep::AskCode,
            Some(NotFound::EnterAddress) => JoinStep::AskAddress,
            None => JoinStep::End,
        }
    }

    /// The user typed the host's address, or gave up.
    pub fn address_typed(&mut self, input: Option<String>) -> (r: JoinStep)
        ensures
            final(self).code == old(self).code,
            match input {
                None => r is End && final(self).typed_address == old(self).typed_address,
                Some(t) => {
                    &&& r matches JoinStep::Connect(Some(h)) && h@ == trimmed(t@)
                    &&& final(self).typed_address
                },
            },
    {
        match input {
            None => JoinStep::End,
            Some(t) => {
                let cs = chars_of(t.as_str());
                let cs = trim(&cs);
                self.typed_address = true;
                JoinStep::Connect(Some(string_of(&cs)))
            },
        }
    }
}

/// What the picked item stands for.
pub fn ask_what_next(choice: Option<usize>) -> (r: Option<NotFound>)
    ensures
        r == match choice {
            Some(0) => Some(NotFound::RetryWithNewCode),
            Some(1) => Some(NotFound::EnterAddress),
            _ => None,
        },
{
    match choice {
        Some(i) => if i == 0 {
            Some(NotFound::RetryWithNewCode)
        } else if i == 1 {
            Some(NotFound::EnterAddress)
        } else {
            None
        },
        None => None,
    }
}

/// What is asked where no host was found: the likeliest reason comes first.
pub fn not_found_body() -> (r: String)
    ensures
        r@ == "没找到正在等待配对的设备。\n\n配对码 "@ + decimal(3)
            + " 分钟内有效，多半是过期了。"@,
{
    let mut s = copy_of("没找到正在等待配对的设备。\n\n配对码 ");
    s.append(decimal_of(HOST_SESSION_TIMEOUT / 60).as_str());
    s.append(" 分钟内有效，多半是过期了。");
    s
}

/// What is asked where the user types an address: the own addresses stand beside it, to
/// tell which of the other's is on the same network.
pub fn ask_address_body(addrs: &Vec<Ip>) -> (r: String)
    ensures
        ({
            let head = "请输入对方的 IP（对方窗口里有）："@;
            r@ == if all_lines(addrs@).len() == 0 {
                head
            } else {
                head + "\n\n本机地址，供对照挑同网段的：\n"@ + indented(all_lines(addrs@))
            }
        }),
{
    let mut s = copy_of("请输入对方的 IP（对方窗口里有）：");
    if let Some(block) = addr_block(addrs) {
        s.append("\n\n本机地址，供对照挑同网段的：\n");
        s.append(block.as_str());
    }
    s
}

/// What is said when joining is over: with whom this device is paired now, or why not.
pub fn finish_join(result: &Result<String, String>) -> (r: String)
    ensures
        match result {
            Ok(name) => r@ == "已与「"@ + name@ + "」配对。"@,
            Err(e) => r@ == e@,
        },
{
    match result {
        Ok(name) => {
            let mut s = copy_of("已与「");
            s.append(name.as_str());
            s.append("」配对。");
            s
        },
        Err(e) => copy_of(e.as_str()),
    }
}

} // verus!
