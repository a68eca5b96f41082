//! The one pairing session that may be hosted at a time.
//!
//! Asking for a code while one is live shows that code again, instead of starting a
//! second session that could not have the port. Times are milliseconds since the program
//! started.

use vstd::prelude::*;

use crate::text::{copy_of, str_eq};

verus! {

/// A session that waits for the other device.
#[derive(Debug)]
pub struct Session {
    /// The code; empty until it is known.
    pub code: String,
    /// When the code expires, once it is known.
    pub deadline: Option<u64>,
    /// Whether the user asked for another code.
    pub cancelled: bool,
}

/// A live code and how long it stays so, in milliseconds.
#[derive(Debug)]
pub struct LiveCode {
    pub code: String,
    pub remaining: u64,
}

impl LiveCode {
    /// The whole seconds left, rounded up: a code that still works never shows as gone.
    pub fn seconds(&self) -> (r: u64)
        ensures
            self.remaining == 0 ==> r == 0,
            self.remaining > 0 ==> 1000 * (r - 1) < self.remaining <= 1000 * r,
    {
        self.remaining / 1000 + if self.remaining % 1000 > 0 {
            1u64
        } else {
            0u64
        }
    }
}

/// The place of the one session.
#[derive(Debug)]
pub struct PairingHostSlot {
    pub active: Option<Session>,
}

impl Default for PairingHostSlot {
    fn default() -> (r: Self)
        ensures
            r.active is None,
    {
        PairingHostSlot { active: None }
    }
}

impl PairingHostSlot {
    /// Whether there is a session whose code is known.
    pub open spec fn has_code(&self) -> bool {
        self.active matches Some(s) && s.code@.len() > 0
    }

    /// Whether a code can be used at `now`.
    pub open spec fn is_live(&self, now: u64) -> bool {
        &&& self.has_code()
        &&& self.active->0.deadline matches Some(d)
        &&& now < d
    }

    /// Takes the place, unless it is taken. Until its code is known, a session has none.
    pub fn try_acquire(&mut self) -> (r: bool)
        ensures
            r == old(self).active is None,
            r ==> (final(self).active matches Some(s) && s.code@.len() == 0 && s.deadline is None
                && !s.cancelled),
            !r ==> *final(self) == *old(self),
    {
        if self.active.is_some() {
            return false;
        }
        self.active = Some(Session { code: copy_of(""), deadline: None, cancelled: false });
        proof {
            reveal_strlit("");
        }
        true
    }

    /// Notes the session's code and when it expires.
    pub fn begin(&mut self, code: &str, deadline: u64)
        ensures
            match old(self).active {
                None => final(self).active is None,
                Some(s) => final(self).active matches Some(t) && t.code@ == code@ && t.deadline
                    == Some(deadline) && t.cancelled == s.cancelled,
            },
    {
        match self.active.take() {
            None => {},
            Some(s) => {
                self.active = Some(
                    Session {
                        code: copy_of(code),
                        deadline: Some(deadline),
                        cancelled: s.cancelled,
                    },
                );
            },
        }
    }

    /// The live code, if there is one: an expired one is none.
    pub fn live(&self, now: u64) -> (r: Option<LiveCode>)
        ensures
            r is Some == self.is_live(now),
            r matches Some(l) ==> l.code@ == self.active->0.code@ && now + l.remaining
                == self.active->0.deadline->0,
    {
        match &self.active {
            None => None,
            Some(s) => {
                if is_empty(s.code.as_str()) {
                    return None;
                }
                match s.deadline {
                    None => None,
                    Some(d) => if now < d {
                        Some(LiveCode { code: s.code.clone(), remaining: d - now })
                    } else {
                        None
                    },
                }
            },
        }
    }

    /// Asks for another code, which ends the present session; whether there was one to
    /// end. With `only_if`, only the session with that code is ended: a window left on
    /// the screen must not end a session that came after its own.
    pub fn request_new_code(&mut self, only_if: Option<&str>) -> (r: bool)
        ensures
            r == (old(self).has_code() && (only_if matches Some(c) ==> c@
                == old(self).active->0.code@)),
            r ==> (final(self).active matches Some(s) && s.cancelled && s.code
                == old(self).active->0.code && s.deadline == old(self).active->0.deadline),
            !r ==> *final(self) == *old(self),
    {
        let meant = match &self.active {
            None => false,
            Some(s) => !is_empty(s.code.as_str()) && match only_if {
                None => true,
                Some(c) => str_eq(c, s.code.as_str()),
            },
        };
        if !meant {
            return false;
        }
        match self.active.take() {
            None => {},
            Some(s) => {
                self.active = Some(
                    Session { code: s.code, deadline: s.deadline, cancelled: true },
                );
            },
        }
        true
    }

    /// Whether the user asked for another code.
    pub fn is_cancelled(&self) -> (r: bool)
        ensures
            r == (self.active matches Some(s) && s.cancelled),
    {
        match &self.active {
            None => false,
            Some(s) => s.cancelled,
        }
    }

    /// The session is over, however it ended.
    pub fn release(&mut self)
        ensures
            final(self).active is None,
    {
        self.active = None;
    }
}

fn is_empty(s: &str) -> (r: bool)
    ensures
        r == (s@.len() == 0),
{
    proof {
        reveal_strlit("");
    }
    let r = str_eq(s, "");
    assert(r == (s@ =~= ""@));
    r
}

/// A code can be used from when it is known until it expires, and never again after that.
pub proof fn codes_work_until_they_expire(slot: PairingHostSlot, now: u64, later: u64)
    requires
        now <= later,
    ensures
        slot.is_live(now) <==> slot.active is Some && slot.active->0.code@.len() > 0
            && slot.active->0.deadline is Some && now < slot.active->0.deadline->0,
        !slot.is_live(now) ==> !slot.is_live(later),
{
}

} // verus!
