//! What goes to the log, and when its file starts anew.

use vstd::prelude::*;
use vstd::string::*;

use crate::text::copy_of;

verus! {

/// A log file that reached this size is put aside.
pub const MAX_LOG_BYTES: u64 = 4_194_304;

/// The log file in use.
pub const LOG_NAME: &'static str = "clipsync.log";

/// The log file that was put aside last; only one is kept.
pub const LOG_NAME_OLD: &'static str = "clipsync.log.1";

/// What is logged: of this program everything down to the given level, of everything
/// else only warnings.
pub open spec fn levels(own: Seq<char>) -> Seq<char> {
    "warn,clipsync="@ + own + ",clipsync_core="@ + own + ",clipsync_clip="@ + own
        + ",clipsync_net="@ + own
}

/// What is logged. A filter from the environment comes first; it is what developers are
/// used to.
pub fn build_filter(from_env: Option<String>, verbose: bool) -> (r: String)
    ensures
        match from_env {
            Some(f) => r == f,
            None => r@ == levels(
                if verbose {
                    "debug"@
                } else {
                    "info"@
                },
            ),
        },
{
    match from_env {
        Some(f) => f,
        None => {
            let own = if verbose {
                "debug"
            } else {
                "info"
            };
            let mut s = copy_of("warn,clipsync=");
            s.append(own);
            s.append(",clipsync_core=");
            s.append(own);
            s.append(",clipsync_clip=");
            s.append(own);
            s.append(",clipsync_net=");
            s.append(own);
            s
        },
    }
}

/// What came of putting the log file aside.
#[derive(Debug, Clone, Copy, PartialEq, Eq, Structural)]
pub enum Rolled {
    /// The file could not be renamed.
    Kept,
    /// The file was renamed, but no new one could be opened.
    Renamed,
    /// A new file is in use.
    Fresh,
}

/// The size of the log file in use.
#[derive(Debug, Clone, Copy, PartialEq, Eq, Structural)]
pub struct LogSize {
    pub written: u64,
}

/// The size after a write of `n` bytes, where putting aside works.
pub open spec fn after_write(written: nat, n: nat) -> nat {
    if written >= 4_194_304 {
        n
    } else {
        written + n
    }
}

impl LogSize {
    /// Whether the file is to be put aside before the next write.
    pub fn is_full(&self) -> (r: bool)
        ensures
            r == (self.written >= 4_194_304),
    {
        self.written >= MAX_LOG_BYTES
    }

    /// Takes note of how putting aside went. Where it did not work, the old file goes
    /// on: a log that is too long is better than none.
    pub fn rolled(&mut self, how: Rolled)
        ensures
            final(self).written == if how == Rolled::Fresh {
                0
            } else {
                old(self).written
            },
    {
        if how == Rolled::Fresh {
            self.written = 0;
        }
    }

    /// `n` bytes were written.
    pub fn wrote(&mut self, n: u64)
        requires
            old(self).written + n <= u64::MAX,
        ensures
            final(self).written == old(self).written + n,
    {
        self.written = self.written + n;
    }
}

/// The size after a row of writes, where putting aside works.
pub open spec fn after_writes(writes: Seq<nat>) -> nat
    decreases writes.len(),
{
    if writes.len() == 0 {
        0
    } else {
        after_write(after_writes(writes.drop_last()), writes.last())
    }
}

/// The log does not eat up the disk: as long as putting aside works, no file grows beyond
/// the limit by more than one write.
pub proof fn log_stays_small(writes: Seq<nat>, most: nat)
    requires
        forall|i: int| 0 <= i < writes.len() ==> #[trigger] writes[i] <= most,
    ensures
        after_writes(writes) < 4_194_304 + most,
    decreases writes.len(),
{
    if writes.len() > 0 {
        let before = writes.drop_last();
        assert forall|i: int| 0 <= i < before.len() implies #[trigger] before[i] <= most by {
            assert(writes[i] <= most);
        }
        log_stays_small(before, most);
        assert(writes[writes.len() - 1] <= most);
    }
}

} // verus!
