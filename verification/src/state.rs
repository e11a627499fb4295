//! The shared state of one scan operation: a cancellation flag, running
//! progress counters, and an append-only error log. The scan driver is
//! expected to share one value of this per scan and to poll the flag at
//! its cancellation checkpoints.

use vstd::prelude::*;

verus! {

/// Addition that wraps around the 64-bit counter range, as the shared
/// progress counters do.
pub open spec fn wrap_add_u64(x: u64, y: u64) -> u64 {
    if x + y > u64::MAX {
        (x + y - 0x1_0000_0000_0000_0000) as u64
    } else {
        (x + y) as u64
    }
}

/// The per-scan mutable state: cancellation, progress and the error log.
pub struct ScanState {
    pub canceled: bool,
    pub bytes: u64,
    pub dirs: u64,
    pub files: u64,
    pub error_log: Vec<String>,
}

impl ScanState {
    /// The state after a cancellation request: only the flag changes, and
    /// it can only go from false to true.
    pub open spec fn after_cancel(s: ScanState) -> ScanState {
        ScanState { canceled: true, ..s }
    }

    /// A fresh state: not canceled, all counters zero, empty error log.
    pub fn new() -> (r: ScanState)
        ensures
            !r.canceled,
            r.bytes == 0,
            r.dirs == 0,
            r.files == 0,
            r.error_log@.len() == 0,
    {
        ScanState { canceled: false, bytes: 0, dirs: 0, files: 0, error_log: Vec::new() }
    }

    /// Requests cooperative cancellation.
    pub fn cancel(&mut self)
        ensures
            *final(self) == Self::after_cancel(*old(self)),
    {
        self.canceled = true;
    }

    /// Has cancellation been requested?
    pub fn canceled(&self) -> (r: bool)
        ensures
            r == self.canceled,
    {
        self.canceled
    }

    /// Bytes hashed so far.
    pub fn bytes(&self) -> (r: u64)
        ensures
            r == self.bytes,
    {
        self.bytes
    }

    /// Directories visited so far.
    pub fn dirs(&self) -> (r: u64)
        ensures
            r == self.dirs,
    {
        self.dirs
    }

    /// Files visited so far.
    pub fn files(&self) -> (r: u64)
        ensures
            r == self.files,
    {
        self.files
    }

    /// Counts bytes hashed; wraps on counter overflow.
    pub fn add_bytes(&mut self, n: u64)
        ensures
            final(self).bytes == wrap_add_u64(old(self).bytes, n),
            final(self).canceled == old(self).canceled,
            final(self).dirs == old(self).dirs,
            final(self).files == old(self).files,
            final(self).error_log == old(self).error_log,
    {
        self.bytes = self.bytes.wrapping_add(n);
    }

    /// Counts one visited directory; wraps on counter overflow.
    pub fn inc_dirs(&mut self)
        ensures
            final(self).dirs == wrap_add_u64(old(self).dirs, 1),
            final(self).canceled == old(self).canceled,
            final(self).bytes == old(self).bytes,
            final(self).files == old(self).files,
            final(self).error_log == old(self).error_log,
    {
        self.dirs = self.dirs.wrapping_add(1);
    }

    /// Counts one visited file; wraps on counter overflow.
    pub fn inc_files(&mut self)
        ensures
            final(self).files == wrap_add_u64(old(self).files, 1),
            final(self).canceled == old(self).canceled,
            final(self).bytes == old(self).bytes,
            final(self).dirs == old(self).dirs,
            final(self).error_log == old(self).error_log,
    {
        self.files = self.files.wrapping_add(1);
    }

    /// Appends one message to the error log; nothing else changes.
    pub fn log(&mut self, message: String)
        ensures
            final(self).error_log@ == old(self).error_log@.push(message),
            final(self).canceled == old(self).canceled,
            final(self).bytes == old(self).bytes,
            final(self).dirs == old(self).dirs,
            final(self).files == old(self).files,
    {
        self.error_log.push(message);
    }

    /// The last error and how many earlier errors there were, if any
    /// error was logged at all.
    pub fn last_error_plus(&self) -> (r: Option<(String, usize)>)
        ensures
            match r {
                Option::None => self.error_log@.len() == 0,
                Option::Some((m, extra)) => {
                    &&& self.error_log@.len() > 0
                    &&& m == self.error_log@.last()
                    &&& extra == self.error_log@.len() - 1
                },
            },
    {
        if self.error_log.len() == 0 {
            None
        } else {
            let m = self.error_log[self.error_log.len() - 1].clone();
            Some((m, self.error_log.len() - 1))
        }
    }

    /// A snapshot of the whole error log, in append order.
    pub fn clone_error_log(&self) -> (r: Vec<String>)
        ensures
            r@ == self.error_log@,
    {
        let mut r: Vec<String> = Vec::new();
        let mut i: usize = 0;
        while i < self.error_log.len()
            invariant
                i <= self.error_log@.len(),
                r@ == self.error_log@.take(i as int),
            decreases self.error_log@.len() - i,
        {
            proof {
                assert(self.error_log@.take(i + 1) =~= self.error_log@.take(i as int).push(
                    self.error_log@[i as int],
                ));
            }
            r.push(self.error_log[i].clone());
            i = i + 1;
        }
        proof {
            assert(self.error_log@.take(i as int) =~= self.error_log@);
        }
        r
    }
}

/// Cancellation idempotence: canceling an already-canceled state changes
/// nothing, and a canceled state stays canceled; so canceling before or
/// during a scan leads the driver's checkpoints to observe the flag and
/// yield no result, however many times cancel was requested.
pub proof fn lemma_cancel_idempotent(s: ScanState)
    ensures
        ScanState::after_cancel(ScanState::after_cancel(s)) == ScanState::after_cancel(s),
        ScanState::after_cancel(s).canceled,
        ScanState::after_cancel(s).bytes == s.bytes,
        ScanState::after_cancel(s).dirs == s.dirs,
        ScanState::after_cancel(s).files == s.files,
        ScanState::after_cancel(s).error_log == s.error_log,
{
}

} // verus!
