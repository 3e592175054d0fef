//! Download planning: resume decisions, status-code handling, and the
//! bounded-concurrency admission counter. The caller performs the network
//! transfers these decisions govern.

use vstd::prelude::*;

verus! {

/// How to begin a transfer, given what is already on disk.
#[derive(Clone, Copy, PartialEq, Eq, Structural, Debug)]
pub enum ResumeAction {
    /// The file is already at least as large as expected: nothing to fetch.
    AlreadyComplete,
    /// Ask for the bytes from this offset on and append them.
    ResumeFrom(u64),
    /// Fetch the whole body into a fresh file.
    Fresh,
}

/// What to do with a response body.
#[derive(Clone, Copy, PartialEq, Eq, Structural, Debug)]
pub enum BodyAction {
    /// Append the body at the current end of the file.
    Append,
    /// The server ignored the range: truncate the file and write the whole
    /// body from the start.
    Restart,
    /// A non-success status: abandon the transfer.
    Fail,
}

/// The bounded-parallelism download manager: at most `parallel_downloads`
/// transfers run at once; excess work waits.
pub struct DownloadManager {
    parallel_downloads: usize,
    in_flight: usize,
}

impl DownloadManager {
    pub closed spec fn limit(self) -> usize {
        self.parallel_downloads
    }

    pub closed spec fn running(self) -> usize {
        self.in_flight
    }

    /// No more transfers run than the limit allows.
    pub open spec fn wf(self) -> bool {
        self.running() <= self.limit()
    }

    pub fn new(parallel_downloads: usize) -> (m: DownloadManager)
        ensures
            m.wf(),
            m.limit() == parallel_downloads,
            m.running() == 0,
    {
        DownloadManager { parallel_downloads, in_flight: 0 }
    }

    /// Admits one transfer when a slot is free; refused work queues.
    pub fn try_begin(&mut self) -> (admitted: bool)
        requires
            old(self).wf(),
        ensures
            final(self).wf(),
            final(self).limit() == old(self).limit(),
            admitted == (old(self).running() < old(self).limit()),
            admitted ==> final(self).running() == old(self).running() + 1,
            !admitted ==> final(self).running() == old(self).running(),
    {
        if self.in_flight < self.parallel_downloads {
            self.in_flight = self.in_flight + 1;
            true
        } else {
            false
        }
    }

    /// Releases the slot of a finished transfer.
    pub fn finish(&mut self)
        requires
            old(self).wf(),
            old(self).running() > 0,
        ensures
            final(self).wf(),
            final(self).limit() == old(self).limit(),
            final(self).running() == old(self).running() - 1,
    {
        self.in_flight = self.in_flight - 1;
    }

    /// How to begin a transfer: skip a file that is already complete,
    /// resume a partial one with a range request, otherwise fetch fresh.
    pub fn resume_action(existing_len: Option<u64>, expected_size: u64) -> (r: ResumeAction)
        ensures
            r == match existing_len {
                Some(len) => {
                    if len >= expected_size {
                        ResumeAction::AlreadyComplete
                    } else if len > 0 {
                        ResumeAction::ResumeFrom(len)
                    } else {
                        ResumeAction::Fresh
                    }
                },
                None => ResumeAction::Fresh,
            },
    {
        match existing_len {
            Some(len) => {
                if len >= expected_size {
                    ResumeAction::AlreadyComplete
                } else if len > 0 {
                    ResumeAction::ResumeFrom(len)
                } else {
                    ResumeAction::Fresh
                }
            },
            None => ResumeAction::Fresh,
        }
    }

    /// How to treat a response body after a (possibly resumed) request: a
    /// 206 honours the range and is appended; a plain 200 after a resume
    /// means the server ignored the range, so the file is truncated and
    /// rewritten, never blindly appended; any non-success status fails.
    pub fn response_action(status: u16, resume_from: u64) -> (r: BodyAction)
        ensures
            r == if !(200 <= status < 300) {
                BodyAction::Fail
            } else if status == 206 {
                BodyAction::Append
            } else if resume_from > 0 {
                BodyAction::Restart
            } else {
                BodyAction::Append
            },
    {
        if status < 200 || status >= 300 {
            BodyAction::Fail
        } else if status == 206 {
            BodyAction::Append
        } else if resume_from > 0 {
            BodyAction::Restart
        } else {
            BodyAction::Append
        }
    }
}

} // verus!
