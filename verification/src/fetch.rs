//! Downloading weights, explicitly and resumably.
//!
//! The bytes move in the daemon. What is here is every decision the download
//! makes about them: where the unfinished file is kept, what to ask the
//! server for, whether what comes back continues the file or starts it again,
//! when the shell hears about progress, and whether the download finished or
//! was cut off.
use vstd::prelude::*;
use crate::text::{append, decimal, decimal_of, owned, parse_u64, unsigned_text};

verus! {

/// How much arrives before the caller hears about it again.
pub const REPORT_EVERY: u64 = 524288;

/// What a download is doing, for the shell's progress line.
#[derive(Debug, Clone, Copy, PartialEq, Eq, Structural)]
pub struct Progress {
    pub had: u64,
    pub got: u64,
    /// The total, when the server said. A server that will not say is not a
    /// failure; it is a download without a percentage.
    pub total: Option<u64>,
}

/// Where a download in progress is kept: beside the finished file, with
/// `.part` on the end. The finished file only appears when the whole thing
/// has arrived, so a reader that finds it finds something complete.
pub fn part_path(into: &str) -> (p: String)
    ensures
        p@ == into@ + ".part"@,
{
    let mut p = owned(into);
    append(&mut p, ".part");
    p
}

/// What to ask the server for: the rest, when part of the file is already on
/// disk, and otherwise the whole thing.
pub fn range_header(had: u64) -> (h: Option<String>)
    ensures
        had == 0 ==> h is None,
        had > 0 ==> (h matches Some(v) && v@ == "bytes="@ + decimal(had as nat) + "-"@),
{
    if had == 0 {
        None
    } else {
        let mut v = owned("bytes=");
        let n = decimal_of(had);
        append(&mut v, n.as_str());
        append(&mut v, "-");
        Some(v)
    }
}

/// The length a `content-length` header gives, when it gives one a `u64`
/// holds.
pub open spec fn length_of(header: Option<Seq<char>>) -> Option<nat> {
    match header {
        Some(h) => match unsigned_text(h) {
            Some(v) => if v <= u64::MAX { Some(v) } else { None },
            None => None,
        },
        None => None,
    }
}

pub fn content_length(header: Option<&str>) -> (n: Option<u64>)
    ensures
        match n {
            Some(v) => length_of(match header { Some(h) => Some(h@), None => None }) == Some(v as nat),
            None => length_of(match header { Some(h) => Some(h@), None => None }) is None,
        },
{
    match header {
        Some(h) => parse_u64(h),
        None => None,
    }
}

/// A download under way: what was on disk, what has arrived in all, the
/// total if known, and how much has arrived since the shell last heard.
pub struct Download {
    had: u64,
    got: u64,
    total: Option<u64>,
    since: u64,
    resuming: bool,
}

impl Download {
    #[verifier::type_invariant]
    closed spec fn counted(&self) -> bool {
        &&& self.since <= self.got
        &&& self.since < REPORT_EVERY
        &&& self.resuming ==> self.had <= self.got
    }

    pub closed spec fn had(&self) -> nat {
        self.had as nat
    }

    pub closed spec fn got(&self) -> nat {
        self.got as nat
    }

    pub closed spec fn total(&self) -> Option<u64> {
        self.total
    }

    pub closed spec fn since(&self) -> nat {
        self.since as nat
    }

    /// Whether the server is sending the rest of the file rather than all of
    /// it.
    pub closed spec fn resuming(&self) -> bool {
        self.resuming
    }

    /// The server has answered. 206 means it honoured the range and is
    /// sending the rest, which continues the part file; anything else means
    /// it is sending the whole thing, and what is on disk is worthless —
    /// appending to it would make a corrupt file that looks like a good one.
    /// The total is the length it announced, plus what is kept when resuming.
    pub fn begin(had: u64, status: u16, length: Option<u64>) -> (d: Download)
        requires
            status == 206 && length is Some ==> length.unwrap() + had <= u64::MAX,
        ensures
            d.had() == had,
            d.resuming() == (status == 206),
            d.got() == if status == 206 { had as nat } else { 0 },
            d.total() == match length {
                Some(n) => Some(if status == 206 { (n + had) as u64 } else { n }),
                None => None,
            },
            d.since() == 0,
    {
        let resuming = status == 206;
        let total = match length {
            Some(n) => Some(if resuming { n + had } else { n }),
            None => None,
        };
        Download { had, got: if resuming { had } else { 0 }, total, since: 0, resuming }
    }

    /// What to tell the shell now.
    pub fn progress(&self) -> (p: Progress)
        ensures
            p.had == self.had(),
            p.got == self.got(),
            p.total == self.total(),
    {
        Progress { had: self.had, got: self.got, total: self.total }
    }

    /// `n` more bytes arrived. Answers whether the shell should hear about it:
    /// once for every `REPORT_EVERY` bytes, not once per read.
    pub fn arrived(&mut self, n: u64) -> (report: bool)
        requires
            old(self).got() + n <= u64::MAX,
        ensures
            final(self).got() == old(self).got() + n,
            final(self).had() == old(self).had(),
            final(self).total() == old(self).total(),
            final(self).resuming() == old(self).resuming(),
            report == (old(self).since() + n >= REPORT_EVERY),
            final(self).since() == if report { 0 } else { old(self).since() + n },
    {
        proof { use_type_invariant(&*self); }
        let got = self.got + n;
        if self.since + n >= REPORT_EVERY {
            self.got = got;
            self.since = 0;
            true
        } else {
            let since = self.since + n;
            self.got = got;
            self.since = since;
            false
        }
    }

    /// The body ended, cut off or not. A download that was cut off, or that
    /// got less than the server promised, keeps its part file so the next
    /// attempt continues it, and says how far it got. One that finished
    /// reports a total of what arrived if the server never gave one.
    pub fn finish(&self, cut_off: bool, url: &str) -> (r: Result<Progress, String>)
        ensures
            ({
                let short = match self.total() { Some(t) => self.got() < t, None => false };
                &&& (r is Err) == (cut_off || short)
                &&& r matches Err(m) ==> m@ == stopped_text(url@, self.got(), self.total())
                &&& r matches Ok(p) ==> p.had == self.had() && p.got == self.got()
                    && p.total == Some(match self.total() { Some(t) => t, None => self.got() as u64 })
            }),
    {
        let short = match self.total {
            Some(t) => self.got < t,
            None => false,
        };
        if cut_off || short {
            let mut m = owned(url);
            append(&mut m, " stopped after ");
            let g = decimal_of(self.got);
            append(&mut m, g.as_str());
            match self.total {
                Some(t) => {
                    append(&mut m, " of ");
                    let n = decimal_of(t);
                    append(&mut m, n.as_str());
                    append(&mut m, " bytes. Ask again to continue.");
                }
                None => {
                    append(&mut m, " bytes. Ask again to continue.");
                }
            }
            return Err(m);
        }
        Ok(Progress { had: self.had, got: self.got, total: match self.total { Some(t) => Some(t), None => Some(self.got) } })
    }
}

/// What a download that did not finish says.
pub open spec fn stopped_text(url: Seq<char>, got: nat, total: Option<u64>) -> Seq<char> {
    url + " stopped after "@ + decimal(got) + match total {
        Some(t) => " of "@ + decimal(t as nat) + " bytes. Ask again to continue."@,
        None => " bytes. Ask again to continue."@,
    }
}

} // verus!
