//! Host facts shown beside the counter: uptime and a best-effort snapshot.
//!
//! The snapshot is refreshed wholesale by a periodic task and consumed only
//! for rendering; it is not causally linked to hello events. Collecting the
//! facts (interface lookup, memory and uptime sampling, os-release reads)
//! happens outside the library, which only holds and formats plain values.

use vstd::prelude::*;
use vstd::string::StringExecFns;

use crate::digits::dec_chars;
use crate::digits::dec_string;

verus! {

/// Seconds since boot.
#[derive(Clone, Copy, PartialEq, Eq, Structural, Debug)]
pub struct Uptime(pub u64);

/// The display text for an uptime of `secs` seconds: the non-zero ones of
/// days, hours and minutes, space-separated ("10d 22h 56m"); below one
/// minute, the bare seconds ("42 secs").
pub open spec fn uptime_chars(secs: u64) -> Seq<char> {
    let days = secs as nat / 86400;
    let hours = (secs as nat % 86400) / 3600;
    let minutes = (secs as nat % 3600) / 60;
    if days == 0 && hours == 0 && minutes == 0 {
        dec_chars(secs as nat) + " secs"@
    } else {
        let day_part = if days > 0 {
            dec_chars(days) + "d"@
        } else {
            Seq::<char>::empty()
        };
        let hour_part = if hours > 0 {
            (if days > 0 {
                " "@
            } else {
                Seq::<char>::empty()
            }) + dec_chars(hours) + "h"@
        } else {
            Seq::<char>::empty()
        };
        let minute_part = if minutes > 0 {
            (if days > 0 || hours > 0 {
                " "@
            } else {
                Seq::<char>::empty()
            }) + dec_chars(minutes) + "m"@
        } else {
            Seq::<char>::empty()
        };
        day_part + hour_part + minute_part
    }
}

impl Uptime {
    /// Wraps a number of seconds since boot.
    pub fn new(seconds: u64) -> (r: Self)
        ensures
            r.0 == seconds,
    {
        Uptime(seconds)
    }

    /// Renders the uptime as its display text.
    pub fn to_string(&self) -> (r: String)
        ensures
            r@ == uptime_chars(self.0),
    {
        let secs = self.0;
        let days = secs / 86400;
        let hours = (secs % 86400) / 3600;
        let minutes = (secs % 3600) / 60;
        if days == 0 && hours == 0 && minutes == 0 {
            let mut r = dec_string(secs);
            r.append(" secs");
            proof {
                assert(r@ =~= uptime_chars(self.0));
            }
            r
        } else {
            let mut r = String::new();
            if days > 0 {
                r.append(dec_string(days).as_str());
                r.append("d");
            }
            if hours > 0 {
                if days > 0 {
                    r.append(" ");
                }
                r.append(dec_string(hours).as_str());
                r.append("h");
            }
            if minutes > 0 {
                if days > 0 || hours > 0 {
                    r.append(" ");
                }
                r.append(dec_string(minutes).as_str());
                r.append("m");
            }
            proof {
                assert(r@ =~= uptime_chars(self.0));
            }
            r
        }
    }
}

impl Default for Uptime {
    /// An uptime of zero seconds, used before the first successful sample.
    fn default() -> (r: Self)
        ensures
            r.0 == 0,
    {
        Uptime(0)
    }
}

/// Total and free memory, in bytes.
#[derive(Clone, Copy, PartialEq, Eq, Structural, Debug)]
pub struct MemStats {
    pub total: u64,
    pub free: u64,
}

/// Best-effort host facts refreshed on a timer: the configured interface's
/// IPv4 address (as its 32-bit value), the OS name, the kernel
/// identification, memory statistics and uptime. Any of the sampled fields
/// may be absent when the platform could not supply them.
pub struct HostSnapshot {
    pub ip: Option<u32>,
    pub os_name: String,
    pub uname: String,
    pub memory: Option<MemStats>,
    pub uptime: Uptime,
}

impl HostSnapshot {
    /// A field-for-field copy, handed out on the read path for rendering.
    pub fn duplicate(&self) -> (r: Self)
        ensures
            r == *self,
    {
        HostSnapshot {
            ip: self.ip,
            os_name: self.os_name.clone(),
            uname: self.uname.clone(),
            memory: self.memory,
            uptime: self.uptime,
        }
    }
}

} // verus!
