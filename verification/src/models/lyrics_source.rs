//! The canonical `lyrics.source` tags and the one place that classifies a
//! source as disk-derived (read again on every scan) or fetched from the
//! network (must survive a scan).
use vstd::prelude::*;
use crate::text::{chars_of, same_chars};

verus! {

pub const LRC: &'static str = "lrc";
pub const EMBEDDED: &'static str = "embedded";
pub const LRCLIB: &'static str = "lrclib";

/// Whether lyrics of this source come from the files themselves.
pub fn is_disk_derived(source: &str) -> (r: bool)
    ensures
        r == (source@ == "lrc"@ || source@ == "embedded"@),
{
    let s = chars_of(source);
    let lrc = chars_of("lrc");
    let embedded = chars_of("embedded");
    same_chars(&s, &lrc) || same_chars(&s, &embedded)
}

} // verus!
