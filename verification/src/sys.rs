//! Bindings to outside services: Unicode lowercasing, the permission-string
//! rendering, timestamp formatting in local civil time, and user/group name
//! lookup. Each binding is a trusted wrapper around one outside call.
use vstd::prelude::*;
use chrono::TimeZone;

verus! {

/// The result of `str::to_lowercase`: it depends on the characters alone.
pub uninterp spec fn lower_of(s: Seq<char>) -> Seq<char>;

/// Relies on `str::to_lowercase`: the lowercase equivalent of the string,
/// a function of its characters alone.
#[verifier::external_body]
pub(crate) fn lowercase(s: &str) -> (r: String)
    ensures
        r@ == lower_of(s@),
{
    s.to_lowercase()
}

/// One owner/group/other triple of the permission rendering.
pub open spec fn rwx_chars(r: bool, w: bool, x: bool) -> Seq<char> {
    seq![
        if r { 'r' } else { '-' },
        if w { 'w' } else { '-' },
        if x { 'x' } else { '-' },
    ]
}

/// The nine-character `rwxrwxrwx`-style rendering of the low nine mode bits.
pub open spec fn perm_chars(m: u32) -> Seq<char> {
    rwx_chars(m & 0x100 != 0, m & 0x80 != 0, m & 0x40 != 0) + rwx_chars(
        m & 0x20 != 0,
        m & 0x10 != 0,
        m & 0x8 != 0,
    ) + rwx_chars(m & 0x4 != 0, m & 0x2 != 0, m & 0x1 != 0)
}

/// Relies on umask's `Mode` display: for a mode with the setuid, setgid and
/// sticky bits clear it writes exactly the nine owner/group/other
/// read/write/execute characters, `-` for each absent bit.
#[verifier::external_body]
pub(crate) fn perm_string(bits: u32) -> (r: String)
    requires
        bits < 512,
    ensures
        r@ == perm_chars(bits),
{
    format!("{}", umask::Mode::from(bits))
}

/// Relies on chrono's `Local.timestamp_opt` and date formatting: the instant
/// `mtime` seconds after the epoch, rendered in local civil time as
/// abbreviated month, space-padded day of month, hour and minute. Which
/// civil time an instant maps to depends on the machine's time zone, so the
/// text itself is not stated; its shape is: the three-character month name,
/// the two-character day, and `HH:MM`, twelve characters with spaces and a
/// colon between the fields — or the empty string for an instant chrono
/// cannot represent. Every instant from year 1 through year 9999 is deep
/// inside chrono's documented range, so those all render in full.
#[verifier::external_body]
pub(crate) fn format_mtime(mtime: i64) -> (r: String)
    ensures
        r@.len() == 12 || r@.len() == 0,
        r@.len() == 12 ==> r@[3] == ' ' && r@[6] == ' ' && r@[9] == ':',
        -62_135_596_800 <= mtime <= 253_402_300_799 ==> r@.len() == 12,
{
    match chrono::Local.timestamp_opt(mtime, 0) {
        chrono::LocalResult::Single(t) => format!("{}", t.format("%b %e %H:%M")),
        chrono::LocalResult::Ambiguous(t, _) => format!("{}", t.format("%b %e %H:%M")),
        chrono::LocalResult::None => String::new(),
    }
}

/// Relies on `users::get_user_by_uid`: the name of the system user with this
/// id, when the lookup succeeds and the name is valid text. The result
/// depends on the machine's user database, so nothing is stated of it.
#[verifier::external_body]
pub(crate) fn user_name_of_uid(uid: u32) -> Option<String> {
    match users::get_user_by_uid(uid) {
        Some(u) => match u.name().to_str() {
            Some(n) => Some(n.to_string()),
            None => None,
        },
        None => None,
    }
}

/// Relies on `users::get_group_by_gid`: the name of the system group with
/// this id, when the lookup succeeds and the name is valid text. The result
/// depends on the machine's group database, so nothing is stated of it.
#[verifier::external_body]
pub(crate) fn group_name_of_gid(gid: u32) -> Option<String> {
    match users::get_group_by_gid(gid) {
        Some(g) => match g.name().to_str() {
            Some(n) => Some(n.to_string()),
            None => None,
        },
        None => None,
    }
}

} // verus!
