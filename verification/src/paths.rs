//! Path normalization and volume-root recognition.
//!
//! Raw record paths arrive in one of three shapes: the device form
//! `\\.\X:\...`, the verbatim form `\\?\X:\...`, or the plain form `X:\...`
//! (with either slash direction and possibly a trailing separator).  All of
//! them normalize to the canonical `X:\segment\...` form with the uppercase
//! drive letter, single backslash separators, and no trailing backslash; the
//! bare root becomes `X:\`.

use vstd::prelude::*;
use vstd::string::StrSliceExecFns;
use vstd::string::StringExecFns;

use crate::strutil::chars_eq_ic;
use crate::strutil::seq_eq_ic;
use crate::strutil::is_ascii_letter;
use crate::strutil::is_upper_of;
use crate::strutil::trim_end_bs;
use crate::strutil::trim_start_bs;
use crate::strutil::replace_fwd_slashes;
use crate::strutil::char_eq_ignore_ascii_case;
use crate::strutil::str_eq_ignore_ascii_case;
use crate::strutil::trim_end_backslashes;
use crate::strutil::trim_start_backslashes;
use crate::strutil::replace_forward_slashes;
use crate::strutil::no_fwd_slash;
use crate::strutil::lemma_trim_end_no_trailing;
use crate::strutil::lemma_trim_end_noop;
use crate::strutil::lemma_trim_start_no_leading;
use crate::strutil::lemma_trim_start_noop;
use crate::strutil::lemma_trim_start_last;
use crate::strutil::lemma_replace_no_slash;
use crate::strutil::lemma_replace_noop;
use crate::strutil::lemma_trim_end_no_slash;
use crate::strutil::lemma_trim_start_no_slash;
use crate::strutil::lemma_trim_start_cons_bs;
use crate::strutil::lemma_trim_end_is_prefix;
use crate::strutil::lemma_trim_start_is_suffix;
use crate::strutil::is_upper_letter;

verus! {

/// `t` begins with the raw device prefix `\\.\D:` for drive letter `d`.
pub open spec fn is_dev_prefixed(t: Seq<char>, d: char) -> bool {
    &&& t.len() >= 6
    &&& t[0] == '\\'
    &&& t[1] == '\\'
    &&& t[2] == '.'
    &&& t[3] == '\\'
    &&& t[4] == d
    &&& t[5] == ':'
}

/// `t` begins with the verbatim prefix `\\?\`.
pub open spec fn is_verbatim_prefixed(t: Seq<char>) -> bool {
    &&& t.len() >= 4
    &&& t[0] == '\\'
    &&& t[1] == '\\'
    &&& t[2] == '?'
    &&& t[3] == '\\'
}

/// The canonical root `D:\` of drive `d`.
pub open spec fn drive_root(d: char) -> Seq<char> {
    seq![d, ':', '\\']
}

/// The canonical form of a raw record path for drive `d`: trailing
/// backslashes dropped, forward slashes turned into backslashes, any
/// recognized drive prefix rewritten to `D:\`.  A path that matches no
/// recognized shape is returned as it stands (after the trim and slash
/// replacement); such a path is later rejected by the volume filter.
pub open spec fn normalize_spec(p: Seq<char>, d: char) -> Seq<char> {
    let t = replace_fwd_slashes(trim_end_bs(p));
    if is_dev_prefixed(t, d) {
        drive_root(d) + trim_start_bs(t.skip(6))
    } else if is_verbatim_prefixed(t) && t.len() >= 6 && t[4] == d && t[5] == ':' {
        drive_root(d) + trim_start_bs(t.skip(6))
    } else if is_verbatim_prefixed(t) && t.len() >= 6 {
        t
    } else if t.len() >= 2 && t[1] == ':' && chars_eq_ic(t[0], d) {
        drive_root(d) + trim_start_bs(t.skip(2))
    } else {
        t
    }
}

/// `p` lies under the volume whose trimmed root is `v` (such as `F:`):
/// either the strings are ASCII-case-insensitively equal, or `v` is a proper
/// case-insensitive prefix of `p` followed immediately by a backslash.
pub open spec fn path_under_spec(p: Seq<char>, v: Seq<char>) -> bool {
    ||| seq_eq_ic(p, v)
    ||| (p.len() > v.len() && p[v.len() as int] == '\\' && seq_eq_ic(p.take(v.len() as int), v))
}

/// `p` names a volume root: `X:` or `\\?\X:`, with optional trailing
/// backslashes, for an ASCII letter `X`.
pub open spec fn is_volume_root_spec(p: Seq<char>) -> bool {
    let t = trim_end_bs(p);
    ||| (t.len() == 2 && is_ascii_letter(t[0]) && t[1] == ':')
    ||| (t.len() == 6 && is_verbatim_prefixed(t) && is_ascii_letter(t[4]) && t[5] == ':')
}

/// `p` is in canonical form for drive `d`: `D:\` followed by non-empty
/// segments separated by single backslashes, with no trailing backslash
/// (the bare root `D:\` excepted).
pub open spec fn is_canonical_path(p: Seq<char>, d: char) -> bool {
    &&& p.len() >= 3
    &&& p[0] == d
    &&& p[1] == ':'
    &&& p[2] == '\\'
    &&& (p.len() == 3 || p[p.len() - 1] != '\\')
    &&& forall|i: int| 0 <= i < p.len() - 1 ==> !((#[trigger] p[i]) == '\\' && p[i + 1] == '\\')
}

/// The drive letter of a volume root, before uppercasing: `Some` exactly
/// when `p` is a volume root shape with a letter drive.
pub open spec fn volume_root_letter(p: Seq<char>) -> Option<char> {
    let t = trim_end_bs(p);
    if t.len() == 2 && t[1] == ':' && is_ascii_letter(t[0]) {
        Some(t[0])
    } else if t.len() == 6 && is_verbatim_prefixed(t) && t[5] == ':' && is_ascii_letter(t[4]) {
        Some(t[4])
    } else {
        None
    }
}

/// Normalization is idempotent: normalizing a normalized path changes
/// nothing.  The one proviso: the input's backslash-trimmed form must not
/// end in a forward slash, since the slash replacement runs after the trim
/// and would then leave a trailing backslash behind.
pub proof fn lemma_normalize_idempotent(p: Seq<char>, d: char)
    requires
        is_upper_letter(d),
        trim_end_bs(p).len() > 0 ==> trim_end_bs(p)[trim_end_bs(p).len() - 1] != '/',
    ensures
        normalize_spec(normalize_spec(p, d), d) == normalize_spec(p, d),
{
    let t0 = trim_end_bs(p);
    let t = replace_fwd_slashes(t0);
    let q = normalize_spec(p, d);
    lemma_trim_end_no_trailing(p);
    lemma_replace_no_slash(t0);
    // the trimmed-and-replaced form has no forward slash and no trailing
    // backslash
    assert(no_fwd_slash(t));
    if t.len() > 0 {
        assert(t[t.len() - 1] == t0[t0.len() - 1]);
        assert(t[t.len() - 1] != '\\');
    }
    let dev = is_dev_prefixed(t, d);
    let verb6 = is_verbatim_prefixed(t) && t.len() >= 6;
    if dev || (verb6 && t[4] == d && t[5] == ':') || (!verb6 && t.len() >= 2 && t[1] == ':'
        && chars_eq_ic(t[0], d)) {
        // a rewriting branch: q is the drive root plus a cleaned rest
        let k: int = if dev || verb6 {
            6
        } else {
            2
        };
        let rest = trim_start_bs(t.skip(k));
        assert(q == drive_root(d) + rest);
        lemma_trim_start_no_leading(t.skip(k));
        lemma_trim_start_last(t.skip(k));
        assert(no_fwd_slash(t.skip(k)));
        lemma_trim_start_no_slash(t.skip(k));
        assert(no_fwd_slash(rest));
        assert(q[0] == d && q[1] == ':' && q[2] == '\\');
        assert(d != '\\' && d != '/' && d != ':');
        if rest.len() == 0 {
            assert(q =~= seq![d, ':', '\\']);
            let t1 = trim_end_bs(q);
            assert(q[2] == '\\');
            assert(q.drop_last() =~= seq![d, ':']);
            assert(t1 == trim_end_bs(seq![d, ':']));
            lemma_trim_end_noop(seq![d, ':']);
            assert(t1 =~= seq![d, ':']);
            let t2 = replace_fwd_slashes(t1);
            assert(t2 =~= t1);
            assert(!is_dev_prefixed(t2, d));
            assert(!(is_verbatim_prefixed(t2) && t2.len() >= 6));
            assert(t2.len() >= 2 && t2[1] == ':' && chars_eq_ic(t2[0], d));
            assert(t2.skip(2) =~= Seq::<char>::empty());
            assert(trim_start_bs(t2.skip(2)) =~= Seq::<char>::empty());
            assert(normalize_spec(q, d) =~= drive_root(d) + Seq::<char>::empty());
            assert(normalize_spec(q, d) =~= q);
        } else {
            // rest keeps the last character of t, which is not a backslash
            assert(rest[rest.len() - 1] == t.skip(k)[t.skip(k).len() - 1]);
            assert(t.skip(k)[t.skip(k).len() - 1] == t[t.len() - 1]);
            assert(q[q.len() - 1] == rest[rest.len() - 1]);
            assert(q[q.len() - 1] != '\\');
            let t1 = trim_end_bs(q);
            lemma_trim_end_noop(q);
            assert(t1 == q);
            assert(no_fwd_slash(q)) by {
                assert forall|i: int| 0 <= i < q.len() implies (#[trigger] q[i]) != '/' by {
                    if i >= 3 {
                        assert(q[i] == rest[i - 3]);
                    }
                }
            }
            let t2 = replace_fwd_slashes(t1);
            lemma_replace_noop(t1);
            assert(t2 == q);
            assert(q[0] == d);
            assert(!is_dev_prefixed(t2, d));
            assert(!is_verbatim_prefixed(t2));
            assert(t2.len() >= 2 && t2[1] == ':' && chars_eq_ic(t2[0], d));
            assert(normalize_spec(q, d) == drive_root(d) + trim_start_bs(t2.skip(2)));
            assert(t2.skip(2) =~= seq!['\\'] + rest);
            lemma_trim_start_cons_bs(rest);
            lemma_trim_start_no_leading(t.skip(k));
            lemma_trim_start_noop(rest);
            assert(trim_start_bs(t2.skip(2)) == rest);
            assert(normalize_spec(q, d) == q);
        }
    } else {
        // an unchanged branch: q is t itself, already trimmed and replaced
        assert(q == t);
        let t1 = trim_end_bs(q);
        lemma_trim_end_noop(q);
        assert(t1 == q);
        let t2 = replace_fwd_slashes(t1);
        lemma_replace_noop(t1);
        assert(t2 == t);
        assert(normalize_spec(q, d) == t);
    }
}

/// A character that equals a colon up to ASCII case is a colon.
proof fn lemma_eq_ic_colon(x: char)
    requires
        chars_eq_ic(x, ':'),
    ensures
        x == ':',
{
    assert((':' as u32) == 58);
    if x as u32 == ':' as u32 {
        assert(x == ':') by {
            if x != ':' {
                assert(x as u32 != ':' as u32);
            }
        }
    }
}

/// A rewritten path `D:\` + cleaned rest is canonical, provided the
/// trimmed source has no forward slash, no trailing backslash, and no
/// doubled backslash past its prefix.
proof fn lemma_rewrite_canonical(t0: Seq<char>, d: char, k: int)
    requires
        is_upper_letter(d),
        no_fwd_slash(t0),
        t0.len() > 0 ==> t0[t0.len() - 1] != '\\',
        forall|i: int| 3 <= i < t0.len() - 1 ==> !((#[trigger] t0[i]) == '\\' && t0[i + 1] == '\\'),
        k == 2 || k == 6,
        t0.len() >= k,
    ensures
        is_canonical_path(drive_root(d) + trim_start_bs(t0.skip(k)), d),
{
    let rest0 = t0.skip(k);
    let rest = trim_start_bs(rest0);
    let q = drive_root(d) + rest;
    lemma_trim_start_is_suffix(rest0);
    lemma_trim_start_no_leading(rest0);
    lemma_trim_start_last(rest0);
    let m = rest0.len() - rest.len();
    assert(rest == rest0.skip(m));
    assert(q.len() == 3 + rest.len());
    assert(q[0] == d && q[1] == ':' && q[2] == '\\');
    assert(d != '\\') by {
        if d == '\\' {
            assert(d as u32 == '\\' as u32);
            assert(('\\' as u32) == 92);
        }
    }
    if q.len() > 3 {
        assert(rest.len() > 0);
        assert(rest[rest.len() - 1] == rest0[rest0.len() - 1]);
        assert(rest0[rest0.len() - 1] == t0[t0.len() - 1]);
        assert(q[q.len() - 1] == rest[rest.len() - 1]);
        assert(q[q.len() - 1] != '\\');
    }
    assert forall|i: int| 0 <= i < q.len() - 1 implies !((#[trigger] q[i]) == '\\' && q[i + 1]
        == '\\') by {
        if i == 0 || i == 1 {
        } else if i == 2 {
            if q.len() > 3 {
                assert(q[3] == rest[0]);
                assert(rest[0] != '\\');
            }
        } else {
            let a = i - 3;
            assert(q[i] == rest[a]);
            assert(q[i + 1] == rest[a + 1]);
            if a == 0 {
                assert(rest[0] != '\\');
            } else {
                assert(rest[a] == rest0[m + a]);
                assert(rest[a + 1] == rest0[m + a + 1]);
                assert(rest0[m + a] == t0[k + m + a]);
                assert(rest0[m + a + 1] == t0[k + m + a + 1]);
                assert(3 <= k + m + a);
                assert(k + m + a + 1 < t0.len());
            }
        }
    }
    assert(is_canonical_path(q, d));
}

/// An accepted raw path normalizes to canonical form: the raw path must
/// carry no forward slash and no doubled backslash past its device or
/// verbatim prefix (as paths resolved from the MFT do), and its normal
/// form must pass the volume filter.
pub proof fn lemma_normalize_canonical(raw: Seq<char>, d: char)
    requires
        is_upper_letter(d),
        no_fwd_slash(raw),
        forall|i: int| 3 <= i < raw.len() - 1 ==> !((#[trigger] raw[i]) == '\\' && raw[i + 1]
            == '\\'),
        path_under_spec(normalize_spec(raw, d), seq![d, ':']),
    ensures
        is_canonical_path(normalize_spec(raw, d), d),
{
    let t0 = trim_end_bs(raw);
    crate::strutil::lemma_trim_end_no_slash(raw);
    crate::strutil::lemma_replace_noop(t0);
    let t = replace_fwd_slashes(t0);
    assert(t == t0);
    lemma_trim_end_is_prefix(raw);
    crate::strutil::lemma_trim_end_no_trailing(raw);
    let q = normalize_spec(raw, d);
    assert forall|i: int| 3 <= i < t0.len() - 1 implies !((#[trigger] t0[i]) == '\\' && t0[i + 1]
        == '\\') by {
        assert(t0[i] == raw.take(t0.len() as int)[i]);
        assert(t0[i] == raw[i]);
        assert(t0[i + 1] == raw[i + 1]);
    }
    let vol = seq![d, ':'];
    if is_dev_prefixed(t, d) {
        lemma_rewrite_canonical(t0, d, 6);
    } else if is_verbatim_prefixed(t) && t.len() >= 6 && t[4] == d && t[5] == ':' {
        lemma_rewrite_canonical(t0, d, 6);
    } else if is_verbatim_prefixed(t) && t.len() >= 6 {
        // the unchanged verbatim form starts with a backslash, which the
        // volume filter never accepts
        assert(q == t);
        assert(q[0] == '\\');
        if seq_eq_ic(q, vol) {
            assert(chars_eq_ic(q[0], d));
            assert(false);
        } else {
            assert(seq_eq_ic(q.take(2), vol));
            assert(chars_eq_ic(q.take(2)[0], vol[0]));
            assert(q.take(2)[0] == q[0]);
            assert(chars_eq_ic('\\', d));
            assert(('\\' as u32) == 92);
            assert(false);
        }
    } else if t.len() >= 2 && t[1] == ':' && chars_eq_ic(t[0], d) {
        lemma_rewrite_canonical(t0, d, 2);
    } else {
        // the unchanged plain form was accepted, so it must begin with the
        // drive and a colon after all
        assert(q == t);
        if seq_eq_ic(q, vol) {
            assert(chars_eq_ic(q[1], vol[1]));
            lemma_eq_ic_colon(q[1]);
            assert(chars_eq_ic(q[0], d));
            assert(false);
        } else {
            assert(q.len() > 2);
            assert(seq_eq_ic(q.take(2), vol));
            assert(chars_eq_ic(q.take(2)[1], vol[1]));
            assert(q.take(2)[1] == q[1]);
            lemma_eq_ic_colon(q[1]);
            assert(chars_eq_ic(q.take(2)[0], vol[0]));
            assert(q.take(2)[0] == q[0]);
            assert(false);
        }
    }
}

/// The character of `s` at position `i`.
fn char_at(s: &String, i: usize) -> (r: char)
    requires
        i < s@.len(),
    ensures
        r == s@[i as int],
{
    s.as_str().get_char(i)
}

/// `c` is an ASCII letter.
pub fn is_ascii_letter_char(c: char) -> (r: bool)
    ensures
        r == is_ascii_letter(c),
{
    let x = c as u32;
    (65 <= x && x <= 90) || (97 <= x && x <= 122)
}

/// The uppercase form of an ASCII letter.
pub fn to_upper_letter(c: char) -> (u: char)
    requires
        is_ascii_letter(c),
    ensures
        is_upper_of(u, c),
{
    let x = c as u32;
    if x >= 97 {
        ((x - 32) as u8) as char
    } else {
        c
    }
}

/// `D:\` followed by `rest`, as an owned string.
fn with_drive_root(d: char, rest: &str) -> (r: String)
    ensures
        r@ == drive_root(d) + rest@,
{
    let mut out = String::new();
    out.push(d);
    out.push(':');
    out.push('\\');
    out.append(rest);
    proof {
        assert(out@ =~= drive_root(d) + rest@);
    }
    out
}

/// Normalize a raw record path to the canonical `D:\...` form for the
/// (uppercase) drive letter `drive`; see `normalize_spec`.
pub fn normalize_ntfs_path(path_str: &str, drive: char) -> (r: String)
    ensures
        r@ == normalize_spec(path_str@, drive),
{
    let trimmed = trim_end_backslashes(path_str);
    let t = replace_forward_slashes(trimmed);
    let n = t.as_str().unicode_len();
    let dev = n >= 6 && char_at(&t, 0) == '\\' && char_at(&t, 1) == '\\' && char_at(&t, 2) == '.'
        && char_at(&t, 3) == '\\' && char_at(&t, 4) == drive && char_at(&t, 5) == ':';
    if dev {
        let rest0 = t.as_str().substring_char(6, n);
        proof {
            assert(rest0@ =~= t@.skip(6));
        }
        let rest = trim_start_backslashes(rest0);
        return with_drive_root(drive, rest);
    }
    let verbatim = n >= 4 && char_at(&t, 0) == '\\' && char_at(&t, 1) == '\\' && char_at(
        &t,
        2,
    ) == '?' && char_at(&t, 3) == '\\';
    if verbatim && n >= 6 {
        if char_at(&t, 4) == drive && char_at(&t, 5) == ':' {
            let rest0 = t.as_str().substring_char(6, n);
            proof {
                assert(rest0@ =~= t@.skip(6));
            }
            let rest = trim_start_backslashes(rest0);
            return with_drive_root(drive, rest);
        }
        return t;
    }
    if n >= 2 && char_at(&t, 1) == ':' && char_eq_ignore_ascii_case(char_at(&t, 0), drive) {
        let rest0 = t.as_str().substring_char(2, n);
        proof {
            assert(rest0@ =~= t@.skip(2));
        }
        let rest = trim_start_backslashes(rest0);
        return with_drive_root(drive, rest);
    }
    t
}

/// `path` lies under the volume whose trimmed root is `vol_trim`; see
/// `path_under_spec`.
pub fn path_under_volume_ascii(path: &str, vol_trim: &str) -> (r: bool)
    ensures
        r == path_under_spec(path@, vol_trim@),
{
    if str_eq_ignore_ascii_case(path, vol_trim) {
        return true;
    }
    let np = path.unicode_len();
    let nv = vol_trim.unicode_len();
    if np <= nv {
        return false;
    }
    if path.get_char(nv) != '\\' {
        return false;
    }
    let mut i: usize = 0;
    while i < nv
        invariant
            np == path@.len(),
            nv == vol_trim@.len(),
            np > nv,
            0 <= i <= nv,
            forall|j: int| 0 <= j < i ==> chars_eq_ic(path@[j], vol_trim@[j]),
        decreases nv - i,
    {
        if !char_eq_ignore_ascii_case(path.get_char(i), vol_trim.get_char(i)) {
            proof {
                assert(path@.take(nv as int)[i as int] == path@[i as int]);
            }
            return false;
        }
        i = i + 1;
    }
    proof {
        assert forall|j: int| 0 <= j < nv implies chars_eq_ic(
            path@.take(nv as int)[j],
            vol_trim@[j],
        ) by {
            assert(path@.take(nv as int)[j] == path@[j]);
        }
    }
    true
}

/// `path` names a Windows volume root such as `C:\`; see
/// `is_volume_root_spec`.
pub fn is_windows_volume_root(path: &str) -> (r: bool)
    ensures
        r == is_volume_root_spec(path@),
{
    let t = trim_end_backslashes(path);
    let n = t.unicode_len();
    if n == 2 {
        return is_ascii_letter_char(t.get_char(0)) && t.get_char(1) == ':';
    }
    if n == 6 {
        return t.get_char(0) == '\\' && t.get_char(1) == '\\' && t.get_char(2) == '?'
            && t.get_char(3) == '\\' && is_ascii_letter_char(t.get_char(4)) && t.get_char(5) == ':';
    }
    false
}

/// The uppercase drive letter of a volume root path, or `None` when the path
/// is not a volume root with a letter drive.
pub fn drive_letter_from_volume_root(volume_root: &str) -> (r: Option<char>)
    ensures
        match volume_root_letter(volume_root@) {
            Some(c) => r is Some && is_upper_of(r.unwrap(), c),
            None => r is None,
        },
{
    let t = trim_end_backslashes(volume_root);
    let n = t.unicode_len();
    if n == 2 && t.get_char(1) == ':' {
        let c = t.get_char(0);
        if is_ascii_letter_char(c) {
            return Some(to_upper_letter(c));
        }
        return None;
    }
    if n == 6 && t.get_char(0) == '\\' && t.get_char(1) == '\\' && t.get_char(2) == '?'
        && t.get_char(3) == '\\' && t.get_char(5) == ':' {
        let c = t.get_char(4);
        if is_ascii_letter_char(c) {
            return Some(to_upper_letter(c));
        }
        return None;
    }
    None
}

} // verus!
