//! Character-level string helpers shared by the path routines.
//!
//! Windows paths are compared ASCII-case-insensitively and are cut at
//! backslash separators; everything here is specified over the `Seq<char>`
//! view of `&str` and `String`.

use vstd::prelude::*;
use vstd::string::StrSliceExecFns;
use vstd::string::StringExecFns;

verus! {

/// ASCII-case-insensitive equality of two characters: equal outright, or an
/// ASCII letter paired with its other case.
pub open spec fn chars_eq_ic(a: char, b: char) -> bool {
    ||| a == b
    ||| (65 <= a as u32 <= 90 && b as u32 == a as u32 + 32)
    ||| (65 <= b as u32 <= 90 && a as u32 == b as u32 + 32)
}

/// ASCII-case-insensitive equality of two character sequences.
pub open spec fn seq_eq_ic(a: Seq<char>, b: Seq<char>) -> bool {
    a.len() == b.len() && forall|i: int| 0 <= i < a.len() ==> chars_eq_ic(a[i], b[i])
}

/// `c` is an ASCII letter.
pub open spec fn is_ascii_letter(c: char) -> bool {
    (65 <= c as u32 <= 90) || (97 <= c as u32 <= 122)
}

/// `c` is an uppercase ASCII letter.
pub open spec fn is_upper_letter(c: char) -> bool {
    65 <= c as u32 <= 90
}

/// `u` is the uppercase form of the ASCII letter `c`.
pub open spec fn is_upper_of(u: char, c: char) -> bool {
    &&& is_ascii_letter(c)
    &&& is_upper_letter(u)
    &&& (u == c || c as u32 == u as u32 + 32)
}

/// The sequence with every trailing backslash removed.
pub open spec fn trim_end_bs(s: Seq<char>) -> Seq<char>
    decreases s.len(),
{
    if s.len() > 0 && s[s.len() - 1] == '\\' {
        trim_end_bs(s.drop_last())
    } else {
        s
    }
}

/// The sequence with every leading backslash removed.
pub open spec fn trim_start_bs(s: Seq<char>) -> Seq<char>
    decreases s.len(),
{
    if s.len() > 0 && s[0] == '\\' {
        trim_start_bs(s.drop_first())
    } else {
        s
    }
}

/// Every forward slash replaced by a backslash.
pub open spec fn replace_fwd_slashes(s: Seq<char>) -> Seq<char> {
    Seq::new(s.len(), |i: int| if s[i] == '/' { '\\' } else { s[i] })
}

/// The position of the last backslash of `s`, if any.
pub open spec fn rfind_bs(s: Seq<char>) -> Option<int>
    decreases s.len(),
{
    if s.len() == 0 {
        None
    } else if s[s.len() - 1] == '\\' {
        Some(s.len() - 1)
    } else {
        rfind_bs(s.drop_last())
    }
}

/// The part of `s` after its last backslash (all of `s` when it has none):
/// the display name of a path.
pub open spec fn last_segment(s: Seq<char>) -> Seq<char> {
    match rfind_bs(s) {
        Some(i) => s.skip(i + 1),
        None => s,
    }
}

/// A trimmed sequence has no trailing backslash.
pub proof fn lemma_trim_end_no_trailing(s: Seq<char>)
    ensures
        trim_end_bs(s).len() > 0 ==> trim_end_bs(s)[trim_end_bs(s).len() - 1] != '\\',
    decreases s.len(),
{
    if s.len() > 0 && s[s.len() - 1] == '\\' {
        lemma_trim_end_no_trailing(s.drop_last());
    }
}

/// Trimming does nothing when there is no trailing backslash.
pub proof fn lemma_trim_end_noop(s: Seq<char>)
    requires
        s.len() == 0 || s[s.len() - 1] != '\\',
    ensures
        trim_end_bs(s) == s,
{
}

/// A start-trimmed sequence has no leading backslash.
pub proof fn lemma_trim_start_no_leading(s: Seq<char>)
    ensures
        trim_start_bs(s).len() > 0 ==> trim_start_bs(s)[0] != '\\',
    decreases s.len(),
{
    if s.len() > 0 && s[0] == '\\' {
        lemma_trim_start_no_leading(s.drop_first());
    }
}

/// Start-trimming does nothing when there is no leading backslash.
pub proof fn lemma_trim_start_noop(s: Seq<char>)
    requires
        s.len() == 0 || s[0] != '\\',
    ensures
        trim_start_bs(s) == s,
{
}

/// Start-trimming keeps the last character of a non-empty result.
pub proof fn lemma_trim_start_last(s: Seq<char>)
    ensures
        trim_start_bs(s).len() > 0 ==> s.len() > 0 && trim_start_bs(s)[trim_start_bs(s).len() - 1]
            == s[s.len() - 1],
    decreases s.len(),
{
    if s.len() > 0 && s[0] == '\\' {
        lemma_trim_start_last(s.drop_first());
        if trim_start_bs(s).len() > 0 {
            assert(s.drop_first()[s.drop_first().len() - 1] == s[s.len() - 1]);
        }
    }
}

/// No character of `s` is a forward slash.
pub open spec fn no_fwd_slash(s: Seq<char>) -> bool {
    forall|i: int| 0 <= i < s.len() ==> (#[trigger] s[i]) != '/'
}

/// Replacement removes every forward slash.
pub proof fn lemma_replace_no_slash(s: Seq<char>)
    ensures
        no_fwd_slash(replace_fwd_slashes(s)),
{
}

/// Replacement does nothing when there is nothing to replace.
pub proof fn lemma_replace_noop(s: Seq<char>)
    requires
        no_fwd_slash(s),
    ensures
        replace_fwd_slashes(s) == s,
{
    assert(replace_fwd_slashes(s) =~= s);
}

/// End-trimming keeps the absence of forward slashes.
pub proof fn lemma_trim_end_no_slash(s: Seq<char>)
    requires
        no_fwd_slash(s),
    ensures
        no_fwd_slash(trim_end_bs(s)),
    decreases s.len(),
{
    if s.len() > 0 && s[s.len() - 1] == '\\' {
        assert(no_fwd_slash(s.drop_last()));
        lemma_trim_end_no_slash(s.drop_last());
    }
}

/// Start-trimming keeps the absence of forward slashes.
pub proof fn lemma_trim_start_no_slash(s: Seq<char>)
    requires
        no_fwd_slash(s),
    ensures
        no_fwd_slash(trim_start_bs(s)),
    decreases s.len(),
{
    if s.len() > 0 && s[0] == '\\' {
        assert(no_fwd_slash(s.drop_first()));
        lemma_trim_start_no_slash(s.drop_first());
    }
}

/// End-trimming yields a prefix of its argument.
pub proof fn lemma_trim_end_is_prefix(s: Seq<char>)
    ensures
        trim_end_bs(s).len() <= s.len(),
        trim_end_bs(s) == s.take(trim_end_bs(s).len() as int),
    decreases s.len(),
{
    if s.len() > 0 && s[s.len() - 1] == '\\' {
        lemma_trim_end_is_prefix(s.drop_last());
        assert(s.drop_last().take(trim_end_bs(s).len() as int) =~= s.take(
            trim_end_bs(s).len() as int,
        ));
    } else {
        assert(s.take(s.len() as int) =~= s);
    }
}

/// Start-trimming yields a suffix of its argument.
pub proof fn lemma_trim_start_is_suffix(s: Seq<char>)
    ensures
        trim_start_bs(s).len() <= s.len(),
        trim_start_bs(s) == s.skip(s.len() - trim_start_bs(s).len()),
    decreases s.len(),
{
    if s.len() > 0 && s[0] == '\\' {
        lemma_trim_start_is_suffix(s.drop_first());
        let r = trim_start_bs(s);
        assert(s.drop_first().skip(s.drop_first().len() - r.len()) =~= s.skip(s.len() - r.len()));
    } else {
        assert(s.skip(0) =~= s);
    }
}

/// Start-trimming eats one leading backslash at a time.
pub proof fn lemma_trim_start_cons_bs(s: Seq<char>)
    ensures
        trim_start_bs(seq!['\\'] + s) == trim_start_bs(s),
{
    assert((seq!['\\'] + s)[0] == '\\');
    assert((seq!['\\'] + s).drop_first() =~= s);
}

/// Relies on `alloc::string::String::push`: appends the given character to
/// the end of the string.
pub assume_specification[ String::push ](s: &mut String, c: char)
    ensures
        final(s)@ == old(s)@.push(c),
;

/// ASCII-case-insensitive comparison of two characters.
pub fn char_eq_ignore_ascii_case(a: char, b: char) -> (r: bool)
    ensures
        r == chars_eq_ic(a, b),
{
    let x = a as u32;
    let y = b as u32;
    x == y || (65 <= x && x <= 90 && y == x + 32) || (65 <= y && y <= 90 && x == y + 32)
}

/// Exact equality of two string slices.
pub fn str_eq(a: &str, b: &str) -> (r: bool)
    ensures
        r == (a@ == b@),
{
    let na = a.unicode_len();
    let nb = b.unicode_len();
    if na != nb {
        return false;
    }
    let mut i: usize = 0;
    while i < na
        invariant
            na == a@.len(),
            na == b@.len(),
            0 <= i <= na,
            forall|j: int| 0 <= j < i ==> a@[j] == b@[j],
        decreases na - i,
    {
        if a.get_char(i) != b.get_char(i) {
            return false;
        }
        i = i + 1;
    }
    proof {
        assert(a@ =~= b@);
    }
    true
}

/// ASCII-case-insensitive equality of two string slices.
pub fn str_eq_ignore_ascii_case(a: &str, b: &str) -> (r: bool)
    ensures
        r == seq_eq_ic(a@, b@),
{
    let na = a.unicode_len();
    let nb = b.unicode_len();
    if na != nb {
        return false;
    }
    let mut i: usize = 0;
    while i < na
        invariant
            na == a@.len(),
            na == b@.len(),
            0 <= i <= na,
            forall|j: int| 0 <= j < i ==> chars_eq_ic(a@[j], b@[j]),
        decreases na - i,
    {
        if !char_eq_ignore_ascii_case(a.get_char(i), b.get_char(i)) {
            return false;
        }
        i = i + 1;
    }
    true
}

/// A backslash position returned by `rfind_bs` is in range and holds a
/// backslash, and nothing after it is one.
pub proof fn lemma_rfind_bs_range(s: Seq<char>)
    ensures
        match rfind_bs(s) {
            Some(i) => 0 <= i < s.len() && s[i] == '\\' && forall|j: int|
                i < j < s.len() ==> s[j] != '\\',
            None => forall|j: int| 0 <= j < s.len() ==> s[j] != '\\',
        },
    decreases s.len(),
{
    if s.len() > 0 && s[s.len() - 1] != '\\' {
        lemma_rfind_bs_range(s.drop_last());
        assert(forall|j: int| 0 <= j < s.len() - 1 ==> s.drop_last()[j] == s[j]);
    }
}

/// The slice of `s` without its trailing backslashes.
pub fn trim_end_backslashes(s: &str) -> (r: &str)
    ensures
        r@ == trim_end_bs(s@),
{
    let n = s.unicode_len();
    proof {
        assert(s@.take(n as int) =~= s@);
    }
    let mut k: usize = n;
    while k > 0 && s.get_char(k - 1) == '\\'
        invariant
            n == s@.len(),
            0 <= k <= n,
            trim_end_bs(s@) == trim_end_bs(s@.take(k as int)),
        decreases k,
    {
        proof {
            assert(s@.take(k as int).drop_last() =~= s@.take(k - 1));
        }
        k = k - 1;
    }
    proof {
        if k > 0 {
            assert(s@.take(k as int)[k - 1] == s@[k - 1]);
            assert(trim_end_bs(s@.take(k as int)) == s@.take(k as int));
        } else {
            assert(s@.take(0) =~= Seq::<char>::empty());
        }
    }
    s.substring_char(0, k)
}

/// The slice of `s` without its leading backslashes.
pub fn trim_start_backslashes(s: &str) -> (r: &str)
    ensures
        r@ == trim_start_bs(s@),
{
    let n = s.unicode_len();
    proof {
        assert(s@.skip(0) =~= s@);
    }
    let mut k: usize = 0;
    while k < n && s.get_char(k) == '\\'
        invariant
            n == s@.len(),
            0 <= k <= n,
            trim_start_bs(s@) == trim_start_bs(s@.skip(k as int)),
        decreases n - k,
    {
        proof {
            assert(s@.skip(k as int)[0] == s@[k as int]);
            assert(s@.skip(k as int).drop_first() =~= s@.skip(k + 1));
        }
        k = k + 1;
    }
    proof {
        if k < n {
            assert(s@.skip(k as int)[0] == s@[k as int]);
            assert(trim_start_bs(s@.skip(k as int)) == s@.skip(k as int));
        } else {
            assert(s@.skip(k as int) =~= Seq::<char>::empty());
        }
    }
    s.substring_char(k, n)
}

/// A copy of `s` with every forward slash replaced by a backslash.
pub fn replace_forward_slashes(s: &str) -> (r: String)
    ensures
        r@ == replace_fwd_slashes(s@),
{
    let n = s.unicode_len();
    let mut out = String::new();
    let mut i: usize = 0;
    while i < n
        invariant
            n == s@.len(),
            0 <= i <= n,
            out@ =~= replace_fwd_slashes(s@).take(i as int),
        decreases n - i,
    {
        let c = s.get_char(i);
        if c == '/' {
            out.push('\\');
        } else {
            out.push(c);
        }
        proof {
            assert(replace_fwd_slashes(s@).take(i + 1) =~= replace_fwd_slashes(s@).take(
                i as int,
            ).push(replace_fwd_slashes(s@)[i as int]));
        }
        i = i + 1;
    }
    proof {
        assert(replace_fwd_slashes(s@).take(n as int) =~= replace_fwd_slashes(s@));
    }
    out
}

/// The position of the last backslash of `s`, if any.
pub fn rfind_backslash(s: &str) -> (r: Option<usize>)
    ensures
        match r {
            Some(i) => rfind_bs(s@) == Some(i as int),
            None => rfind_bs(s@) is None,
        },
{
    let n = s.unicode_len();
    proof {
        assert(s@.take(n as int) =~= s@);
    }
    let mut k: usize = n;
    while k > 0
        invariant
            n == s@.len(),
            0 <= k <= n,
            rfind_bs(s@) == rfind_bs(s@.take(k as int)),
        decreases k,
    {
        if s.get_char(k - 1) == '\\' {
            proof {
                assert(s@.take(k as int)[k - 1] == s@[k - 1]);
            }
            return Some(k - 1);
        }
        proof {
            assert(s@.take(k as int)[k - 1] == s@[k - 1]);
            assert(s@.take(k as int).drop_last() =~= s@.take(k - 1));
        }
        k = k - 1;
    }
    proof {
        assert(s@.take(0) =~= Seq::<char>::empty());
    }
    None
}

/// The display name of a path: everything after the last backslash.
pub fn last_segment_of(s: &str) -> (r: &str)
    ensures
        r@ == last_segment(s@),
{
    let n = s.unicode_len();
    match rfind_backslash(s) {
        Some(i) => {
            proof {
                lemma_rfind_bs_range(s@);
            }
            s.substring_char(i + 1, n)
        },
        None => s,
    }
}

} // verus!
