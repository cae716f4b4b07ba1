//! Version reporting and `ninja_required_version` checking.

use vstd::prelude::*;
use vstd::string::*;

use crate::text::{chars_of, parse_leading_int, string_of};

verus! {

use crate::text::{
    decimal,
    digits,
    law_decimal_reads_back,
    leading_int,
    lemma_scan_is,
    scan,
    spaces,
};

/// This crate's own version.
pub const SHURIKEN_VERSION: &'static str = "0.1.0";

/// The ninja version whose behaviour and file formats this engine implements.
///
/// This is what `--version` reports and what `ninja_required_version` is
/// checked against, so that manifests generated for ninja work unchanged.
pub const NINJA_COMPAT_VERSION: &'static str = "1.13.2";

/// Accepts everything but a dot.
pub open spec fn not_dot() -> spec_fn(char) -> bool {
    |c: char| c != '.'
}

/// The (major, minor) numbers of a version: what stands before the first dot,
/// and what stands between the first and the second.
pub open spec fn version_numbers(s: Seq<char>) -> (int, int) {
    let a = scan(s, 0, not_dot());
    let b = scan(s, a + 1, not_dot());
    (
        leading_int(s.subrange(0, a)),
        if a < s.len() {
            leading_int(s.subrange(a + 1, b))
        } else {
            0
        },
    )
}

/// Split a version string into (major, minor), ignoring any patch component.
pub fn parse_version(version: &str) -> (r: (i32, i32))
    ensures
        r.0 == version_numbers(version@).0,
        r.1 == version_numbers(version@).1,
{
    let v = chars_of(version);
    let n: usize = v.len();
    let mut a: usize = 0;
    while a < n && v[a] != '.'
        invariant
            n == v.len(),
            a <= n,
            scan(v@, a as int, not_dot()) == scan(v@, 0, not_dot()),
        decreases n - a,
    {
        a += 1;
    }
    let major = parse_leading_int(string_of(v.as_slice(), 0, a).as_str());
    if a == n {
        return (major, 0);
    }
    let mut b: usize = a + 1;
    while b < n && v[b] != '.'
        invariant
            n == v.len(),
            a < b <= n,
            scan(v@, b as int, not_dot()) == scan(v@, a + 1, not_dot()),
        decreases n - b,
    {
        b += 1;
    }
    let minor = parse_leading_int(string_of(v.as_slice(), a + 1, b).as_str());
    (major, minor)
}

/// What a manifest's `ninja_required_version` means for this engine: nothing to
/// say when it is satisfied, a warning when the manifest targets an older major
/// version, an error when it needs a newer version.
pub open spec fn required_version_verdict(version: Seq<char>) -> core::result::Result<
    Option<Seq<char>>,
    Seq<char>,
> {
    let bin = version_numbers(NINJA_COMPAT_VERSION@);
    let file = version_numbers(version);
    if bin.0 > file.0 {
        Ok(
            Some(
                "ninja executable version ("@ + NINJA_COMPAT_VERSION@
                    + ") greater than build file ninja_required_version ("@ + version
                    + "); versions may be incompatible."@,
            ),
        )
    } else if bin.0 < file.0 || bin.1 < file.1 {
        Err(
            "ninja version ("@ + NINJA_COMPAT_VERSION@
                + ") incompatible with build file ninja_required_version version ("@ + version
                + ")."@,
        )
    } else {
        Ok(None)
    }
}

/// Check a manifest's `ninja_required_version` value.
///
/// Returns `Ok(None)` when the version is satisfied, `Ok(Some(warning))` when
/// the manifest targets an older ninja, and `Err(message)` when it requires a
/// newer one than this engine implements.
pub fn check_required_version(version: &str) -> (r: core::result::Result<Option<String>, String>)
    ensures
        match (r, required_version_verdict(version@)) {
            (Ok(None), Ok(None)) => true,
            (Ok(Some(w)), Ok(Some(v))) => w@ == v,
            (Err(e), Err(v)) => e@ == v,
            _ => false,
        },
{
    let (bin_major, bin_minor) = parse_version(NINJA_COMPAT_VERSION);
    let (file_major, file_minor) = parse_version(version);
    if bin_major > file_major {
        let mut s = String::new();
        s.append("ninja executable version (");
        s.append(NINJA_COMPAT_VERSION);
        s.append(") greater than build file ninja_required_version (");
        s.append(version);
        s.append("); versions may be incompatible.");
        assert(s@ =~= required_version_verdict(version@)->Ok_0->0);
        return Ok(Some(s));
    }
    if (bin_major == file_major && bin_minor < file_minor) || bin_major < file_major {
        let mut s = String::new();
        s.append("ninja version (");
        s.append(NINJA_COMPAT_VERSION);
        s.append(") incompatible with build file ninja_required_version version (");
        s.append(version);
        s.append(").");
        assert(s@ =~= required_version_verdict(version@)->Err_0);
        return Err(s);
    }
    Ok(None)
}

/// A version as it is written: two numbers with a dot between them, and whatever
/// stands behind a second dot.
pub open spec fn version_written(major: nat, minor: nat, patch: Option<Seq<char>>) -> Seq<char> {
    decimal(major) + "."@ + decimal(minor) + match patch {
        None => Seq::empty(),
        Some(t) => "."@ + t,
    }
}

proof fn lemma_leading_digits(n: nat)
    requires
        n <= i32::MAX,
    ensures
        leading_int(decimal(n)) == n,
{
    let s = decimal(n);
    law_decimal_reads_back(n);
    assert forall|k: int| 0 <= k < s.len() implies digits()(#[trigger] s[k]) by {}
    assert(digits()(s[0]));
    assert(!spaces()(s[0]));
    assert(scan(s, 0, spaces()) == 0);
    lemma_scan_is(s, 0, digits(), s.len() as int);
    assert(s.subrange(0, s.len() as int) =~= s);
}

proof fn lemma_numbers_written(major: nat, minor: nat, patch: Option<Seq<char>>)
    requires
        major <= i32::MAX,
        minor <= i32::MAX,
    ensures
        version_numbers(version_written(major, minor, patch)) == (major as int, minor as int),
{
    reveal_strlit(".");
    let s = version_written(major, minor, patch);
    let a = decimal(major).len() as int;
    let b = a + 1 + decimal(minor).len();
    law_decimal_reads_back(major);
    law_decimal_reads_back(minor);
    assert(s.subrange(0, a) =~= decimal(major));
    assert(s.subrange(a + 1, b) =~= decimal(minor));
    assert forall|k: int| 0 <= k < a implies not_dot()(#[trigger] s[k]) by {
        assert(s[k] == decimal(major)[k]);
    }
    assert(s[a] == '.');
    lemma_scan_is(s, 0, not_dot(), a);
    assert forall|k: int| a + 1 <= k < b implies not_dot()(#[trigger] s[k]) by {
        assert(s[k] == decimal(minor)[k - a - 1]);
    }
    if b < s.len() {
        assert(s[b] == '.');
    }
    lemma_scan_is(s, a + 1, not_dot(), b);
    lemma_leading_digits(major);
    lemma_leading_digits(minor);
}

/// A manifest is refused just when it needs a later version than 1.13, and warned
/// about just when it was written for an earlier major version.
pub proof fn law_later_versions_are_refused(major: nat, minor: nat, patch: Option<Seq<char>>)
    requires
        major <= i32::MAX,
        minor <= i32::MAX,
    ensures
        ({
            let r = required_version_verdict(version_written(major, minor, patch));
            &&& r is Err <==> major > 1 || (major == 1 && minor > 13)
            &&& r matches Ok(w) ==> (w is Some <==> major < 1)
        }),
{
    lemma_numbers_written(major, minor, patch);
    reveal_strlit("1.13.2");
    reveal_strlit(".");
    reveal_strlit("2");
    assert(1nat < 10 && 3nat < 10);
    assert(decimal(1) =~= seq!['1']);
    assert(13nat / 10 == 1 && 13nat % 10 == 3);
    assert(decimal(13) =~= seq!['1', '3']);
    assert(NINJA_COMPAT_VERSION@ =~= version_written(1, 13, Some("2"@)));
    lemma_numbers_written(1, 13, Some("2"@));
}

} // verus!
