//! Semantic versions.
use crate::text::{decimal, push_decimal, push_text_key, text_key, text_key_injective};
use vstd::prelude::*;
use vstd::string::*;

verus! {

/// A semantic version.
#[derive(Debug)]
pub struct Version {
    pub major: u64,
    pub minor: u64,
    pub patch: u64,
    /// The pre-release part, empty for a release.
    pub pre: String,
    /// The build metadata, empty where there is none.
    pub build: String,
}

/// Two versions are the same in every part.
pub open spec fn same_version(a: Version, b: Version) -> bool {
    &&& a.major == b.major
    &&& a.minor == b.minor
    &&& a.patch == b.patch
    &&& a.pre@ == b.pre@
    &&& a.build@ == b.build@
}

/// The text of a version, such as `0.8.21-nightly+commit`.
pub open spec fn version_text(v: Version) -> Seq<char> {
    let numbers = decimal(v.major as nat) + "."@ + decimal(v.minor as nat) + "."@ + decimal(v.patch as nat);
    let with_pre = if v.pre@.len() == 0 { numbers } else { numbers + "-"@ + v.pre@ };
    if v.build@.len() == 0 { with_pre } else { with_pre + "+"@ + v.build@ }
}

/// The version is not before the release `major.minor.patch`.
pub open spec fn not_before(v: Version, major: int, minor: int, patch: int) -> bool {
    ||| v.major > major
    ||| v.major == major && v.minor > minor
    ||| v.major == major && v.minor == minor && v.patch > patch
    ||| v.major == major && v.minor == minor && v.patch == patch && v.pre@.len() == 0
}

/// The key of a version.
pub open spec fn version_key(v: Version) -> Seq<u64> {
    seq![v.major, v.minor, v.patch] + text_key(v.pre@) + text_key(v.build@)
}

/// Different versions have different keys, whatever follows them.
pub proof fn version_key_injective(a: Version, x: Seq<u64>, b: Version, y: Seq<u64>)
    requires
        version_key(a) + x == version_key(b) + y,
    ensures
        same_version(a, b),
        x == y,
{
    let left = version_key(a) + x;
    let right = version_key(b) + y;
    assert(left[0] == a.major && left[1] == a.minor && left[2] == a.patch);
    assert(right[0] == b.major && right[1] == b.minor && right[2] == b.patch);
    assert(left.skip(3) =~= text_key(a.pre@) + (text_key(a.build@) + x));
    assert(right.skip(3) =~= text_key(b.pre@) + (text_key(b.build@) + y));
    text_key_injective(a.pre@, text_key(a.build@) + x, b.pre@, text_key(b.build@) + y);
    text_key_injective(a.build@, x, b.build@, y);
}

impl Clone for Version {
    fn clone(&self) -> (copy: Self)
        ensures
            copy == *self,
    {
        Version {
            major: self.major,
            minor: self.minor,
            patch: self.patch,
            pre: self.pre.clone(),
            build: self.build.clone(),
        }
    }
}

impl Version {
    /// A release.
    pub fn new(major: u64, minor: u64, patch: u64) -> (v: Self)
        ensures
            v.major == major,
            v.minor == minor,
            v.patch == patch,
            v.pre@ == Seq::<char>::empty(),
            v.build@ == Seq::<char>::empty(),
    {
        Version { major, minor, patch, pre: String::new(), build: String::new() }
    }

    /// Whether two versions are the same.
    pub fn same(&self, other: &Version) -> (same: bool)
        ensures
            same == same_version(*self, *other),
    {
        self.major == other.major && self.minor == other.minor && self.patch == other.patch && self.pre == other.pre
            && self.build == other.build
    }

    /// Whether the version is not before the release `major.minor.patch`.
    pub fn at_least(&self, major: u64, minor: u64, patch: u64) -> (at_least: bool)
        ensures
            at_least == not_before(*self, major as int, minor as int, patch as int),
    {
        if self.major != major {
            return self.major > major;
        }
        if self.minor != minor {
            return self.minor > minor;
        }
        self.patch > patch || (self.patch == patch && self.pre.as_str().unicode_len() == 0)
    }

    /// Appends the text of the version.
    pub fn push_text(&self, out: &mut String)
        ensures
            final(out)@ == old(out)@ + version_text(*self),
    {
        push_decimal(out, self.major);
        out.append(".");
        push_decimal(out, self.minor);
        out.append(".");
        push_decimal(out, self.patch);
        if self.pre.as_str().unicode_len() != 0 {
            out.append("-");
            out.append(self.pre.as_str());
        }
        if self.build.as_str().unicode_len() != 0 {
            out.append("+");
            out.append(self.build.as_str());
        }
        assert(out@ =~= old(out)@ + version_text(*self));
    }

    /// Appends the key of the version.
    pub fn push_key(&self, key: &mut Vec<u64>)
        ensures
            final(key)@ == old(key)@ + version_key(*self),
    {
        key.push(self.major);
        key.push(self.minor);
        key.push(self.patch);
        push_text_key(key, self.pre.as_str());
        push_text_key(key, self.build.as_str());
        assert(key@ =~= old(key)@ + version_key(*self));
    }
}

}
