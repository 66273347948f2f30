//! Named versions of the target simulation.
//!
//! A version is a release number and a sub-version number, with a display
//! name.  Versions order by release number, and within one release by
//! sub-version number.
use vstd::prelude::*;
use vstd::string::StringSliceAdditionalSpecFns;

verus! {

/// A version of the target simulation.
#[derive(Debug, Clone, Copy)]
pub struct MCVersion {
    pub name: &'static str,
    pub release: i32,
    pub sub_version: i32,
}

/// The strict order on version numbers: by release, then by sub-version.
pub open spec fn version_lt_nums(ar: int, asv: int, br: int, bsv: int) -> bool {
    ar < br || (ar == br && asv < bsv)
}

/// The strict order on versions.
pub open spec fn version_lt(a: MCVersion, b: MCVersion) -> bool {
    version_lt_nums(a.release as int, a.sub_version as int, b.release as int, b.sub_version as int)
}

/// Two versions compare as equal: same release and sub-version.
pub open spec fn version_eq(a: MCVersion, b: MCVersion) -> bool {
    a.release == b.release && a.sub_version == b.sub_version
}

impl MCVersion {
    /// A version from its display name and two numbers.
    pub fn new(name: &'static str, release: i32, sub_version: i32) -> (r: Self)
        ensures
            r.name == name,
            r.release == release,
            r.sub_version == sub_version,
    {
        Self { name, release, sub_version }
    }

    /// The release number.
    pub fn get_release(&self) -> (r: i32)
        ensures
            r == self.release,
    {
        self.release
    }

    /// The sub-version number.
    pub fn get_sub_version(&self) -> (r: i32)
        ensures
            r == self.sub_version,
    {
        self.sub_version
    }

    /// The newest version this library knows.
    pub fn latest() -> (r: MCVersion)
        ensures
            r.release == 19 && r.sub_version == 2,
    {
        v1_19_2()
    }

    /// The oldest version this library knows.
    pub fn oldest() -> (r: MCVersion)
        ensures
            r.release == 0 && r.sub_version == 4,
    {
        va1_0_4()
    }

    /// Strictly newer than `other`.
    pub fn is_newer_than(&self, other: &MCVersion) -> (r: bool)
        ensures
            r == version_lt(*other, *self),
    {
        other.release < self.release || (other.release == self.release && other.sub_version
            < self.sub_version)
    }

    /// Newer than or comparing equal to `other`.
    pub fn is_newer_or_equal_to(&self, other: &MCVersion) -> (r: bool)
        ensures
            r == !version_lt(*self, *other),
    {
        !self.is_older_than(other)
    }

    /// Strictly older than `other`.
    pub fn is_older_than(&self, other: &MCVersion) -> (r: bool)
        ensures
            r == version_lt(*self, *other),
    {
        self.release < other.release || (self.release == other.release && self.sub_version
            < other.sub_version)
    }

    /// Older than or comparing equal to `other`.
    pub fn is_older_or_equal_to(&self, other: &MCVersion) -> (r: bool)
        ensures
            r == !version_lt(*other, *self),
    {
        !self.is_newer_than(other)
    }

    /// Comparing equal to `other`: same release and sub-version.
    pub fn is_equal_to(&self, other: &MCVersion) -> (r: bool)
        ensures
            r == version_eq(*self, *other),
    {
        self.release == other.release && self.sub_version == other.sub_version
    }

    /// At or after `a` and at or before `b`, inclusive on both ends.
    pub fn is_between(&self, a: &MCVersion, b: &MCVersion) -> (r: bool)
        ensures
            r == (!version_lt(*self, *a) && !version_lt(*b, *self)),
    {
        !self.is_older_than(a) && !self.is_newer_than(b)
    }

    /// Strictly after `a` and strictly before `b`.
    pub fn is_between_exclusive(&self, a: &MCVersion, b: &MCVersion) -> (r: bool)
        ensures
            r == (version_lt(*a, *self) && version_lt(*self, *b)),
    {
        self.is_newer_than(a) && self.is_older_than(b)
    }

    /// Whether this version belongs to the release line.
    pub fn is_release(&self) -> (r: bool)
        ensures
            r == !version_lt_nums(0, 0, self.release as int, self.sub_version as int),
    {
        Self::is_release_static(self)
    }

    /// The release test on a borrowed version.
    fn is_release_static(version: &MCVersion) -> (r: bool)
        ensures
            r == !version_lt_nums(0, 0, version.release as int, version.sub_version as int),
    {
        version.is_older_or_equal_to(&v1_0())
    }

    /// Whether this version belongs to the alpha line.
    pub fn is_alpha(&self) -> (r: bool)
        ensures
            r == (!version_lt_nums(self.release as int, self.sub_version as int, 0, 4)
                && !version_lt_nums(2, 6, self.release as int, self.sub_version as int)),
    {
        Self::is_alpha_static(self)
    }

    /// The alpha test on a borrowed version.
    fn is_alpha_static(version: &MCVersion) -> (r: bool)
        ensures
            r == (!version_lt_nums(version.release as int, version.sub_version as int, 0, 4)
                && !version_lt_nums(2, 6, version.release as int, version.sub_version as int)),
    {
        version.is_between(&va1_0_4(), &va1_2_6())
    }

    /// Whether this version belongs to the beta line.
    pub fn is_beta(&self) -> (r: bool)
        ensures
            r == (!version_lt_nums(self.release as int, self.sub_version as int, 0, 0)
                && !version_lt_nums(8, 1, self.release as int, self.sub_version as int)),
    {
        Self::is_beta_static(self)
    }

    /// The beta test on a borrowed version.
    fn is_beta_static(version: &MCVersion) -> (r: bool)
        ensures
            r == (!version_lt_nums(version.release as int, version.sub_version as int, 0, 0)
                && !version_lt_nums(8, 1, version.release as int, version.sub_version as int)),
    {
        version.is_between(&vb1_0(), &vb1_8_1())
    }

    /// The version carrying the given display name, if the table holds it.
    pub fn from_string(name: &str) -> (r: Option<MCVersion>)
        ensures
            ({
                let vs = versions_seq();
                let i = name_index_from(vs, name.spec_bytes(), 0);
                if i < vs.len() {
                    r == Some(vs[i])
                } else {
                    r is None
                }
            }),
    {
        let vs = versions();
        let n = vs.len();
        let mut i: usize = 0;
        while i < n
            invariant
                n == vs@.len(),
                i <= n,
                vs@ == versions_seq(),
                name_index_from(versions_seq(), name.spec_bytes(), 0) == name_index_from(
                    versions_seq(),
                    name.spec_bytes(),
                    i as nat,
                ),
            decreases n - i,
        {
            let v = *vstd::slice::slice_index_get(vs.as_slice(), i);
            if str_bytes_equal(name, v.name) {
                return Some(v);
            }
            i = i + 1;
        }
        None
    }

    /// The position of this version's name in the table, or the table's
    /// length when the name is not held.
    fn table_index(&self) -> (r: usize)
        ensures
            r as int == name_index_from(versions_seq(), self.name.spec_bytes(), 0),
            r <= versions_seq().len(),
    {
        let vs = versions();
        let n = vs.len();
        let mut i: usize = 0;
        while i < n
            invariant
                n == vs@.len(),
                i <= n,
                vs@ == versions_seq(),
                name_index_from(versions_seq(), self.name.spec_bytes(), 0) == name_index_from(
                    versions_seq(),
                    self.name.spec_bytes(),
                    i as nat,
                ),
            decreases n - i,
        {
            let v = *vstd::slice::slice_index_get(vs.as_slice(), i);
            if str_bytes_equal(self.name, v.name) {
                return i;
            }
            i = i + 1;
        }
        n
    }

    /// The next newer version in the table, if this one is in the table
    /// and is not already the newest.
    pub fn newer(&self) -> (r: Option<MCVersion>)
        ensures
            ({
                let vs = versions_seq();
                let i = name_index_from(vs, self.name.spec_bytes(), 0);
                if 1 <= i < vs.len() {
                    r == Some(vs[i - 1])
                } else {
                    r is None
                }
            }),
    {
        let vs = versions();
        let i = self.table_index();
        if 1 <= i && i < vs.len() {
            Some(*vstd::slice::slice_index_get(vs.as_slice(), i - 1))
        } else {
            None
        }
    }

    /// The next older version in the table, if this one is in the table
    /// and is not already the oldest.
    pub fn older(&self) -> (r: Option<MCVersion>)
        ensures
            ({
                let vs = versions_seq();
                let i = name_index_from(vs, self.name.spec_bytes(), 0);
                if i + 1 < vs.len() {
                    r == Some(vs[i + 1])
                } else {
                    r is None
                }
            }),
    {
        let vs = versions();
        let i = self.table_index();
        let n = vs.len();
        if i < n {
            if i + 1 < n {
                Some(*vstd::slice::slice_index_get(vs.as_slice(), i + 1))
            } else {
                None
            }
        } else {
            None
        }
    }
}

/// Version 1.19.2, the newest known.
pub fn v1_19_2() -> (r: MCVersion)
    ensures
        r.release == 19 && r.sub_version == 2,
{
    MCVersion::new("1.19.2", 19, 2)
}

/// Version 1.16.5, the version the search targets.
pub fn v1_16_5() -> (r: MCVersion)
    ensures
        r.release == 16 && r.sub_version == 5,
{
    MCVersion::new("1.16.5", 16, 5)
}

/// Version 1.13, the cut between the two population-seed constructions.
pub fn v1_13() -> (r: MCVersion)
    ensures
        r.release == 13 && r.sub_version == 0,
{
    MCVersion::new("1.13", 13, 0)
}

/// Version 1.0, the first release.
pub fn v1_0() -> (r: MCVersion)
    ensures
        r.release == 0 && r.sub_version == 0,
{
    MCVersion::new("1.0", 0, 0)
}

/// Beta 1.8.1, the last beta.
pub fn vb1_8_1() -> (r: MCVersion)
    ensures
        r.release == 8 && r.sub_version == 1,
{
    MCVersion::new("b1.8.1", 8, 1)
}

/// Beta 1.0, the first beta.
pub fn vb1_0() -> (r: MCVersion)
    ensures
        r.release == 0 && r.sub_version == 0,
{
    MCVersion::new("b1.0", 0, 0)
}

/// Alpha 1.2.6, the last alpha.
pub fn va1_2_6() -> (r: MCVersion)
    ensures
        r.release == 2 && r.sub_version == 6,
{
    MCVersion::new("a1.2.6", 2, 6)
}

/// Alpha 1.0.4, the first alpha this library knows.
pub fn va1_0_4() -> (r: MCVersion)
    ensures
        r.release == 0 && r.sub_version == 4,
{
    MCVersion::new("a1.0.4", 0, 4)
}



/// One quarter of the version table.
#[verifier::opaque]
pub open spec fn versions_newest_seq() -> Seq<MCVersion> {
    seq![
        MCVersion { name: "1.19.2", release: 19, sub_version: 2 },
        MCVersion { name: "1.19.1", release: 19, sub_version: 1 },
        MCVersion { name: "1.19", release: 19, sub_version: 0 },
        MCVersion { name: "1.18.2", release: 18, sub_version: 2 },
        MCVersion { name: "1.18.1", release: 18, sub_version: 1 },
        MCVersion { name: "1.18", release: 18, sub_version: 0 },
        MCVersion { name: "1.17.1", release: 17, sub_version: 1 },
        MCVersion { name: "1.17", release: 17, sub_version: 0 },
        MCVersion { name: "1.16.5", release: 16, sub_version: 5 },
        MCVersion { name: "1.16.4", release: 16, sub_version: 4 },
        MCVersion { name: "1.16.3", release: 16, sub_version: 3 },
        MCVersion { name: "1.16.2", release: 16, sub_version: 2 },
        MCVersion { name: "1.16.1", release: 16, sub_version: 1 },
        MCVersion { name: "1.16", release: 16, sub_version: 0 },
        MCVersion { name: "1.15.2", release: 15, sub_version: 2 },
        MCVersion { name: "1.15.1", release: 15, sub_version: 1 },
        MCVersion { name: "1.15", release: 15, sub_version: 0 },
        MCVersion { name: "1.14.4", release: 14, sub_version: 4 },
        MCVersion { name: "1.14.3", release: 14, sub_version: 3 },
        MCVersion { name: "1.14.2", release: 14, sub_version: 2 },
        MCVersion { name: "1.14.1", release: 14, sub_version: 1 },
        MCVersion { name: "1.14", release: 14, sub_version: 0 },
        MCVersion { name: "1.13.2", release: 13, sub_version: 2 },
        MCVersion { name: "1.13.1", release: 13, sub_version: 1 },
        MCVersion { name: "1.13", release: 13, sub_version: 0 },
        MCVersion { name: "1.12.2", release: 12, sub_version: 2 },
        MCVersion { name: "1.12.1", release: 12, sub_version: 1 },
        MCVersion { name: "1.12", release: 12, sub_version: 0 },
        MCVersion { name: "1.11.2", release: 11, sub_version: 2 },
        MCVersion { name: "1.11.1", release: 11, sub_version: 1 },
        MCVersion { name: "1.11", release: 11, sub_version: 0 },
        MCVersion { name: "1.10.2", release: 10, sub_version: 2 },
    ]
}

/// One quarter of the version table.
#[verifier::opaque]
pub open spec fn versions_upper_mid_seq() -> Seq<MCVersion> {
    seq![
        MCVersion { name: "1.10.1", release: 10, sub_version: 1 },
        MCVersion { name: "1.10", release: 10, sub_version: 0 },
        MCVersion { name: "1.9.4", release: 9, sub_version: 4 },
        MCVersion { name: "1.9.3", release: 9, sub_version: 3 },
        MCVersion { name: "1.9.2", release: 9, sub_version: 2 },
        MCVersion { name: "1.9.1", release: 9, sub_version: 1 },
        MCVersion { name: "1.9", release: 9, sub_version: 0 },
        MCVersion { name: "1.8.9", release: 8, sub_version: 9 },
        MCVersion { name: "1.8.8", release: 8, sub_version: 8 },
        MCVersion { name: "1.8.7", release: 8, sub_version: 7 },
        MCVersion { name: "1.8.6", release: 8, sub_version: 6 },
        MCVersion { name: "1.8.5", release: 8, sub_version: 5 },
        MCVersion { name: "1.8.4", release: 8, sub_version: 4 },
        MCVersion { name: "1.8.3", release: 8, sub_version: 3 },
        MCVersion { name: "1.8.2", release: 8, sub_version: 2 },
        MCVersion { name: "1.8.1", release: 8, sub_version: 1 },
        MCVersion { name: "1.8", release: 8, sub_version: 0 },
        MCVersion { name: "1.7.10", release: 7, sub_version: 10 },
        MCVersion { name: "1.7.9", release: 7, sub_version: 9 },
        MCVersion { name: "1.7.8", release: 7, sub_version: 8 },
        MCVersion { name: "1.7.7", release: 7, sub_version: 7 },
        MCVersion { name: "1.7.6", release: 7, sub_version: 6 },
        MCVersion { name: "1.7.5", release: 7, sub_version: 5 },
        MCVersion { name: "1.7.4", release: 7, sub_version: 4 },
        MCVersion { name: "1.7.3", release: 7, sub_version: 3 },
        MCVersion { name: "1.7.2", release: 7, sub_version: 2 },
        MCVersion { name: "1.6.4", release: 6, sub_version: 4 },
        MCVersion { name: "1.6.2", release: 6, sub_version: 2 },
        MCVersion { name: "1.6.1", release: 6, sub_version: 1 },
        MCVersion { name: "1.5.2", release: 5, sub_version: 2 },
        MCVersion { name: "1.5.1", release: 5, sub_version: 1 },
        MCVersion { name: "1.4.7", release: 4, sub_version: 7 },
    ]
}

/// One quarter of the version table.
#[verifier::opaque]
pub open spec fn versions_lower_mid_seq() -> Seq<MCVersion> {
    seq![
        MCVersion { name: "1.4.6", release: 4, sub_version: 6 },
        MCVersion { name: "1.4.5", release: 4, sub_version: 5 },
        MCVersion { name: "1.4.4", release: 4, sub_version: 4 },
        MCVersion { name: "1.4.2", release: 4, sub_version: 2 },
        MCVersion { name: "1.3.2", release: 3, sub_version: 2 },
        MCVersion { name: "1.3.1", release: 3, sub_version: 1 },
        MCVersion { name: "1.2.5", release: 2, sub_version: 5 },
        MCVersion { name: "1.2.4", release: 2, sub_version: 4 },
        MCVersion { name: "1.2.3", release: 2, sub_version: 3 },
        MCVersion { name: "1.2.2", release: 2, sub_version: 2 },
        MCVersion { name: "1.2.1", release: 2, sub_version: 1 },
        MCVersion { name: "1.1", release: 1, sub_version: 0 },
        MCVersion { name: "1.0", release: 0, sub_version: 0 },
        MCVersion { name: "b1.8.1", release: 8, sub_version: 1 },
        MCVersion { name: "b1.8", release: 8, sub_version: 0 },
        MCVersion { name: "b1.7.3", release: 7, sub_version: 3 },
        MCVersion { name: "b1.7.2", release: 7, sub_version: 2 },
        MCVersion { name: "b1.7", release: 7, sub_version: 0 },
        MCVersion { name: "b1.6.6", release: 6, sub_version: 6 },
        MCVersion { name: "b1.6.5", release: 6, sub_version: 5 },
        MCVersion { name: "b1.6.4", release: 6, sub_version: 4 },
        MCVersion { name: "b1.6.3", release: 6, sub_version: 3 },
        MCVersion { name: "b1.6.2", release: 6, sub_version: 2 },
        MCVersion { name: "b1.6.1", release: 6, sub_version: 1 },
        MCVersion { name: "b1.6", release: 6, sub_version: 0 },
        MCVersion { name: "b1.5_01", release: 501, sub_version: 0 },
        MCVersion { name: "b1.5", release: 5, sub_version: 0 },
        MCVersion { name: "b1.4_01", release: 401, sub_version: 0 },
        MCVersion { name: "b1.4", release: 4, sub_version: 0 },
        MCVersion { name: "b1.3_01", release: 301, sub_version: 0 },
        MCVersion { name: "b1.3b", release: 3, sub_version: 0 },
        MCVersion { name: "b1.2_02", release: 202, sub_version: 0 },
    ]
}

/// One quarter of the version table.
#[verifier::opaque]
pub open spec fn versions_oldest_seq() -> Seq<MCVersion> {
    seq![
        MCVersion { name: "b1.2_01", release: 201, sub_version: 0 },
        MCVersion { name: "b1.2", release: 2, sub_version: 0 },
        MCVersion { name: "b1.1_02", release: 102, sub_version: 0 },
        MCVersion { name: "b1.1_01", release: 101, sub_version: 0 },
        MCVersion { name: "b1.0.2", release: 0, sub_version: 2 },
        MCVersion { name: "b1.0_01", release: 1, sub_version: 0 },
        MCVersion { name: "b1.0", release: 0, sub_version: 0 },
        MCVersion { name: "a1.2.6", release: 2, sub_version: 6 },
        MCVersion { name: "a1.2.5", release: 2, sub_version: 5 },
        MCVersion { name: "a1.2.4_01", release: 2, sub_version: 401 },
        MCVersion { name: "a1.2.3_04", release: 2, sub_version: 304 },
        MCVersion { name: "a1.2.3_02", release: 2, sub_version: 302 },
        MCVersion { name: "a1.2.3_01", release: 2, sub_version: 301 },
        MCVersion { name: "a1.2.3", release: 2, sub_version: 3 },
        MCVersion { name: "a1.2.2b", release: 2, sub_version: 2 },
        MCVersion { name: "a1.2.2a", release: 2, sub_version: 2 },
        MCVersion { name: "a1.2.1_01", release: 2, sub_version: 101 },
        MCVersion { name: "a1.2.1", release: 2, sub_version: 1 },
        MCVersion { name: "a1.2.0_02", release: 2, sub_version: 2 },
        MCVersion { name: "a1.2.0_01", release: 2, sub_version: 1 },
        MCVersion { name: "a1.2.0", release: 2, sub_version: 0 },
        MCVersion { name: "a1.1.2_01", release: 1, sub_version: 201 },
        MCVersion { name: "a1.1.2", release: 1, sub_version: 2 },
        MCVersion { name: "a1.1.0", release: 1, sub_version: 0 },
        MCVersion { name: "a1.0.17_04", release: 0, sub_version: 1704 },
        MCVersion { name: "a1.0.17_02", release: 0, sub_version: 1702 },
        MCVersion { name: "a1.0.16", release: 0, sub_version: 16 },
        MCVersion { name: "a1.0.15", release: 0, sub_version: 15 },
        MCVersion { name: "a1.0.14", release: 0, sub_version: 14 },
        MCVersion { name: "a1.0.11", release: 0, sub_version: 11 },
        MCVersion { name: "a1.0.5_01", release: 0, sub_version: 501 },
        MCVersion { name: "a1.0.4", release: 0, sub_version: 4 },
    ]
}

/// The known versions, newest first: the fixed table the name lookup and
/// the neighbour walks read.
pub open spec fn versions_seq() -> Seq<MCVersion> {
    versions_newest_seq() + versions_upper_mid_seq() + versions_lower_mid_seq()
        + versions_oldest_seq()
}

/// Append one quarter of the version table.
#[verifier::rlimit(100)]
#[verifier::spinoff_prover]
fn push_newest(v: &mut Vec<MCVersion>)
    ensures
        final(v)@ == old(v)@ + versions_newest_seq(),
{
    let ghost pre = v@;
    v.push(MCVersion::new("1.19.2", 19, 2));
    v.push(MCVersion::new("1.19.1", 19, 1));
    v.push(MCVersion::new("1.19", 19, 0));
    v.push(MCVersion::new("1.18.2", 18, 2));
    v.push(MCVersion::new("1.18.1", 18, 1));
    v.push(MCVersion::new("1.18", 18, 0));
    v.push(MCVersion::new("1.17.1", 17, 1));
    v.push(MCVersion::new("1.17", 17, 0));
    v.push(MCVersion::new("1.16.5", 16, 5));
    v.push(MCVersion::new("1.16.4", 16, 4));
    v.push(MCVersion::new("1.16.3", 16, 3));
    v.push(MCVersion::new("1.16.2", 16, 2));
    v.push(MCVersion::new("1.16.1", 16, 1));
    v.push(MCVersion::new("1.16", 16, 0));
    v.push(MCVersion::new("1.15.2", 15, 2));
    v.push(MCVersion::new("1.15.1", 15, 1));
    v.push(MCVersion::new("1.15", 15, 0));
    v.push(MCVersion::new("1.14.4", 14, 4));
    v.push(MCVersion::new("1.14.3", 14, 3));
    v.push(MCVersion::new("1.14.2", 14, 2));
    v.push(MCVersion::new("1.14.1", 14, 1));
    v.push(MCVersion::new("1.14", 14, 0));
    v.push(MCVersion::new("1.13.2", 13, 2));
    v.push(MCVersion::new("1.13.1", 13, 1));
    v.push(MCVersion::new("1.13", 13, 0));
    v.push(MCVersion::new("1.12.2", 12, 2));
    v.push(MCVersion::new("1.12.1", 12, 1));
    v.push(MCVersion::new("1.12", 12, 0));
    v.push(MCVersion::new("1.11.2", 11, 2));
    v.push(MCVersion::new("1.11.1", 11, 1));
    v.push(MCVersion::new("1.11", 11, 0));
    v.push(MCVersion::new("1.10.2", 10, 2));
    proof {
        reveal(versions_newest_seq);
        assert(v@ =~= pre + versions_newest_seq());
    }
}

/// Append one quarter of the version table.
#[verifier::rlimit(100)]
#[verifier::spinoff_prover]
fn push_upper_mid(v: &mut Vec<MCVersion>)
    ensures
        final(v)@ == old(v)@ + versions_upper_mid_seq(),
{
    let ghost pre = v@;
    v.push(MCVersion::new("1.10.1", 10, 1));
    v.push(MCVersion::new("1.10", 10, 0));
    v.push(MCVersion::new("1.9.4", 9, 4));
    v.push(MCVersion::new("1.9.3", 9, 3));
    v.push(MCVersion::new("1.9.2", 9, 2));
    v.push(MCVersion::new("1.9.1", 9, 1));
    v.push(MCVersion::new("1.9", 9, 0));
    v.push(MCVersion::new("1.8.9", 8, 9));
    v.push(MCVersion::new("1.8.8", 8, 8));
    v.push(MCVersion::new("1.8.7", 8, 7));
    v.push(MCVersion::new("1.8.6", 8, 6));
    v.push(MCVersion::new("1.8.5", 8, 5));
    v.push(MCVersion::new("1.8.4", 8, 4));
    v.push(MCVersion::new("1.8.3", 8, 3));
    v.push(MCVersion::new("1.8.2", 8, 2));
    v.push(MCVersion::new("1.8.1", 8, 1));
    v.push(MCVersion::new("1.8", 8, 0));
    v.push(MCVersion::new("1.7.10", 7, 10));
    v.push(MCVersion::new("1.7.9", 7, 9));
    v.push(MCVersion::new("1.7.8", 7, 8));
    v.push(MCVersion::new("1.7.7", 7, 7));
    v.push(MCVersion::new("1.7.6", 7, 6));
    v.push(MCVersion::new("1.7.5", 7, 5));
    v.push(MCVersion::new("1.7.4", 7, 4));
    v.push(MCVersion::new("1.7.3", 7, 3));
    v.push(MCVersion::new("1.7.2", 7, 2));
    v.push(MCVersion::new("1.6.4", 6, 4));
    v.push(MCVersion::new("1.6.2", 6, 2));
    v.push(MCVersion::new("1.6.1", 6, 1));
    v.push(MCVersion::new("1.5.2", 5, 2));
    v.push(MCVersion::new("1.5.1", 5, 1));
    v.push(MCVersion::new("1.4.7", 4, 7));
    proof {
        reveal(versions_upper_mid_seq);
        assert(v@ =~= pre + versions_upper_mid_seq());
    }
}

/// Append one quarter of the version table.
#[verifier::rlimit(100)]
#[verifier::spinoff_prover]
fn push_lower_mid(v: &mut Vec<MCVersion>)
    ensures
        final(v)@ == old(v)@ + versions_lower_mid_seq(),
{
    let ghost pre = v@;
    v.push(MCVersion::new("1.4.6", 4, 6));
    v.push(MCVersion::new("1.4.5", 4, 5));
    v.push(MCVersion::new("1.4.4", 4, 4));
    v.push(MCVersion::new("1.4.2", 4, 2));
    v.push(MCVersion::new("1.3.2", 3, 2));
    v.push(MCVersion::new("1.3.1", 3, 1));
    v.push(MCVersion::new("1.2.5", 2, 5));
    v.push(MCVersion::new("1.2.4", 2, 4));
    v.push(MCVersion::new("1.2.3", 2, 3));
    v.push(MCVersion::new("1.2.2", 2, 2));
    v.push(MCVersion::new("1.2.1", 2, 1));
    v.push(MCVersion::new("1.1", 1, 0));
    v.push(MCVersion::new("1.0", 0, 0));
    v.push(MCVersion::new("b1.8.1", 8, 1));
    v.push(MCVersion::new("b1.8", 8, 0));
    v.push(MCVersion::new("b1.7.3", 7, 3));
    v.push(MCVersion::new("b1.7.2", 7, 2));
    v.push(MCVersion::new("b1.7", 7, 0));
    v.push(MCVersion::new("b1.6.6", 6, 6));
    v.push(MCVersion::new("b1.6.5", 6, 5));
    v.push(MCVersion::new("b1.6.4", 6, 4));
    v.push(MCVersion::new("b1.6.3", 6, 3));
    v.push(MCVersion::new("b1.6.2", 6, 2));
    v.push(MCVersion::new("b1.6.1", 6, 1));
    v.push(MCVersion::new("b1.6", 6, 0));
    v.push(MCVersion::new("b1.5_01", 501, 0));
    v.push(MCVersion::new("b1.5", 5, 0));
    v.push(MCVersion::new("b1.4_01", 401, 0));
    v.push(MCVersion::new("b1.4", 4, 0));
    v.push(MCVersion::new("b1.3_01", 301, 0));
    v.push(MCVersion::new("b1.3b", 3, 0));
    v.push(MCVersion::new("b1.2_02", 202, 0));
    proof {
        reveal(versions_lower_mid_seq);
        assert(v@ =~= pre + versions_lower_mid_seq());
    }
}

/// Append one quarter of the version table.
#[verifier::rlimit(100)]
#[verifier::spinoff_prover]
fn push_oldest(v: &mut Vec<MCVersion>)
    ensures
        final(v)@ == old(v)@ + versions_oldest_seq(),
{
    let ghost pre = v@;
    v.push(MCVersion::new("b1.2_01", 201, 0));
    v.push(MCVersion::new("b1.2", 2, 0));
    v.push(MCVersion::new("b1.1_02", 102, 0));
    v.push(MCVersion::new("b1.1_01", 101, 0));
    v.push(MCVersion::new("b1.0.2", 0, 2));
    v.push(MCVersion::new("b1.0_01", 1, 0));
    v.push(MCVersion::new("b1.0", 0, 0));
    v.push(MCVersion::new("a1.2.6", 2, 6));
    v.push(MCVersion::new("a1.2.5", 2, 5));
    v.push(MCVersion::new("a1.2.4_01", 2, 401));
    v.push(MCVersion::new("a1.2.3_04", 2, 304));
    v.push(MCVersion::new("a1.2.3_02", 2, 302));
    v.push(MCVersion::new("a1.2.3_01", 2, 301));
    v.push(MCVersion::new("a1.2.3", 2, 3));
    v.push(MCVersion::new("a1.2.2b", 2, 2));
    v.push(MCVersion::new("a1.2.2a", 2, 2));
    v.push(MCVersion::new("a1.2.1_01", 2, 101));
    v.push(MCVersion::new("a1.2.1", 2, 1));
    v.push(MCVersion::new("a1.2.0_02", 2, 2));
    v.push(MCVersion::new("a1.2.0_01", 2, 1));
    v.push(MCVersion::new("a1.2.0", 2, 0));
    v.push(MCVersion::new("a1.1.2_01", 1, 201));
    v.push(MCVersion::new("a1.1.2", 1, 2));
    v.push(MCVersion::new("a1.1.0", 1, 0));
    v.push(MCVersion::new("a1.0.17_04", 0, 1704));
    v.push(MCVersion::new("a1.0.17_02", 0, 1702));
    v.push(MCVersion::new("a1.0.16", 0, 16));
    v.push(MCVersion::new("a1.0.15", 0, 15));
    v.push(MCVersion::new("a1.0.14", 0, 14));
    v.push(MCVersion::new("a1.0.11", 0, 11));
    v.push(MCVersion::new("a1.0.5_01", 0, 501));
    v.push(MCVersion::new("a1.0.4", 0, 4));
    proof {
        reveal(versions_oldest_seq);
        assert(v@ =~= pre + versions_oldest_seq());
    }
}

/// The version table, newest first.
pub fn versions() -> (r: Vec<MCVersion>)
    ensures
        r@ == versions_seq(),
{
    let mut v: Vec<MCVersion> = Vec::new();
    push_newest(&mut v);
    push_upper_mid(&mut v);
    push_lower_mid(&mut v);
    push_oldest(&mut v);
    proof {
        assert(v@ =~= versions_seq());
    }
    v
}

/// The position of the first entry of `s`, from index `i` on, whose name
/// has the given bytes; the length when none has them.
pub open spec fn name_index_from(s: Seq<MCVersion>, name: Seq<u8>, i: nat) -> int
    decreases s.len() - i,
{
    if i >= s.len() {
        s.len() as int
    } else if s[i as int].name.spec_bytes() == name {
        i as int
    } else {
        name_index_from(s, name, i + 1)
    }
}

/// Whether two names consist of the same bytes.
fn str_bytes_equal(a: &str, b: &str) -> (r: bool)
    ensures
        r == (a.spec_bytes() == b.spec_bytes()),
{
    let ab = a.as_bytes();
    let bb = b.as_bytes();
    if ab.len() != bb.len() {
        return false;
    }
    let mut i: usize = 0;
    while i < ab.len()
        invariant
            i <= ab@.len(),
            ab@.len() == bb@.len(),
            ab@ == a.spec_bytes() && bb@ == b.spec_bytes(),
            forall|j: int| 0 <= j < i ==> ab@[j] == bb@[j],
        decreases ab@.len() - i,
    {
        if *vstd::slice::slice_index_get(ab, i) != *vstd::slice::slice_index_get(bb, i) {
            return false;
        }
        i = i + 1;
    }
    proof {
        assert(a.spec_bytes() =~= b.spec_bytes());
    }
    true
}


} // verus!
