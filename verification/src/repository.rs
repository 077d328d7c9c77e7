//! APT repositories: the data describing one repository, its basic
//! validity checks, and its serialisation in the one-line and stanza file
//! formats.

use vstd::prelude::*;
use vstd::string::StringSliceAdditionalSpecFns;
use vstd::utf8::encode_utf8;
use crate::bytes::{has_byte, split_on, ends_with, slice_ends_with, find_byte_from, sub_vec,
    slice_starts_with, starts_with, bytes_eq, lemma_first_part, lemma_split_on_whole};
use crate::sendmail::str_eq;

verus! {

/// The format a repository is written in.
#[derive(Debug, Copy, Clone, PartialEq, Eq, Structural)]
pub enum APTRepositoryFileType {
    /// One-line-style format.
    List,
    /// DEB822-style format.
    Sources,
}

impl APTRepositoryFileType {
    /// Read a file type from its name.
    pub fn from_text(s: &str) -> (r: Option<Self>)
        ensures
            r == (if s@ == "list"@ {
                Some(APTRepositoryFileType::List)
            } else if s@ == "sources"@ {
                Some(APTRepositoryFileType::Sources)
            } else {
                None
            }),
    {
        if str_eq(s, "list") {
            Some(APTRepositoryFileType::List)
        } else if str_eq(s, "sources") {
            Some(APTRepositoryFileType::Sources)
        } else {
            None
        }
    }

    /// The file type's name.
    pub fn text(&self) -> (r: String)
        ensures
            *self == APTRepositoryFileType::List ==> r@ == "list"@,
            *self == APTRepositoryFileType::Sources ==> r@ == "sources"@,
    {
        match self {
            APTRepositoryFileType::List => "list".to_owned(),
            APTRepositoryFileType::Sources => "sources".to_owned(),
        }
    }
}

/// The kind of packages a repository entry provides.
#[derive(Debug, Copy, Clone, PartialEq, Eq, Structural)]
pub enum APTRepositoryPackageType {
    /// Binary packages.
    Deb,
    /// Source packages.
    DebSrc,
}

impl APTRepositoryPackageType {
    /// Read a package type from its name.
    pub fn from_text(s: &str) -> (r: Option<Self>)
        ensures
            r == (if s@ == "deb"@ {
                Some(APTRepositoryPackageType::Deb)
            } else if s@ == "deb-src"@ {
                Some(APTRepositoryPackageType::DebSrc)
            } else {
                None
            }),
    {
        if str_eq(s, "deb") {
            Some(APTRepositoryPackageType::Deb)
        } else if str_eq(s, "deb-src") {
            Some(APTRepositoryPackageType::DebSrc)
        } else {
            None
        }
    }

    /// The package type's name.
    pub fn text(&self) -> (r: String)
        ensures
            *self == APTRepositoryPackageType::Deb ==> r@ == "deb"@,
            *self == APTRepositoryPackageType::DebSrc ==> r@ == "deb-src"@,
    {
        match self {
            APTRepositoryPackageType::Deb => "deb".to_owned(),
            APTRepositoryPackageType::DebSrc => "deb-src".to_owned(),
        }
    }
}

/// An additional option of a repository, single- or multi-value.
#[derive(Debug)]
pub struct APTRepositoryOption {
    /// Option key.
    pub key: String,
    /// Option value or values.
    pub values: Vec<String>,
}

/// One APT repository entry.
#[derive(Debug)]
pub struct APTRepository {
    /// The package types provided.
    pub types: Vec<APTRepositoryPackageType>,
    /// The repository addresses.
    pub uris: Vec<String>,
    /// The distributions.
    pub suites: Vec<String>,
    /// The repository components.
    pub components: Vec<String>,
    /// Additional options.
    pub options: Vec<APTRepositoryOption>,
    /// Associated comment.
    pub comment: String,
    /// The format of the defining file.
    pub file_type: APTRepositoryFileType,
    /// Whether the entry is enabled.
    pub enabled: bool,
}

/// What a basic check can find wrong.
#[derive(Debug, Copy, Clone, PartialEq, Eq, Structural)]
pub enum RepoCheckIssue {
    MissingPackageType,
    MissingUri,
    MissingSuite,
    InvalidUri,
    MissingComponent,
    AbsoluteSuiteWithComponents,
    MorePackageTypesThanListAllows,
    MoreUrisThanListAllows,
    MoreSuitesThanListAllows,
}

/// The bytes of a string value.
pub open spec fn sbs(s: String) -> Seq<u8> {
    encode_utf8(s@)
}

/// A usable repository address: holds a colon and is at least three bytes.
pub open spec fn uri_ok(u: String) -> bool {
    has_byte(sbs(u), 58) && sbs(u).len() >= 3
}

/// Whether a suite is absolute: its bytes end with a slash.
pub open spec fn suite_absolute(s: String) -> bool {
    sbs(s).len() > 0 && sbs(s).last() == 47
}

pub open spec fn pt_bytes(t: APTRepositoryPackageType) -> Seq<u8> {
    match t {
        APTRepositoryPackageType::Deb => deb_b(),
        APTRepositoryPackageType::DebSrc => deb_src_b(),
    }
}

pub open spec fn deb_b() -> Seq<u8> {
    seq![100u8, 101u8, 98u8]
}

pub open spec fn deb_src_b() -> Seq<u8> {
    seq![100u8, 101u8, 98u8, 45u8, 115u8, 114u8, 99u8]
}

pub open spec fn bp_sloppy_b() -> Seq<u8> {
    seq![45u8, 98u8, 97u8, 99u8, 107u8, 112u8, 111u8, 114u8, 116u8, 115u8, 45u8, 115u8, 108u8, 111u8, 112u8, 112u8, 121u8]
}

pub open spec fn bp_b() -> Seq<u8> {
    seq![45u8, 98u8, 97u8, 99u8, 107u8, 112u8, 111u8, 114u8, 116u8, 115u8]
}

pub open spec fn upd_b() -> Seq<u8> {
    seq![45u8, 117u8, 112u8, 100u8, 97u8, 116u8, 101u8, 115u8]
}

pub open spec fn upd_slash_b() -> Seq<u8> {
    seq![47u8, 117u8, 112u8, 100u8, 97u8, 116u8, 101u8, 115u8]
}

pub open spec fn proxmox_host_b() -> Seq<u8> {
    seq![112u8, 114u8, 111u8, 120u8, 109u8, 111u8, 120u8, 46u8, 99u8, 111u8, 109u8]
}

pub open spec fn proxmox_dot_b() -> Seq<u8> {
    seq![46u8, 112u8, 114u8, 111u8, 120u8, 109u8, 111u8, 120u8, 46u8, 99u8, 111u8, 109u8]
}

pub open spec fn debian_host_b() -> Seq<u8> {
    seq![100u8, 101u8, 98u8, 105u8, 97u8, 110u8, 46u8, 111u8, 114u8, 103u8]
}

pub open spec fn debian_dot_b() -> Seq<u8> {
    seq![46u8, 100u8, 101u8, 98u8, 105u8, 97u8, 110u8, 46u8, 111u8, 114u8, 103u8]
}

pub open spec fn http_b() -> Seq<u8> {
    seq![104u8, 116u8, 116u8, 112u8]
}

pub open spec fn scheme_sep_b() -> Seq<u8> {
    seq![58u8, 47u8, 47u8]
}

pub open spec fn types_hdr_b() -> Seq<u8> {
    seq![84u8, 121u8, 112u8, 101u8, 115u8, 58u8]
}

pub open spec fn uris_hdr_b() -> Seq<u8> {
    seq![85u8, 82u8, 73u8, 115u8, 58u8, 32u8]
}

pub open spec fn suites_hdr_b() -> Seq<u8> {
    seq![83u8, 117u8, 105u8, 116u8, 101u8, 115u8, 58u8, 32u8]
}

pub open spec fn components_hdr_b() -> Seq<u8> {
    seq![67u8, 111u8, 109u8, 112u8, 111u8, 110u8, 101u8, 110u8, 116u8, 115u8, 58u8, 32u8]
}

pub open spec fn disabled_b() -> Seq<u8> {
    seq![35u8, 32u8]
}

pub open spec fn brack_open_b() -> Seq<u8> {
    seq![91u8, 32u8]
}

pub open spec fn brack_close_b() -> Seq<u8> {
    seq![93u8, 32u8]
}

pub open spec fn colon_sp_b() -> Seq<u8> {
    seq![58u8, 32u8]
}

impl APTRepository {
    /// An empty, enabled repository of the given file format.
    pub fn new(file_type: APTRepositoryFileType) -> (r: APTRepository)
        ensures
            r.types@.len() == 0,
            r.uris@.len() == 0,
            r.suites@.len() == 0,
            r.components@.len() == 0,
            r.options@.len() == 0,
            r.comment@.len() == 0,
            r.file_type == file_type,
            r.enabled,
    {
        APTRepository {
            types: Vec::new(),
            uris: Vec::new(),
            suites: Vec::new(),
            components: Vec::new(),
            options: Vec::new(),
            comment: String::new(),
            file_type,
            enabled: true,
        }
    }

    /// Set the enabled flag; a stanza-format repository also records the
    /// flag in its `Enabled` option, replacing the first existing one or
    /// appending a new one.
    pub fn set_enabled(&mut self, enabled: bool)
        ensures
            final(self).enabled == enabled,
            final(self).types == old(self).types,
            final(self).uris == old(self).uris,
            final(self).suites == old(self).suites,
            final(self).components == old(self).components,
            final(self).comment == old(self).comment,
            final(self).file_type == old(self).file_type,
            old(self).file_type != APTRepositoryFileType::Sources ==> final(self).options == old(self).options,
            old(self).file_type == APTRepositoryFileType::Sources ==> ({
                let flag: Seq<char> = if enabled {
                    "true"@
                } else {
                    "false"@
                };
                if exists|i: int|
                    0 <= i < old(self).options@.len() && (#[trigger] old(self).options@[i]).key@ == "Enabled"@ {
                    exists|i: int|
                        #![auto]
                        0 <= i < old(self).options@.len() && old(self).options@[i].key@
                            == "Enabled"@ && (forall|k: int|
                            0 <= k < i ==> (#[trigger] old(self).options@[k]).key@ != "Enabled"@)
                            && final(self).options@.len() == old(self).options@.len() && (forall|
                            k: int,
                        |
                            0 <= k < old(self).options@.len() && k != i ==> final(self).options@[k] == old(self).options@[k]) && final(self).options@[i].key@ == old(self).options@[i].key@ && final(self).options@[i].values@.len() == 1 && final(self).options@[i].values@[0]@
                            == flag
                } else {
                    final(self).options@.len() == old(self).options@.len() + 1 && (forall|k: int|
                        0 <= k < old(self).options@.len() ==> final(self).options@[k] == old(self).options@[k]) && final(self).options@.last().key@ == "Enabled"@ && final(self).options@.last().values@.len() == 1 && final(self).options@.last().values@[0]@ == flag
                }
            }),
    {
        self.enabled = enabled;
        if self.file_type == APTRepositoryFileType::Sources {
            let flag: String = if enabled {
                "true".to_owned()
            } else {
                "false".to_owned()
            };
            let mut i: usize = 0;
            while i < self.options.len()
                invariant
                    i <= self.options@.len(),
                    self.options == old(self).options,
                    self.enabled == enabled,
                    self.types == old(self).types,
                    self.uris == old(self).uris,
                    self.suites == old(self).suites,
                    self.components == old(self).components,
                    self.comment == old(self).comment,
                    self.file_type == old(self).file_type,
                    old(self).file_type == APTRepositoryFileType::Sources,
                    forall|k: int|
                        0 <= k < i ==> (#[trigger] self.options@[k]).key@ != "Enabled"@,
                    flag@ == if enabled {
                        "true"@
                    } else {
                        "false"@
                    },
                decreases self.options@.len() - i,
            {
                if str_eq(self.options[i].key.as_str(), "Enabled") {
                    let mut opt = self.options.remove(i);
                    let mut values: Vec<String> = Vec::new();
                    values.push(flag);
                    opt.values = values;
                    self.options.insert(i, opt);
                    proof {
                        assert forall|k: int|
                            0 <= k < old(self).options@.len() && k != i implies final(self).options@[k] == old(self).options@[k] by {}
                    }
                    return ;
                }
                i += 1;
            }
            let mut values: Vec<String> = Vec::new();
            values.push(flag);
            self.options.push(APTRepositoryOption { key: "Enabled".to_owned(), values });
        }
    }

    /// Check that the basic properties of the repository are present and
    /// plausible.  `Ok` exactly when every check passes; each issue is
    /// reported only when its condition holds.
    pub fn basic_check(&self) -> (r: Result<(), RepoCheckIssue>)
        ensures
            r is Ok <==> (self.types@.len() >= 1 && self.uris@.len() >= 1 && self.suites@.len()
                >= 1 && (forall|i: int| 0 <= i < self.uris@.len() ==> uri_ok(#[trigger] self.uris@[i]))
                && (forall|i: int|
                0 <= i < self.suites@.len() ==> (suite_absolute(#[trigger] self.suites@[i])
                    ==> self.components@.len() == 0) && (!suite_absolute(self.suites@[i])
                    ==> self.components@.len() >= 1)) && (self.file_type
                == APTRepositoryFileType::List ==> self.types@.len() == 1 && self.uris@.len() == 1
                && self.suites@.len() == 1)),
            match r {
                Ok(_) => true,
                Err(e) => match e {
                    RepoCheckIssue::MissingPackageType => self.types@.len() == 0,
                    RepoCheckIssue::MissingUri => self.uris@.len() == 0,
                    RepoCheckIssue::MissingSuite => self.suites@.len() == 0,
                    RepoCheckIssue::InvalidUri => exists|i: int|
                        0 <= i < self.uris@.len() && !uri_ok(#[trigger] self.uris@[i]),
                    RepoCheckIssue::MissingComponent => exists|i: int|
                        0 <= i < self.suites@.len() && !suite_absolute(#[trigger] self.suites@[i])
                            && self.components@.len() == 0,
                    RepoCheckIssue::AbsoluteSuiteWithComponents => exists|i: int|
                        0 <= i < self.suites@.len() && suite_absolute(#[trigger] self.suites@[i])
                            && self.components@.len() >= 1,
                    RepoCheckIssue::MorePackageTypesThanListAllows => self.file_type
                        == APTRepositoryFileType::List && self.types@.len() > 1,
                    RepoCheckIssue::MoreUrisThanListAllows => self.file_type
                        == APTRepositoryFileType::List && self.uris@.len() > 1,
                    RepoCheckIssue::MoreSuitesThanListAllows => self.file_type
                        == APTRepositoryFileType::List && self.suites@.len() > 1,
                },
            },
    {
        if self.types.len() == 0 {
            return Err(RepoCheckIssue::MissingPackageType);
        }
        if self.uris.len() == 0 {
            return Err(RepoCheckIssue::MissingUri);
        }
        if self.suites.len() == 0 {
            return Err(RepoCheckIssue::MissingSuite);
        }
        let mut i: usize = 0;
        while i < self.uris.len()
            invariant
                i <= self.uris@.len(),
                forall|k: int| 0 <= k < i ==> uri_ok(#[trigger] self.uris@[k]),
            decreases self.uris@.len() - i,
        {
            let b = self.uris[i].as_str().as_bytes();
            if !crate::bytes::contains_byte(b, 58) || b.len() < 3 {
                return Err(RepoCheckIssue::InvalidUri);
            }
            i += 1;
        }
        let mut i: usize = 0;
        while i < self.suites.len()
            invariant
                i <= self.suites@.len(),
                forall|k: int|
                    0 <= k < i ==> (suite_absolute(#[trigger] self.suites@[k])
                        ==> self.components@.len() == 0) && (!suite_absolute(self.suites@[k])
                        ==> self.components@.len() >= 1),
            decreases self.suites@.len() - i,
        {
            let b = self.suites[i].as_str().as_bytes();
            let absolute = b.len() > 0 && b[b.len() - 1] == 47;
            proof {
                assert(absolute == suite_absolute(self.suites@[i as int]));
            }
            if !absolute && self.components.len() == 0 {
                return Err(RepoCheckIssue::MissingComponent);
            }
            if absolute && self.components.len() > 0 {
                return Err(RepoCheckIssue::AbsoluteSuiteWithComponents);
            }
            i += 1;
        }
        if self.file_type == APTRepositoryFileType::List {
            if self.types.len() > 1 {
                return Err(RepoCheckIssue::MorePackageTypesThanListAllows);
            }
            if self.uris.len() > 1 {
                return Err(RepoCheckIssue::MoreUrisThanListAllows);
            }
            if self.suites.len() > 1 {
                return Err(RepoCheckIssue::MoreSuitesThanListAllows);
            }
        }
        Ok(())
    }

    /// Whether this is the repository a handle refers to, given the
    /// handle's package type, address and component: the type and the
    /// component must be present, and some address must equal the handle's
    /// once trailing slashes are trimmed.
    pub fn is_referenced_repository(
        &self,
        package_type: APTRepositoryPackageType,
        uri: &str,
        component: &str,
    ) -> (r: bool)
        ensures
            r == ((exists|i: int| 0 <= i < self.types@.len() && self.types@[i] == package_type)
                && (exists|i: int|
                trim_slashes(sbs(#[trigger] self.uris@[i])) == uri.spec_bytes() && 0 <= i
                    < self.uris@.len()) && (exists|i: int|
                0 <= i < self.components@.len() && (#[trigger] self.components@[i])@
                    == component@)),
    {
        let mut has_type = false;
        let mut i: usize = 0;
        while i < self.types.len()
            invariant
                i <= self.types@.len(),
                has_type == exists|k: int| 0 <= k < i && (#[trigger] self.types@[k]) == package_type,
            decreases self.types@.len() - i,
        {
            if self.types[i] == package_type {
                has_type = true;
            }
            i += 1;
        }
        let mut has_uri = false;
        let mut i: usize = 0;
        while i < self.uris.len()
            invariant
                i <= self.uris@.len(),
                has_uri == exists|k: int|
                    0 <= k < i && trim_slashes(sbs(#[trigger] self.uris@[k])) == uri.spec_bytes(),
            decreases self.uris@.len() - i,
        {
            let b = self.uris[i].as_str().as_bytes();
            let mut end = b.len();
            proof {
                assert(b@.take(end as int) =~= b@);
            }
            while end > 0 && b[end - 1] == 47
                invariant
                    end <= b@.len(),
                    trim_slashes(b@) == trim_slashes(b@.take(end as int)),
                decreases end,
            {
                proof {
                    assert(b@.take(end as int).last() == b@[end - 1]);
                    assert(b@.take(end as int).drop_last() =~= b@.take(end - 1));
                }
                end -= 1;
            }
            proof {
                if end > 0 {
                    assert(b@.take(end as int).last() == b@[end - 1]);
                }
                assert(trim_slashes(b@.take(end as int)) == b@.take(end as int));
            }
            let trimmed = sub_vec(b, 0, end);
            if bytes_eq(trimmed.as_slice(), uri.as_bytes()) {
                has_uri = true;
            }
            i += 1;
        }
        let mut has_component = false;
        let mut i: usize = 0;
        while i < self.components.len()
            invariant
                i <= self.components@.len(),
                has_component == exists|k: int|
                    0 <= k < i && (#[trigger] self.components@[k])@ == component@,
            decreases self.components@.len() - i,
        {
            if str_eq(self.components[i].as_str(), component) {
                has_component = true;
            }
            i += 1;
        }
        has_type && has_uri && has_component
    }

    /// Whether some variant of the given base suite is configured: a suite
    /// equals the base once a known variant suffix is stripped.
    pub fn has_suite_variant(&self, base_suite: &str) -> (r: bool)
        ensures
            r == exists|i: int|
                0 <= i < self.suites@.len() && variant_base(sbs(#[trigger] self.suites@[i]))
                    == base_suite.spec_bytes(),
    {
        let mut i: usize = 0;
        while i < self.suites.len()
            invariant
                i <= self.suites@.len(),
                forall|k: int|
                    0 <= k < i ==> variant_base(sbs(#[trigger] self.suites@[k]))
                        != base_suite.spec_bytes(),
            decreases self.suites@.len() - i,
        {
            let b = self.suites[i].as_str().as_bytes();
            let s1 = bp_sloppy_bytes();
            let s2 = bp_bytes();
            let s3 = upd_bytes();
            let s4 = upd_slash_bytes();
            let base: Vec<u8> = if slice_ends_with(b, s1.as_slice()) {
                sub_vec(b, 0, b.len() - s1.len())
            } else if slice_ends_with(b, s2.as_slice()) {
                sub_vec(b, 0, b.len() - s2.len())
            } else if slice_ends_with(b, s3.as_slice()) {
                sub_vec(b, 0, b.len() - s3.len())
            } else if slice_ends_with(b, s4.as_slice()) {
                sub_vec(b, 0, b.len() - s4.len())
            } else {
                sub_vec(b, 0, b.len())
            };
            proof {
                assert(base@ =~= variant_base(b@));
            }
            if bytes_eq(base.as_slice(), base_suite.as_bytes()) {
                return true;
            }
            i += 1;
        }
        false
    }

    /// Whether some address points at an official host.
    pub fn has_official_uri(&self) -> (r: bool)
        ensures
            r == exists|i: int|
                0 <= i < self.uris@.len() && official_host(host_of(sbs(#[trigger] self.uris@[i]))),
    {
        let mut i: usize = 0;
        while i < self.uris.len()
            invariant
                i <= self.uris@.len(),
                forall|k: int|
                    0 <= k < i ==> !official_host(host_of(sbs(#[trigger] self.uris@[k]))),
            decreases self.uris@.len() - i,
        {
            let b = self.uris[i].as_str().as_bytes();
            match host_from_uri(b) {
                Some(host) => {
                    let p1 = proxmox_host_bytes();
                    let p2 = proxmox_dot_bytes();
                    let p3 = debian_host_bytes();
                    let p4 = debian_dot_bytes();
                    if bytes_eq(host.as_slice(), p1.as_slice()) || slice_ends_with(
                        host.as_slice(),
                        p2.as_slice(),
                    ) || bytes_eq(host.as_slice(), p3.as_slice()) || slice_ends_with(
                        host.as_slice(),
                        p4.as_slice(),
                    ) {
                        return true;
                    }
                },
                None => {},
            }
            i += 1;
        }
        false
    }
}

/// A suite's bytes with a known variant suffix stripped.
pub open spec fn variant_base(s: Seq<u8>) -> Seq<u8> {
    if ends_with(s, bp_sloppy_b()) {
        s.take(s.len() - bp_sloppy_b().len())
    } else if ends_with(s, bp_b()) {
        s.take(s.len() - bp_b().len())
    } else if ends_with(s, upd_b()) {
        s.take(s.len() - upd_b().len())
    } else if ends_with(s, upd_slash_b()) {
        s.take(s.len() - upd_slash_b().len())
    } else {
        s
    }
}

/// Bytes with trailing slashes removed.
pub open spec fn trim_slashes(s: Seq<u8>) -> Seq<u8>
    decreases s.len(),
{
    if s.len() > 0 && s.last() == 47 {
        trim_slashes(s.drop_last())
    } else {
        s
    }
}

/// The host part of an address: after the scheme, up to the first slash,
/// after any user part, and before any port.
pub open spec fn host_of(u: Seq<u8>) -> Option<Seq<u8>> {
    if starts_with(u, http_b()) {
        let r1 = u.skip(http_b().len() as int);
        let r2 = if r1.len() > 0 && r1[0] == 115 {
            r1.skip(1)
        } else {
            r1
        };
        if starts_with(r2, scheme_sep_b()) {
            let h0 = r2.skip(scheme_sep_b().len() as int);
            let h1 = split_on(h0, 47)[0];
            let h2 = if has_byte(h1, 64) {
                h1.skip(split_on(h1, 64)[0].len() as int + 1)
            } else {
                h1
            };
            Some(split_on(h2, 58)[0])
        } else {
            None
        }
    } else {
        None
    }
}

/// Whether a host is an official one.
pub open spec fn official_host(h: Option<Seq<u8>>) -> bool {
    match h {
        Some(host) => host == proxmox_host_b() || ends_with(host, proxmox_dot_b()) || host
            == debian_host_b() || ends_with(host, debian_dot_b()),
        None => false,
    }
}

/// Extract the host part of an address.
pub fn host_from_uri(uri: &[u8]) -> (r: Option<Vec<u8>>)
    ensures
        match r {
            Some(h) => host_of(uri@) == Some(h@),
            None => host_of(uri@) is None,
        },
{
    let http = http_bytes();
    if !slice_starts_with(uri, http.as_slice()) {
        return None;
    }
    let r1 = sub_vec(uri, 4, uri.len());
    proof {
        assert(r1@ =~= uri@.skip(4));
    }
    let skip_s: usize = if r1.len() > 0 && r1[0] == 115 {
        1
    } else {
        0
    };
    let r2 = sub_vec(r1.as_slice(), skip_s, r1.len());
    proof {
        if skip_s == 1 {
            assert(r2@ =~= r1@.skip(1));
        } else {
            assert(r2@ =~= r1@);
        }
    }
    let sep = scheme_sep_bytes();
    if !slice_starts_with(r2.as_slice(), sep.as_slice()) {
        return None;
    }
    let h0 = sub_vec(r2.as_slice(), 3, r2.len());
    proof {
        assert(h0@ =~= r2@.skip(3));
    }
    let h1: Vec<u8> = match find_byte_from(h0.as_slice(), 47, 0) {
        Some(i) => {
            let v = sub_vec(h0.as_slice(), 0, i);
            proof {
                lemma_first_part(h0@, 47, i as int);
                assert(v@ =~= split_on(h0@, 47)[0]);
            }
            v
        },
        None => {
            proof {
                lemma_split_on_whole(h0@, 47);
            }
            h0
        },
    };
    let h2: Vec<u8> = match find_byte_from(h1.as_slice(), 64, 0) {
        Some(i) => {
            proof {
                lemma_first_part(h1@, 64, i as int);
                assert(has_byte(h1@, 64));
            }
            let v = sub_vec(h1.as_slice(), i + 1, h1.len());
            proof {
                assert(v@ =~= h1@.skip(split_on(h1@, 64)[0].len() as int + 1));
            }
            v
        },
        None => h1,
    };
    let h3: Vec<u8> = match find_byte_from(h2.as_slice(), 58, 0) {
        Some(i) => {
            let v = sub_vec(h2.as_slice(), 0, i);
            proof {
                lemma_first_part(h2@, 58, i as int);
                assert(v@ =~= split_on(h2@, 58)[0]);
            }
            v
        },
        None => {
            proof {
                lemma_split_on_whole(h2@, 58);
            }
            h2
        },
    };
    Some(h3)
}

fn deb_bytes() -> (r: Vec<u8>)
    ensures
        r@ == deb_b(),
{
    let mut v: Vec<u8> = Vec::new();
    v.push(100);
    v.push(101);
    v.push(98);
    proof {
        assert(v@ =~= deb_b());
    }
    v
}

fn deb_src_bytes() -> (r: Vec<u8>)
    ensures
        r@ == deb_src_b(),
{
    let mut v: Vec<u8> = Vec::new();
    v.push(100);
    v.push(101);
    v.push(98);
    v.push(45);
    v.push(115);
    v.push(114);
    v.push(99);
    proof {
        assert(v@ =~= deb_src_b());
    }
    v
}

fn bp_sloppy_bytes() -> (r: Vec<u8>)
    ensures
        r@ == bp_sloppy_b(),
{
    let mut v: Vec<u8> = Vec::new();
    v.push(45);
    v.push(98);
    v.push(97);
    v.push(99);
    v.push(107);
    v.push(112);
    v.push(111);
    v.push(114);
    v.push(116);
    v.push(115);
    v.push(45);
    v.push(115);
    v.push(108);
    v.push(111);
    v.push(112);
    v.push(112);
    v.push(121);
    proof {
        assert(v@ =~= bp_sloppy_b());
    }
    v
}

fn bp_bytes() -> (r: Vec<u8>)
    ensures
        r@ == bp_b(),
{
    let mut v: Vec<u8> = Vec::new();
    v.push(45);
    v.push(98);
    v.push(97);
    v.push(99);
    v.push(107);
    v.push(112);
    v.push(111);
    v.push(114);
    v.push(116);
    v.push(115);
    proof {
        assert(v@ =~= bp_b());
    }
    v
}

fn upd_bytes() -> (r: Vec<u8>)
    ensures
        r@ == upd_b(),
{
    let mut v: Vec<u8> = Vec::new();
    v.push(45);
    v.push(117);
    v.push(112);
    v.push(100);
    v.push(97);
    v.push(116);
    v.push(101);
    v.push(115);
    proof {
        assert(v@ =~= upd_b());
    }
    v
}

fn upd_slash_bytes() -> (r: Vec<u8>)
    ensures
        r@ == upd_slash_b(),
{
    let mut v: Vec<u8> = Vec::new();
    v.push(47);
    v.push(117);
    v.push(112);
    v.push(100);
    v.push(97);
    v.push(116);
    v.push(101);
    v.push(115);
    proof {
        assert(v@ =~= upd_slash_b());
    }
    v
}

fn proxmox_host_bytes() -> (r: Vec<u8>)
    ensures
        r@ == proxmox_host_b(),
{
    let mut v: Vec<u8> = Vec::new();
    v.push(112);
    v.push(114);
    v.push(111);
    v.push(120);
    v.push(109);
    v.push(111);
    v.push(120);
    v.push(46);
    v.push(99);
    v.push(111);
    v.push(109);
    proof {
        assert(v@ =~= proxmox_host_b());
    }
    v
}

fn proxmox_dot_bytes() -> (r: Vec<u8>)
    ensures
        r@ == proxmox_dot_b(),
{
    let mut v: Vec<u8> = Vec::new();
    v.push(46);
    v.push(112);
    v.push(114);
    v.push(111);
    v.push(120);
    v.push(109);
    v.push(111);
    v.push(120);
    v.push(46);
    v.push(99);
    v.push(111);
    v.push(109);
    proof {
        assert(v@ =~= proxmox_dot_b());
    }
    v
}

fn debian_host_bytes() -> (r: Vec<u8>)
    ensures
        r@ == debian_host_b(),
{
    let mut v: Vec<u8> = Vec::new();
    v.push(100);
    v.push(101);
    v.push(98);
    v.push(105);
    v.push(97);
    v.push(110);
    v.push(46);
    v.push(111);
    v.push(114);
    v.push(103);
    proof {
        assert(v@ =~= debian_host_b());
    }
    v
}

fn debian_dot_bytes() -> (r: Vec<u8>)
    ensures
        r@ == debian_dot_b(),
{
    let mut v: Vec<u8> = Vec::new();
    v.push(46);
    v.push(100);
    v.push(101);
    v.push(98);
    v.push(105);
    v.push(97);
    v.push(110);
    v.push(46);
    v.push(111);
    v.push(114);
    v.push(103);
    proof {
        assert(v@ =~= debian_dot_b());
    }
    v
}

fn http_bytes() -> (r: Vec<u8>)
    ensures
        r@ == http_b(),
{
    let mut v: Vec<u8> = Vec::new();
    v.push(104);
    v.push(116);
    v.push(116);
    v.push(112);
    proof {
        assert(v@ =~= http_b());
    }
    v
}

fn scheme_sep_bytes() -> (r: Vec<u8>)
    ensures
        r@ == scheme_sep_b(),
{
    let mut v: Vec<u8> = Vec::new();
    v.push(58);
    v.push(47);
    v.push(47);
    proof {
        assert(v@ =~= scheme_sep_b());
    }
    v
}

fn types_hdr_bytes() -> (r: Vec<u8>)
    ensures
        r@ == types_hdr_b(),
{
    let mut v: Vec<u8> = Vec::new();
    v.push(84);
    v.push(121);
    v.push(112);
    v.push(101);
    v.push(115);
    v.push(58);
    proof {
        assert(v@ =~= types_hdr_b());
    }
    v
}

fn uris_hdr_bytes() -> (r: Vec<u8>)
    ensures
        r@ == uris_hdr_b(),
{
    let mut v: Vec<u8> = Vec::new();
    v.push(85);
    v.push(82);
    v.push(73);
    v.push(115);
    v.push(58);
    v.push(32);
    proof {
        assert(v@ =~= uris_hdr_b());
    }
    v
}

fn suites_hdr_bytes() -> (r: Vec<u8>)
    ensures
        r@ == suites_hdr_b(),
{
    let mut v: Vec<u8> = Vec::new();
    v.push(83);
    v.push(117);
    v.push(105);
    v.push(116);
    v.push(101);
    v.push(115);
    v.push(58);
    v.push(32);
    proof {
        assert(v@ =~= suites_hdr_b());
    }
    v
}

fn components_hdr_bytes() -> (r: Vec<u8>)
    ensures
        r@ == components_hdr_b(),
{
    let mut v: Vec<u8> = Vec::new();
    v.push(67);
    v.push(111);
    v.push(109);
    v.push(112);
    v.push(111);
    v.push(110);
    v.push(101);
    v.push(110);
    v.push(116);
    v.push(115);
    v.push(58);
    v.push(32);
    proof {
        assert(v@ =~= components_hdr_b());
    }
    v
}

fn disabled_bytes() -> (r: Vec<u8>)
    ensures
        r@ == disabled_b(),
{
    let mut v: Vec<u8> = Vec::new();
    v.push(35);
    v.push(32);
    proof {
        assert(v@ =~= disabled_b());
    }
    v
}

fn brack_open_bytes() -> (r: Vec<u8>)
    ensures
        r@ == brack_open_b(),
{
    let mut v: Vec<u8> = Vec::new();
    v.push(91);
    v.push(32);
    proof {
        assert(v@ =~= brack_open_b());
    }
    v
}

fn brack_close_bytes() -> (r: Vec<u8>)
    ensures
        r@ == brack_close_b(),
{
    let mut v: Vec<u8> = Vec::new();
    v.push(93);
    v.push(32);
    proof {
        assert(v@ =~= brack_close_b());
    }
    v
}

fn colon_sp_bytes() -> (r: Vec<u8>)
    ensures
        r@ == colon_sp_b(),
{
    let mut v: Vec<u8> = Vec::new();
    v.push(58);
    v.push(32);
    proof {
        assert(v@ =~= colon_sp_b());
    }
    v
}

/// Values joined with a separator byte.
pub open spec fn join_sb(v: Seq<String>, sep: u8) -> Seq<u8>
    decreases v.len(),
{
    if v.len() == 0 {
        Seq::<u8>::empty()
    } else if v.len() == 1 {
        sbs(v[0])
    } else {
        sbs(v[0]) + seq![sep] + join_sb(v.drop_first(), sep)
    }
}

proof fn lemma_join_sb_push(v: Seq<String>, sep: u8, i: int)
    requires
        0 <= i < v.len(),
    ensures
        join_sb(v.take(i + 1), sep) == if i == 0 {
            sbs(v[0])
        } else {
            join_sb(v.take(i), sep) + seq![sep] + sbs(v[i])
        },
    decreases i,
{
    if i == 0 {
        assert(v.take(1) =~= seq![v[0]]);
    } else {
        lemma_join_sb_push(v.drop_first(), sep, i - 1);
        assert(v.take(i + 1).drop_first() =~= v.drop_first().take(i));
        assert(v.take(i).drop_first() =~= v.drop_first().take(i - 1));
        assert(v.take(i + 1)[0] == v[0] && v.take(i)[0] == v[0]);
        assert(v.take(i + 1).len() == i + 1 >= 2);
        assert(v.drop_first()[i - 1] == v[i]);
        if i == 1 {
            assert(v.take(1) =~= seq![v[0]]);
        }
    }
}

/// Join values with a separator.
pub fn join_strings(v: &Vec<String>, sep: u8) -> (r: Vec<u8>)
    ensures
        r@ == join_sb(v@, sep),
{
    let mut out: Vec<u8> = Vec::new();
    let mut i: usize = 0;
    proof {
        assert(v@.take(0) =~= Seq::<String>::empty());
    }
    while i < v.len()
        invariant
            i <= v@.len(),
            out@ == join_sb(v@.take(i as int), sep),
        decreases v@.len() - i,
    {
        if i > 0 {
            out.push(sep);
        }
        out.extend_from_slice(v[i].as_str().as_bytes());
        proof {
            lemma_join_sb_push(v@, sep, i as int);
            assert(out@ =~= join_sb(v@.take(i as int + 1), sep));
        }
        i += 1;
    }
    proof {
        assert(v@.take(v@.len() as int) =~= v@);
    }
    out
}

/// The lines of a comment: a trailing newline does not open an empty line.
pub open spec fn comment_lines(c: Seq<u8>) -> Seq<Seq<u8>> {
    let parts = split_on(c, 10);
    if parts.last().len() == 0 {
        parts.drop_last()
    } else {
        parts
    }
}

/// Comment lines rendered, each opened with a hash mark.
pub open spec fn hash_lines(lines: Seq<Seq<u8>>) -> Seq<u8>
    decreases lines.len(),
{
    if lines.len() == 0 {
        Seq::<u8>::empty()
    } else {
        seq![35u8] + lines[0] + seq![10u8] + hash_lines(lines.drop_first())
    }
}

proof fn lemma_hash_lines_push(lines: Seq<Seq<u8>>, i: int)
    requires
        0 <= i < lines.len(),
    ensures
        hash_lines(lines.take(i + 1)) == hash_lines(lines.take(i)) + seq![35u8] + lines[i] + seq![
            10u8,
        ],
    decreases i,
{
    if i == 0 {
        assert(lines.take(1) =~= seq![lines[0]]);
        assert(lines.take(0) =~= Seq::<Seq<u8>>::empty());
        assert(seq![lines[0]].drop_first() =~= Seq::<Seq<u8>>::empty());
        assert(lines.take(1).drop_first() =~= Seq::<Seq<u8>>::empty());
        assert(hash_lines(Seq::<Seq<u8>>::empty()) =~= Seq::<u8>::empty());
        assert(lines.take(1)[0] == lines[0]);
        assert(hash_lines(lines.take(1)) =~= seq![35u8] + lines[0] + seq![10u8] + hash_lines(
            Seq::<Seq<u8>>::empty(),
        ));
        assert(hash_lines(lines.take(1)) =~= seq![35u8] + lines[0] + seq![10u8]);
        assert(hash_lines(lines.take(0)) + seq![35u8] + lines[0] + seq![10u8] =~= seq![35u8]
            + lines[0] + seq![10u8]);
    } else {
        lemma_hash_lines_push(lines.drop_first(), i - 1);
        assert(lines.take(i + 1).drop_first() =~= lines.drop_first().take(i));
        assert(lines.take(i).drop_first() =~= lines.drop_first().take(i - 1));
        assert(lines.take(i + 1)[0] == lines[0] && lines.take(i)[0] == lines[0]);
        assert(lines.drop_first()[i - 1] == lines[i]);
        assert(hash_lines(lines.take(i + 1)) =~= hash_lines(lines.take(i)) + seq![35u8] + lines[i]
            + seq![10u8]);
    }
}

/// The rendered comment block: nothing for an empty comment.
pub open spec fn comment_block(c: Seq<u8>) -> Seq<u8> {
    if c.len() == 0 {
        Seq::<u8>::empty()
    } else {
        hash_lines(comment_lines(c))
    }
}

/// Render the comment block of a repository.
pub fn render_comment(comment: &String) -> (r: Vec<u8>)
    ensures
        r@ == comment_block(sbs(*comment)),
{
    let cb = comment.as_str().as_bytes();
    let mut out: Vec<u8> = Vec::new();
    if cb.len() == 0 {
        proof {
            assert(sbs(*comment).len() == 0);
        }
        return out;
    }
    let mut parts = crate::bytes::split_bytes(cb, 10);
    proof {
        assert(parts.deep_view().last() == parts@.last()@);
    }
    if parts[parts.len() - 1].len() == 0 {
        parts.pop();
        proof {
            assert(parts.deep_view() =~~= split_on(cb@, 10).drop_last()) by {
                assert forall|k: int|
                    0 <= k < parts@.len() implies parts.deep_view()[k] == split_on(cb@, 10)[k] by {
                    assert(parts.deep_view()[k] == parts@[k]@);
                }
            }
        }
    }
    let ghost lines = comment_lines(sbs(*comment));
    proof {
        assert(parts.deep_view() == lines);
        assert(lines.take(0) =~= Seq::<Seq<u8>>::empty());
    }
    let mut i: usize = 0;
    while i < parts.len()
        invariant
            i <= parts@.len(),
            parts.deep_view() == lines,
            lines.len() == parts@.len(),
            out@ == hash_lines(lines.take(i as int)),
        decreases parts@.len() - i,
    {
        out.push(35);
        out.extend_from_slice(parts[i].as_slice());
        out.push(10);
        proof {
            assert(parts.deep_view()[i as int] == parts@[i as int]@);
            lemma_hash_lines_push(lines, i as int);
            assert(out@ =~= hash_lines(lines.take(i as int + 1)));
        }
        i += 1;
    }
    proof {
        assert(lines.take(lines.len() as int) =~= lines);
    }
    out
}

/// The one-line options block: `key=value,value ` for each option.
pub open spec fn options_line_sp(opts: Seq<APTRepositoryOption>) -> Seq<u8>
    decreases opts.len(),
{
    if opts.len() == 0 {
        Seq::<u8>::empty()
    } else {
        sbs(opts[0].key) + seq![61u8] + join_sb(opts[0].values@, 44) + seq![32u8]
            + options_line_sp(opts.drop_first())
    }
}

proof fn lemma_options_line_push(opts: Seq<APTRepositoryOption>, i: int)
    requires
        0 <= i < opts.len(),
    ensures
        options_line_sp(opts.take(i + 1)) == options_line_sp(opts.take(i)) + (sbs(opts[i].key)
            + seq![61u8] + join_sb(opts[i].values@, 44) + seq![32u8]),
    decreases i,
{
    if i == 0 {
        assert(opts.take(1) =~= seq![opts[0]]);
        assert(opts.take(0) =~= Seq::<APTRepositoryOption>::empty());
        assert(seq![opts[0]].drop_first() =~= Seq::<APTRepositoryOption>::empty());
        assert(options_line_sp(opts.take(1)) =~= options_line_sp(opts.take(0)) + (sbs(opts[0].key)
            + seq![61u8] + join_sb(opts[0].values@, 44) + seq![32u8]));
    } else {
        lemma_options_line_push(opts.drop_first(), i - 1);
        assert(opts.take(i + 1).drop_first() =~= opts.drop_first().take(i));
        assert(opts.take(i).drop_first() =~= opts.drop_first().take(i - 1));
        assert(opts.take(i + 1)[0] == opts[0] && opts.take(i)[0] == opts[0]);
        assert(opts.drop_first()[i - 1] == opts[i]);
        assert(options_line_sp(opts.take(i + 1)) =~= options_line_sp(opts.take(i)) + (sbs(
            opts[i].key,
        ) + seq![61u8] + join_sb(opts[i].values@, 44) + seq![32u8]));
    }
}

/// The stanza options block: `key: value value` lines.
pub open spec fn options_stanza_sp(opts: Seq<APTRepositoryOption>) -> Seq<u8>
    decreases opts.len(),
{
    if opts.len() == 0 {
        Seq::<u8>::empty()
    } else {
        sbs(opts[0].key) + colon_sp_b() + join_sb(opts[0].values@, 32) + seq![10u8]
            + options_stanza_sp(opts.drop_first())
    }
}

proof fn lemma_options_stanza_push(opts: Seq<APTRepositoryOption>, i: int)
    requires
        0 <= i < opts.len(),
    ensures
        options_stanza_sp(opts.take(i + 1)) == options_stanza_sp(opts.take(i)) + (sbs(opts[i].key)
            + colon_sp_b() + join_sb(opts[i].values@, 32) + seq![10u8]),
    decreases i,
{
    if i == 0 {
        assert(opts.take(1) =~= seq![opts[0]]);
        assert(opts.take(0) =~= Seq::<APTRepositoryOption>::empty());
        assert(seq![opts[0]].drop_first() =~= Seq::<APTRepositoryOption>::empty());
        assert(options_stanza_sp(opts.take(1)) =~= options_stanza_sp(opts.take(0)) + (sbs(
            opts[0].key,
        ) + colon_sp_b() + join_sb(opts[0].values@, 32) + seq![10u8]));
    } else {
        lemma_options_stanza_push(opts.drop_first(), i - 1);
        assert(opts.take(i + 1).drop_first() =~= opts.drop_first().take(i));
        assert(opts.take(i).drop_first() =~= opts.drop_first().take(i - 1));
        assert(opts.take(i + 1)[0] == opts[0] && opts.take(i)[0] == opts[0]);
        assert(opts.drop_first()[i - 1] == opts[i]);
        assert(options_stanza_sp(opts.take(i + 1)) =~= options_stanza_sp(opts.take(i)) + (sbs(
            opts[i].key,
        ) + colon_sp_b() + join_sb(opts[i].values@, 32) + seq![10u8]));
    }
}

/// The package types of a stanza header, each preceded by a space.
pub open spec fn types_sp(ts: Seq<APTRepositoryPackageType>) -> Seq<u8>
    decreases ts.len(),
{
    if ts.len() == 0 {
        Seq::<u8>::empty()
    } else {
        seq![32u8] + pt_bytes(ts[0]) + types_sp(ts.drop_first())
    }
}

proof fn lemma_types_sp_push(ts: Seq<APTRepositoryPackageType>, i: int)
    requires
        0 <= i < ts.len(),
    ensures
        types_sp(ts.take(i + 1)) == types_sp(ts.take(i)) + (seq![32u8] + pt_bytes(ts[i])),
    decreases i,
{
    if i == 0 {
        assert(ts.take(1) =~= seq![ts[0]]);
        assert(ts.take(0) =~= Seq::<APTRepositoryPackageType>::empty());
        assert(seq![ts[0]].drop_first() =~= Seq::<APTRepositoryPackageType>::empty());
        assert(types_sp(ts.take(1)) =~= types_sp(ts.take(0)) + (seq![32u8] + pt_bytes(ts[0])));
    } else {
        lemma_types_sp_push(ts.drop_first(), i - 1);
        assert(ts.take(i + 1).drop_first() =~= ts.drop_first().take(i));
        assert(ts.take(i).drop_first() =~= ts.drop_first().take(i - 1));
        assert(ts.take(i + 1)[0] == ts[0] && ts.take(i)[0] == ts[0]);
        assert(ts.drop_first()[i - 1] == ts[i]);
        assert(types_sp(ts.take(i + 1)) =~= types_sp(ts.take(i)) + (seq![32u8] + pt_bytes(ts[i])));
    }
}

fn render_pt(t: APTRepositoryPackageType) -> (r: Vec<u8>)
    ensures
        r@ == pt_bytes(t),
{
    match t {
        APTRepositoryPackageType::Deb => deb_bytes(),
        APTRepositoryPackageType::DebSrc => deb_src_bytes(),
    }
}

/// The one-line rendering of a repository, followed by a blank line.
pub open spec fn one_line_text(repo: &APTRepository) -> Seq<u8> {
    comment_block(sbs(repo.comment)) + (if repo.enabled {
        Seq::<u8>::empty()
    } else {
        disabled_b()
    }) + pt_bytes(repo.types@[0]) + seq![32u8] + (if repo.options@.len() > 0 {
        brack_open_b() + options_line_sp(repo.options@) + brack_close_b()
    } else {
        Seq::<u8>::empty()
    }) + sbs(repo.uris@[0]) + seq![32u8] + sbs(repo.suites@[0]) + seq![32u8] + join_sb(
        repo.components@,
        32,
    ) + seq![10u8] + seq![10u8]
}

/// The stanza rendering of a repository, followed by a blank line.
pub open spec fn stanza_text(repo: &APTRepository) -> Seq<u8> {
    comment_block(sbs(repo.comment)) + types_hdr_b() + types_sp(repo.types@) + seq![10u8]
        + uris_hdr_b() + join_sb(repo.uris@, 32) + seq![10u8] + suites_hdr_b() + join_sb(
        repo.suites@,
        32,
    ) + seq![10u8] + (if repo.components@.len() > 0 {
        components_hdr_b() + join_sb(repo.components@, 32) + seq![10u8]
    } else {
        Seq::<u8>::empty()
    }) + options_stanza_sp(repo.options@) + seq![10u8]
}

/// Render a one-line-format repository.
pub fn write_one_line(repo: &APTRepository) -> (r: Vec<u8>)
    requires
        repo.file_type == APTRepositoryFileType::List,
        repo.types@.len() >= 1,
        repo.uris@.len() >= 1,
        repo.suites@.len() >= 1,
    ensures
        r@ == one_line_text(repo),
{
    let mut out = render_comment(&repo.comment);
    if !repo.enabled {
        let d = disabled_bytes();
        out.extend_from_slice(d.as_slice());
    }
    let p = render_pt(repo.types[0]);
    out.extend_from_slice(p.as_slice());
    out.push(32);
    if repo.options.len() > 0 {
        let b = brack_open_bytes();
        out.extend_from_slice(b.as_slice());
        let ghost base = out@;
        let mut i: usize = 0;
        proof {
            assert(repo.options@.take(0) =~= Seq::<APTRepositoryOption>::empty());
            assert(out@ =~= base + options_line_sp(repo.options@.take(0)));
        }
        while i < repo.options.len()
            invariant
                i <= repo.options@.len(),
                out@ == base + options_line_sp(repo.options@.take(i as int)),
            decreases repo.options@.len() - i,
        {
            out.extend_from_slice(repo.options[i].key.as_str().as_bytes());
            out.push(61);
            let j = join_strings(&repo.options[i].values, 44);
            out.extend_from_slice(j.as_slice());
            out.push(32);
            proof {
                lemma_options_line_push(repo.options@, i as int);
                assert(out@ =~= base + options_line_sp(repo.options@.take(i as int + 1)));
            }
            i += 1;
        }
        proof {
            assert(repo.options@.take(repo.options@.len() as int) =~= repo.options@);
        }
        let b = brack_close_bytes();
        out.extend_from_slice(b.as_slice());
    }
    out.extend_from_slice(repo.uris[0].as_str().as_bytes());
    out.push(32);
    out.extend_from_slice(repo.suites[0].as_str().as_bytes());
    out.push(32);
    let j = join_strings(&repo.components, 32);
    out.extend_from_slice(j.as_slice());
    out.push(10);
    out.push(10);
    proof {
        assert(out@ =~= one_line_text(repo));
    }
    out
}

/// Render a stanza-format repository.
pub fn write_stanza(repo: &APTRepository) -> (r: Vec<u8>)
    requires
        repo.file_type == APTRepositoryFileType::Sources,
    ensures
        r@ == stanza_text(repo),
{
    let mut out = render_comment(&repo.comment);
    let h = types_hdr_bytes();
    out.extend_from_slice(h.as_slice());
    let ghost base = out@;
    let mut i: usize = 0;
    proof {
        assert(repo.types@.take(0) =~= Seq::<APTRepositoryPackageType>::empty());
        assert(out@ =~= base + types_sp(repo.types@.take(0)));
    }
    while i < repo.types.len()
        invariant
            i <= repo.types@.len(),
            out@ == base + types_sp(repo.types@.take(i as int)),
        decreases repo.types@.len() - i,
    {
        out.push(32);
        let p = render_pt(repo.types[i]);
        out.extend_from_slice(p.as_slice());
        proof {
            lemma_types_sp_push(repo.types@, i as int);
            assert(out@ =~= base + types_sp(repo.types@.take(i as int + 1)));
        }
        i += 1;
    }
    proof {
        assert(repo.types@.take(repo.types@.len() as int) =~= repo.types@);
    }
    out.push(10);
    let h = uris_hdr_bytes();
    out.extend_from_slice(h.as_slice());
    let j = join_strings(&repo.uris, 32);
    out.extend_from_slice(j.as_slice());
    out.push(10);
    let h = suites_hdr_bytes();
    out.extend_from_slice(h.as_slice());
    let j = join_strings(&repo.suites, 32);
    out.extend_from_slice(j.as_slice());
    out.push(10);
    if repo.components.len() > 0 {
        let h = components_hdr_bytes();
        out.extend_from_slice(h.as_slice());
        let j = join_strings(&repo.components, 32);
        out.extend_from_slice(j.as_slice());
        out.push(10);
    }
    let ghost base2 = out@;
    let mut i: usize = 0;
    proof {
        assert(repo.options@.take(0) =~= Seq::<APTRepositoryOption>::empty());
        assert(out@ =~= base2 + options_stanza_sp(repo.options@.take(0)));
    }
    while i < repo.options.len()
        invariant
            i <= repo.options@.len(),
            out@ == base2 + options_stanza_sp(repo.options@.take(i as int)),
        decreases repo.options@.len() - i,
    {
        out.extend_from_slice(repo.options[i].key.as_str().as_bytes());
        let c = colon_sp_bytes();
        out.extend_from_slice(c.as_slice());
        let j = join_strings(&repo.options[i].values, 32);
        out.extend_from_slice(j.as_slice());
        out.push(10);
        proof {
            lemma_options_stanza_push(repo.options@, i as int);
            assert(out@ =~= base2 + options_stanza_sp(repo.options@.take(i as int + 1)));
        }
        i += 1;
    }
    proof {
        assert(repo.options@.take(repo.options@.len() as int) =~= repo.options@);
    }
    out.push(10);
    proof {
        assert(out@ =~= stanza_text(repo));
    }
    out
}

impl APTRepository {
    /// Render this repository in its file format, followed by a blank line.
    pub fn write(&self) -> (r: Vec<u8>)
        requires
            self.types@.len() >= 1,
            self.uris@.len() >= 1,
            self.suites@.len() >= 1,
        ensures
            self.file_type == APTRepositoryFileType::List ==> r@ == one_line_text(self),
            self.file_type == APTRepositoryFileType::Sources ==> r@ == stanza_text(self),
    {
        match self.file_type {
            APTRepositoryFileType::List => write_one_line(self),
            APTRepositoryFileType::Sources => write_stanza(self),
        }
    }
}

} // verus!
