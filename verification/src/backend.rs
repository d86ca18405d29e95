//! Package archives and the install transaction.
//!
//! Installing unpacks an archive's metadata into a scratch place, parses
//! its control stanza, unpacks the payload, copies it under
//! `{root}/System/Packages/{name}---{version}/`, and writes the `pkg-info`
//! record there — in that order, so that a package counts as installed if
//! and only if its `pkg-info` file exists.

use crate::control::{spec_parse_control, SpecPkg, Pkg};
use crate::text::{ascii_bytes, copy_range, lit_bytes};
use crate::version::spec_canonical;
use crate::{view_action, Action, PkgError, SpecAction, SpecPkgError};
use vstd::prelude::*;

verus! {

/// A package archive on disk, named by its path.
#[derive(Debug)]
pub struct DebFile {
    path: Vec<u8>,
}

impl View for DebFile {
    type V = Seq<u8>;

    closed spec fn view(&self) -> Seq<u8> {
        self.path@
    }
}

impl DebFile {
    /// Names the archive at `path`.
    pub fn new(path: &str) -> (d: DebFile)
        ensures
            d@ == vstd::utf8::encode_utf8(path@),
    {
        let bytes = vstd::string::StrSliceExecFns::as_bytes_vec(path);
        DebFile { path: bytes }
    }

    /// Names the archive at the byte path `path`.
    pub fn from_bytes(path: Vec<u8>) -> (d: DebFile)
        ensures
            d@ == path@,
    {
        DebFile { path }
    }

    /// The archive's path.
    pub fn path(&self) -> (r: &Vec<u8>)
        ensures
            r@ == self@,
    {
        &self.path
    }
}

/// The command that extracts the full contents of an archive, control
/// metadata included, into a directory.
pub open spec fn extract_deb_full_cmd(deb: Seq<u8>, out: Seq<u8>) -> Seq<u8> {
    lit_bytes("dpkg-deb -R "@) + deb + lit_bytes(" "@) + out
}

/// Builds the full-extraction command for an archive.
pub fn extract_deb_full(d: &DebFile, out: &[u8]) -> (cmd: Vec<u8>)
    ensures
        cmd@ == extract_deb_full_cmd(d@, out@),
{
    proof {
        reveal_strlit("dpkg-deb -R ");
        assert(("dpkg-deb -R ").is_ascii()) by {
            assert(forall|i: int|
                0 <= i < ("dpkg-deb -R ")@.len() ==> (("dpkg-deb -R ")@[i] as u32) < 128);
        }
        reveal_strlit(" ");
        assert((" ").is_ascii()) by {
            assert(forall|i: int| 0 <= i < (" ")@.len() ==> ((" ")@[i] as u32) < 128);
        }
    }
    let mut cmd = crate::text::concat_bytes(ascii_bytes("dpkg-deb -R "), d.path.as_slice());
    crate::text::append_bytes(&mut cmd, ascii_bytes(" "));
    crate::text::append_bytes(&mut cmd, out);
    proof {
        assert(cmd@ =~= extract_deb_full_cmd(d@, out@));
    }
    cmd
}

/// The command that extracts an archive's payload, without the package
/// metadata, into a directory.
pub open spec fn extract_deb_cmd(deb: Seq<u8>, out: Seq<u8>) -> Seq<u8> {
    lit_bytes("dpkg-deb -x "@) + deb + lit_bytes(" "@) + out
}

/// Builds the payload-extraction command for an archive.
pub fn extract_deb(d: &DebFile, out: &[u8]) -> (cmd: Vec<u8>)
    ensures
        cmd@ == extract_deb_cmd(d@, out@),
{
    proof {
        reveal_strlit("dpkg-deb -x ");
        assert(("dpkg-deb -x ").is_ascii()) by {
            assert(forall|i: int|
                0 <= i < ("dpkg-deb -x ")@.len() ==> (("dpkg-deb -x ")@[i] as u32) < 128);
        }
        reveal_strlit(" ");
        assert((" ").is_ascii()) by {
            assert(forall|i: int| 0 <= i < (" ")@.len() ==> ((" ")@[i] as u32) < 128);
        }
    }
    let mut cmd = crate::text::concat_bytes(ascii_bytes("dpkg-deb -x "), d.path.as_slice());
    crate::text::append_bytes(&mut cmd, ascii_bytes(" "));
    crate::text::append_bytes(&mut cmd, out);
    proof {
        assert(cmd@ =~= extract_deb_cmd(d@, out@));
    }
    cmd
}

/// The destination directory of an installed package: its name and the
/// canonical form of its version, so equal versions always name the same
/// directory whatever their source texts looked like.
pub open spec fn pkg_dir(root: Seq<u8>, p: SpecPkg) -> Seq<u8> {
    root + lit_bytes("/System/Packages/"@) + p.name + lit_bytes("---"@) + spec_canonical(p.version)
}

/// The `pkg-info` file of an installed package.
pub open spec fn pkg_info_path(root: Seq<u8>, p: SpecPkg) -> Seq<u8> {
    pkg_dir(root, p) + lit_bytes("/pkg-info"@)
}

/// The control file inside an extracted archive's metadata tree.
pub open spec fn control_path(meta_dir: Seq<u8>) -> Seq<u8> {
    meta_dir + lit_bytes("/DEBIAN/control"@)
}

/// The canonical installed-package record: a line-oriented document holding
/// the identity, the relationship fields as their raw text, and the
/// provenance tag.
pub open spec fn pkg_info_doc(p: SpecPkg) -> Seq<u8> {
    lit_bytes("InfoType = 1\nDepsIncluded = false\n\n[Package]\nName = '"@) + p.name + lit_bytes(
        "'\nVersion = '"@,
    ) + spec_canonical(p.version) + lit_bytes("'\nArchitecture = '"@) + p.arch + lit_bytes(
        "'\nDepends = '"@,
    ) + p.deps + lit_bytes("'\nRecommends = '"@) + p.recommends + lit_bytes("'\nSuggests = '"@)
        + p.suggests + lit_bytes("'\nPre-Depends = '"@) + p.pre_depends + lit_bytes(
        "'\nEnhances = '"@,
    ) + p.enhances + lit_bytes("'\nMaintainer = '"@) + p.maintainer + lit_bytes(
        "'\nDescription = '''"@,
    ) + p.description + lit_bytes("'''\n\n[Other]\nsource = 'deb'"@)
}

/// Renders the `pkg-info` document for a record.
pub fn format_pkg_info(p: &Pkg) -> (r: Vec<u8>)
    ensures
        r@ == pkg_info_doc(p@),
{
    proof {
        reveal_strlit("InfoType = 1\nDepsIncluded = false\n\n[Package]\nName = '");
        assert(("InfoType = 1\nDepsIncluded = false\n\n[Package]\nName = '").is_ascii()) by {
            assert(forall|i: int|
                0 <= i < ("InfoType = 1\nDepsIncluded = false\n\n[Package]\nName = '")@.len()
                    ==> ((("InfoType = 1\nDepsIncluded = false\n\n[Package]\nName = '")@[i])
                    as u32) < 128);
        }
        reveal_strlit("'\nVersion = '");
        assert(("'\nVersion = '").is_ascii()) by {
            assert(forall|i: int|
                0 <= i < ("'\nVersion = '")@.len() ==> ((("'\nVersion = '")@[i]) as u32) < 128);
        }
        reveal_strlit("'\nArchitecture = '");
        assert(("'\nArchitecture = '").is_ascii()) by {
            assert(forall|i: int|
                0 <= i < ("'\nArchitecture = '")@.len() ==> ((("'\nArchitecture = '")@[i]) as u32)
                    < 128);
        }
        reveal_strlit("'\nDepends = '");
        assert(("'\nDepends = '").is_ascii()) by {
            assert(forall|i: int|
                0 <= i < ("'\nDepends = '")@.len() ==> ((("'\nDepends = '")@[i]) as u32) < 128);
        }
        reveal_strlit("'\nRecommends = '");
        assert(("'\nRecommends = '").is_ascii()) by {
            assert(forall|i: int|
                0 <= i < ("'\nRecommends = '")@.len() ==> ((("'\nRecommends = '")@[i]) as u32)
                    < 128);
        }
        reveal_strlit("'\nSuggests = '");
        assert(("'\nSuggests = '").is_ascii()) by {
            assert(forall|i: int|
                0 <= i < ("'\nSuggests = '")@.len() ==> ((("'\nSuggests = '")@[i]) as u32) < 128);
        }
        reveal_strlit("'\nPre-Depends = '");
        assert(("'\nPre-Depends = '").is_ascii()) by {
            assert(forall|i: int|
                0 <= i < ("'\nPre-Depends = '")@.len() ==> ((("'\nPre-Depends = '")@[i]) as u32)
                    < 128);
        }
        reveal_strlit("'\nEnhances = '");
        assert(("'\nEnhances = '").is_ascii()) by {
            assert(forall|i: int|
                0 <= i < ("'\nEnhances = '")@.len() ==> ((("'\nEnhances = '")@[i]) as u32) < 128);
        }
        reveal_strlit("'\nMaintainer = '");
        assert(("'\nMaintainer = '").is_ascii()) by {
            assert(forall|i: int|
                0 <= i < ("'\nMaintainer = '")@.len() ==> ((("'\nMaintainer = '")@[i]) as u32)
                    < 128);
        }
        reveal_strlit("'\nDescription = '''");
        assert(("'\nDescription = '''").is_ascii()) by {
            assert(forall|i: int|
                0 <= i < ("'\nDescription = '''")@.len() ==> ((("'\nDescription = '''")@[i])
                    as u32) < 128);
        }
        reveal_strlit("'''\n\n[Other]\nsource = 'deb'");
        assert(("'''\n\n[Other]\nsource = 'deb'").is_ascii()) by {
            assert(forall|i: int|
                0 <= i < ("'''\n\n[Other]\nsource = 'deb'")@.len() ==> (((
                "'''\n\n[Other]\nsource = 'deb'")@[i]) as u32) < 128);
        }
    }
    let mut r = crate::text::concat_bytes(
        ascii_bytes("InfoType = 1\nDepsIncluded = false\n\n[Package]\nName = '"),
        p.name.as_slice(),
    );
    crate::text::append_bytes(&mut r, ascii_bytes("'\nVersion = '"));
    let canon = p.version.canonical();
    crate::text::append_bytes(&mut r, canon.as_slice());
    crate::text::append_bytes(&mut r, ascii_bytes("'\nArchitecture = '"));
    crate::text::append_bytes(&mut r, p.arch.as_slice());
    crate::text::append_bytes(&mut r, ascii_bytes("'\nDepends = '"));
    crate::text::append_bytes(&mut r, p.deps.as_slice());
    crate::text::append_bytes(&mut r, ascii_bytes("'\nRecommends = '"));
    crate::text::append_bytes(&mut r, p.recommends.as_slice());
    crate::text::append_bytes(&mut r, ascii_bytes("'\nSuggests = '"));
    crate::text::append_bytes(&mut r, p.suggests.as_slice());
    crate::text::append_bytes(&mut r, ascii_bytes("'\nPre-Depends = '"));
    crate::text::append_bytes(&mut r, p.pre_depends.as_slice());
    crate::text::append_bytes(&mut r, ascii_bytes("'\nEnhances = '"));
    crate::text::append_bytes(&mut r, p.enhances.as_slice());
    crate::text::append_bytes(&mut r, ascii_bytes("'\nMaintainer = '"));
    crate::text::append_bytes(&mut r, p.maintainer.as_slice());
    crate::text::append_bytes(&mut r, ascii_bytes("'\nDescription = '''"));
    crate::text::append_bytes(&mut r, p.description.as_slice());
    crate::text::append_bytes(&mut r, ascii_bytes("'''\n\n[Other]\nsource = 'deb'"));
    proof {
        assert(r@ =~= pkg_info_doc(p@));
    }
    r
}

/// Builds the destination directory path for a record.
pub fn pkg_dir_of(root: &[u8], p: &Pkg) -> (r: Vec<u8>)
    ensures
        r@ == pkg_dir(root@, p@),
{
    proof {
        reveal_strlit("/System/Packages/");
        assert(("/System/Packages/").is_ascii()) by {
            assert(forall|i: int|
                0 <= i < ("/System/Packages/")@.len() ==> ((("/System/Packages/")@[i]) as u32)
                    < 128);
        }
        reveal_strlit("---");
        assert(("---").is_ascii()) by {
            assert(forall|i: int| 0 <= i < ("---")@.len() ==> ((("---")@[i]) as u32) < 128);
        }
    }
    let mut r = crate::text::concat_bytes(root, ascii_bytes("/System/Packages/"));
    crate::text::append_bytes(&mut r, p.name.as_slice());
    crate::text::append_bytes(&mut r, ascii_bytes("---"));
    let canon = p.version.canonical();
    crate::text::append_bytes(&mut r, canon.as_slice());
    proof {
        assert(r@ =~= pkg_dir(root@, p@));
    }
    r
}

/// What the driver reports back from an action: plain success, success with
/// the text read, or failure.
#[derive(Debug)]
pub enum Outcome {
    Success,
    Output(Vec<u8>),
    Failure,
}

/// The mathematical value of an outcome.
pub ghost enum SpecOutcome {
    Success,
    Output(Seq<u8>),
    Failure,
}

impl View for Outcome {
    type V = SpecOutcome;

    open spec fn view(&self) -> SpecOutcome {
        match self {
            Outcome::Success => SpecOutcome::Success,
            Outcome::Output(t) => SpecOutcome::Output(t@),
            Outcome::Failure => SpecOutcome::Failure,
        }
    }
}

/// Where the install transaction stands. Metadata comes before payload,
/// payload before `pkg-info`: the ordering is the correctness requirement.
#[derive(Clone, Copy, Debug, PartialEq, Eq, Structural)]
pub enum InstallPhase {
    /// Extract the archive's full contents into the metadata scratch tree.
    ExtractMeta,
    /// Read the control file from the metadata tree.
    ReadControl,
    /// Extract the archive's payload into the payload scratch tree.
    ExtractPayload,
    /// Copy the payload tree into the destination directory.
    CopyTree,
    /// Write the `pkg-info` record, only after the copy succeeded.
    WriteInfo,
    /// The package is installed.
    Done,
    /// The transaction failed before `pkg-info` was written.
    Failed,
}

/// The mathematical state of an install transaction.
pub ghost struct SpecInstall {
    pub archive: Seq<u8>,
    pub root: Seq<u8>,
    pub meta_dir: Seq<u8>,
    pub pay_dir: Seq<u8>,
    pub phase: InstallPhase,
    pub pkg: Option<SpecPkg>,
    pub error: Option<SpecPkgError>,
}

/// Internal consistency: once the control stanza is parsed, the record is
/// at hand; a failure carries its error.
pub open spec fn install_wf(m: SpecInstall) -> bool {
    &&& (m.phase is ExtractPayload || m.phase is CopyTree || m.phase is WriteInfo || m.phase
        is Done) ==> m.pkg is Some
    &&& (m.phase is Failed ==> m.error is Some)
}

/// The action an install state asks for.
pub open spec fn spec_install_action(m: SpecInstall) -> Option<SpecAction> {
    match m.phase {
        InstallPhase::ExtractMeta => Some(
            SpecAction::Run(extract_deb_full_cmd(m.archive, m.meta_dir)),
        ),
        InstallPhase::ReadControl => Some(SpecAction::ReadFile(control_path(m.meta_dir))),
        InstallPhase::ExtractPayload => Some(
            SpecAction::Run(extract_deb_cmd(m.archive, m.pay_dir)),
        ),
        InstallPhase::CopyTree => Some(
            SpecAction::Run(
                crate::system::copy_recursive_cmd(m.pay_dir, pkg_dir(m.root, m.pkg->Some_0)),
            ),
        ),
        InstallPhase::WriteInfo => Some(
            SpecAction::WriteFile(
                pkg_info_path(m.root, m.pkg->Some_0),
                pkg_info_doc(m.pkg->Some_0),
            ),
        ),
        InstallPhase::Done => None,
        InstallPhase::Failed => None,
    }
}

/// The transition an install state makes on an outcome. The control text
/// must parse to at least one record; its first record drives the rest.
pub open spec fn spec_install_step(m: SpecInstall, outcome: SpecOutcome) -> SpecInstall {
    match m.phase {
        InstallPhase::ExtractMeta => match outcome {
            SpecOutcome::Failure => SpecInstall {
                phase: InstallPhase::Failed,
                error: Some(SpecPkgError::ExtractionError(m.archive)),
                ..m
            },
            _ => SpecInstall { phase: InstallPhase::ReadControl, ..m },
        },
        InstallPhase::ReadControl => match outcome {
            SpecOutcome::Output(text) => match spec_parse_control(text) {
                Some(ps) => if ps.len() > 0 {
                    // the record's source location is the archive itself
                    SpecInstall {
                        phase: InstallPhase::ExtractPayload,
                        pkg: Some(SpecPkg { path: m.archive, ..ps[0] }),
                        ..m
                    }
                } else {
                    SpecInstall {
                        phase: InstallPhase::Failed,
                        error: Some(SpecPkgError::ParseError),
                        ..m
                    }
                },
                None => SpecInstall {
                    phase: InstallPhase::Failed,
                    error: Some(SpecPkgError::InvalidVersion),
                    ..m
                },
            },
            _ => SpecInstall {
                phase: InstallPhase::Failed,
                error: Some(SpecPkgError::IOError(control_path(m.meta_dir))),
                ..m
            },
        },
        InstallPhase::ExtractPayload => match outcome {
            SpecOutcome::Failure => SpecInstall {
                phase: InstallPhase::Failed,
                error: Some(SpecPkgError::ExtractionError(m.archive)),
                ..m
            },
            _ => SpecInstall { phase: InstallPhase::CopyTree, ..m },
        },
        InstallPhase::CopyTree => match outcome {
            SpecOutcome::Failure => SpecInstall {
                phase: InstallPhase::Failed,
                error: Some(SpecPkgError::IOError(pkg_dir(m.root, m.pkg->Some_0))),
                ..m
            },
            _ => SpecInstall { phase: InstallPhase::WriteInfo, ..m },
        },
        InstallPhase::WriteInfo => match outcome {
            SpecOutcome::Failure => SpecInstall {
                phase: InstallPhase::Failed,
                error: Some(SpecPkgError::IOError(pkg_info_path(m.root, m.pkg->Some_0))),
                ..m
            },
            _ => SpecInstall { phase: InstallPhase::Done, ..m },
        },
        InstallPhase::Done => m,
        InstallPhase::Failed => m,
    }
}

/// Consistency is preserved by every transition.
pub proof fn lemma_install_step_wf(m: SpecInstall, outcome: SpecOutcome)
    requires
        install_wf(m),
    ensures
        install_wf(spec_install_step(m, outcome)),
{
}

/// A package counts as installed iff `pkg-info` exists: the write of
/// `pkg-info` is asked for only after the payload copy succeeded, and once
/// any earlier step fails the transaction asks for nothing more.
pub proof fn lemma_info_written_only_after_copy(m: SpecInstall, outcome: SpecOutcome)
    ensures
        (spec_install_action(m) matches Some(SpecAction::WriteFile(_p, _c))) ==> m.phase
            is WriteInfo,
        m.phase is CopyTree && outcome is Failure ==> spec_install_step(m, outcome).phase
            is Failed,
        m.phase is Failed ==> spec_install_action(m) is None && spec_install_step(m, outcome)
            == m,
{
}

/// The install transaction, step by step.
#[derive(Debug)]
pub struct InstallMachine {
    archive: Vec<u8>,
    root: Vec<u8>,
    meta_dir: Vec<u8>,
    pay_dir: Vec<u8>,
    phase: InstallPhase,
    pkg: Option<Pkg>,
    error: Option<PkgError>,
}

impl View for InstallMachine {
    type V = SpecInstall;

    closed spec fn view(&self) -> SpecInstall {
        SpecInstall {
            archive: self.archive@,
            root: self.root@,
            meta_dir: self.meta_dir@,
            pay_dir: self.pay_dir@,
            phase: self.phase,
            pkg: match self.pkg {
                Some(p) => Some(p@),
                None => None,
            },
            error: match self.error {
                Some(e) => Some(e@),
                None => None,
            },
        }
    }
}

impl InstallMachine {
    /// Starts an install of the archive under the target root, with two
    /// scratch directories the driver provides and cleans up.
    pub fn new(deb: &DebFile, root: Vec<u8>, meta_dir: Vec<u8>, pay_dir: Vec<u8>) -> (m:
        InstallMachine)
        ensures
            m@.archive == deb@,
            m@.root == root@,
            m@.meta_dir == meta_dir@,
            m@.pay_dir == pay_dir@,
            m@.phase == InstallPhase::ExtractMeta,
            m@.pkg is None,
            m@.error is None,
            install_wf(m@),
    {
        InstallMachine {
            archive: copy_range(deb.path().as_slice(), 0, deb.path().len()),
            root,
            meta_dir,
            pay_dir,
            phase: InstallPhase::ExtractMeta,
            pkg: None,
            error: None,
        }
    }

    /// Whether the transaction has finished, well or badly.
    pub fn is_finished(&self) -> (r: bool)
        ensures
            r == (self@.phase is Done || self@.phase is Failed),
    {
        matches!(self.phase, InstallPhase::Done | InstallPhase::Failed)
    }

    /// The phase the transaction is in.
    pub fn phase(&self) -> (p: InstallPhase)
        ensures
            p == self@.phase,
    {
        self.phase
    }

    /// The parsed record, once the control stanza has been read.
    pub fn package(&self) -> (r: &Option<Pkg>)
        ensures
            match r {
                Some(p) => self@.pkg == Some(p@),
                None => self@.pkg is None,
            },
    {
        &self.pkg
    }

    /// The transaction's outcome, once it has finished.
    pub fn into_result(self) -> (r: Result<Pkg, PkgError>)
        requires
            self@.phase is Done || self@.phase is Failed,
            install_wf(self@),
        ensures
            match r {
                Ok(p) => self@.phase is Done && self@.pkg == Some(p@),
                Err(e) => self@.phase is Failed && Some(e@) == self@.error,
            },
    {
        match self.phase {
            InstallPhase::Done => {
                match self.pkg {
                    Some(p) => Ok(p),
                    None => {
                        proof {
                            assert(false);
                        }
                        Err(PkgError::ParseError)
                    },
                }
            },
            _ => {
                match self.error {
                    Some(e) => Err(e),
                    None => {
                        proof {
                            assert(false);
                        }
                        Err(PkgError::ParseError)
                    },
                }
            },
        }
    }

    /// The next thing the driver must do, or nothing once finished.
    pub fn next_action(&self) -> (r: Option<Action>)
        requires
            install_wf(self@),
        ensures
            view_action(r) == spec_install_action(self@),
    {
        match self.phase {
            InstallPhase::ExtractMeta => {
                let d = DebFile::from_bytes(
                    copy_range(self.archive.as_slice(), 0, self.archive.len()),
                );
                proof {
                    assert(d@ =~= self.archive@);
                }
                Some(Action::Run(extract_deb_full(&d, self.meta_dir.as_slice())))
            },
            InstallPhase::ReadControl => Some(
                Action::ReadFile(control_path_of(self.meta_dir.as_slice())),
            ),
            InstallPhase::ExtractPayload => {
                let d = DebFile::from_bytes(
                    copy_range(self.archive.as_slice(), 0, self.archive.len()),
                );
                proof {
                    assert(d@ =~= self.archive@);
                }
                Some(Action::Run(extract_deb(&d, self.pay_dir.as_slice())))
            },
            InstallPhase::CopyTree => {
                match &self.pkg {
                    Some(p) => {
                        let dest = pkg_dir_of(self.root.as_slice(), p);
                        Some(
                            Action::Run(
                                crate::system::copy_recursive(
                                    self.pay_dir.as_slice(),
                                    dest.as_slice(),
                                ),
                            ),
                        )
                    },
                    None => {
                        proof {
                            assert(false);
                        }
                        None
                    },
                }
            },
            InstallPhase::WriteInfo => {
                match &self.pkg {
                    Some(p) => {
                        let mut path = pkg_dir_of(self.root.as_slice(), p);
                        proof {
                            reveal_strlit("/pkg-info");
                            assert(("/pkg-info").is_ascii()) by {
                                assert(forall|i: int|
                                    0 <= i < ("/pkg-info")@.len() ==> ((("/pkg-info")@[i]) as u32)
                                        < 128);
                            }
                        }
                        crate::text::append_bytes(&mut path, ascii_bytes("/pkg-info"));
                        let doc = format_pkg_info(p);
                        proof {
                            assert(path@ =~= pkg_info_path(self@.root, self@.pkg->Some_0));
                        }
                        Some(Action::WriteFile(path, doc))
                    },
                    None => {
                        proof {
                            assert(false);
                        }
                        None
                    },
                }
            },
            InstallPhase::Done => None,
            InstallPhase::Failed => None,
        }
    }

    /// Takes the outcome of the last action and moves to the next phase.
    pub fn step(&mut self, outcome: Outcome)
        requires
            install_wf(old(self)@),
            !(old(self)@.phase is Done),
            !(old(self)@.phase is Failed),
        ensures
            final(self)@ == spec_install_step(old(self)@, outcome@),
            install_wf(final(self)@),
    {
        proof {
            lemma_install_step_wf(self@, outcome@);
        }
        match self.phase {
            InstallPhase::ExtractMeta => {
                match outcome {
                    Outcome::Failure => {
                        let a = copy_range(self.archive.as_slice(), 0, self.archive.len());
                        proof {
                            assert(a@ =~= self.archive@);
                        }
                        self.error = Some(PkgError::ExtractionError(a));
                        self.phase = InstallPhase::Failed;
                    },
                    _ => {
                        self.phase = InstallPhase::ReadControl;
                    },
                }
            },
            InstallPhase::ReadControl => {
                match outcome {
                    Outcome::Output(text) => {
                        match crate::control::parse_control(text.as_slice()) {
                            Ok(mut ps) => {
                                if ps.len() > 0 {
                                    let ghost all = crate::control::view_pkgs(ps@);
                                    let mut p = ps.remove(0);
                                    proof {
                                        assert(p@ == all[0]);
                                    }
                                    p.path = copy_range(
                                        self.archive.as_slice(),
                                        0,
                                        self.archive.len(),
                                    );
                                    proof {
                                        assert(p@.path =~= self.archive@);
                                        assert(p@ == SpecPkg { path: self.archive@, ..all[0] });
                                    }
                                    self.pkg = Some(p);
                                    self.phase = InstallPhase::ExtractPayload;
                                } else {
                                    proof {
                                        assert(crate::control::view_pkgs(ps@).len() == 0);
                                    }
                                    self.error = Some(PkgError::ParseError);
                                    self.phase = InstallPhase::Failed;
                                }
                            },
                            Err(e) => {
                                self.error = Some(e);
                                self.phase = InstallPhase::Failed;
                            },
                        }
                    },
                    _ => {
                        self.error = Some(
                            PkgError::IOError(control_path_of(self.meta_dir.as_slice())),
                        );
                        self.phase = InstallPhase::Failed;
                    },
                }
            },
            InstallPhase::ExtractPayload => {
                match outcome {
                    Outcome::Failure => {
                        let a = copy_range(self.archive.as_slice(), 0, self.archive.len());
                        proof {
                            assert(a@ =~= self.archive@);
                        }
                        self.error = Some(PkgError::ExtractionError(a));
                        self.phase = InstallPhase::Failed;
                    },
                    _ => {
                        self.phase = InstallPhase::CopyTree;
                    },
                }
            },
            InstallPhase::CopyTree => {
                match outcome {
                    Outcome::Failure => {
                        match &self.pkg {
                            Some(p) => {
                                self.error = Some(
                                    PkgError::IOError(pkg_dir_of(self.root.as_slice(), p)),
                                );
                            },
                            None => {
                                proof {
                                    assert(false);
                                }
                            },
                        }
                        self.phase = InstallPhase::Failed;
                    },
                    _ => {
                        self.phase = InstallPhase::WriteInfo;
                    },
                }
            },
            InstallPhase::WriteInfo => {
                match outcome {
                    Outcome::Failure => {
                        match &self.pkg {
                            Some(p) => {
                                let mut path = pkg_dir_of(self.root.as_slice(), p);
                                proof {
                                    reveal_strlit("/pkg-info");
                                    assert(("/pkg-info").is_ascii()) by {
                                        assert(forall|i: int|
                                            0 <= i < ("/pkg-info")@.len() ==> ((("/pkg-info")@[i])
                                                as u32) < 128);
                                    }
                                }
                                crate::text::append_bytes(&mut path, ascii_bytes("/pkg-info"));
                                proof {
                                    assert(path@ =~= pkg_info_path(self@.root, self@.pkg->Some_0));
                                }
                                self.error = Some(PkgError::IOError(path));
                            },
                            None => {
                                proof {
                                    assert(false);
                                }
                            },
                        }
                        self.phase = InstallPhase::Failed;
                    },
                    _ => {
                        self.phase = InstallPhase::Done;
                    },
                }
            },
            InstallPhase::Done => {
                proof {
                    assert(false);
                }
            },
            InstallPhase::Failed => {
                proof {
                    assert(false);
                }
            },
        }
    }
}

/// Builds the control file path inside an extracted metadata tree.
fn control_path_of(meta_dir: &[u8]) -> (r: Vec<u8>)
    ensures
        r@ == control_path(meta_dir@),
{
    proof {
        reveal_strlit("/DEBIAN/control");
        assert(("/DEBIAN/control").is_ascii()) by {
            assert(forall|i: int|
                0 <= i < ("/DEBIAN/control")@.len() ==> ((("/DEBIAN/control")@[i]) as u32) < 128);
        }
    }
    crate::text::concat_bytes(meta_dir, ascii_bytes("/DEBIAN/control"))
}

} // verus!
