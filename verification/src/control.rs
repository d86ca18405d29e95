//! The control-stanza parser: RFC822-like metadata blocks, one per package,
//! parsed into structured records.
//!
//! A line with a known field prefix sets that field; a line starting with a
//! space continues the description; a new `Package:` line closes the record
//! in progress; unrecognized lines are ignored. A malformed version text
//! fails the whole batch: a partially loaded catalog is worse than none.

use crate::text::{copy_range, is_prefix, lit_bytes, split_lines, starts_with, NL, SPACE};
use crate::version::{spec_parse, version_wf, SpecVersion, Version};
use crate::PkgError;
use crate::SpecPkgError;
use vstd::prelude::*;

verus! {

/// One package record: identity, version, relationship fields (kept as raw
/// text), description, and where the archive can be obtained.
#[derive(Debug)]
pub struct Pkg {
    pub name: Vec<u8>,
    pub version: Version,
    pub arch: Vec<u8>,
    pub deps: Vec<u8>,
    pub recommends: Vec<u8>,
    pub suggests: Vec<u8>,
    pub pre_depends: Vec<u8>,
    pub enhances: Vec<u8>,
    pub description: Vec<u8>,
    pub maintainer: Vec<u8>,
    pub homepage: Vec<u8>,
    pub path: Vec<u8>,
}

/// The mathematical value of a package record.
pub ghost struct SpecPkg {
    pub name: Seq<u8>,
    pub version: SpecVersion,
    pub arch: Seq<u8>,
    pub deps: Seq<u8>,
    pub recommends: Seq<u8>,
    pub suggests: Seq<u8>,
    pub pre_depends: Seq<u8>,
    pub enhances: Seq<u8>,
    pub description: Seq<u8>,
    pub maintainer: Seq<u8>,
    pub homepage: Seq<u8>,
    pub path: Seq<u8>,
}

impl View for Pkg {
    type V = SpecPkg;

    open spec fn view(&self) -> SpecPkg {
        SpecPkg {
            name: self.name@,
            version: self.version@,
            arch: self.arch@,
            deps: self.deps@,
            recommends: self.recommends@,
            suggests: self.suggests@,
            pre_depends: self.pre_depends@,
            enhances: self.enhances@,
            description: self.description@,
            maintainer: self.maintainer@,
            homepage: self.homepage@,
            path: self.path@,
        }
    }
}

/// The values of a sequence of records.
pub open spec fn view_pkgs(s: Seq<Pkg>) -> Seq<SpecPkg> {
    s.map_values(|p: Pkg| p@)
}

/// The recognized fields of a stanza.
#[derive(Clone, Copy, Debug)]
pub enum Field {
    FName,
    FVersion,
    FArch,
    FDeps,
    FRecommends,
    FSuggests,
    FPreDepends,
    FEnhances,
    FMaintainer,
    FHomepage,
    FDescription,
    FFilename,
}

/// The field prefix that opens a line setting that field.
pub open spec fn field_prefix(f: Field) -> Seq<u8> {
    match f {
        Field::FName => lit_bytes("Package: "@),
        Field::FVersion => lit_bytes("Version: "@),
        Field::FArch => lit_bytes("Architecture: "@),
        Field::FDeps => lit_bytes("Depends: "@),
        Field::FRecommends => lit_bytes("Recommends: "@),
        Field::FSuggests => lit_bytes("Suggests: "@),
        Field::FPreDepends => lit_bytes("Pre-Depends: "@),
        Field::FEnhances => lit_bytes("Enhances: "@),
        Field::FMaintainer => lit_bytes("Maintainer: "@),
        Field::FHomepage => lit_bytes("Homepage: "@),
        Field::FDescription => lit_bytes("Description: "@),
        Field::FFilename => lit_bytes("Filename: "@),
    }
}

/// The field a line sets, with the text after the prefix, in the order the
/// prefixes are tried.
pub open spec fn line_field(line: Seq<u8>) -> Option<(Field, Seq<u8>)> {
    if is_prefix(field_prefix(Field::FName), line) {
        Some((Field::FName, line.skip(field_prefix(Field::FName).len() as int)))
    } else if is_prefix(field_prefix(Field::FVersion), line) {
        Some((Field::FVersion, line.skip(field_prefix(Field::FVersion).len() as int)))
    } else if is_prefix(field_prefix(Field::FArch), line) {
        Some((Field::FArch, line.skip(field_prefix(Field::FArch).len() as int)))
    } else if is_prefix(field_prefix(Field::FDeps), line) {
        Some((Field::FDeps, line.skip(field_prefix(Field::FDeps).len() as int)))
    } else if is_prefix(field_prefix(Field::FRecommends), line) {
        Some((Field::FRecommends, line.skip(field_prefix(Field::FRecommends).len() as int)))
    } else if is_prefix(field_prefix(Field::FSuggests), line) {
        Some((Field::FSuggests, line.skip(field_prefix(Field::FSuggests).len() as int)))
    } else if is_prefix(field_prefix(Field::FPreDepends), line) {
        Some((Field::FPreDepends, line.skip(field_prefix(Field::FPreDepends).len() as int)))
    } else if is_prefix(field_prefix(Field::FEnhances), line) {
        Some((Field::FEnhances, line.skip(field_prefix(Field::FEnhances).len() as int)))
    } else if is_prefix(field_prefix(Field::FMaintainer), line) {
        Some((Field::FMaintainer, line.skip(field_prefix(Field::FMaintainer).len() as int)))
    } else if is_prefix(field_prefix(Field::FHomepage), line) {
        Some((Field::FHomepage, line.skip(field_prefix(Field::FHomepage).len() as int)))
    } else if is_prefix(field_prefix(Field::FDescription), line) {
        Some((Field::FDescription, line.skip(field_prefix(Field::FDescription).len() as int)))
    } else if is_prefix(field_prefix(Field::FFilename), line) {
        Some((Field::FFilename, line.skip(field_prefix(Field::FFilename).len() as int)))
    } else {
        None
    }
}

/// The raw field texts collected while scanning a stanza.
pub ghost struct SpecFields {
    pub name: Seq<u8>,
    pub version: Seq<u8>,
    pub arch: Seq<u8>,
    pub deps: Seq<u8>,
    pub recommends: Seq<u8>,
    pub suggests: Seq<u8>,
    pub pre_depends: Seq<u8>,
    pub enhances: Seq<u8>,
    pub maintainer: Seq<u8>,
    pub homepage: Seq<u8>,
    pub description: Seq<u8>,
    pub filename: Seq<u8>,
    pub in_description: bool,
}

/// All fields empty, no description in progress.
pub open spec fn empty_fields() -> SpecFields {
    SpecFields {
        name: Seq::empty(),
        version: Seq::empty(),
        arch: Seq::empty(),
        deps: Seq::empty(),
        recommends: Seq::empty(),
        suggests: Seq::empty(),
        pre_depends: Seq::empty(),
        enhances: Seq::empty(),
        maintainer: Seq::empty(),
        homepage: Seq::empty(),
        description: Seq::empty(),
        filename: Seq::empty(),
        in_description: false,
    }
}

/// `f` with field `k` set to `v`; setting the description starts one, any
/// other field ends it.
pub open spec fn set_field(f: SpecFields, k: Field, v: Seq<u8>) -> SpecFields {
    match k {
        Field::FName => SpecFields { name: v, in_description: false, ..f },
        Field::FVersion => SpecFields { version: v, in_description: false, ..f },
        Field::FArch => SpecFields { arch: v, in_description: false, ..f },
        Field::FDeps => SpecFields { deps: v, in_description: false, ..f },
        Field::FRecommends => SpecFields { recommends: v, in_description: false, ..f },
        Field::FSuggests => SpecFields { suggests: v, in_description: false, ..f },
        Field::FPreDepends => SpecFields { pre_depends: v, in_description: false, ..f },
        Field::FEnhances => SpecFields { enhances: v, in_description: false, ..f },
        Field::FMaintainer => SpecFields { maintainer: v, in_description: false, ..f },
        Field::FHomepage => SpecFields { homepage: v, in_description: false, ..f },
        Field::FDescription => SpecFields { description: v, in_description: true, ..f },
        Field::FFilename => SpecFields { filename: v, in_description: false, ..f },
    }
}

/// A closed record: the collected fields, with the version text parsed.
/// A malformed version text closes no record.
pub open spec fn close_record(f: SpecFields) -> Option<SpecPkg> {
    match spec_parse(f.version) {
        Some(v) => Some(
            SpecPkg {
                name: f.name,
                version: v,
                arch: f.arch,
                deps: f.deps,
                recommends: f.recommends,
                suggests: f.suggests,
                pre_depends: f.pre_depends,
                enhances: f.enhances,
                description: f.description,
                maintainer: f.maintainer,
                homepage: f.homepage,
                path: f.filename,
            },
        ),
        None => None,
    }
}

/// The state of the scan: collected fields, emitted records, and whether a
/// malformed version has failed the batch.
pub ghost struct ScanState {
    pub fields: SpecFields,
    pub out: Seq<SpecPkg>,
    pub failed: bool,
}

pub open spec fn initial_state() -> ScanState {
    ScanState { fields: empty_fields(), out: Seq::empty(), failed: false }
}

/// One line of the scan. A `Package:` line on a record in progress closes
/// it and starts a fresh one; a continuation line extends a description in
/// progress with its newline restored; unrecognized lines change nothing.
pub open spec fn spec_step(st: ScanState, line: Seq<u8>) -> ScanState {
    if st.failed {
        st
    } else {
        match line_field(line) {
            Some((k, v)) => {
                if k is FName && st.fields.name.len() > 0 {
                    match close_record(st.fields) {
                        Some(p) => ScanState {
                            fields: set_field(empty_fields(), Field::FName, v),
                            out: st.out.push(p),
                            failed: false,
                        },
                        None => ScanState { failed: true, ..st },
                    }
                } else {
                    ScanState { fields: set_field(st.fields, k, v), ..st }
                }
            },
            None => {
                if line.len() > 0 && line[0] == SPACE && st.fields.in_description {
                    ScanState {
                        fields: SpecFields {
                            description: st.fields.description + seq![NL] + line.skip(1),
                            ..st.fields
                        },
                        ..st
                    }
                } else {
                    st
                }
            },
        }
    }
}

/// The scan of a line sequence from a given state.
pub open spec fn spec_scan(st: ScanState, lines: Seq<Seq<u8>>) -> ScanState
    decreases lines.len(),
{
    if lines.len() == 0 {
        st
    } else {
        spec_step(spec_scan(st, lines.drop_last()), lines.last())
    }
}

/// The parse of a sequence of lines: scan them, then close the final
/// record if one is in progress.
pub open spec fn parse_lines(lines: Seq<Seq<u8>>) -> Option<Seq<SpecPkg>> {
    let st = spec_scan(initial_state(), lines);
    if st.failed {
        None
    } else if st.fields.name.len() > 0 {
        match close_record(st.fields) {
            Some(p) => Some(st.out.push(p)),
            None => None,
        }
    } else {
        Some(st.out)
    }
}

/// The parse of a whole control text.
pub open spec fn spec_parse_control(text: Seq<u8>) -> Option<Seq<SpecPkg>> {
    parse_lines(split_lines(text))
}

/// The field of a collected-fields value named by `k`, the version as its
/// raw text.
pub open spec fn get_field(f: SpecFields, k: Field) -> Seq<u8> {
    match k {
        Field::FName => f.name,
        Field::FVersion => f.version,
        Field::FArch => f.arch,
        Field::FDeps => f.deps,
        Field::FRecommends => f.recommends,
        Field::FSuggests => f.suggests,
        Field::FPreDepends => f.pre_depends,
        Field::FEnhances => f.enhances,
        Field::FMaintainer => f.maintainer,
        Field::FHomepage => f.homepage,
        Field::FDescription => f.description,
        Field::FFilename => f.filename,
    }
}

/// The text field of a record named by `k`; the version, being structured,
/// is not reached this way.
pub open spec fn pkg_field(p: SpecPkg, k: Field) -> Seq<u8> {
    match k {
        Field::FName => p.name,
        Field::FVersion => Seq::empty(),
        Field::FArch => p.arch,
        Field::FDeps => p.deps,
        Field::FRecommends => p.recommends,
        Field::FSuggests => p.suggests,
        Field::FPreDepends => p.pre_depends,
        Field::FEnhances => p.enhances,
        Field::FMaintainer => p.maintainer,
        Field::FHomepage => p.homepage,
        Field::FDescription => p.description,
        Field::FFilename => p.path,
    }
}

/// The collected raw field texts, as the scanner builds them.
struct RawFields {
    name: Vec<u8>,
    version: Vec<u8>,
    arch: Vec<u8>,
    deps: Vec<u8>,
    recommends: Vec<u8>,
    suggests: Vec<u8>,
    pre_depends: Vec<u8>,
    enhances: Vec<u8>,
    maintainer: Vec<u8>,
    homepage: Vec<u8>,
    description: Vec<u8>,
    filename: Vec<u8>,
    in_description: bool,
}

impl View for RawFields {
    type V = SpecFields;

    closed spec fn view(&self) -> SpecFields {
        SpecFields {
            name: self.name@,
            version: self.version@,
            arch: self.arch@,
            deps: self.deps@,
            recommends: self.recommends@,
            suggests: self.suggests@,
            pre_depends: self.pre_depends@,
            enhances: self.enhances@,
            maintainer: self.maintainer@,
            homepage: self.homepage@,
            description: self.description@,
            filename: self.filename@,
            in_description: self.in_description,
        }
    }
}

impl RawFields {
    fn empty() -> (r: RawFields)
        ensures
            r@ == empty_fields(),
    {
        let r = RawFields {
            name: Vec::new(),
            version: Vec::new(),
            arch: Vec::new(),
            deps: Vec::new(),
            recommends: Vec::new(),
            suggests: Vec::new(),
            pre_depends: Vec::new(),
            enhances: Vec::new(),
            maintainer: Vec::new(),
            homepage: Vec::new(),
            description: Vec::new(),
            filename: Vec::new(),
            in_description: false,
        };
        proof {
            assert(r@.name =~= empty_fields().name);
            assert(r@.version =~= empty_fields().version);
            assert(r@.arch =~= empty_fields().arch);
            assert(r@.deps =~= empty_fields().deps);
            assert(r@.recommends =~= empty_fields().recommends);
            assert(r@.suggests =~= empty_fields().suggests);
            assert(r@.pre_depends =~= empty_fields().pre_depends);
            assert(r@.enhances =~= empty_fields().enhances);
            assert(r@.maintainer =~= empty_fields().maintainer);
            assert(r@.homepage =~= empty_fields().homepage);
            assert(r@.description =~= empty_fields().description);
            assert(r@.filename =~= empty_fields().filename);
        }
        r
    }

    fn set(&mut self, k: Field, v: Vec<u8>)
        ensures
            final(self)@ == set_field(old(self)@, k, v@),
    {
        match k {
            Field::FName => {
                self.name = v;
                self.in_description = false;
            },
            Field::FVersion => {
                self.version = v;
                self.in_description = false;
            },
            Field::FArch => {
                self.arch = v;
                self.in_description = false;
            },
            Field::FDeps => {
                self.deps = v;
                self.in_description = false;
            },
            Field::FRecommends => {
                self.recommends = v;
                self.in_description = false;
            },
            Field::FSuggests => {
                self.suggests = v;
                self.in_description = false;
            },
            Field::FPreDepends => {
                self.pre_depends = v;
                self.in_description = false;
            },
            Field::FEnhances => {
                self.enhances = v;
                self.in_description = false;
            },
            Field::FMaintainer => {
                self.maintainer = v;
                self.in_description = false;
            },
            Field::FHomepage => {
                self.homepage = v;
                self.in_description = false;
            },
            Field::FDescription => {
                self.description = v;
                self.in_description = true;
            },
            Field::FFilename => {
                self.filename = v;
                self.in_description = false;
            },
        }
    }
}

/// Determines which field a line sets, and hands out the text after the
/// prefix.
fn match_field(line: &[u8]) -> (r: Option<(Field, Vec<u8>)>)
    ensures
        match r {
            Some(kv) => line_field(line@) == Some((kv.0, kv.1@)),
            None => line_field(line@) is None,
        },
{
    proof {
        reveal_strlit("Package: ");
        assert(("Package: ").is_ascii()) by {
            assert(forall|i: int|
                0 <= i < ("Package: ")@.len() ==> (("Package: ")@[i] as u32) < 128);
        }
    }
    let p = crate::text::ascii_bytes("Package: ");
    if starts_with(line, p) {
        let v = copy_range(line, p.len(), line.len());
        proof {
            assert(v@ =~= line@.skip(field_prefix(Field::FName).len() as int));
        }
        return Some((Field::FName, v));
    }
    proof {
        reveal_strlit("Version: ");
        assert(("Version: ").is_ascii()) by {
            assert(forall|i: int|
                0 <= i < ("Version: ")@.len() ==> (("Version: ")@[i] as u32) < 128);
        }
    }
    let p = crate::text::ascii_bytes("Version: ");
    if starts_with(line, p) {
        let v = copy_range(line, p.len(), line.len());
        proof {
            assert(v@ =~= line@.skip(field_prefix(Field::FVersion).len() as int));
        }
        return Some((Field::FVersion, v));
    }
    proof {
        reveal_strlit("Architecture: ");
        assert(("Architecture: ").is_ascii()) by {
            assert(forall|i: int|
                0 <= i < ("Architecture: ")@.len() ==> (("Architecture: ")@[i] as u32) < 128);
        }
    }
    let p = crate::text::ascii_bytes("Architecture: ");
    if starts_with(line, p) {
        let v = copy_range(line, p.len(), line.len());
        proof {
            assert(v@ =~= line@.skip(field_prefix(Field::FArch).len() as int));
        }
        return Some((Field::FArch, v));
    }
    proof {
        reveal_strlit("Depends: ");
        assert(("Depends: ").is_ascii()) by {
            assert(forall|i: int|
                0 <= i < ("Depends: ")@.len() ==> (("Depends: ")@[i] as u32) < 128);
        }
    }
    let p = crate::text::ascii_bytes("Depends: ");
    if starts_with(line, p) {
        let v = copy_range(line, p.len(), line.len());
        proof {
            assert(v@ =~= line@.skip(field_prefix(Field::FDeps).len() as int));
        }
        return Some((Field::FDeps, v));
    }
    proof {
        reveal_strlit("Recommends: ");
        assert(("Recommends: ").is_ascii()) by {
            assert(forall|i: int|
                0 <= i < ("Recommends: ")@.len() ==> (("Recommends: ")@[i] as u32) < 128);
        }
    }
    let p = crate::text::ascii_bytes("Recommends: ");
    if starts_with(line, p) {
        let v = copy_range(line, p.len(), line.len());
        proof {
            assert(v@ =~= line@.skip(field_prefix(Field::FRecommends).len() as int));
        }
        return Some((Field::FRecommends, v));
    }
    proof {
        reveal_strlit("Suggests: ");
        assert(("Suggests: ").is_ascii()) by {
            assert(forall|i: int|
                0 <= i < ("Suggests: ")@.len() ==> (("Suggests: ")@[i] as u32) < 128);
        }
    }
    let p = crate::text::ascii_bytes("Suggests: ");
    if starts_with(line, p) {
        let v = copy_range(line, p.len(), line.len());
        proof {
            assert(v@ =~= line@.skip(field_prefix(Field::FSuggests).len() as int));
        }
        return Some((Field::FSuggests, v));
    }
    proof {
        reveal_strlit("Pre-Depends: ");
        assert(("Pre-Depends: ").is_ascii()) by {
            assert(forall|i: int|
                0 <= i < ("Pre-Depends: ")@.len() ==> (("Pre-Depends: ")@[i] as u32) < 128);
        }
    }
    let p = crate::text::ascii_bytes("Pre-Depends: ");
    if starts_with(line, p) {
        let v = copy_range(line, p.len(), line.len());
        proof {
            assert(v@ =~= line@.skip(field_prefix(Field::FPreDepends).len() as int));
        }
        return Some((Field::FPreDepends, v));
    }
    proof {
        reveal_strlit("Enhances: ");
        assert(("Enhances: ").is_ascii()) by {
            assert(forall|i: int|
                0 <= i < ("Enhances: ")@.len() ==> (("Enhances: ")@[i] as u32) < 128);
        }
    }
    let p = crate::text::ascii_bytes("Enhances: ");
    if starts_with(line, p) {
        let v = copy_range(line, p.len(), line.len());
        proof {
            assert(v@ =~= line@.skip(field_prefix(Field::FEnhances).len() as int));
        }
        return Some((Field::FEnhances, v));
    }
    proof {
        reveal_strlit("Maintainer: ");
        assert(("Maintainer: ").is_ascii()) by {
            assert(forall|i: int|
                0 <= i < ("Maintainer: ")@.len() ==> (("Maintainer: ")@[i] as u32) < 128);
        }
    }
    let p = crate::text::ascii_bytes("Maintainer: ");
    if starts_with(line, p) {
        let v = copy_range(line, p.len(), line.len());
        proof {
            assert(v@ =~= line@.skip(field_prefix(Field::FMaintainer).len() as int));
        }
        return Some((Field::FMaintainer, v));
    }
    proof {
        reveal_strlit("Homepage: ");
        assert(("Homepage: ").is_ascii()) by {
            assert(forall|i: int|
                0 <= i < ("Homepage: ")@.len() ==> (("Homepage: ")@[i] as u32) < 128);
        }
    }
    let p = crate::text::ascii_bytes("Homepage: ");
    if starts_with(line, p) {
        let v = copy_range(line, p.len(), line.len());
        proof {
            assert(v@ =~= line@.skip(field_prefix(Field::FHomepage).len() as int));
        }
        return Some((Field::FHomepage, v));
    }
    proof {
        reveal_strlit("Description: ");
        assert(("Description: ").is_ascii()) by {
            assert(forall|i: int|
                0 <= i < ("Description: ")@.len() ==> (("Description: ")@[i] as u32) < 128);
        }
    }
    let p = crate::text::ascii_bytes("Description: ");
    if starts_with(line, p) {
        let v = copy_range(line, p.len(), line.len());
        proof {
            assert(v@ =~= line@.skip(field_prefix(Field::FDescription).len() as int));
        }
        return Some((Field::FDescription, v));
    }
    proof {
        reveal_strlit("Filename: ");
        assert(("Filename: ").is_ascii()) by {
            assert(forall|i: int|
                0 <= i < ("Filename: ")@.len() ==> (("Filename: ")@[i] as u32) < 128);
        }
    }
    let p = crate::text::ascii_bytes("Filename: ");
    if starts_with(line, p) {
        let v = copy_range(line, p.len(), line.len());
        proof {
            assert(v@ =~= line@.skip(field_prefix(Field::FFilename).len() as int));
        }
        return Some((Field::FFilename, v));
    }
    None
}

/// A failed scan stays failed.
proof fn lemma_scan_failed(st: ScanState, lines: Seq<Seq<u8>>)
    requires
        st.failed,
    ensures
        spec_scan(st, lines) == st,
    decreases lines.len(),
{
    if lines.len() > 0 {
        lemma_scan_failed(st, lines.drop_last());
    }
}

/// Scanning a concatenation scans the parts in turn.
proof fn lemma_scan_append(st: ScanState, a: Seq<Seq<u8>>, b: Seq<Seq<u8>>)
    ensures
        spec_scan(st, a + b) == spec_scan(spec_scan(st, a), b),
    decreases b.len(),
{
    if b.len() == 0 {
        assert(a + b =~= a);
    } else {
        lemma_scan_append(st, a, b.drop_last());
        assert((a + b).drop_last() =~= a + b.drop_last());
        assert((a + b).last() == b.last());
    }
}

/// Closes the collected fields into a record; a malformed version text is
/// the batch's failure.
fn close_fields(f: RawFields) -> (r: Result<Pkg, PkgError>)
    ensures
        match r {
            Ok(p) => close_record(f@) == Some(p@) && version_wf(p@.version),
            Err(e) => close_record(f@) is None && e@ == SpecPkgError::InvalidVersion,
        },
{
    let version = match Version::from_bytes(f.version.as_slice()) {
        Ok(v) => v,
        Err(e) => {
            return Err(e);
        },
    };
    Ok(
        Pkg {
            name: f.name,
            version,
            arch: f.arch,
            deps: f.deps,
            recommends: f.recommends,
            suggests: f.suggests,
            pre_depends: f.pre_depends,
            enhances: f.enhances,
            description: f.description,
            maintainer: f.maintainer,
            homepage: f.homepage,
            path: f.filename,
        },
    )
}

/// Parses the full text of one or more control stanzas into a sequence of
/// package records, one per stanza, in source order. A malformed version
/// text fails the whole batch.
#[verifier::loop_isolation(false)]
#[verifier::rlimit(30)]
pub fn parse_control(text: &[u8]) -> (r: Result<Vec<Pkg>, PkgError>)
    ensures
        match r {
            Ok(ps) => spec_parse_control(text@) == Some(view_pkgs(ps@)) && forall|i: int|
                0 <= i < ps@.len() ==> version_wf(#[trigger] view_pkgs(ps@)[i].version),
            Err(e) => spec_parse_control(text@) is None && e@ == SpecPkgError::InvalidVersion,
        },
{
    let lines = crate::text::lines_of(text);
    let ghost all_lines = split_lines(text@);
    let mut fields = RawFields::empty();
    let mut out: Vec<Pkg> = Vec::new();
    let mut i: usize = 0;
    proof {
        assert(all_lines.subrange(0, 0) =~= Seq::<Seq<u8>>::empty());
        assert(view_pkgs(out@) =~= Seq::<SpecPkg>::empty());
    }
    while i < lines.len()
        invariant
            i <= lines@.len(),
            spec_scan(initial_state(), all_lines.subrange(0, i as int)) == (ScanState {
                fields: fields@,
                out: view_pkgs(out@),
                failed: false,
            }),
            forall|j: int|
                0 <= j < out@.len() ==> version_wf(#[trigger] view_pkgs(out@)[j].version),
        decreases lines@.len() - i,
    {
        let ghost pre_scan = spec_scan(initial_state(), all_lines.subrange(0, i as int));
        let ghost cur_line = all_lines[i as int];
        proof {
            assert(all_lines.subrange(0, i + 1 as int).drop_last() =~= all_lines.subrange(
                0,
                i as int,
            ));
            assert(all_lines.subrange(0, i + 1 as int).last() == cur_line);
            assert(lines@[i as int]@ == cur_line);
        }
        let line = &lines[i];
        match match_field(line.as_slice()) {
            Some((k, v)) => {
                let is_name = matches!(k, Field::FName);
                proof {
                    assert(is_name == (k is FName));
                }
                if is_name && fields.name.len() > 0 {
                    let closed = close_fields(fields);
                    match closed {
                        Ok(p) => {
                            let ghost pre_out = view_pkgs(out@);
                            out.push(p);
                            proof {
                                assert(view_pkgs(out@) =~= pre_out.push(p@));
                            }
                            fields = RawFields::empty();
                            fields.set(k, v);
                        },
                        Err(e) => {
                            proof {
                                let failed_st = spec_scan(
                                    initial_state(),
                                    all_lines.subrange(0, i + 1 as int),
                                );
                                assert(failed_st.failed);
                                assert(all_lines =~= all_lines.subrange(0, i + 1 as int)
                                    + all_lines.subrange(i + 1 as int, all_lines.len() as int));
                                lemma_scan_append(
                                    initial_state(),
                                    all_lines.subrange(0, i + 1 as int),
                                    all_lines.subrange(i + 1 as int, all_lines.len() as int),
                                );
                                lemma_scan_failed(
                                    failed_st,
                                    all_lines.subrange(i + 1 as int, all_lines.len() as int),
                                );
                                assert(spec_parse_control(text@) is None);
                            }
                            return Err(e);
                        },
                    }
                } else {
                    fields.set(k, v);
                }
            },
            None => {
                let continues = line.len() > 0 && line[0] == SPACE && fields.in_description;
                if continues {
                    let ghost pre_desc = fields@.description;
                    fields.description.push(NL);
                    crate::text::append_bytes(
                        &mut fields.description,
                        vstd::slice::slice_subrange(line.as_slice(), 1, line.len()),
                    );
                    proof {
                        assert(fields@.description =~= pre_desc + seq![NL] + cur_line.skip(1));
                    }
                }
            },
        }
        i += 1;
    }
    proof {
        assert(all_lines.subrange(0, all_lines.len() as int) =~= all_lines);
    }
    if fields.name.len() > 0 {
        match close_fields(fields) {
            Ok(p) => {
                let ghost pre_out = view_pkgs(out@);
                out.push(p);
                proof {
                    assert(view_pkgs(out@) =~= pre_out.push(p@));
                }
                Ok(out)
            },
            Err(e) => Err(e),
        }
    } else {
        Ok(out)
    }
}

/// Setting one field leaves every other field alone.
proof fn lemma_set_field_frame(f: SpecFields, k: Field, v: Seq<u8>)
    ensures
        get_field(set_field(f, k, v), k) == v,
        forall|k2: Field| k2 != k ==> get_field(set_field(f, k, v), k2) == get_field(f, k2),
{
}

/// A line whose field is known is a simple field line: recognized, with
/// that tag and value.
pub open spec fn simple_field_line(line: Seq<u8>) -> bool {
    line_field(line) is Some
}

/// The tag of a recognized line.
pub open spec fn line_tag(line: Seq<u8>) -> Field {
    line_field(line)->Some_0.0
}

/// The value of a recognized line.
pub open spec fn line_val(line: Seq<u8>) -> Seq<u8> {
    line_field(line)->Some_0.1
}

/// Scanning simple field lines with pairwise distinct fields and no
/// `Package:` line among them just fills the fields, whatever the order.
proof fn lemma_fill_fields(st0: ScanState, lines: Seq<Seq<u8>>)
    requires
        !st0.failed,
        forall|i: int| 0 <= i < lines.len() ==> simple_field_line(#[trigger] lines[i]),
        forall|i: int, j: int|
            0 <= i < j < lines.len() ==> line_tag(lines[i]) != line_tag(lines[j]),
        forall|i: int|
            0 <= i < lines.len() && line_tag(#[trigger] lines[i]) is FName ==> st0.fields.name.len()
                == 0,
    ensures
        spec_scan(st0, lines).failed == false,
        spec_scan(st0, lines).out == st0.out,
        forall|i: int|
            0 <= i < lines.len() ==> get_field(
                spec_scan(st0, lines).fields,
                line_tag(#[trigger] lines[i]),
            ) == line_val(lines[i]),
        forall|k: Field|
            (forall|i: int| 0 <= i < lines.len() ==> line_tag(#[trigger] lines[i]) != k)
                ==> get_field(spec_scan(st0, lines).fields, k) == get_field(st0.fields, k),
    decreases lines.len(),
{
    if lines.len() > 0 {
        let pre = lines.drop_last();
        let last = lines.last();
        assert(forall|i: int| 0 <= i < pre.len() ==> #[trigger] pre[i] == lines[i]);
        lemma_fill_fields(st0, pre);
        let st1 = spec_scan(st0, pre);
        let k = line_tag(last);
        let v = line_val(last);
        // the last line's field was not set by the earlier lines
        assert(forall|i: int| 0 <= i < pre.len() ==> line_tag(#[trigger] pre[i]) != k);
        if k is FName {
            assert(st1.fields.name.len() == 0) by {
                assert(get_field(st1.fields, Field::FName) == get_field(st0.fields, Field::FName));
            }
        }
        assert(spec_scan(st0, lines) == spec_step(st1, last));
        assert(spec_step(st1, last).fields == set_field(st1.fields, k, v));
        lemma_set_field_frame(st1.fields, k, v);
        assert forall|i: int| 0 <= i < lines.len() implies get_field(
            spec_scan(st0, lines).fields,
            line_tag(#[trigger] lines[i]),
        ) == line_val(lines[i]) by {
            if i < lines.len() - 1 {
                assert(lines[i] == pre[i]);
                assert(line_tag(lines[i]) != k);
            }
        }
    }
}

/// One control stanza parses to one record holding exactly the fields its
/// lines gave, whatever order the lines came in: any arrangement of the
/// same field lines yields the same record. The description is a single
/// line here; continuation lines are ordered by nature and stand apart.
pub proof fn lemma_stanza_order_insensitive(lines: Seq<Seq<u8>>)
    requires
        forall|i: int| 0 <= i < lines.len() ==> simple_field_line(#[trigger] lines[i]),
        forall|i: int, j: int|
            0 <= i < j < lines.len() ==> line_tag(lines[i]) != line_tag(lines[j]),
        exists|i: int|
            0 <= i < lines.len() && line_tag(#[trigger] lines[i]) is FName && line_val(
                lines[i],
            ).len() > 0,
        exists|i: int|
            0 <= i < lines.len() && line_tag(#[trigger] lines[i]) is FVersion && spec_parse(
                line_val(lines[i]),
            ) is Some,
    ensures
        parse_lines(lines) is Some,
        parse_lines(lines)->Some_0.len() == 1,
        forall|i: int|
            0 <= i < lines.len() && !(line_tag(#[trigger] lines[i]) is FVersion) ==> pkg_field(
                parse_lines(lines)->Some_0[0],
                line_tag(lines[i]),
            ) == line_val(lines[i]),
        forall|i: int|
            0 <= i < lines.len() && line_tag(#[trigger] lines[i]) is FVersion ==> parse_lines(
                lines,
            )->Some_0[0].version == spec_parse(line_val(lines[i]))->Some_0,
        forall|k: Field|
            !(k is FVersion) && (forall|i: int|
                0 <= i < lines.len() ==> line_tag(#[trigger] lines[i]) != k) ==> pkg_field(
                parse_lines(lines)->Some_0[0],
                k,
            ).len() == 0,
{
    lemma_fill_fields(initial_state(), lines);
    let f = spec_scan(initial_state(), lines).fields;
    let iname = choose|i: int|
        0 <= i < lines.len() && line_tag(#[trigger] lines[i]) is FName && line_val(
            lines[i],
        ).len() > 0;
    assert(get_field(f, line_tag(lines[iname])) == line_val(lines[iname]));
    assert(f.name.len() > 0);
    let iver = choose|i: int|
        0 <= i < lines.len() && line_tag(#[trigger] lines[i]) is FVersion && spec_parse(
            line_val(lines[i]),
        ) is Some;
    assert(get_field(f, line_tag(lines[iver])) == line_val(lines[iver]));
    assert(f.version == line_val(lines[iver]));
    assert(close_record(f) is Some);
    let p = close_record(f)->Some_0;
    assert(parse_lines(lines) == Some(Seq::<SpecPkg>::empty().push(p)));
    assert(parse_lines(lines)->Some_0[0] == p);
    assert forall|i: int|
        0 <= i < lines.len() && !(line_tag(#[trigger] lines[i]) is FVersion) implies pkg_field(
        p,
        line_tag(lines[i]),
    ) == line_val(lines[i]) by {
        assert(get_field(f, line_tag(lines[i])) == line_val(lines[i]));
    }
    assert forall|i: int|
        0 <= i < lines.len() && line_tag(#[trigger] lines[i]) is FVersion implies p.version
        == spec_parse(line_val(lines[i]))->Some_0 by {
        assert(line_tag(lines[i]) == line_tag(lines[iver]));
        assert(i == iver) by {
            if i != iver {
                assert(line_tag(lines[i]) != line_tag(lines[iver]));
            }
        }
    }
    assert forall|k: Field|
        !(k is FVersion) && (forall|i: int|
            0 <= i < lines.len() ==> line_tag(#[trigger] lines[i]) != k) implies pkg_field(
        p,
        k,
    ).len() == 0 by {
        assert(get_field(f, k) == get_field(initial_state().fields, k));
        assert(get_field(initial_state().fields, k).len() == 0);
        assert(pkg_field(p, k) == get_field(f, k));
    }
}

/// A continuation line before any `Description:` line has no effect: while
/// no description is in progress, a scan step on it changes nothing.
pub proof fn lemma_continuation_without_description_ignored(st: ScanState, line: Seq<u8>)
    requires
        !st.fields.in_description || st.failed,
        line_field(line) is None,
    ensures
        spec_step(st, line) == st,
{
}

/// The description a `Description:` line and its continuation block yield:
/// the owner's value, then each continuation with its one leading space
/// stripped and its newline restored.
pub open spec fn desc_text(v0: Seq<u8>, conts: Seq<Seq<u8>>) -> Seq<u8>
    decreases conts.len(),
{
    if conts.len() == 0 {
        v0
    } else {
        desc_text(v0, conts.drop_last()) + seq![NL] + conts.last().skip(1)
    }
}

/// Whether a line continues a description: it opens with a space and
/// matches no field prefix.
pub open spec fn continuation_line(line: Seq<u8>) -> bool {
    line.len() > 0 && line[0] == SPACE && line_field(line) is None
}

/// Scanning a `Description:` line followed by its continuation block sets
/// exactly the accumulated multi-line description and touches nothing
/// else.
proof fn lemma_description_block_scan(st: ScanState, d0: Seq<u8>, conts: Seq<Seq<u8>>)
    requires
        !st.failed,
        simple_field_line(d0),
        line_tag(d0) is FDescription,
        forall|i: int| 0 <= i < conts.len() ==> continuation_line(#[trigger] conts[i]),
    ensures
        spec_scan(st, seq![d0] + conts) == (ScanState {
            fields: SpecFields {
                description: desc_text(line_val(d0), conts),
                in_description: true,
                ..st.fields
            },
            ..st
        }),
    decreases conts.len(),
{
    if conts.len() == 0 {
        assert(seq![d0] + conts =~= seq![d0]);
        lemma_scan_one(st, d0);
        assert(spec_step(st, d0).fields == set_field(st.fields, Field::FDescription, line_val(d0)));
    } else {
        let pre = conts.drop_last();
        assert(forall|i: int| 0 <= i < pre.len() ==> #[trigger] pre[i] == conts[i]);
        lemma_description_block_scan(st, d0, pre);
        assert((seq![d0] + conts).drop_last() =~= seq![d0] + pre);
        assert((seq![d0] + conts).last() == conts.last());
        let mid = spec_scan(st, seq![d0] + pre);
        assert(spec_scan(st, seq![d0] + conts) == spec_step(mid, conts.last()));
        assert(continuation_line(conts.last()));
        assert(spec_step(mid, conts.last()).fields.description == desc_text(
            line_val(d0),
            pre,
        ) + seq![NL] + conts.last().skip(1));
    }
}

/// A scan of a single line is one step.
proof fn lemma_scan_one(st: ScanState, line: Seq<u8>)
    ensures
        spec_scan(st, seq![line]) == spec_step(st, line),
{
    assert(seq![line].drop_last() =~= Seq::<Seq<u8>>::empty());
    assert(seq![line].last() == line);
    assert(spec_scan(st, Seq::<Seq<u8>>::empty()) == st);
}

/// A two-stanza input parses to exactly two records, each holding only its
/// own stanza's fields. A stanza opens with its `Package:` line; the other
/// lines set pairwise distinct fields and include a well-formed version.
pub proof fn lemma_two_stanza_parse(s1: Seq<Seq<u8>>, s2: Seq<Seq<u8>>)
    requires
        s1.len() > 0,
        s2.len() > 0,
        forall|i: int| 0 <= i < s1.len() ==> simple_field_line(#[trigger] s1[i]),
        forall|i: int| 0 <= i < s2.len() ==> simple_field_line(#[trigger] s2[i]),
        forall|i: int, j: int| 0 <= i < j < s1.len() ==> line_tag(s1[i]) != line_tag(s1[j]),
        forall|i: int, j: int| 0 <= i < j < s2.len() ==> line_tag(s2[i]) != line_tag(s2[j]),
        line_tag(s1[0]) is FName,
        line_val(s1[0]).len() > 0,
        line_tag(s2[0]) is FName,
        line_val(s2[0]).len() > 0,
        exists|i: int|
            0 <= i < s1.len() && line_tag(#[trigger] s1[i]) is FVersion && spec_parse(
                line_val(s1[i]),
            ) is Some,
        exists|i: int|
            0 <= i < s2.len() && line_tag(#[trigger] s2[i]) is FVersion && spec_parse(
                line_val(s2[i]),
            ) is Some,
    ensures
        parse_lines(s1 + s2) is Some,
        parse_lines(s1 + s2)->Some_0.len() == 2,
        forall|i: int|
            0 <= i < s1.len() && !(line_tag(#[trigger] s1[i]) is FVersion) ==> pkg_field(
                parse_lines(s1 + s2)->Some_0[0],
                line_tag(s1[i]),
            ) == line_val(s1[i]),
        forall|i: int|
            0 <= i < s2.len() && !(line_tag(#[trigger] s2[i]) is FVersion) ==> pkg_field(
                parse_lines(s1 + s2)->Some_0[1],
                line_tag(s2[i]),
            ) == line_val(s2[i]),
        forall|i: int|
            0 <= i < s1.len() && line_tag(#[trigger] s1[i]) is FVersion ==> parse_lines(
                s1 + s2,
            )->Some_0[0].version == spec_parse(line_val(s1[i]))->Some_0,
        forall|i: int|
            0 <= i < s2.len() && line_tag(#[trigger] s2[i]) is FVersion ==> parse_lines(
                s1 + s2,
            )->Some_0[1].version == spec_parse(line_val(s2[i]))->Some_0,
        forall|k: Field|
            !(k is FVersion) && (forall|i: int|
                0 <= i < s1.len() ==> line_tag(#[trigger] s1[i]) != k) ==> pkg_field(
                parse_lines(s1 + s2)->Some_0[0],
                k,
            ).len() == 0,
        forall|k: Field|
            !(k is FVersion) && (forall|i: int|
                0 <= i < s2.len() ==> line_tag(#[trigger] s2[i]) != k) ==> pkg_field(
                parse_lines(s1 + s2)->Some_0[1],
                k,
            ).len() == 0,
{
    // scan the first stanza: it fills its fields and emits nothing
    lemma_scan_append(initial_state(), s1, s2);
    lemma_fill_fields(initial_state(), s1);
    let st1 = spec_scan(initial_state(), s1);
    let f1 = st1.fields;
    assert(get_field(f1, line_tag(s1[0])) == line_val(s1[0]));
    assert(f1.name.len() > 0);
    let iv1 = choose|i: int|
        0 <= i < s1.len() && line_tag(#[trigger] s1[i]) is FVersion && spec_parse(
            line_val(s1[i]),
        ) is Some;
    assert(get_field(f1, line_tag(s1[iv1])) == line_val(s1[iv1]));
    assert(f1.version == line_val(s1[iv1]));
    assert(close_record(f1) is Some);
    let p1 = close_record(f1)->Some_0;
    // the second stanza's opening line closes the first record
    let rest2 = s2.drop_first();
    assert(s2 =~= seq![s2[0]] + rest2);
    lemma_scan_append(st1, seq![s2[0]], rest2);
    lemma_scan_one(st1, s2[0]);
    let st2 = spec_step(st1, s2[0]);
    assert(st2 == ScanState {
        fields: set_field(empty_fields(), Field::FName, line_val(s2[0])),
        out: st1.out.push(p1),
        failed: false,
    });
    // the remaining lines fill the second record's fields
    assert(forall|i: int| 0 <= i < rest2.len() ==> #[trigger] rest2[i] == s2[i + 1]);
    assert(forall|i: int|
        0 <= i < rest2.len() ==> !(line_tag(#[trigger] rest2[i]) is FName)) by {
        assert(forall|i: int|
            0 <= i < rest2.len() ==> line_tag(#[trigger] rest2[i]) != line_tag(s2[0]));
    }
    lemma_fill_fields(st2, rest2);
    let stf = spec_scan(st2, rest2);
    let f2 = stf.fields;
    assert(spec_scan(initial_state(), s1 + s2) == stf);
    lemma_set_field_frame(empty_fields(), Field::FName, line_val(s2[0]));
    assert(get_field(f2, Field::FName) == line_val(s2[0])) by {
        assert forall|i: int| 0 <= i < rest2.len() implies line_tag(#[trigger] rest2[i])
            != Field::FName by {
            assert(rest2[i] == s2[i + 1]);
            assert(line_tag(s2[i + 1]) != line_tag(s2[0]));
        }
        assert(get_field(f2, Field::FName) == get_field(st2.fields, Field::FName));
        assert(get_field(st2.fields, Field::FName) == line_val(s2[0]));
    }
    assert(f2.name.len() > 0);
    let iv2 = choose|i: int|
        0 <= i < s2.len() && line_tag(#[trigger] s2[i]) is FVersion && spec_parse(
            line_val(s2[i]),
        ) is Some;
    assert(iv2 != 0);
    assert(rest2[iv2 - 1] == s2[iv2]);
    assert(get_field(f2, line_tag(rest2[iv2 - 1])) == line_val(rest2[iv2 - 1]));
    assert(f2.version == line_val(s2[iv2]));
    assert(close_record(f2) is Some);
    let p2 = close_record(f2)->Some_0;
    assert(stf.out == Seq::<SpecPkg>::empty().push(p1));
    assert(parse_lines(s1 + s2) == Some(Seq::<SpecPkg>::empty().push(p1).push(p2)));
    let out = parse_lines(s1 + s2)->Some_0;
    assert(out.len() == 2);
    assert(out[0] == p1);
    assert(out[1] == p2);
    // the first record holds exactly the first stanza's fields
    assert forall|i: int|
        0 <= i < s1.len() && !(line_tag(#[trigger] s1[i]) is FVersion) implies pkg_field(
        p1,
        line_tag(s1[i]),
    ) == line_val(s1[i]) by {
        assert(get_field(f1, line_tag(s1[i])) == line_val(s1[i]));
    }
    assert forall|i: int|
        0 <= i < s1.len() && line_tag(#[trigger] s1[i]) is FVersion implies p1.version
        == spec_parse(line_val(s1[i]))->Some_0 by {
        assert(i == iv1) by {
            if i != iv1 {
                assert(line_tag(s1[i]) != line_tag(s1[iv1]));
            }
        }
    }
    assert forall|k: Field|
        !(k is FVersion) && (forall|i: int|
            0 <= i < s1.len() ==> line_tag(#[trigger] s1[i]) != k) implies pkg_field(p1, k).len()
        == 0 by {
        assert(get_field(f1, k) == get_field(initial_state().fields, k));
        assert(get_field(initial_state().fields, k).len() == 0);
        assert(pkg_field(p1, k) == get_field(f1, k));
    }
    // the second record holds exactly the second stanza's fields
    assert forall|i: int|
        0 <= i < s2.len() && !(line_tag(#[trigger] s2[i]) is FVersion) implies pkg_field(
        p2,
        line_tag(s2[i]),
    ) == line_val(s2[i]) by {
        if i == 0 {
            assert(pkg_field(p2, Field::FName) == get_field(f2, Field::FName));
        } else {
            assert(rest2[i - 1] == s2[i]);
            assert(get_field(f2, line_tag(rest2[i - 1])) == line_val(rest2[i - 1]));
        }
    }
    assert forall|i: int|
        0 <= i < s2.len() && line_tag(#[trigger] s2[i]) is FVersion implies p2.version
        == spec_parse(line_val(s2[i]))->Some_0 by {
        assert(i == iv2) by {
            if i != iv2 {
                assert(line_tag(s2[i]) != line_tag(s2[iv2]));
            }
        }
    }
    assert forall|k: Field|
        !(k is FVersion) && (forall|i: int|
            0 <= i < s2.len() ==> line_tag(#[trigger] s2[i]) != k) implies pkg_field(p2, k).len()
        == 0 by {
        assert(forall|i: int| 0 <= i < rest2.len() ==> line_tag(#[trigger] rest2[i]) != k);
        assert(get_field(f2, k) == get_field(st2.fields, k));
        assert(k != Field::FName) by {
            assert(line_tag(s2[0]) != k);
        }
        assert(get_field(st2.fields, k) == get_field(empty_fields(), k));
        assert(get_field(empty_fields(), k).len() == 0);
        assert(pkg_field(p2, k) == get_field(f2, k));
    }
}

/// One stanza whose field lines stand in any order around a description
/// block — the `Description:` line together with its continuation lines,
/// moving as one unit — parses to one record: the multi-line description
/// accumulates from the block alone, and every other field holds exactly
/// its own line's value, wherever the block was placed.
pub proof fn lemma_stanza_with_description_block(
    pre: Seq<Seq<u8>>,
    d0: Seq<u8>,
    conts: Seq<Seq<u8>>,
    post: Seq<Seq<u8>>,
)
    requires
        forall|i: int|
            0 <= i < pre.len() ==> simple_field_line(#[trigger] pre[i]) && !(line_tag(pre[i])
                is FDescription),
        forall|i: int|
            0 <= i < post.len() ==> simple_field_line(#[trigger] post[i]) && !(line_tag(post[i])
                is FDescription),
        forall|i: int, j: int|
            0 <= i < pre.len() && 0 <= j < pre.len() && i != j ==> line_tag(pre[i]) != line_tag(
                pre[j],
            ),
        forall|i: int, j: int|
            0 <= i < post.len() && 0 <= j < post.len() && i != j ==> line_tag(post[i]) != line_tag(
                post[j],
            ),
        forall|i: int, j: int|
            0 <= i < pre.len() && 0 <= j < post.len() ==> line_tag(#[trigger] pre[i]) != line_tag(
                #[trigger] post[j],
            ),
        simple_field_line(d0),
        line_tag(d0) is FDescription,
        forall|i: int| 0 <= i < conts.len() ==> continuation_line(#[trigger] conts[i]),
        exists|i: int|
            0 <= i < pre.len() + post.len() && line_tag(
                #[trigger] (pre + post)[i],
            ) is FName && line_val((pre + post)[i]).len() > 0,
        exists|i: int|
            0 <= i < pre.len() + post.len() && line_tag(
                #[trigger] (pre + post)[i],
            ) is FVersion && spec_parse(line_val((pre + post)[i])) is Some,
    ensures
        parse_lines(pre + (seq![d0] + conts) + post) is Some,
        parse_lines(pre + (seq![d0] + conts) + post)->Some_0.len() == 1,
        parse_lines(pre + (seq![d0] + conts) + post)->Some_0[0].description == desc_text(
            line_val(d0),
            conts,
        ),
        forall|i: int|
            0 <= i < pre.len() + post.len() && !(line_tag(#[trigger] (pre + post)[i])
                is FVersion) ==> pkg_field(
                parse_lines(pre + (seq![d0] + conts) + post)->Some_0[0],
                line_tag((pre + post)[i]),
            ) == line_val((pre + post)[i]),
        forall|i: int|
            0 <= i < pre.len() + post.len() && line_tag(#[trigger] (pre + post)[i])
                is FVersion ==> parse_lines(pre + (seq![d0] + conts) + post)->Some_0[0].version
                == spec_parse(line_val((pre + post)[i]))->Some_0,
{
    let block = seq![d0] + conts;
    let lines = pre + block + post;
    let both = pre + post;
    // scan the leading field lines, then the block, then the rest
    lemma_scan_append(initial_state(), pre, block);
    lemma_scan_append(initial_state(), pre + block, post);
    assert(lines =~= (pre + block) + post);
    lemma_fill_fields(initial_state(), pre);
    let st1 = spec_scan(initial_state(), pre);
    lemma_description_block_scan(st1, d0, conts);
    let st2 = spec_scan(st1, block);
    assert(spec_scan(initial_state(), pre + block) == st2);
    assert(st2.out == st1.out && !st2.failed);
    assert(forall|k: Field|
        !(k is FDescription) ==> get_field(st2.fields, k) == get_field(st1.fields, k));
    // the remaining field lines fill their fields over the block's state
    assert forall|i: int|
        0 <= i < post.len() && line_tag(#[trigger] post[i]) is FName implies st2.fields.name.len()
        == 0 by {
        assert(forall|j: int| 0 <= j < pre.len() ==> line_tag(#[trigger] pre[j]) != line_tag(
            post[i],
        ));
        assert(forall|j: int| 0 <= j < pre.len() ==> !(line_tag(#[trigger] pre[j]) is FName));
        assert(get_field(st1.fields, Field::FName) == get_field(initial_state().fields, Field::FName));
        assert(get_field(st2.fields, Field::FName) == get_field(st1.fields, Field::FName));
    }
    lemma_fill_fields(st2, post);
    let stf = spec_scan(st2, post);
    assert(spec_scan(initial_state(), lines) == stf);
    let f = stf.fields;
    assert(stf.out == st1.out && !stf.failed);
    // every field line's value survives to the end
    assert forall|i: int| 0 <= i < both.len() implies get_field(f, line_tag(#[trigger] both[i]))
        == line_val(both[i]) by {
        if i < pre.len() {
            assert(both[i] == pre[i]);
            assert(get_field(st1.fields, line_tag(pre[i])) == line_val(pre[i]));
            assert(get_field(st2.fields, line_tag(pre[i])) == get_field(st1.fields, line_tag(pre[i])));
            assert(forall|j: int| 0 <= j < post.len() ==> line_tag(#[trigger] post[j]) != line_tag(
                pre[i],
            ));
            assert(get_field(f, line_tag(pre[i])) == get_field(st2.fields, line_tag(pre[i])));
        } else {
            assert(both[i] == post[i - pre.len()]);
            assert(get_field(f, line_tag(post[i - pre.len()])) == line_val(post[i - pre.len()]));
        }
    }
    // the description is the block's and nothing else's
    assert(f.description == desc_text(line_val(d0), conts)) by {
        assert(st2.fields.description == desc_text(line_val(d0), conts));
        assert(forall|j: int|
            0 <= j < post.len() ==> !(line_tag(#[trigger] post[j]) is FDescription));
        assert(forall|j: int| 0 <= j < post.len() ==> line_tag(#[trigger] post[j])
            != Field::FDescription);
        assert(get_field(f, Field::FDescription) == get_field(st2.fields, Field::FDescription));
    }
    // the record closes: the name is set and the version parses
    let iname = choose|i: int|
        0 <= i < both.len() && line_tag(#[trigger] both[i]) is FName && line_val(both[i]).len()
            > 0;
    assert(get_field(f, line_tag(both[iname])) == line_val(both[iname]));
    assert(f.name.len() > 0);
    let iver = choose|i: int|
        0 <= i < both.len() && line_tag(#[trigger] both[i]) is FVersion && spec_parse(
            line_val(both[i]),
        ) is Some;
    assert(get_field(f, line_tag(both[iver])) == line_val(both[iver]));
    assert(f.version == line_val(both[iver]));
    assert(close_record(f) is Some);
    let p = close_record(f)->Some_0;
    assert(stf.out =~= Seq::<SpecPkg>::empty());
    assert(parse_lines(lines) == Some(Seq::<SpecPkg>::empty().push(p)));
    assert(parse_lines(lines)->Some_0[0] == p);
    assert(p.description == f.description);
    assert forall|i: int|
        0 <= i < both.len() && !(line_tag(#[trigger] both[i]) is FVersion) implies pkg_field(
        p,
        line_tag(both[i]),
    ) == line_val(both[i]) by {
        assert(get_field(f, line_tag(both[i])) == line_val(both[i]));
    }
    assert forall|i: int|
        0 <= i < both.len() && line_tag(#[trigger] both[i]) is FVersion implies p.version
        == spec_parse(line_val(both[i]))->Some_0 by {
        assert(i == iver) by {
            if i != iver {
                if i < pre.len() && iver < pre.len() {
                    assert(line_tag(pre[i]) != line_tag(pre[iver]));
                } else if i >= pre.len() && iver >= pre.len() {
                    assert(line_tag(post[i - pre.len()]) != line_tag(post[iver - pre.len()]));
                } else if i < pre.len() {
                    assert(line_tag(pre[i]) != line_tag(post[iver - pre.len()]));
                } else {
                    assert(line_tag(pre[iver]) != line_tag(post[i - pre.len()]));
                }
            }
        }
    }
}

} // verus!
