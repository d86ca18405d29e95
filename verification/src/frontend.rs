//! Repository sources, the catalog manifest, and the catalog update and
//! read logic.
//!
//! A sources list holds one repository per line, four whitespace-separated
//! fields; malformed lines are skipped. The catalog update fetches each
//! `deb` source's package index in configured order, with atomic
//! backup/rollback; the catalog reader loads the fetched package lists back
//! into records.

use crate::control::{parse_control, spec_parse_control, view_pkgs, Pkg, SpecPkg};
use crate::text::{
    bytes_eq, copy_range, lit_bytes, spec_dec, split_lines, split_parts, ascii_bytes, dec_bytes,
    find_byte, lemma_find_byte, parts_of, NL, SPACE,
};
use crate::version::version_wf;
use crate::{view_action, Action, PkgError, SpecAction};
use crate::SpecPkgError;
use vstd::prelude::*;

verus! {

/// One configured repository source: type (only `deb` is acted on), URL,
/// distribution and component.
#[derive(Debug)]
pub struct PackageSource {
    pub source_type: Vec<u8>,
    pub url: Vec<u8>,
    pub dist: Vec<u8>,
    pub subtype: Vec<u8>,
}

/// The mathematical value of a repository source.
pub ghost struct SpecSource {
    pub source_type: Seq<u8>,
    pub url: Seq<u8>,
    pub dist: Seq<u8>,
    pub subtype: Seq<u8>,
}

impl View for PackageSource {
    type V = SpecSource;

    open spec fn view(&self) -> SpecSource {
        SpecSource {
            source_type: self.source_type@,
            url: self.url@,
            dist: self.dist@,
            subtype: self.subtype@,
        }
    }
}

/// The values of a sequence of sources.
pub open spec fn view_sources(s: Seq<PackageSource>) -> Seq<SpecSource> {
    s.map_values(|x: PackageSource| x@)
}

/// The four space-separated fields of a line, when it has exactly four.
pub open spec fn spec_split4(line: Seq<u8>) -> Option<(Seq<u8>, Seq<u8>, Seq<u8>, Seq<u8>)> {
    let parts = split_parts(line, SPACE);
    if parts.len() == 4 {
        Some((parts[0], parts[1], parts[2], parts[3]))
    } else {
        None
    }
}

/// Splits a line into exactly four space-separated fields, or nothing.
fn split4(line: &[u8]) -> (r: Option<(Vec<u8>, Vec<u8>, Vec<u8>, Vec<u8>)>)
    ensures
        match r {
            Some(t) => spec_split4(line@) == Some((t.0@, t.1@, t.2@, t.3@)),
            None => spec_split4(line@) is None,
        },
{
    let mut parts = parts_of(line, SPACE);
    if parts.len() != 4 {
        proof {
            assert(split_parts(line@, SPACE).len() != 4);
        }
        return None;
    }
    proof {
        assert(split_parts(line@, SPACE).len() == 4);
        assert(forall|i: int| 0 <= i < 4 ==> parts@[i]@ == #[trigger] split_parts(line@, SPACE)[i]);
    }
    let d = parts.pop().unwrap();
    let c = parts.pop().unwrap();
    let b = parts.pop().unwrap();
    let a = parts.pop().unwrap();
    Some((a, b, c, d))
}

/// The sources a text configures: one per line, in order, lines without
/// exactly four fields skipped.
pub open spec fn spec_parse_sources_lines(lines: Seq<Seq<u8>>) -> Seq<SpecSource>
    decreases lines.len(),
{
    if lines.len() == 0 {
        Seq::empty()
    } else {
        spec_parse_sources_lines(lines.drop_last()) + (match spec_split4(lines.last()) {
            Some(t) => seq![
                SpecSource { source_type: t.0, url: t.1, dist: t.2, subtype: t.3 },
            ],
            None => Seq::empty(),
        })
    }
}

/// The sources a whole text configures.
pub open spec fn spec_parse_sources(text: Seq<u8>) -> Seq<SpecSource> {
    spec_parse_sources_lines(split_lines(text))
}

/// Parses a sources list: one source per line, four space-separated fields
/// `type url distribution component`; a line with any other number of
/// fields is silently skipped.
#[verifier::loop_isolation(false)]
pub fn read_apt_sources_list(text: &[u8]) -> (r: Vec<PackageSource>)
    ensures
        view_sources(r@) == spec_parse_sources(text@),
{
    let lines = crate::text::lines_of(text);
    let ghost all_lines = split_lines(text@);
    let mut out: Vec<PackageSource> = Vec::new();
    let mut i: usize = 0;
    proof {
        assert(all_lines.subrange(0, 0) =~= Seq::<Seq<u8>>::empty());
        assert(view_sources(out@) =~= Seq::<SpecSource>::empty());
    }
    while i < lines.len()
        invariant
            i <= lines@.len(),
            view_sources(out@) == spec_parse_sources_lines(all_lines.subrange(0, i as int)),
        decreases lines@.len() - i,
    {
        proof {
            assert(all_lines.subrange(0, i + 1 as int).drop_last() =~= all_lines.subrange(
                0,
                i as int,
            ));
            assert(all_lines.subrange(0, i + 1 as int).last() == lines@[i as int]@);
        }
        match split4(lines[i].as_slice()) {
            Some((a, b, c, d)) => {
                let ghost pre = view_sources(out@);
                out.push(PackageSource { source_type: a, url: b, dist: c, subtype: d });
                proof {
                    assert(view_sources(out@) =~= pre + seq![
                        SpecSource {
                            source_type: a@,
                            url: b@,
                            dist: c@,
                            subtype: d@,
                        },
                    ]);
                }
            },
            None => {
                proof {
                    assert(view_sources(out@) =~= view_sources(out@) + Seq::<SpecSource>::empty());
                }
            },
        }
        i += 1;
    }
    proof {
        assert(all_lines.subrange(0, all_lines.len() as int) =~= all_lines);
    }
    out
}

/// A line with exactly four fields configures a source; any other field
/// count is skipped.
pub proof fn lemma_source_line_arity(line: Seq<u8>)
    ensures
        spec_split4(line) is Some <==> split_parts(line, SPACE).len() == 4,
{
}

/// A space-free token followed by a space splits off as the first part.
proof fn lemma_split_parts_head(x: Seq<u8>, rest: Seq<u8>)
    requires
        forall|j: int| 0 <= j < x.len() ==> x[j] != SPACE,
    ensures
        split_parts(x + seq![SPACE] + rest, SPACE) == seq![x] + split_parts(rest, SPACE),
{
    let s = x + seq![SPACE] + rest;
    assert(s[x.len() as int] == SPACE);
    assert(forall|j: int| 0 <= j < x.len() ==> s[j] == x[j]);
    lemma_find_byte(s, SPACE);
    let found = find_byte(s, SPACE);
    assert(found == Some(x.len() as int)) by {
        match found {
            Some(k) => {
                if k < x.len() {
                    assert(s[k] == SPACE);
                } else if k > x.len() {
                    assert(s[x.len() as int] == SPACE);
                }
            },
            None => {
                assert(s[x.len() as int] == SPACE);
            },
        }
    }
    assert(s.subrange(0, x.len() as int) =~= x);
    assert(s.subrange(x.len() as int + 1, s.len() as int) =~= rest);
}

/// A space-free token alone is one part.
proof fn lemma_split_parts_single(x: Seq<u8>)
    requires
        forall|j: int| 0 <= j < x.len() ==> x[j] != SPACE,
    ensures
        split_parts(x, SPACE) == seq![x],
{
    lemma_find_byte(x, SPACE);
    match find_byte(x, SPACE) {
        Some(k) => {
            assert(x[k] == SPACE);
        },
        None => {},
    }
}

/// A well-formed four-field line round-trips into a source whose fields
/// match the tokens verbatim.
pub proof fn lemma_source_line_round_trip(a: Seq<u8>, b: Seq<u8>, c: Seq<u8>, d: Seq<u8>)
    requires
        forall|j: int| 0 <= j < a.len() ==> a[j] != SPACE,
        forall|j: int| 0 <= j < b.len() ==> b[j] != SPACE,
        forall|j: int| 0 <= j < c.len() ==> c[j] != SPACE,
        forall|j: int| 0 <= j < d.len() ==> d[j] != SPACE,
    ensures
        spec_split4(a + seq![SPACE] + b + seq![SPACE] + c + seq![SPACE] + d) == Some((a, b, c, d)),
{
    let line = a + seq![SPACE] + b + seq![SPACE] + c + seq![SPACE] + d;
    let rest1 = b + seq![SPACE] + c + seq![SPACE] + d;
    let rest2 = c + seq![SPACE] + d;
    assert(line =~= a + seq![SPACE] + rest1);
    lemma_split_parts_head(a, rest1);
    assert(rest1 =~= b + seq![SPACE] + rest2);
    lemma_split_parts_head(b, rest2);
    lemma_split_parts_head(c, d);
    lemma_split_parts_single(d);
    assert(split_parts(line, SPACE) =~= seq![a, b, c, d]);
}

/// One entry of the catalog's index manifest: the name of the fetched
/// package-list file, and the source it came from.
#[derive(Debug)]
pub struct IndexEntry {
    pub file: Vec<u8>,
    pub url: Vec<u8>,
    pub dist: Vec<u8>,
    pub subtype: Vec<u8>,
}

/// The mathematical value of a manifest entry.
pub ghost struct SpecIndexEntry {
    pub file: Seq<u8>,
    pub url: Seq<u8>,
    pub dist: Seq<u8>,
    pub subtype: Seq<u8>,
}

impl View for IndexEntry {
    type V = SpecIndexEntry;

    open spec fn view(&self) -> SpecIndexEntry {
        SpecIndexEntry {
            file: self.file@,
            url: self.url@,
            dist: self.dist@,
            subtype: self.subtype@,
        }
    }
}

/// The values of a sequence of manifest entries.
pub open spec fn view_entries(s: Seq<IndexEntry>) -> Seq<SpecIndexEntry> {
    s.map_values(|x: IndexEntry| x@)
}

/// The entries a manifest text lists: one per line, in order, lines without
/// exactly four fields skipped.
pub open spec fn spec_parse_index_lines(lines: Seq<Seq<u8>>) -> Seq<SpecIndexEntry>
    decreases lines.len(),
{
    if lines.len() == 0 {
        Seq::empty()
    } else {
        spec_parse_index_lines(lines.drop_last()) + (match spec_split4(lines.last()) {
            Some(t) => seq![SpecIndexEntry { file: t.0, url: t.1, dist: t.2, subtype: t.3 }],
            None => Seq::empty(),
        })
    }
}

/// The entries a whole manifest text lists.
pub open spec fn spec_parse_index(text: Seq<u8>) -> Seq<SpecIndexEntry> {
    spec_parse_index_lines(split_lines(text))
}

/// Parses the catalog's index manifest: one entry per line,
/// `sequenceId url distribution component`.
#[verifier::loop_isolation(false)]
pub fn parse_index_manifest(text: &[u8]) -> (r: Vec<IndexEntry>)
    ensures
        view_entries(r@) == spec_parse_index(text@),
{
    let lines = crate::text::lines_of(text);
    let ghost all_lines = split_lines(text@);
    let mut out: Vec<IndexEntry> = Vec::new();
    let mut i: usize = 0;
    proof {
        assert(all_lines.subrange(0, 0) =~= Seq::<Seq<u8>>::empty());
        assert(view_entries(out@) =~= Seq::<SpecIndexEntry>::empty());
    }
    while i < lines.len()
        invariant
            i <= lines@.len(),
            view_entries(out@) == spec_parse_index_lines(all_lines.subrange(0, i as int)),
        decreases lines@.len() - i,
    {
        proof {
            assert(all_lines.subrange(0, i + 1 as int).drop_last() =~= all_lines.subrange(
                0,
                i as int,
            ));
            assert(all_lines.subrange(0, i + 1 as int).last() == lines@[i as int]@);
        }
        match split4(lines[i].as_slice()) {
            Some((a, b, c, d)) => {
                let ghost pre = view_entries(out@);
                out.push(IndexEntry { file: a, url: b, dist: c, subtype: d });
                proof {
                    assert(view_entries(out@) =~= pre + seq![
                        SpecIndexEntry { file: a@, url: b@, dist: c@, subtype: d@ },
                    ]);
                }
            },
            None => {
                proof {
                    assert(view_entries(out@) =~= view_entries(out@)
                        + Seq::<SpecIndexEntry>::empty());
                }
            },
        }
        i += 1;
    }
    proof {
        assert(all_lines.subrange(0, all_lines.len() as int) =~= all_lines);
    }
    out
}

/// The records of a sequence of package-list texts, concatenated in order;
/// one malformed text fails the whole read.
pub open spec fn spec_read_lists(lists: Seq<Seq<u8>>) -> Option<Seq<SpecPkg>>
    decreases lists.len(),
{
    if lists.len() == 0 {
        Some(Seq::empty())
    } else {
        match spec_read_lists(lists.drop_last()) {
            None => None,
            Some(acc) => match spec_parse_control(lists.last()) {
                Some(ps) => Some(acc + ps),
                None => None,
            },
        }
    }
}

/// Parses every fetched package-list text and concatenates the records,
/// preserving per-file and per-stanza order. One malformed list fails the
/// whole read: a partially loaded catalog is not silently tolerated.
#[verifier::loop_isolation(false)]
pub fn read_package_lists(lists: &Vec<Vec<u8>>) -> (r: Result<Vec<Pkg>, PkgError>)
    ensures
        match r {
            Ok(ps) => spec_read_lists(lists.deep_view()) == Some(view_pkgs(ps@)) && forall|i: int|
                0 <= i < ps@.len() ==> version_wf(#[trigger] view_pkgs(ps@)[i].version),
            Err(e) => spec_read_lists(lists.deep_view()) is None && e@
                == SpecPkgError::InvalidVersion,
        },
{
    let ghost all = lists.deep_view();
    let mut out: Vec<Pkg> = Vec::new();
    let mut i: usize = 0;
    proof {
        assert(all.subrange(0, 0) =~= Seq::<Seq<u8>>::empty());
        assert(view_pkgs(out@) =~= Seq::<SpecPkg>::empty());
    }
    while i < lists.len()
        invariant
            i <= lists@.len(),
            all == lists.deep_view(),
            spec_read_lists(all.subrange(0, i as int)) == Some(view_pkgs(out@)),
            forall|j: int|
                0 <= j < out@.len() ==> version_wf(#[trigger] view_pkgs(out@)[j].version),
        decreases lists@.len() - i,
    {
        proof {
            assert(all.subrange(0, i + 1 as int).drop_last() =~= all.subrange(0, i as int));
            assert(all.subrange(0, i + 1 as int).last() == lists@[i as int]@);
        }
        match parse_control(lists[i].as_slice()) {
            Ok(mut ps) => {
                let ghost pre = view_pkgs(out@);
                let ghost added = view_pkgs(ps@);
                let mut k: usize = 0;
                let total = ps.len();
                proof {
                    assert(added.subrange(0, added.len() as int) =~= added);
                    assert(view_pkgs(out@) =~= pre + added.subrange(0, 0));
                }
                while ps.len() > 0
                    invariant
                        added.len() == total,
                        k + ps@.len() == added.len(),
                        view_pkgs(ps@) == added.subrange(k as int, added.len() as int),
                        view_pkgs(out@) == pre + added.subrange(0, k as int),
                        forall|j: int|
                            0 <= j < out@.len() ==> version_wf(
                                #[trigger] view_pkgs(out@)[j].version,
                            ),
                        forall|j: int|
                            0 <= j < added.len() ==> version_wf(#[trigger] added[j].version),
                    decreases ps@.len(),
                {
                    let ghost pre2 = view_pkgs(out@);
                    let ghost rem = view_pkgs(ps@);
                    let p = ps.remove(0);
                    proof {
                        assert(rem[0] == added[k as int]);
                        assert(p@ == rem[0]);
                        assert(view_pkgs(ps@) =~= rem.subrange(1, rem.len() as int));
                        assert(view_pkgs(ps@) =~= added.subrange(k + 1 as int, added.len() as int));
                    }
                    out.push(p);
                    proof {
                        assert(view_pkgs(out@) =~= pre2.push(p@));
                        assert(view_pkgs(out@) =~= pre + added.subrange(0, k + 1 as int));
                    }
                    k += 1;
                }
                proof {
                    assert(added.subrange(0, added.len() as int) =~= added);
                    assert(view_pkgs(out@) =~= pre + added);
                }
            },
            Err(e) => {
                proof {
                    lemma_read_lists_failed(all, i as int);
                }
                return Err(e);
            },
        }
        i += 1;
    }
    proof {
        assert(all.subrange(0, all.len() as int) =~= all);
    }
    Ok(out)
}

/// One malformed list fails the whole read, wherever it stands.
proof fn lemma_read_lists_failed(lists: Seq<Seq<u8>>, i: int)
    requires
        0 <= i < lists.len(),
        spec_parse_control(lists[i]) is None,
    ensures
        spec_read_lists(lists) is None,
    decreases lists.len(),
{
    if lists.len() > 0 {
        if i == lists.len() - 1 {
            assert(lists.last() == lists[i]);
        } else {
            lemma_read_lists_failed(lists.drop_last(), i);
        }
    }
}

/// The catalog directory under a target root.
pub open spec fn cache_dir(root: Seq<u8>) -> Seq<u8> {
    root + lit_bytes("/System/Cache/Packages"@)
}

/// The backup of the catalog directory.
pub open spec fn bak_dir(root: Seq<u8>) -> Seq<u8> {
    root + lit_bytes("/System/Cache/Packages.bak"@)
}

/// The compressed index fetched for sequence id `i`.
pub open spec fn gz_path(root: Seq<u8>, i: int) -> Seq<u8> {
    cache_dir(root) + lit_bytes("/"@) + spec_dec(i as nat) + lit_bytes(".gz"@)
}

/// The index manifest file of the catalog.
pub open spec fn index_path(root: Seq<u8>) -> Seq<u8> {
    cache_dir(root) + lit_bytes("/index"@)
}

/// The URL of a source's package index for an architecture.
pub open spec fn index_url(src: SpecSource, arch: Seq<u8>) -> Seq<u8> {
    src.url + lit_bytes("/dists/"@) + src.dist + lit_bytes("/"@) + src.subtype + lit_bytes(
        "/binary-"@,
    ) + arch + lit_bytes("/Packages.gz"@)
}

/// One line of the index manifest: `sequenceId url distribution component`.
pub open spec fn manifest_line(i: int, src: SpecSource) -> Seq<u8> {
    spec_dec(i as nat) + seq![SPACE] + src.url + seq![SPACE] + src.dist + seq![SPACE] + src.subtype
        + seq![NL]
}

/// The manifest of the first `k` processed sources, in processing order.
pub open spec fn spec_manifest(debs: Seq<SpecSource>, k: int) -> Seq<u8>
    decreases k,
{
    if k <= 0 {
        Seq::empty()
    } else {
        spec_manifest(debs, k - 1) + manifest_line(k - 1, debs[k - 1])
    }
}

/// The sources acted on: those of type `deb`, in configured order.
pub open spec fn spec_deb_sources(ss: Seq<SpecSource>) -> Seq<SpecSource> {
    ss.filter(|s: SpecSource| s.source_type == lit_bytes("deb"@))
}

/// Where the catalog update stands.
#[derive(Clone, Copy, Debug, PartialEq, Eq, Structural)]
pub enum UpdatePhase {
    /// Delete the old backup.
    ClearBackup,
    /// Copy the catalog aside, best effort: a missing catalog is no error.
    SaveBackup,
    /// Delete the catalog directory.
    ClearCache,
    /// Recreate the catalog directory.
    MakeCache,
    /// Download the current source's package index.
    Fetch,
    /// Decompress the fetched index in place.
    Decompress,
    /// Write the index manifest, only after every source succeeded.
    WriteIndex,
    /// A download failed: delete the half-built catalog.
    RollbackClear,
    /// Restore the backup.
    RollbackRestore,
    /// The catalog is refreshed.
    Done,
    /// The update failed; the error says why.
    Failed,
}

/// The mathematical state of a catalog update.
pub ghost struct SpecUpdate {
    pub root: Seq<u8>,
    pub arch: Seq<u8>,
    pub debs: Seq<SpecSource>,
    pub phase: UpdatePhase,
    pub pos: int,
    pub index_text: Seq<u8>,
    pub error: Option<SpecPkgError>,
}

/// Internal consistency of an update state: the position stays within the
/// sources, and the accumulated manifest covers exactly the processed ones.
pub open spec fn update_wf(m: SpecUpdate) -> bool {
    &&& 0 <= m.pos <= m.debs.len()
    &&& (m.phase is Fetch || m.phase is Decompress) ==> m.pos < m.debs.len()
    &&& (m.phase is ClearBackup || m.phase is SaveBackup || m.phase is ClearCache || m.phase
        is MakeCache) ==> m.pos == 0 && m.index_text == Seq::<u8>::empty()
    &&& (m.phase is Fetch || m.phase is Decompress || m.phase is WriteIndex) ==> m.index_text
        == spec_manifest(m.debs, m.pos)
    &&& (m.phase is WriteIndex ==> m.pos == m.debs.len())
    &&& (m.phase is Failed ==> m.error is Some)
    &&& ((m.phase is RollbackClear || m.phase is RollbackRestore) ==> m.error is Some)
}

/// The action an update state asks for.
pub open spec fn spec_update_action(m: SpecUpdate) -> Option<SpecAction> {
    match m.phase {
        UpdatePhase::ClearBackup => Some(SpecAction::Run(crate::system::rm_cmd(bak_dir(m.root)))),
        UpdatePhase::SaveBackup => Some(
            SpecAction::Run(crate::system::copy_recursive_cmd(cache_dir(m.root), bak_dir(m.root))),
        ),
        UpdatePhase::ClearCache => Some(SpecAction::Run(crate::system::rm_cmd(cache_dir(m.root)))),
        UpdatePhase::MakeCache => Some(
            SpecAction::Run(crate::system::mkdir_cmd(cache_dir(m.root))),
        ),
        UpdatePhase::Fetch => Some(
            SpecAction::Run(
                crate::system::wget_cmd(index_url(m.debs[m.pos], m.arch), gz_path(m.root, m.pos)),
            ),
        ),
        UpdatePhase::Decompress => Some(
            SpecAction::Run(crate::system::gzip_extract_cmd(gz_path(m.root, m.pos))),
        ),
        UpdatePhase::WriteIndex => Some(
            SpecAction::WriteFile(index_path(m.root), m.index_text),
        ),
        UpdatePhase::RollbackClear => Some(
            SpecAction::Run(crate::system::rm_cmd(cache_dir(m.root))),
        ),
        UpdatePhase::RollbackRestore => Some(
            SpecAction::Run(crate::system::copy_recursive_cmd(bak_dir(m.root), cache_dir(m.root))),
        ),
        UpdatePhase::Done => None,
        UpdatePhase::Failed => None,
    }
}

/// The transition an update state makes on the outcome of its action.
/// A download failure starts the rollback and keeps the transport error; a
/// decompression failure fails in place; the manifest grows only when a
/// source's index is fully in place.
pub open spec fn spec_update_step(m: SpecUpdate, ok: bool) -> SpecUpdate {
    match m.phase {
        UpdatePhase::ClearBackup => if ok {
            SpecUpdate { phase: UpdatePhase::SaveBackup, ..m }
        } else {
            SpecUpdate {
                phase: UpdatePhase::Failed,
                error: Some(SpecPkgError::IOError(bak_dir(m.root))),
                ..m
            }
        },
        UpdatePhase::SaveBackup => SpecUpdate { phase: UpdatePhase::ClearCache, ..m },
        UpdatePhase::ClearCache => if ok {
            SpecUpdate { phase: UpdatePhase::MakeCache, ..m }
        } else {
            SpecUpdate {
                phase: UpdatePhase::Failed,
                error: Some(SpecPkgError::IOError(cache_dir(m.root))),
                ..m
            }
        },
        UpdatePhase::MakeCache => if ok {
            if m.debs.len() == 0 {
                SpecUpdate { phase: UpdatePhase::WriteIndex, ..m }
            } else {
                SpecUpdate { phase: UpdatePhase::Fetch, ..m }
            }
        } else {
            SpecUpdate {
                phase: UpdatePhase::Failed,
                error: Some(SpecPkgError::IOError(cache_dir(m.root))),
                ..m
            }
        },
        UpdatePhase::Fetch => if ok {
            SpecUpdate { phase: UpdatePhase::Decompress, ..m }
        } else {
            SpecUpdate {
                phase: UpdatePhase::RollbackClear,
                error: Some(SpecPkgError::TransportError(index_url(m.debs[m.pos], m.arch))),
                ..m
            }
        },
        UpdatePhase::Decompress => if ok {
            SpecUpdate {
                phase: if m.pos + 1 == m.debs.len() {
                    UpdatePhase::WriteIndex
                } else {
                    UpdatePhase::Fetch
                },
                pos: m.pos + 1,
                index_text: m.index_text + manifest_line(m.pos, m.debs[m.pos]),
                ..m
            }
        } else {
            SpecUpdate {
                phase: UpdatePhase::Failed,
                error: Some(SpecPkgError::TransportError(gz_path(m.root, m.pos))),
                ..m
            }
        },
        UpdatePhase::WriteIndex => if ok {
            SpecUpdate { phase: UpdatePhase::Done, ..m }
        } else {
            SpecUpdate {
                phase: UpdatePhase::Failed,
                error: Some(SpecPkgError::IOError(index_path(m.root))),
                ..m
            }
        },
        UpdatePhase::RollbackClear => if ok {
            SpecUpdate { phase: UpdatePhase::RollbackRestore, ..m }
        } else {
            SpecUpdate {
                phase: UpdatePhase::Failed,
                error: Some(SpecPkgError::IOError(cache_dir(m.root))),
                ..m
            }
        },
        UpdatePhase::RollbackRestore => if ok {
            SpecUpdate { phase: UpdatePhase::Failed, ..m }
        } else {
            SpecUpdate {
                phase: UpdatePhase::Failed,
                error: Some(SpecPkgError::IOError(cache_dir(m.root))),
                ..m
            }
        },
        UpdatePhase::Done => m,
        UpdatePhase::Failed => m,
    }
}

/// Consistency is preserved by every transition.
pub proof fn lemma_update_step_wf(m: SpecUpdate, ok: bool)
    requires
        update_wf(m),
    ensures
        update_wf(spec_update_step(m, ok)),
{
}

/// Whether an update is undoing a failed download or has failed.
pub open spec fn rolling_back(m: SpecUpdate) -> bool {
    m.phase is RollbackClear || m.phase is RollbackRestore || m.phase is Failed
}

/// After a failed download the update only rolls back: it never asks for
/// the index manifest to be written again, so the catalog directory ends as
/// the restored backup and the index file is not created or updated.
pub proof fn lemma_rollback_never_writes(m: SpecUpdate, ok: bool)
    ensures
        m.phase is Fetch && !ok ==> rolling_back(spec_update_step(m, false)),
        rolling_back(m) ==> rolling_back(spec_update_step(m, ok)),
        rolling_back(m) ==> !(spec_update_action(m) matches Some(SpecAction::WriteFile(_p, _c))),
{
}

/// The catalog update, step by step: each `next_action` names the command
/// to run or the file to write, and `step` takes the outcome and moves on.
#[derive(Debug)]
pub struct UpdateMachine {
    root: Vec<u8>,
    arch: Vec<u8>,
    debs: Vec<PackageSource>,
    phase: UpdatePhase,
    pos: usize,
    index_text: Vec<u8>,
    error: Option<PkgError>,
}

impl View for UpdateMachine {
    type V = SpecUpdate;

    closed spec fn view(&self) -> SpecUpdate {
        SpecUpdate {
            root: self.root@,
            arch: self.arch@,
            debs: view_sources(self.debs@),
            phase: self.phase,
            pos: self.pos as int,
            index_text: self.index_text@,
            error: match self.error {
                Some(e) => Some(e@),
                None => None,
            },
        }
    }
}

impl UpdateMachine {
    /// Starts a catalog update for the `deb` sources among `sources`, in
    /// their configured order, for one architecture.
    #[verifier::loop_isolation(false)]
    pub fn new(root: Vec<u8>, sources: Vec<PackageSource>, arch: Vec<u8>) -> (m: UpdateMachine)
        ensures
            m@.root == root@,
            m@.arch == arch@,
            m@.debs == spec_deb_sources(view_sources(sources@)),
            m@.phase == UpdatePhase::ClearBackup,
            m@.pos == 0,
            m@.index_text == Seq::<u8>::empty(),
            m@.error is None,
            update_wf(m@),
    {
        proof {
            reveal_strlit("deb");
            assert(("deb").is_ascii()) by {
                assert(forall|i: int| 0 <= i < ("deb")@.len() ==> (("deb")@[i] as u32) < 128);
            }
        }
        let mut debs: Vec<PackageSource> = Vec::new();
        let mut i: usize = 0;
        let ghost all = view_sources(sources@);
        proof {
            assert(all.subrange(0, 0) =~= Seq::<SpecSource>::empty());
            assert(Seq::<SpecSource>::empty().filter(
                |s: SpecSource| s.source_type == lit_bytes("deb"@),
            ) =~= Seq::<SpecSource>::empty());
            assert(view_sources(debs@) =~= Seq::<SpecSource>::empty());
        }
        while i < sources.len()
            invariant
                i <= sources@.len(),
                all == view_sources(sources@),
                view_sources(debs@) == all.subrange(0, i as int).filter(
                    |s: SpecSource| s.source_type == lit_bytes("deb"@),
                ),
            decreases sources@.len() - i,
        {
            let ghost prefix = all.subrange(0, i as int);
            let ghost pred = |s: SpecSource| s.source_type == lit_bytes("deb"@);
            proof {
                assert(all.subrange(0, i + 1 as int).drop_last() =~= prefix);
                assert(all.subrange(0, i + 1 as int).last() == sources@[i as int]@);
                reveal_with_fuel(Seq::filter, 2);
            }
            let src = &sources[i];
            if bytes_eq(src.source_type.as_slice(), ascii_bytes("deb")) {
                let ghost pre = view_sources(debs@);
                debs.push(
                    PackageSource {
                        source_type: copy_range(src.source_type.as_slice(), 0, src.source_type.len()),
                        url: copy_range(src.url.as_slice(), 0, src.url.len()),
                        dist: copy_range(src.dist.as_slice(), 0, src.dist.len()),
                        subtype: copy_range(src.subtype.as_slice(), 0, src.subtype.len()),
                    },
                );
                proof {
                    assert(debs@[debs@.len() - 1]@ == sources@[i as int]@) by {
                        assert(src.source_type@.subrange(0, src.source_type@.len() as int) =~= src.source_type@);
                        assert(src.url@.subrange(0, src.url@.len() as int) =~= src.url@);
                        assert(src.dist@.subrange(0, src.dist@.len() as int) =~= src.dist@);
                        assert(src.subtype@.subrange(0, src.subtype@.len() as int) =~= src.subtype@);
                    }
                    assert(view_sources(debs@) =~= pre.push(sources@[i as int]@));
                    assert(all.subrange(0, i + 1 as int).filter(pred) =~= prefix.filter(pred).push(
                        sources@[i as int]@,
                    ));
                }
            } else {
                proof {
                    assert(all.subrange(0, i + 1 as int).filter(pred) =~= prefix.filter(pred));
                }
            }
            i += 1;
        }
        proof {
            assert(all.subrange(0, all.len() as int) =~= all);
        }
        let m = UpdateMachine {
            root,
            arch,
            debs,
            phase: UpdatePhase::ClearBackup,
            pos: 0,
            index_text: Vec::new(),
            error: None,
        };
        proof {
            assert(m@.index_text =~= Seq::<u8>::empty());
        }
        m
    }

    /// Whether the update has finished, well or badly.
    pub fn is_finished(&self) -> (r: bool)
        ensures
            r == (self@.phase is Done || self@.phase is Failed),
    {
        matches!(self.phase, UpdatePhase::Done | UpdatePhase::Failed)
    }

    /// The phase the update is in.
    pub fn phase(&self) -> (p: UpdatePhase)
        ensures
            p == self@.phase,
    {
        self.phase
    }

    /// The update's outcome, once it has finished.
    pub fn into_result(self) -> (r: Result<(), PkgError>)
        requires
            self@.phase is Done || self@.phase is Failed,
            update_wf(self@),
        ensures
            match r {
                Ok(()) => self@.phase is Done,
                Err(e) => self@.phase is Failed && Some(e@) == self@.error,
            },
    {
        match self.phase {
            UpdatePhase::Done => Ok(()),
            _ => {
                match self.error {
                    Some(e) => Err(e),
                    None => {
                        proof {
                            assert(false);
                        }
                        Err(PkgError::ParseError)
                    },
                }
            },
        }
    }
}

/// Builds the catalog directory path.
fn cache_dir_of(root: &[u8]) -> (r: Vec<u8>)
    ensures
        r@ == cache_dir(root@),
{
    proof {
        reveal_strlit("/System/Cache/Packages");
        assert(("/System/Cache/Packages").is_ascii()) by {
            assert(forall|i: int|
                0 <= i < ("/System/Cache/Packages")@.len() ==> (("/System/Cache/Packages")@[i]
                    as u32) < 128);
        }
    }
    crate::text::concat_bytes(root, ascii_bytes("/System/Cache/Packages"))
}

/// Builds the backup directory path.
fn bak_dir_of(root: &[u8]) -> (r: Vec<u8>)
    ensures
        r@ == bak_dir(root@),
{
    proof {
        reveal_strlit("/System/Cache/Packages.bak");
        assert(("/System/Cache/Packages.bak").is_ascii()) by {
            assert(forall|i: int|
                0 <= i < ("/System/Cache/Packages.bak")@.len() ==> ((
                "/System/Cache/Packages.bak")@[i] as u32) < 128);
        }
    }
    crate::text::concat_bytes(root, ascii_bytes("/System/Cache/Packages.bak"))
}

/// Builds the path of the compressed index for a sequence id.
fn gz_path_of(root: &[u8], pos: usize) -> (r: Vec<u8>)
    ensures
        r@ == gz_path(root@, pos as int),
{
    proof {
        reveal_strlit("/");
        assert(("/").is_ascii()) by {
            assert(forall|i: int| 0 <= i < ("/")@.len() ==> (("/")@[i] as u32) < 128);
        }
        reveal_strlit(".gz");
        assert((".gz").is_ascii()) by {
            assert(forall|i: int| 0 <= i < (".gz")@.len() ==> ((".gz")@[i] as u32) < 128);
        }
    }
    let mut r = cache_dir_of(root);
    crate::text::append_bytes(&mut r, ascii_bytes("/"));
    let n = dec_bytes(pos);
    crate::text::append_bytes(&mut r, n.as_slice());
    crate::text::append_bytes(&mut r, ascii_bytes(".gz"));
    proof {
        assert(r@ =~= gz_path(root@, pos as int));
    }
    r
}

/// Builds the index manifest path.
fn index_path_of(root: &[u8]) -> (r: Vec<u8>)
    ensures
        r@ == index_path(root@),
{
    proof {
        reveal_strlit("/index");
        assert(("/index").is_ascii()) by {
            assert(forall|i: int| 0 <= i < ("/index")@.len() ==> (("/index")@[i] as u32) < 128);
        }
    }
    let mut r = cache_dir_of(root);
    crate::text::append_bytes(&mut r, ascii_bytes("/index"));
    proof {
        assert(r@ =~= index_path(root@));
    }
    r
}

/// Builds the URL of a source's package index.
fn index_url_of(src: &PackageSource, arch: &[u8]) -> (r: Vec<u8>)
    ensures
        r@ == index_url(src@, arch@),
{
    proof {
        reveal_strlit("/dists/");
        assert(("/dists/").is_ascii()) by {
            assert(forall|i: int| 0 <= i < ("/dists/")@.len() ==> (("/dists/")@[i] as u32) < 128);
        }
        reveal_strlit("/");
        assert(("/").is_ascii()) by {
            assert(forall|i: int| 0 <= i < ("/")@.len() ==> (("/")@[i] as u32) < 128);
        }
        reveal_strlit("/binary-");
        assert(("/binary-").is_ascii()) by {
            assert(forall|i: int|
                0 <= i < ("/binary-")@.len() ==> (("/binary-")@[i] as u32) < 128);
        }
        reveal_strlit("/Packages.gz");
        assert(("/Packages.gz").is_ascii()) by {
            assert(forall|i: int|
                0 <= i < ("/Packages.gz")@.len() ==> (("/Packages.gz")@[i] as u32) < 128);
        }
    }
    let mut r = crate::text::concat_bytes(src.url.as_slice(), ascii_bytes("/dists/"));
    crate::text::append_bytes(&mut r, src.dist.as_slice());
    crate::text::append_bytes(&mut r, ascii_bytes("/"));
    crate::text::append_bytes(&mut r, src.subtype.as_slice());
    crate::text::append_bytes(&mut r, ascii_bytes("/binary-"));
    crate::text::append_bytes(&mut r, arch);
    crate::text::append_bytes(&mut r, ascii_bytes("/Packages.gz"));
    proof {
        assert(r@ =~= index_url(src@, arch@));
    }
    r
}

/// Builds one line of the index manifest.
fn manifest_line_of(pos: usize, src: &PackageSource) -> (r: Vec<u8>)
    ensures
        r@ == manifest_line(pos as int, src@),
{
    let mut r = dec_bytes(pos);
    r.push(SPACE);
    crate::text::append_bytes(&mut r, src.url.as_slice());
    r.push(SPACE);
    crate::text::append_bytes(&mut r, src.dist.as_slice());
    r.push(SPACE);
    crate::text::append_bytes(&mut r, src.subtype.as_slice());
    r.push(NL);
    proof {
        assert(r@ =~= manifest_line(pos as int, src@));
    }
    r
}

impl UpdateMachine {
    /// The next thing the driver must do, or nothing once finished.
    pub fn next_action(&self) -> (r: Option<Action>)
        requires
            update_wf(self@),
        ensures
            view_action(r) == spec_update_action(self@),
    {
        match self.phase {
            UpdatePhase::ClearBackup => Some(
                Action::Run(crate::system::rm(bak_dir_of(self.root.as_slice()).as_slice())),
            ),
            UpdatePhase::SaveBackup => Some(
                Action::Run(
                    crate::system::copy_recursive(
                        cache_dir_of(self.root.as_slice()).as_slice(),
                        bak_dir_of(self.root.as_slice()).as_slice(),
                    ),
                ),
            ),
            UpdatePhase::ClearCache => Some(
                Action::Run(crate::system::rm(cache_dir_of(self.root.as_slice()).as_slice())),
            ),
            UpdatePhase::MakeCache => Some(
                Action::Run(crate::system::mkdir(cache_dir_of(self.root.as_slice()).as_slice())),
            ),
            UpdatePhase::Fetch => {
                let url = index_url_of(&self.debs[self.pos], self.arch.as_slice());
                let gz = gz_path_of(self.root.as_slice(), self.pos);
                proof {
                    assert(view_sources(self.debs@)[self.pos as int] == self.debs@[self.pos as int]@);
                }
                Some(Action::Run(crate::system::wget(url.as_slice(), gz.as_slice())))
            },
            UpdatePhase::Decompress => Some(
                Action::Run(
                    crate::system::gzip_extract(
                        gz_path_of(self.root.as_slice(), self.pos).as_slice(),
                    ),
                ),
            ),
            UpdatePhase::WriteIndex => {
                let path = index_path_of(self.root.as_slice());
                let text = copy_range(self.index_text.as_slice(), 0, self.index_text.len());
                proof {
                    assert(text@ =~= self@.index_text);
                }
                Some(Action::WriteFile(path, text))
            },
            UpdatePhase::RollbackClear => Some(
                Action::Run(crate::system::rm(cache_dir_of(self.root.as_slice()).as_slice())),
            ),
            UpdatePhase::RollbackRestore => Some(
                Action::Run(
                    crate::system::copy_recursive(
                        bak_dir_of(self.root.as_slice()).as_slice(),
                        cache_dir_of(self.root.as_slice()).as_slice(),
                    ),
                ),
            ),
            UpdatePhase::Done => None,
            UpdatePhase::Failed => None,
        }
    }

    /// Takes the outcome of the last action and moves to the next phase.
    pub fn step(&mut self, ok: bool)
        requires
            update_wf(old(self)@),
            !(old(self)@.phase is Done),
            !(old(self)@.phase is Failed),
        ensures
            final(self)@ == spec_update_step(old(self)@, ok),
            update_wf(final(self)@),
    {
        proof {
            lemma_update_step_wf(self@, ok);
        }
        match self.phase {
            UpdatePhase::ClearBackup => {
                if ok {
                    self.phase = UpdatePhase::SaveBackup;
                } else {
                    self.error = Some(PkgError::IOError(bak_dir_of(self.root.as_slice())));
                    self.phase = UpdatePhase::Failed;
                }
            },
            UpdatePhase::SaveBackup => {
                self.phase = UpdatePhase::ClearCache;
            },
            UpdatePhase::ClearCache => {
                if ok {
                    self.phase = UpdatePhase::MakeCache;
                } else {
                    self.error = Some(PkgError::IOError(cache_dir_of(self.root.as_slice())));
                    self.phase = UpdatePhase::Failed;
                }
            },
            UpdatePhase::MakeCache => {
                if ok {
                    if self.debs.len() == 0 {
                        self.phase = UpdatePhase::WriteIndex;
                    } else {
                        self.phase = UpdatePhase::Fetch;
                    }
                } else {
                    self.error = Some(PkgError::IOError(cache_dir_of(self.root.as_slice())));
                    self.phase = UpdatePhase::Failed;
                }
            },
            UpdatePhase::Fetch => {
                if ok {
                    self.phase = UpdatePhase::Decompress;
                } else {
                    let url = index_url_of(&self.debs[self.pos], self.arch.as_slice());
                    proof {
                        assert(view_sources(self.debs@)[self.pos as int] == self.debs@[self.pos as int]@);
                    }
                    self.error = Some(PkgError::TransportError(url));
                    self.phase = UpdatePhase::RollbackClear;
                }
            },
            UpdatePhase::Decompress => {
                if ok {
                    let line = manifest_line_of(self.pos, &self.debs[self.pos]);
                    proof {
                        assert(view_sources(self.debs@)[self.pos as int] == self.debs@[self.pos as int]@);
                    }
                    crate::text::append_bytes(&mut self.index_text, line.as_slice());
                    let n = self.debs.len();
                    self.pos = self.pos + 1;
                    if self.pos == n {
                        self.phase = UpdatePhase::WriteIndex;
                    } else {
                        self.phase = UpdatePhase::Fetch;
                    }
                } else {
                    self.error = Some(
                        PkgError::TransportError(gz_path_of(self.root.as_slice(), self.pos)),
                    );
                    self.phase = UpdatePhase::Failed;
                }
            },
            UpdatePhase::WriteIndex => {
                if ok {
                    self.phase = UpdatePhase::Done;
                } else {
                    self.error = Some(PkgError::IOError(index_path_of(self.root.as_slice())));
                    self.phase = UpdatePhase::Failed;
                }
            },
            UpdatePhase::RollbackClear => {
                if ok {
                    self.phase = UpdatePhase::RollbackRestore;
                } else {
                    self.error = Some(PkgError::IOError(cache_dir_of(self.root.as_slice())));
                    self.phase = UpdatePhase::Failed;
                }
            },
            UpdatePhase::RollbackRestore => {
                if ok {
                    self.phase = UpdatePhase::Failed;
                } else {
                    self.error = Some(PkgError::IOError(cache_dir_of(self.root.as_slice())));
                    self.phase = UpdatePhase::Failed;
                }
            },
            UpdatePhase::Done => {
                proof {
                    assert(false);
                }
            },
            UpdatePhase::Failed => {
                proof {
                    assert(false);
                }
            },
        }
    }
}

} // verus!
