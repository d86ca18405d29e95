//! Structured dependency expressions.
//!
//! A relationship field such as `libc6 (>= 2.7) | libc6-alt, libfoo` is a
//! conjunction of alternative groups: commas separate required groups,
//! pipes separate the alternatives within a group, and each term names a
//! package with an optional relational version constraint.

use crate::control::Pkg;
use crate::text::{
    copy_range, find_byte, lemma_find_byte, parts_of, scan_byte, spec_trim, split_parts,
    trim_bytes, SPACE,
};
use crate::version::{spec_parse, SpecVersion, Version};
use crate::PkgError;
use crate::SpecPkgError;
use vstd::prelude::*;

verus! {

pub const COMMA: u8 = 44;

pub const PIPE: u8 = 124;

pub const LPAREN: u8 = 40;

pub const RPAREN: u8 = 41;

pub const LT: u8 = 60;

pub const EQ: u8 = 61;

pub const GT: u8 = 62;

/// A relational operator of a version constraint.
#[derive(Clone, Copy, Debug, PartialEq, Eq, Structural)]
pub enum RelOp {
    /// `<<`: strictly earlier.
    Lt,
    /// `<=`, or the legacy `<`: earlier or equal.
    Le,
    /// `=`: exactly equal.
    Eq,
    /// `>=`, or the legacy `>`: later or equal.
    Ge,
    /// `>>`: strictly later.
    Gt,
}

/// One term of a dependency expression: a package name and an optional
/// version constraint.
#[derive(Debug)]
pub struct DepTerm {
    pub name: Vec<u8>,
    pub constraint: Option<(RelOp, Version)>,
}

/// The mathematical value of a term.
pub ghost struct SpecDepTerm {
    pub name: Seq<u8>,
    pub constraint: Option<(RelOp, SpecVersion)>,
}

impl View for DepTerm {
    type V = SpecDepTerm;

    open spec fn view(&self) -> SpecDepTerm {
        SpecDepTerm {
            name: self.name@,
            constraint: match &self.constraint {
                Some(c) => Some((c.0, c.1@)),
                None => None,
            },
        }
    }
}

/// One group of alternatives: any one of its terms satisfies the group.
#[derive(Debug)]
pub struct DepGroup {
    pub terms: Vec<DepTerm>,
}

/// The mathematical value of a group.
pub open spec fn view_terms(s: Seq<DepTerm>) -> Seq<SpecDepTerm> {
    s.map_values(|t: DepTerm| t@)
}

impl View for DepGroup {
    type V = Seq<SpecDepTerm>;

    open spec fn view(&self) -> Seq<SpecDepTerm> {
        view_terms(self.terms@)
    }
}

/// A whole dependency expression: every group must be satisfied. An empty
/// field is an empty expression: no constraint.
#[derive(Debug)]
pub struct DependencyExpression {
    pub groups: Vec<DepGroup>,
}

/// The mathematical value of an expression.
pub open spec fn view_groups(s: Seq<DepGroup>) -> Seq<Seq<SpecDepTerm>> {
    s.map_values(|g: DepGroup| g@)
}

impl View for DependencyExpression {
    type V = Seq<Seq<SpecDepTerm>>;

    open spec fn view(&self) -> Seq<Seq<SpecDepTerm>> {
        view_groups(self.groups@)
    }
}

/// Length of the maximal prefix of operator characters.
pub open spec fn op_run(s: Seq<u8>) -> int
    decreases s.len(),
{
    if s.len() == 0 {
        0
    } else if s[0] == LT || s[0] == EQ || s[0] == GT {
        1 + op_run(s.drop_first())
    } else {
        0
    }
}

pub proof fn lemma_op_run(s: Seq<u8>)
    ensures
        0 <= op_run(s) <= s.len(),
        forall|j: int| 0 <= j < op_run(s) ==> s[j] == LT || s[j] == EQ || s[j] == GT,
        op_run(s) < s.len() ==> !(s[op_run(s)] == LT || s[op_run(s)] == EQ || s[op_run(s)] == GT),
    decreases s.len(),
{
    if s.len() > 0 && (s[0] == LT || s[0] == EQ || s[0] == GT) {
        lemma_op_run(s.drop_first());
        assert forall|j: int| 0 <= j < op_run(s) implies s[j] == LT || s[j] == EQ || s[j]
            == GT by {
            if j > 0 {
                assert(s.drop_first()[j - 1] == s[j]);
            }
        }
        if op_run(s) < s.len() {
            assert(s.drop_first()[op_run(s) - 1] == s[op_run(s)]);
        }
    }
}

/// The operator a run of operator characters denotes, if any. The legacy
/// single `<` and `>` mean earlier-or-equal and later-or-equal.
pub open spec fn spec_rel_op(s: Seq<u8>) -> Option<RelOp> {
    if s == seq![LT, LT] {
        Some(RelOp::Lt)
    } else if s == seq![LT, EQ] {
        Some(RelOp::Le)
    } else if s == seq![EQ] {
        Some(RelOp::Eq)
    } else if s == seq![GT, EQ] {
        Some(RelOp::Ge)
    } else if s == seq![GT, GT] {
        Some(RelOp::Gt)
    } else if s == seq![LT] {
        Some(RelOp::Le)
    } else if s == seq![GT] {
        Some(RelOp::Ge)
    } else {
        None
    }
}

/// Whether a trimmed package name is acceptable: non-empty, with no spaces
/// or parentheses inside.
pub open spec fn dep_name_ok(s: Seq<u8>) -> bool {
    s.len() > 0 && forall|j: int|
        0 <= j < s.len() ==> #[trigger] s[j] != SPACE && s[j] != LPAREN && s[j] != RPAREN
}

/// The parse of one term: a trimmed name, optionally followed by
/// `(op version)`.
pub open spec fn spec_parse_term(t0: Seq<u8>) -> Option<SpecDepTerm> {
    let t = spec_trim(t0);
    match find_byte(t, LPAREN) {
        None => if dep_name_ok(t) {
            Some(SpecDepTerm { name: t, constraint: None })
        } else {
            None
        },
        Some(i) => {
            let name = spec_trim(t.subrange(0, i));
            if !dep_name_ok(name) {
                None
            } else if !(t.len() > 0 && t.last() == RPAREN && i < t.len() - 1) {
                None
            } else {
                let inner = spec_trim(t.subrange(i + 1, t.len() - 1));
                let k = op_run(inner);
                match spec_rel_op(inner.subrange(0, k)) {
                    None => None,
                    Some(op) => match spec_parse(spec_trim(inner.subrange(k, inner.len() as int))) {
                        Some(v) => Some(
                            SpecDepTerm { name, constraint: Some((op, v)) },
                        ),
                        None => None,
                    },
                }
            }
        },
    }
}

/// The parse of one group: its pipe-separated alternatives, in order.
pub open spec fn spec_parse_alts(parts: Seq<Seq<u8>>) -> Option<Seq<SpecDepTerm>>
    decreases parts.len(),
{
    if parts.len() == 0 {
        Some(Seq::empty())
    } else {
        match spec_parse_alts(parts.drop_last()) {
            None => None,
            Some(acc) => match spec_parse_term(parts.last()) {
                Some(term) => Some(acc.push(term)),
                None => None,
            },
        }
    }
}

/// The parse of the comma-separated groups, in order.
pub open spec fn spec_parse_groups(parts: Seq<Seq<u8>>) -> Option<Seq<Seq<SpecDepTerm>>>
    decreases parts.len(),
{
    if parts.len() == 0 {
        Some(Seq::empty())
    } else {
        match spec_parse_groups(parts.drop_last()) {
            None => None,
            Some(acc) => match spec_parse_alts(split_parts(parts.last(), PIPE)) {
                Some(g) => Some(acc.push(g)),
                None => None,
            },
        }
    }
}

/// The parse of a whole relationship field; an empty field is an empty
/// expression.
pub open spec fn spec_parse_depends(field: Seq<u8>) -> Option<Seq<Seq<SpecDepTerm>>> {
    let t = spec_trim(field);
    if t.len() == 0 {
        Some(Seq::empty())
    } else {
        spec_parse_groups(split_parts(t, COMMA))
    }
}

/// Parses one term.
#[verifier::loop_isolation(false)]
fn parse_term(t0: &[u8]) -> (r: Option<DepTerm>)
    ensures
        match r {
            Some(term) => spec_parse_term(t0@) == Some(term@),
            None => spec_parse_term(t0@) is None,
        },
{
    let tv = trim_bytes(t0);
    let t = tv.as_slice();
    let n = t.len();
    match scan_byte(t, 0, LPAREN) {
        None => {
            proof {
                lemma_find_byte(t@, LPAREN);
                match find_byte(t@, LPAREN) {
                    Some(k) => {
                        assert(t@[k] == LPAREN);
                    },
                    None => {},
                }
            }
            if dep_name_check(t) {
                Some(DepTerm { name: tv, constraint: None })
            } else {
                None
            }
        },
        Some(i) => {
            proof {
                lemma_find_byte(t@, LPAREN);
                assert(find_byte(t@, LPAREN) == Some(i as int)) by {
                    match find_byte(t@, LPAREN) {
                        Some(k) => {
                            if k < i {
                                assert(t@[k] == LPAREN);
                            } else if k > i {
                                assert(t@[i as int] == LPAREN);
                            }
                        },
                        None => {
                            assert(t@[i as int] == LPAREN);
                        },
                    }
                }
            }
            let name_raw = copy_range(t, 0, i);
            let name = trim_bytes(name_raw.as_slice());
            if !dep_name_check(name.as_slice()) {
                return None;
            }
            if !(n > 0 && t[n - 1] == RPAREN && i < n - 1) {
                return None;
            }
            let inner_raw = copy_range(t, i + 1, n - 1);
            let inner_v = trim_bytes(inner_raw.as_slice());
            let inner = inner_v.as_slice();
            let mut k: usize = 0;
            while k < inner.len() && (inner[k] == LT || inner[k] == EQ || inner[k] == GT)
                invariant
                    k <= inner@.len(),
                    forall|j: int|
                        0 <= j < k ==> #[trigger] inner@[j] == LT || inner@[j] == EQ || inner@[j]
                            == GT,
                decreases inner@.len() - k,
            {
                k += 1;
            }
            proof {
                lemma_op_run(inner@);
                assert(op_run(inner@) == k as int) by {
                    let r = op_run(inner@);
                    if r < k {
                        assert(inner@[r] == LT || inner@[r] == EQ || inner@[r] == GT);
                    } else if r > k {
                        assert(inner@[k as int] == LT || inner@[k as int] == EQ || inner@[k as int]
                            == GT);
                    }
                }
            }
            let op_bytes = copy_range(inner, 0, k);
            let op = match rel_op_check(op_bytes.as_slice()) {
                Some(op) => op,
                None => {
                    return None;
                },
            };
            let ver_raw = copy_range(inner, k, inner.len());
            let ver_text = trim_bytes(ver_raw.as_slice());
            match Version::from_bytes(ver_text.as_slice()) {
                Ok(v) => Some(DepTerm { name, constraint: Some((op, v)) }),
                Err(_) => None,
            }
        },
    }
}

/// Checks a trimmed package name.
fn dep_name_check(s: &[u8]) -> (r: bool)
    ensures
        r == dep_name_ok(s@),
{
    if s.len() == 0 {
        return false;
    }
    let mut j: usize = 0;
    while j < s.len()
        invariant
            j <= s@.len(),
            forall|i: int|
                0 <= i < j ==> #[trigger] s@[i] != SPACE && s@[i] != LPAREN && s@[i] != RPAREN,
        decreases s@.len() - j,
    {
        if s[j] == SPACE || s[j] == LPAREN || s[j] == RPAREN {
            return false;
        }
        j += 1;
    }
    true
}

/// Decodes a run of operator characters.
fn rel_op_check(s: &[u8]) -> (r: Option<RelOp>)
    ensures
        r == spec_rel_op(s@),
{
    if s.len() == 1 {
        proof {
            assert(s@ =~= seq![s@[0]]);
        }
        if s[0] == EQ {
            Some(RelOp::Eq)
        } else if s[0] == LT {
            Some(RelOp::Le)
        } else if s[0] == GT {
            Some(RelOp::Ge)
        } else {
            None
        }
    } else if s.len() == 2 {
        proof {
            assert(s@ =~= seq![s@[0], s@[1]]);
        }
        if s[0] == LT && s[1] == LT {
            Some(RelOp::Lt)
        } else if s[0] == LT && s[1] == EQ {
            Some(RelOp::Le)
        } else if s[0] == GT && s[1] == EQ {
            Some(RelOp::Ge)
        } else if s[0] == GT && s[1] == GT {
            Some(RelOp::Gt)
        } else {
            None
        }
    } else {
        proof {
            assert(s@.len() != 1 && s@.len() != 2);
        }
        None
    }
}

/// A malformed alternative fails its group, wherever it stands.
proof fn lemma_alts_failed(parts: Seq<Seq<u8>>, i: int)
    requires
        0 <= i < parts.len(),
        spec_parse_term(parts[i]) is None,
    ensures
        spec_parse_alts(parts) is None,
    decreases parts.len(),
{
    if parts.len() > 0 {
        if i == parts.len() - 1 {
            assert(parts.last() == parts[i]);
        } else {
            lemma_alts_failed(parts.drop_last(), i);
        }
    }
}

/// A malformed group fails the whole field, wherever it stands.
proof fn lemma_groups_failed(parts: Seq<Seq<u8>>, i: int)
    requires
        0 <= i < parts.len(),
        spec_parse_alts(split_parts(parts[i], PIPE)) is None,
    ensures
        spec_parse_groups(parts) is None,
    decreases parts.len(),
{
    if parts.len() > 0 {
        if i == parts.len() - 1 {
            assert(parts.last() == parts[i]);
        } else {
            lemma_groups_failed(parts.drop_last(), i);
        }
    }
}

/// Parses one group's pipe-separated alternatives.
#[verifier::loop_isolation(false)]
fn parse_group(raw: &[u8]) -> (r: Option<DepGroup>)
    ensures
        match r {
            Some(g) => spec_parse_alts(split_parts(raw@, PIPE)) == Some(g@),
            None => spec_parse_alts(split_parts(raw@, PIPE)) is None,
        },
{
    let alts = parts_of(raw, PIPE);
    let ghost all = split_parts(raw@, PIPE);
    let mut terms: Vec<DepTerm> = Vec::new();
    let mut i: usize = 0;
    proof {
        assert(all.subrange(0, 0) =~= Seq::<Seq<u8>>::empty());
        assert(view_terms(terms@) =~= Seq::<SpecDepTerm>::empty());
    }
    while i < alts.len()
        invariant
            i <= alts@.len(),
            all == alts.deep_view(),
            spec_parse_alts(all.subrange(0, i as int)) == Some(view_terms(terms@)),
        decreases alts@.len() - i,
    {
        proof {
            assert(all.subrange(0, i + 1 as int).drop_last() =~= all.subrange(0, i as int));
            assert(all.subrange(0, i + 1 as int).last() == alts@[i as int]@);
        }
        match parse_term(alts[i].as_slice()) {
            Some(term) => {
                let ghost pre = view_terms(terms@);
                terms.push(term);
                proof {
                    assert(view_terms(terms@) =~= pre.push(term@));
                }
            },
            None => {
                proof {
                    lemma_alts_failed(all, i as int);
                }
                return None;
            },
        }
        i += 1;
    }
    proof {
        assert(all.subrange(0, all.len() as int) =~= all);
    }
    Some(DepGroup { terms })
}

/// Parses a whole relationship field into a dependency expression: commas
/// separate required groups, pipes separate the alternatives within a
/// group, each term is a name with an optional `(op version)` constraint.
/// An empty field parses to an empty expression; anything malformed fails
/// the field.
#[verifier::loop_isolation(false)]
pub fn parse_depends(field: &[u8]) -> (r: Result<DependencyExpression, PkgError>)
    ensures
        match r {
            Ok(e) => spec_parse_depends(field@) == Some(e@),
            Err(e) => spec_parse_depends(field@) is None && e@ == SpecPkgError::ParseError,
        },
{
    let tv = trim_bytes(field);
    let t = tv.as_slice();
    if t.len() == 0 {
        let e = DependencyExpression { groups: Vec::new() };
        proof {
            assert(e@ =~= Seq::<Seq<SpecDepTerm>>::empty());
        }
        return Ok(e);
    }
    let parts = parts_of(t, COMMA);
    let ghost all = split_parts(t@, COMMA);
    let mut groups: Vec<DepGroup> = Vec::new();
    let mut i: usize = 0;
    proof {
        assert(all.subrange(0, 0) =~= Seq::<Seq<u8>>::empty());
        assert(view_groups(groups@) =~= Seq::<Seq<SpecDepTerm>>::empty());
    }
    while i < parts.len()
        invariant
            i <= parts@.len(),
            all == parts.deep_view(),
            spec_parse_groups(all.subrange(0, i as int)) == Some(view_groups(groups@)),
        decreases parts@.len() - i,
    {
        proof {
            assert(all.subrange(0, i + 1 as int).drop_last() =~= all.subrange(0, i as int));
            assert(all.subrange(0, i + 1 as int).last() == parts@[i as int]@);
        }
        match parse_group(parts[i].as_slice()) {
            Some(g) => {
                let ghost pre = view_groups(groups@);
                groups.push(g);
                proof {
                    assert(view_groups(groups@) =~= pre.push(g@));
                }
            },
            None => {
                proof {
                    lemma_groups_failed(all, i as int);
                }
                return Err(PkgError::ParseError);
            },
        }
        i += 1;
    }
    proof {
        assert(all.subrange(0, all.len() as int) =~= all);
    }
    Ok(DependencyExpression { groups })
}

/// The relationship fields a record can carry.
#[derive(Clone, Copy, Debug, PartialEq, Eq, Structural)]
pub enum RelationKind {
    Depends,
    PreDepends,
    Recommends,
    Suggests,
    Enhances,
}

/// The raw text of a record's relationship field.
pub open spec fn spec_relation_text(p: crate::control::SpecPkg, k: RelationKind) -> Seq<u8> {
    match k {
        RelationKind::Depends => p.deps,
        RelationKind::PreDepends => p.pre_depends,
        RelationKind::Recommends => p.recommends,
        RelationKind::Suggests => p.suggests,
        RelationKind::Enhances => p.enhances,
    }
}

/// The structured dependency expression of one of a record's relationship
/// fields, parsed from the raw text the record keeps.
pub fn dependencies_of(p: &Pkg, k: RelationKind) -> (r: Result<DependencyExpression, PkgError>)
    ensures
        match r {
            Ok(e) => spec_parse_depends(spec_relation_text(p@, k)) == Some(e@),
            Err(e) => spec_parse_depends(spec_relation_text(p@, k)) is None && e@
                == SpecPkgError::ParseError,
        },
{
    match k {
        RelationKind::Depends => parse_depends(p.deps.as_slice()),
        RelationKind::PreDepends => parse_depends(p.pre_depends.as_slice()),
        RelationKind::Recommends => parse_depends(p.recommends.as_slice()),
        RelationKind::Suggests => parse_depends(p.suggests.as_slice()),
        RelationKind::Enhances => parse_depends(p.enhances.as_slice()),
    }
}

} // verus!
