//! Debian-style package versions: `[epoch:]upstream[-revision]`.
//!
//! A version is parsed into a structured, totally ordered value. The upstream
//! and revision parts are decomposed into alternating runs of non-digit and
//! digit characters; digit runs are kept with leading zeros stripped, and a
//! written zero epoch, zero revision or empty trailing run is put into one
//! normal form, so versions that compare equal hold the very same value and
//! render to the very same canonical text. Two versions are equal iff the
//! comparison says so, not iff their texts match.

use crate::text::{
    copy_range, is_digit, rscan_byte, scan_byte, spec_is_alpha, spec_is_digit, spec_trim,
    trim_bytes, COLON, DASH, TILDE, ZERO,
};
use crate::PkgError;
use crate::SpecPkgError;
use vstd::prelude::*;

verus! {

pub const DOT: u8 = 46;

pub const PLUS: u8 = 43;

/// One run of non-digit characters followed by one run of digits; either run
/// may be empty at the edges of a version part.
pub ghost struct SpecChunk {
    pub prefix: Seq<u8>,
    pub digits: Seq<u8>,
}

/// The mathematical value of a parsed version.
pub ghost struct SpecVersion {
    pub epoch: Seq<u8>,
    pub upstream: Seq<SpecChunk>,
    pub revision: Seq<SpecChunk>,
}

/// Whether every element of `s` is an ASCII digit.
pub open spec fn all_digits(s: Seq<u8>) -> bool {
    forall|i: int| 0 <= i < s.len() ==> spec_is_digit(s[i])
}

/// A digit run in normal form: leading zeros stripped, a lone zero kept.
pub open spec fn digits_wf(d: Seq<u8>) -> bool {
    all_digits(d) && (d.len() > 1 ==> d[0] != ZERO)
}

/// Whether `b` may appear in a non-digit run of the upstream part.
/// A colon is only allowed when an epoch is present, a dash only when a
/// revision is present.
pub open spec fn upstream_char_ok(b: u8, has_epoch: bool, has_rev: bool) -> bool {
    spec_is_alpha(b) || b == DOT || b == PLUS || b == TILDE || (b == COLON && has_epoch) || (b
        == DASH && has_rev)
}

/// Whether `b` may appear in a non-digit run of the revision part.
pub open spec fn revision_char_ok(b: u8) -> bool {
    spec_is_alpha(b) || b == DOT || b == PLUS || b == TILDE
}

/// Whether a whole upstream text is made of digits and allowed characters.
pub open spec fn upstream_text_ok(up: Seq<u8>, has_epoch: bool, has_rev: bool) -> bool {
    forall|i: int|
        0 <= i < up.len() ==> spec_is_digit(#[trigger] up[i]) || upstream_char_ok(
            up[i],
            has_epoch,
            has_rev,
        )
}

/// Whether a whole revision text is made of digits and allowed characters.
pub open spec fn revision_text_ok(rev: Seq<u8>) -> bool {
    forall|i: int| 0 <= i < rev.len() ==> spec_is_digit(#[trigger] rev[i]) || revision_char_ok(rev[i])
}

pub open spec fn chunk_wf(c: SpecChunk) -> bool {
    &&& forall|i: int| 0 <= i < c.prefix.len() ==> !spec_is_digit(#[trigger] c.prefix[i])
    &&& digits_wf(c.digits)
}

/// The shape of a chunk sequence as the parser produces it: every chunk but
/// the first opens with a non-digit run, every chunk but the last holds
/// digits, and no chunk is entirely empty.
pub open spec fn chunks_wf(cs: Seq<SpecChunk>) -> bool {
    &&& forall|i: int| 0 <= i < cs.len() ==> chunk_wf(#[trigger] cs[i])
    &&& forall|i: int| 1 <= i < cs.len() ==> (#[trigger] cs[i]).prefix.len() > 0
    &&& forall|i: int| 0 <= i < cs.len() - 1 ==> (#[trigger] cs[i]).digits.len() > 0
    &&& forall|i: int|
        0 <= i < cs.len() ==> (#[trigger] cs[i]).prefix.len() + cs[i].digits.len() > 0
}

pub open spec fn upstream_charset_ok(cs: Seq<SpecChunk>, has_epoch: bool, has_rev: bool) -> bool {
    forall|i: int, j: int|
        0 <= i < cs.len() && 0 <= j < cs[i].prefix.len() ==> upstream_char_ok(
            #[trigger] cs[i].prefix[j],
            has_epoch,
            has_rev,
        )
}

pub open spec fn revision_charset_ok(cs: Seq<SpecChunk>) -> bool {
    forall|i: int, j: int|
        0 <= i < cs.len() && 0 <= j < cs[i].prefix.len() ==> revision_char_ok(
            #[trigger] cs[i].prefix[j],
        )
}

/// Well-formedness of a version value: what `spec_parse` guarantees of its
/// results and what every operation preserves.
pub open spec fn version_wf(v: SpecVersion) -> bool {
    &&& digits_wf(v.epoch)
    &&& v.upstream.len() > 0
    &&& chunks_wf(v.upstream)
    &&& chunks_wf(v.revision)
    &&& upstream_charset_ok(v.upstream, v.epoch.len() > 0, v.revision.len() > 0)
    &&& revision_charset_ok(v.revision)
    &&& (v.upstream.len() > 0 ==> v.upstream.last().digits.len() > 0)
    &&& (v.revision.len() > 0 ==> v.revision.last().digits.len() > 0)
    &&& (v.epoch == seq![crate::text::ZERO] ==> prefixes_contain(v.upstream, crate::text::COLON))
    &&& (v.revision == seq![zero_chunk()] ==> prefixes_contain(v.upstream, crate::text::DASH))
}

/// Leading zeros removed, keeping a lone zero when the run is all zeros.
pub open spec fn strip_zeros(d: Seq<u8>) -> Seq<u8>
    decreases d.len(),
{
    if d.len() <= 1 {
        d
    } else if d[0] == ZERO {
        strip_zeros(d.drop_first())
    } else {
        d
    }
}

/// Length of the maximal non-digit prefix of `s`.
pub open spec fn nondigit_run(s: Seq<u8>) -> int
    decreases s.len(),
{
    if s.len() == 0 {
        0
    } else if spec_is_digit(s[0]) {
        0
    } else {
        1 + nondigit_run(s.drop_first())
    }
}

/// Length of the maximal digit prefix of `s`.
pub open spec fn digit_run(s: Seq<u8>) -> int
    decreases s.len(),
{
    if s.len() == 0 {
        0
    } else if !spec_is_digit(s[0]) {
        0
    } else {
        1 + digit_run(s.drop_first())
    }
}

pub proof fn lemma_nondigit_run(s: Seq<u8>)
    ensures
        0 <= nondigit_run(s) <= s.len(),
        forall|j: int| 0 <= j < nondigit_run(s) ==> !spec_is_digit(s[j]),
        nondigit_run(s) < s.len() ==> spec_is_digit(s[nondigit_run(s)]),
    decreases s.len(),
{
    if s.len() > 0 && !spec_is_digit(s[0]) {
        lemma_nondigit_run(s.drop_first());
        assert forall|j: int| 0 <= j < nondigit_run(s) implies !spec_is_digit(s[j]) by {
            if j > 0 {
                assert(s.drop_first()[j - 1] == s[j]);
            }
        }
        if nondigit_run(s) < s.len() {
            assert(s.drop_first()[nondigit_run(s) - 1] == s[nondigit_run(s)]);
        }
    }
}

pub proof fn lemma_digit_run(s: Seq<u8>)
    ensures
        0 <= digit_run(s) <= s.len(),
        forall|j: int| 0 <= j < digit_run(s) ==> spec_is_digit(s[j]),
        digit_run(s) < s.len() ==> !spec_is_digit(s[digit_run(s)]),
    decreases s.len(),
{
    if s.len() > 0 && spec_is_digit(s[0]) {
        lemma_digit_run(s.drop_first());
        assert forall|j: int| 0 <= j < digit_run(s) implies spec_is_digit(s[j]) by {
            if j > 0 {
                assert(s.drop_first()[j - 1] == s[j]);
            }
        }
        if digit_run(s) < s.len() {
            assert(s.drop_first()[digit_run(s) - 1] == s[digit_run(s)]);
        }
    }
}

/// The alternating non-digit/digit decomposition of a version part, with
/// digit runs put in normal form.
pub open spec fn chunks_of(s: Seq<u8>) -> Seq<SpecChunk>
    decreases s.len(),
    via chunks_of_decreases
{
    if s.len() == 0 {
        Seq::empty()
    } else {
        let np = nondigit_run(s);
        let nd = digit_run(s.subrange(np, s.len() as int));
        seq![
            SpecChunk {
                prefix: s.subrange(0, np),
                digits: strip_zeros(s.subrange(np, np + nd)),
            },
        ] + chunks_of(s.subrange(np + nd, s.len() as int))
    }
}

#[via_fn]
proof fn chunks_of_decreases(s: Seq<u8>) {
    if s.len() > 0 {
        lemma_nondigit_run(s);
        let np = nondigit_run(s);
        lemma_digit_run(s.subrange(np, s.len() as int));
        if np == 0 {
            assert(spec_is_digit(s[0]));
            assert(s.subrange(0, s.len() as int)[0] == s[0]);
            assert(digit_run(s.subrange(0, s.len() as int)) > 0);
        }
    }
}

/// The parse of a trimmed version text: epoch before the first colon,
/// revision after the last dash, each part checked against its character
/// set, the parts decomposed into chunks.
/// The chunk that a pure-zero part decomposes into.
pub open spec fn zero_chunk() -> SpecChunk {
    SpecChunk { prefix: Seq::empty(), digits: seq![ZERO] }
}

/// A chunk sequence with an empty trailing digit run stored as a zero, so
/// that texts differing only in a trailing zero keep one stored form.
pub open spec fn norm_chunks(cs: Seq<SpecChunk>) -> Seq<SpecChunk> {
    if cs.len() > 0 && cs.last().digits.len() == 0 {
        cs.update(cs.len() - 1, SpecChunk { prefix: cs.last().prefix, digits: seq![ZERO] })
    } else {
        cs
    }
}

/// Whether any non-digit run of the chunks holds the byte `b`.
pub open spec fn prefixes_contain(cs: Seq<SpecChunk>, b: u8) -> bool {
    exists|i: int, j: int| 0 <= i < cs.len() && 0 <= j < cs[i].prefix.len() && cs[i].prefix[j] == b
}

/// The stored epoch: a zero epoch is erased, unless the upstream carries a
/// colon, which only an explicit epoch licenses.
pub open spec fn norm_epoch(e: Seq<u8>, up: Seq<SpecChunk>) -> Seq<u8> {
    if strip_zeros(e) == seq![ZERO] && !prefixes_contain(up, COLON) {
        Seq::empty()
    } else {
        strip_zeros(e)
    }
}

/// The stored revision: a zero revision is erased, unless the upstream
/// carries a dash, which only an explicit revision licenses.
pub open spec fn norm_revision(cs: Seq<SpecChunk>, up: Seq<SpecChunk>) -> Seq<SpecChunk> {
    if cs == seq![zero_chunk()] && !prefixes_contain(up, DASH) {
        Seq::empty()
    } else {
        cs
    }
}

pub open spec fn spec_parse(s: Seq<u8>) -> Option<SpecVersion> {
    let colon = crate::text::find_byte(s, COLON);
    let has_epoch = colon is Some;
    let epoch = if has_epoch {
        s.subrange(0, colon->Some_0)
    } else {
        Seq::empty()
    };
    let rest = if has_epoch {
        s.subrange(colon->Some_0 + 1, s.len() as int)
    } else {
        s
    };
    if has_epoch && !(epoch.len() > 0 && all_digits(epoch)) {
        None
    } else {
        let dash = crate::text::rfind_byte(rest, DASH);
        let has_rev = dash is Some;
        let up = if has_rev {
            rest.subrange(0, dash->Some_0)
        } else {
            rest
        };
        let rev = if has_rev {
            rest.subrange(dash->Some_0 + 1, rest.len() as int)
        } else {
            Seq::empty()
        };
        if up.len() == 0 {
            None
        } else if has_rev && rev.len() == 0 {
            None
        } else if !upstream_text_ok(up, has_epoch, has_rev) {
            None
        } else if !revision_text_ok(rev) {
            None
        } else {
            let upstream = norm_chunks(chunks_of(up));
            Some(
                SpecVersion {
                    epoch: norm_epoch(epoch, upstream),
                    upstream,
                    revision: norm_revision(norm_chunks(chunks_of(rev)), upstream),
                },
            )
        }
    }
}

/// The rank of a non-digit byte in the comparison: a tilde sorts before the
/// end of the text (rank 0), letters sort before every other character.
pub open spec fn sym_ord(b: u8) -> int {
    if b == TILDE {
        -1
    } else if spec_is_alpha(b) {
        b as int
    } else {
        b as int + 256
    }
}

/// No byte ranks equal to the end of the text.
pub proof fn lemma_sym_ord_nonzero(b: u8)
    ensures
        sym_ord(b) != 0,
{
}

/// Equal ranks mean equal bytes.
pub proof fn lemma_sym_ord_injective(a: u8, b: u8)
    requires
        sym_ord(a) == sym_ord(b),
    ensures
        a == b,
{
}

/// Comparison of two non-digit runs: rank by rank, the end of a run ranking
/// as 0.
pub open spec fn ndcmp(a: Seq<u8>, b: Seq<u8>) -> int
    decreases a.len() + b.len(),
    via ndcmp_decreases
{
    if a.len() == 0 && b.len() == 0 {
        0
    } else {
        let oa = if a.len() == 0 {
            0
        } else {
            sym_ord(a[0])
        };
        let ob = if b.len() == 0 {
            0
        } else {
            sym_ord(b[0])
        };
        if oa < ob {
            -1
        } else if oa > ob {
            1
        } else {
            ndcmp(a.drop_first(), b.drop_first())
        }
    }
}

#[via_fn]
proof fn ndcmp_decreases(a: Seq<u8>, b: Seq<u8>) {
    if !(a.len() == 0 && b.len() == 0) {
        if a.len() == 0 {
            lemma_sym_ord_nonzero(b[0]);
        } else if b.len() == 0 {
            lemma_sym_ord_nonzero(a[0]);
        }
    }
}

/// Byte-wise comparison of two texts of equal length.
pub open spec fn lexcmp(a: Seq<u8>, b: Seq<u8>) -> int
    decreases a.len(),
{
    if a.len() == 0 || b.len() == 0 {
        0
    } else if a[0] < b[0] {
        -1
    } else if a[0] > b[0] {
        1
    } else {
        lexcmp(a.drop_first(), b.drop_first())
    }
}

/// The digit run standing for a possibly absent run: an absent run counts
/// as a single zero.
pub open spec fn dkey(d: Seq<u8>) -> Seq<u8> {
    if d.len() == 0 {
        seq![ZERO]
    } else {
        d
    }
}

/// Numeric comparison of two normalized digit runs: a shorter run is a
/// smaller number, equal lengths compare byte-wise.
pub open spec fn numcmp(a: Seq<u8>, b: Seq<u8>) -> int {
    if a.len() < b.len() {
        -1
    } else if a.len() > b.len() {
        1
    } else {
        lexcmp(a, b)
    }
}

/// Comparison of two digit runs, an absent run counting as zero.
pub open spec fn dcmp(a: Seq<u8>, b: Seq<u8>) -> int {
    numcmp(dkey(a), dkey(b))
}

/// Comparison of two chunks: the non-digit runs decide, then the digit runs.
pub open spec fn chunk_cmp(x: SpecChunk, y: SpecChunk) -> int {
    if ndcmp(x.prefix, y.prefix) != 0 {
        ndcmp(x.prefix, y.prefix)
    } else {
        dcmp(x.digits, y.digits)
    }
}

/// The chunk that stands for the end of a part: empty runs.
pub open spec fn empty_chunk() -> SpecChunk {
    SpecChunk { prefix: Seq::empty(), digits: Seq::empty() }
}

/// Comparison of two chunk sequences, the shorter one padded with empty
/// chunks.
pub open spec fn chunks_cmp(a: Seq<SpecChunk>, b: Seq<SpecChunk>) -> int
    decreases a.len() + b.len(),
{
    if a.len() == 0 && b.len() == 0 {
        0
    } else {
        let ca = if a.len() == 0 {
            empty_chunk()
        } else {
            a[0]
        };
        let cb = if b.len() == 0 {
            empty_chunk()
        } else {
            b[0]
        };
        if chunk_cmp(ca, cb) != 0 {
            chunk_cmp(ca, cb)
        } else {
            chunks_cmp(
                if a.len() == 0 {
                    a
                } else {
                    a.drop_first()
                },
                if b.len() == 0 {
                    b
                } else {
                    b.drop_first()
                },
            )
        }
    }
}

/// Comparison of two versions: the epoch decides, then the upstream part,
/// then the revision.
pub open spec fn vcmp(u: SpecVersion, w: SpecVersion) -> int {
    if dcmp(u.epoch, w.epoch) != 0 {
        dcmp(u.epoch, w.epoch)
    } else if chunks_cmp(u.upstream, w.upstream) != 0 {
        chunks_cmp(u.upstream, w.upstream)
    } else {
        chunks_cmp(u.revision, w.revision)
    }
}

proof fn lemma_ndcmp_basic(a: Seq<u8>, b: Seq<u8>)
    ensures
        -1 <= ndcmp(a, b) <= 1,
        ndcmp(a, b) == -ndcmp(b, a),
        ndcmp(a, b) == 0 ==> a == b,
    decreases a.len() + b.len(),
{
    if a.len() == 0 && b.len() == 0 {
        assert(a =~= b);
    } else {
        let oa = if a.len() == 0 {
            0
        } else {
            sym_ord(a[0])
        };
        let ob = if b.len() == 0 {
            0
        } else {
            sym_ord(b[0])
        };
        if a.len() == 0 {
            lemma_sym_ord_nonzero(b[0]);
        }
        if b.len() == 0 {
            lemma_sym_ord_nonzero(a[0]);
        }
        if oa == ob {
            assert(a.len() > 0 && b.len() > 0);
            lemma_sym_ord_injective(a[0], b[0]);
            lemma_ndcmp_basic(a.drop_first(), b.drop_first());
            if ndcmp(a, b) == 0 {
                assert(a.drop_first() == b.drop_first());
                assert(a.len() == b.len());
                assert forall|j: int| 0 <= j < a.len() implies a[j] == b[j] by {
                    if j > 0 {
                        assert(a[j] == a.drop_first()[j - 1]);
                        assert(b[j] == b.drop_first()[j - 1]);
                    }
                }
                assert(a =~= b);
            }
        }
    }
}

proof fn lemma_ndcmp_trans(a: Seq<u8>, b: Seq<u8>, c: Seq<u8>)
    requires
        ndcmp(a, b) <= 0,
        ndcmp(b, c) <= 0,
    ensures
        ndcmp(a, c) <= 0,
    decreases a.len() + b.len() + c.len(),
{
    if a.len() == 0 && c.len() == 0 {
    } else {
        let oa = if a.len() == 0 {
            0
        } else {
            sym_ord(a[0])
        };
        let ob = if b.len() == 0 {
            0
        } else {
            sym_ord(b[0])
        };
        let oc = if c.len() == 0 {
            0
        } else {
            sym_ord(c[0])
        };
        assert(oa <= ob);
        assert(ob <= oc);
        if oa == oc {
            assert(oa == ob && ob == oc);
            if b.len() == 0 {
                assert(a.len() == 0 || oa != 0) by {
                    if a.len() > 0 {
                        lemma_sym_ord_nonzero(a[0]);
                    }
                }
                assert(oa == 0);
                assert(a.len() == 0 && c.len() == 0);
            } else {
                if a.len() == 0 {
                    lemma_sym_ord_nonzero(b[0]);
                }
                if c.len() == 0 {
                    lemma_sym_ord_nonzero(b[0]);
                }
                assert(a.len() > 0 && c.len() > 0);
                lemma_ndcmp_trans(a.drop_first(), b.drop_first(), c.drop_first());
            }
        }
    }
}

proof fn lemma_lexcmp_basic(a: Seq<u8>, b: Seq<u8>)
    requires
        a.len() == b.len(),
    ensures
        -1 <= lexcmp(a, b) <= 1,
        lexcmp(a, b) == -lexcmp(b, a),
        lexcmp(a, b) == 0 ==> a == b,
    decreases a.len(),
{
    if a.len() == 0 {
        assert(a =~= b);
    } else if a[0] == b[0] {
        lemma_lexcmp_basic(a.drop_first(), b.drop_first());
        if lexcmp(a, b) == 0 {
            assert(a.drop_first() == b.drop_first());
            assert forall|j: int| 0 <= j < a.len() implies a[j] == b[j] by {
                if j > 0 {
                    assert(a[j] == a.drop_first()[j - 1]);
                    assert(b[j] == b.drop_first()[j - 1]);
                }
            }
            assert(a =~= b);
        }
    }
}

proof fn lemma_lexcmp_trans(a: Seq<u8>, b: Seq<u8>, c: Seq<u8>)
    requires
        a.len() == b.len(),
        b.len() == c.len(),
        lexcmp(a, b) <= 0,
        lexcmp(b, c) <= 0,
    ensures
        lexcmp(a, c) <= 0,
    decreases a.len(),
{
    if a.len() > 0 {
        if a[0] == b[0] && b[0] == c[0] {
            lemma_lexcmp_trans(a.drop_first(), b.drop_first(), c.drop_first());
        }
    }
}

proof fn lemma_dcmp_basic(a: Seq<u8>, b: Seq<u8>)
    ensures
        -1 <= dcmp(a, b) <= 1,
        dcmp(a, b) == -dcmp(b, a),
        dcmp(a, b) == 0 ==> dkey(a) == dkey(b),
{
    if dkey(a).len() == dkey(b).len() {
        lemma_lexcmp_basic(dkey(a), dkey(b));
    }
}

proof fn lemma_dcmp_trans(a: Seq<u8>, b: Seq<u8>, c: Seq<u8>)
    requires
        dcmp(a, b) <= 0,
        dcmp(b, c) <= 0,
    ensures
        dcmp(a, c) <= 0,
{
    if dkey(a).len() == dkey(b).len() && dkey(b).len() == dkey(c).len() {
        lemma_lexcmp_trans(dkey(a), dkey(b), dkey(c));
    }
}

proof fn lemma_chunk_cmp_basic(x: SpecChunk, y: SpecChunk)
    ensures
        -1 <= chunk_cmp(x, y) <= 1,
        chunk_cmp(x, y) == -chunk_cmp(y, x),
        chunk_cmp(x, y) == 0 ==> x.prefix == y.prefix && dkey(x.digits) == dkey(y.digits),
{
    lemma_ndcmp_basic(x.prefix, y.prefix);
    lemma_dcmp_basic(x.digits, y.digits);
}

/// A chunk that compares equal to another is interchangeable with it.
proof fn lemma_chunk_cmp_congr(x: SpecChunk, y: SpecChunk, z: SpecChunk)
    requires
        chunk_cmp(x, y) == 0,
    ensures
        chunk_cmp(x, z) == chunk_cmp(y, z),
{
    lemma_chunk_cmp_basic(x, y);
    assert(ndcmp(x.prefix, z.prefix) == ndcmp(y.prefix, z.prefix));
    assert(dcmp(x.digits, z.digits) == dcmp(y.digits, z.digits));
}

proof fn lemma_chunk_cmp_trans(x: SpecChunk, y: SpecChunk, z: SpecChunk)
    requires
        chunk_cmp(x, y) <= 0,
        chunk_cmp(y, z) <= 0,
    ensures
        chunk_cmp(x, z) <= 0,
{
    lemma_ndcmp_basic(x.prefix, y.prefix);
    lemma_ndcmp_basic(y.prefix, z.prefix);
    lemma_ndcmp_basic(x.prefix, z.prefix);
    lemma_ndcmp_trans(x.prefix, y.prefix, z.prefix);
    if ndcmp(x.prefix, y.prefix) == 0 && ndcmp(y.prefix, z.prefix) == 0 {
        lemma_dcmp_trans(x.digits, y.digits, z.digits);
    } else if ndcmp(x.prefix, z.prefix) == 0 {
        // both prefixes compare equal to a middle one strictly: impossible
        assert(x.prefix == z.prefix);
        if ndcmp(x.prefix, y.prefix) < 0 {
            assert(ndcmp(y.prefix, z.prefix) == -ndcmp(x.prefix, y.prefix) > 0);
        } else {
            assert(ndcmp(x.prefix, y.prefix) == 0);
            assert(x.prefix == y.prefix);
            assert(ndcmp(y.prefix, z.prefix) == 0);
        }
    }
}

proof fn lemma_chunks_cmp_basic(a: Seq<SpecChunk>, b: Seq<SpecChunk>)
    ensures
        -1 <= chunks_cmp(a, b) <= 1,
        chunks_cmp(a, b) == -chunks_cmp(b, a),
    decreases a.len() + b.len(),
{
    if a.len() == 0 && b.len() == 0 {
    } else {
        let ca = if a.len() == 0 {
            empty_chunk()
        } else {
            a[0]
        };
        let cb = if b.len() == 0 {
            empty_chunk()
        } else {
            b[0]
        };
        lemma_chunk_cmp_basic(ca, cb);
        if chunk_cmp(ca, cb) == 0 {
            lemma_chunks_cmp_basic(
                if a.len() == 0 {
                    a
                } else {
                    a.drop_first()
                },
                if b.len() == 0 {
                    b
                } else {
                    b.drop_first()
                },
            );
        }
    }
}

/// A chunk sequence that compares equal to another is interchangeable.
proof fn lemma_chunks_cmp_congr(a: Seq<SpecChunk>, b: Seq<SpecChunk>, c: Seq<SpecChunk>)
    requires
        chunks_cmp(a, b) == 0,
    ensures
        chunks_cmp(a, c) == chunks_cmp(b, c),
    decreases a.len() + b.len() + c.len(),
{
    if a.len() == 0 && b.len() == 0 {
        assert(a =~= b);
    } else if a.len() == 0 && c.len() == 0 {
        assert(a =~= c);
        lemma_chunks_cmp_basic(a, b);
    } else if b.len() == 0 && c.len() == 0 {
        assert(b =~= c);
    } else {
        let ca = if a.len() == 0 {
            empty_chunk()
        } else {
            a[0]
        };
        let cb = if b.len() == 0 {
            empty_chunk()
        } else {
            b[0]
        };
        let cc = if c.len() == 0 {
            empty_chunk()
        } else {
            c[0]
        };
        assert(chunk_cmp(ca, cb) == 0);
        lemma_chunk_cmp_congr(ca, cb, cc);
        if chunk_cmp(ca, cc) == 0 {
            lemma_chunks_cmp_congr(
                if a.len() == 0 {
                    a
                } else {
                    a.drop_first()
                },
                if b.len() == 0 {
                    b
                } else {
                    b.drop_first()
                },
                if c.len() == 0 {
                    c
                } else {
                    c.drop_first()
                },
            );
        }
    }
}

proof fn lemma_chunks_cmp_trans(a: Seq<SpecChunk>, b: Seq<SpecChunk>, c: Seq<SpecChunk>)
    requires
        chunks_cmp(a, b) <= 0,
        chunks_cmp(b, c) <= 0,
    ensures
        chunks_cmp(a, c) <= 0,
    decreases a.len() + b.len() + c.len(),
{
    if a.len() == 0 && c.len() == 0 {
    } else {
        let ca = if a.len() == 0 {
            empty_chunk()
        } else {
            a[0]
        };
        let cb = if b.len() == 0 {
            empty_chunk()
        } else {
            b[0]
        };
        let cc = if c.len() == 0 {
            empty_chunk()
        } else {
            c[0]
        };
        lemma_chunk_cmp_basic(ca, cb);
        lemma_chunk_cmp_basic(cb, cc);
        lemma_chunk_cmp_basic(ca, cc);
        lemma_chunk_cmp_trans(ca, cb, cc);
        if chunk_cmp(ca, cb) == 0 && chunk_cmp(cb, cc) == 0 {
            lemma_chunks_cmp_trans(
                if a.len() == 0 {
                    a
                } else {
                    a.drop_first()
                },
                if b.len() == 0 {
                    b
                } else {
                    b.drop_first()
                },
                if c.len() == 0 {
                    c
                } else {
                    c.drop_first()
                },
            );
        } else if chunk_cmp(ca, cc) == 0 {
            // one strict step both ways around an equal pair: impossible
            if chunk_cmp(ca, cb) < 0 {
                lemma_chunk_cmp_congr(ca, cc, cb);
                assert(chunk_cmp(ca, cb) == chunk_cmp(cc, cb));
                assert(chunk_cmp(cb, cc) > 0);
            } else {
                lemma_chunk_cmp_congr(ca, cb, cc);
                assert(chunk_cmp(cb, cc) == 0);
            }
        }
    }
}

/// Every version compares equal to itself.
pub proof fn lemma_version_cmp_reflexive(a: SpecVersion)
    ensures
        vcmp(a, a) == 0,
{
    lemma_dcmp_basic(a.epoch, a.epoch);
    lemma_chunks_cmp_basic(a.upstream, a.upstream);
    lemma_chunks_cmp_basic(a.revision, a.revision);
}

/// The comparison is antisymmetric: swapping the arguments flips the sign,
/// and the result is one of less, equal, greater.
pub proof fn lemma_version_cmp_antisymmetric(a: SpecVersion, b: SpecVersion)
    ensures
        -1 <= vcmp(a, b) <= 1,
        vcmp(a, b) == -vcmp(b, a),
{
    lemma_dcmp_basic(a.epoch, b.epoch);
    lemma_chunks_cmp_basic(a.upstream, b.upstream);
    lemma_chunks_cmp_basic(a.revision, b.revision);
}

/// A version that compares equal to another orders the same way against any
/// third version.
pub proof fn lemma_version_cmp_congruent(a: SpecVersion, b: SpecVersion, c: SpecVersion)
    requires
        vcmp(a, b) == 0,
    ensures
        vcmp(a, c) == vcmp(b, c),
{
    lemma_dcmp_basic(a.epoch, b.epoch);
    lemma_chunks_cmp_basic(a.upstream, b.upstream);
    lemma_chunks_cmp_basic(a.revision, b.revision);
    assert(dcmp(a.epoch, b.epoch) == 0);
    assert(dcmp(a.epoch, c.epoch) == dcmp(b.epoch, c.epoch));
    lemma_chunks_cmp_congr(a.upstream, b.upstream, c.upstream);
    lemma_chunks_cmp_congr(a.revision, b.revision, c.revision);
}

/// The comparison is transitive, strictly so on either side.
pub proof fn lemma_version_cmp_transitive(a: SpecVersion, b: SpecVersion, c: SpecVersion)
    ensures
        vcmp(a, b) <= 0 && vcmp(b, c) <= 0 ==> vcmp(a, c) <= 0,
        vcmp(a, b) < 0 && vcmp(b, c) <= 0 ==> vcmp(a, c) < 0,
        vcmp(a, b) <= 0 && vcmp(b, c) < 0 ==> vcmp(a, c) < 0,
{
    lemma_version_cmp_antisymmetric(a, b);
    lemma_version_cmp_antisymmetric(b, c);
    lemma_version_cmp_antisymmetric(a, c);
    if vcmp(a, b) <= 0 && vcmp(b, c) <= 0 {
        lemma_dcmp_basic(a.epoch, b.epoch);
        lemma_dcmp_basic(b.epoch, c.epoch);
        lemma_dcmp_basic(a.epoch, c.epoch);
        lemma_dcmp_trans(a.epoch, b.epoch, c.epoch);
        if dcmp(a.epoch, b.epoch) == 0 && dcmp(b.epoch, c.epoch) == 0 {
            assert(dcmp(a.epoch, c.epoch) == 0);
            lemma_chunks_cmp_basic(a.upstream, b.upstream);
            lemma_chunks_cmp_basic(b.upstream, c.upstream);
            lemma_chunks_cmp_basic(a.upstream, c.upstream);
            lemma_chunks_cmp_trans(a.upstream, b.upstream, c.upstream);
            if chunks_cmp(a.upstream, b.upstream) == 0 && chunks_cmp(b.upstream, c.upstream)
                == 0 {
                lemma_chunks_cmp_congr(a.upstream, b.upstream, c.upstream);
                assert(chunks_cmp(a.upstream, c.upstream) == 0);
                lemma_chunks_cmp_trans(a.revision, b.revision, c.revision);
                if vcmp(a, b) < 0 || vcmp(b, c) < 0 {
                    if chunks_cmp(a.revision, c.revision) == 0 {
                        lemma_chunks_cmp_congr(a.revision, c.revision, b.revision);
                        lemma_chunks_cmp_basic(a.revision, b.revision);
                        lemma_chunks_cmp_basic(b.revision, c.revision);
                        lemma_chunks_cmp_basic(c.revision, b.revision);
                    }
                }
            } else if chunks_cmp(a.upstream, c.upstream) == 0 {
                // a strict upstream step around an equal pair: impossible
                if chunks_cmp(a.upstream, b.upstream) < 0 {
                    lemma_chunks_cmp_congr(a.upstream, c.upstream, b.upstream);
                    lemma_chunks_cmp_basic(c.upstream, b.upstream);
                } else {
                    lemma_chunks_cmp_congr(a.upstream, b.upstream, c.upstream);
                }
            }
        } else if dcmp(a.epoch, c.epoch) == 0 {
            assert(dkey(a.epoch) == dkey(c.epoch));
            if dcmp(a.epoch, b.epoch) < 0 {
                assert(dcmp(c.epoch, b.epoch) == dcmp(a.epoch, b.epoch));
                assert(dcmp(b.epoch, c.epoch) > 0);
            } else {
                assert(dcmp(a.epoch, b.epoch) == 0);
                assert(dkey(a.epoch) == dkey(b.epoch));
                assert(dcmp(b.epoch, c.epoch) == 0);
            }
        }
    }
}

/// Two well-formed chunk sequences that compare equal are the very same,
/// except that an absent part and a lone zero part stand for each other.
proof fn lemma_chunks_cmp_structural(a: Seq<SpecChunk>, b: Seq<SpecChunk>)
    requires
        chunks_wf(a),
        chunks_wf(b),
        a.len() > 0 ==> a.last().digits.len() > 0,
        b.len() > 0 ==> b.last().digits.len() > 0,
        chunks_cmp(a, b) == 0,
    ensures
        a == b || (a.len() == 0 && b == seq![zero_chunk()]) || (b.len() == 0 && a == seq![
            zero_chunk(),
        ]),
    decreases a.len() + b.len(),
{
    assert(forall|i: int| 0 <= i < a.len() ==> (#[trigger] a[i]).digits.len() > 0) by {
        assert(forall|i: int| 0 <= i < a.len() - 1 ==> (#[trigger] a[i]).digits.len() > 0);
    }
    assert(forall|i: int| 0 <= i < b.len() ==> (#[trigger] b[i]).digits.len() > 0) by {
        assert(forall|i: int| 0 <= i < b.len() - 1 ==> (#[trigger] b[i]).digits.len() > 0);
    }
    if a.len() == 0 && b.len() == 0 {
        assert(a =~= b);
    } else if a.len() > 0 && b.len() > 0 {
        lemma_chunk_cmp_basic(a[0], b[0]);
        assert(chunk_cmp(a[0], b[0]) == 0);
        assert(a[0].prefix == b[0].prefix);
        assert(dkey(a[0].digits) == dkey(b[0].digits));
        assert(a[0].digits == b[0].digits) by {
            assert(a[0].digits.len() > 0 && b[0].digits.len() > 0);
        }
        assert(a[0] == b[0]);
        let ta = a.drop_first();
        let tb = b.drop_first();
        assert(chunks_cmp(ta, tb) == 0);
        lemma_chunks_wf_tail(a);
        lemma_chunks_wf_tail(b);
        assert(forall|i: int| 0 <= i < ta.len() ==> #[trigger] ta[i] == a[i + 1]);
        assert(forall|i: int| 0 <= i < tb.len() ==> #[trigger] tb[i] == b[i + 1]);
        lemma_chunks_cmp_structural(ta, tb);
        if ta == tb {
            assert forall|i: int| 0 <= i < a.len() implies a[i] == b[i] by {
                if i > 0 {
                    assert(ta[i - 1] == a[i]);
                    assert(tb[i - 1] == b[i]);
                }
            }
            assert(a =~= b);
        } else if ta.len() == 0 && tb == seq![zero_chunk()] {
            // the second chunk of b would open without a run
            assert(b[1].prefix.len() > 0);
            assert(tb[0] == zero_chunk());
            assert(false);
        } else {
            assert(a[1].prefix.len() > 0);
            assert(ta[0] == zero_chunk());
            assert(false);
        }
    } else if a.len() == 0 {
        lemma_chunk_cmp_basic(empty_chunk(), b[0]);
        assert(chunk_cmp(empty_chunk(), b[0]) == 0);
        assert(b[0].prefix == empty_chunk().prefix);
        assert(dkey(b[0].digits) == dkey(empty_chunk().digits));
        assert(b[0].digits == seq![ZERO]) by {
            assert(b[0].digits.len() > 0);
            assert(dkey(empty_chunk().digits) == seq![ZERO]);
        }
        assert(b[0] == zero_chunk());
        let tb = b.drop_first();
        assert(chunks_cmp(a, tb) == 0);
        lemma_chunks_wf_tail(b);
        assert(forall|i: int| 0 <= i < tb.len() ==> #[trigger] tb[i] == b[i + 1]);
        lemma_chunks_cmp_structural(a, tb);
        if tb.len() == 0 {
            assert(b =~= seq![zero_chunk()]);
        } else {
            assert(tb == seq![zero_chunk()]);
            assert(b[1].prefix.len() > 0);
            assert(tb[0] == zero_chunk());
            assert(false);
        }
    } else {
        lemma_chunk_cmp_basic(a[0], empty_chunk());
        assert(chunk_cmp(a[0], empty_chunk()) == 0);
        assert(a[0].prefix == empty_chunk().prefix);
        assert(a[0].digits == seq![ZERO]) by {
            assert(a[0].digits.len() > 0);
            assert(dkey(a[0].digits) == dkey(empty_chunk().digits));
            assert(dkey(empty_chunk().digits) == seq![ZERO]);
        }
        assert(a[0] == zero_chunk());
        let ta = a.drop_first();
        assert(chunks_cmp(ta, b) == 0);
        lemma_chunks_wf_tail(a);
        assert(forall|i: int| 0 <= i < ta.len() ==> #[trigger] ta[i] == a[i + 1]);
        lemma_chunks_cmp_structural(ta, b);
        if ta.len() == 0 {
            assert(a =~= seq![zero_chunk()]);
        } else {
            assert(ta == seq![zero_chunk()]);
            assert(a[1].prefix.len() > 0);
            assert(ta[0] == zero_chunk());
            assert(false);
        }
    }
}

/// A charset without its epoch licence holds no colon, without its
/// revision licence no dash.
proof fn lemma_charset_excludes(cs: Seq<SpecChunk>, has_epoch: bool, has_rev: bool)
    requires
        upstream_charset_ok(cs, has_epoch, has_rev),
    ensures
        !has_epoch ==> !prefixes_contain(cs, COLON),
        !has_rev ==> !prefixes_contain(cs, DASH),
{
    if !has_epoch && prefixes_contain(cs, COLON) {
        let (i, j) = choose|i: int, j: int|
            0 <= i < cs.len() && 0 <= j < cs[i].prefix.len() && cs[i].prefix[j] == COLON;
        assert(upstream_char_ok(cs[i].prefix[j], has_epoch, has_rev));
    }
    if !has_rev && prefixes_contain(cs, DASH) {
        let (i, j) = choose|i: int, j: int|
            0 <= i < cs.len() && 0 <= j < cs[i].prefix.len() && cs[i].prefix[j] == DASH;
        assert(upstream_char_ok(cs[i].prefix[j], has_epoch, has_rev));
    }
}

/// Two well-formed versions that compare equal are the very same value, so
/// everything rendered from the value — the canonical text, and with it the
/// install destination `{name}---{version}` — is identical for them,
/// however their source texts were written.
pub proof fn lemma_equal_versions_same_value(u: SpecVersion, w: SpecVersion)
    requires
        version_wf(u),
        version_wf(w),
        vcmp(u, w) == 0,
    ensures
        u == w,
        spec_canonical(u) == spec_canonical(w),
{
    assert(dcmp(u.epoch, w.epoch) == 0);
    assert(chunks_cmp(u.upstream, w.upstream) == 0);
    assert(chunks_cmp(u.revision, w.revision) == 0);
    // the upstream parts are both present, so they are the same chunks
    lemma_chunks_cmp_structural(u.upstream, w.upstream);
    assert(u.upstream == w.upstream) by {
        if u.upstream.len() == 0 || w.upstream.len() == 0 {
            assert(false);
        }
    }
    // equal digit keys and the colon licence pin the epochs
    lemma_dcmp_basic(u.epoch, w.epoch);
    assert(dkey(u.epoch) == dkey(w.epoch));
    lemma_charset_excludes(u.upstream, u.epoch.len() > 0, u.revision.len() > 0);
    lemma_charset_excludes(w.upstream, w.epoch.len() > 0, w.revision.len() > 0);
    assert(u.epoch == w.epoch) by {
        if u.epoch.len() == 0 && w.epoch.len() > 0 {
            assert(w.epoch == seq![ZERO]) by {
                assert(dkey(u.epoch) == seq![ZERO]);
            }
            assert(prefixes_contain(w.upstream, COLON));
            assert(!prefixes_contain(u.upstream, COLON));
        } else if w.epoch.len() == 0 && u.epoch.len() > 0 {
            assert(u.epoch == seq![ZERO]) by {
                assert(dkey(w.epoch) == seq![ZERO]);
            }
            assert(prefixes_contain(u.upstream, COLON));
            assert(!prefixes_contain(w.upstream, COLON));
        } else if u.epoch.len() == 0 && w.epoch.len() == 0 {
            assert(u.epoch =~= w.epoch);
        }
    }
    // the dash licence pins whether a zero revision is written out
    lemma_chunks_cmp_structural(u.revision, w.revision);
    assert(u.revision == w.revision) by {
        if u.revision.len() == 0 && w.revision == seq![zero_chunk()] {
            assert(prefixes_contain(w.upstream, DASH));
            assert(!prefixes_contain(u.upstream, DASH));
        } else if w.revision.len() == 0 && u.revision == seq![zero_chunk()] {
            assert(prefixes_contain(u.upstream, DASH));
            assert(!prefixes_contain(w.upstream, DASH));
        }
    }
    assert(u == w);
}

/// `strip_zeros` keeps exactly the tail that a forward scan of leading
/// zeros leaves: `k` zeros dropped, at least one character kept.
pub proof fn lemma_strip_zeros_at(d: Seq<u8>, k: int)
    requires
        0 <= k,
        d.len() == 0 ==> k == 0,
        d.len() > 0 ==> k < d.len(),
        forall|j: int| 0 <= j < k ==> d[j] == ZERO,
        k + 1 < d.len() ==> d[k] != ZERO,
    ensures
        strip_zeros(d) == d.subrange(k, d.len() as int),
    decreases d.len(),
{
    if d.len() <= 1 {
        assert(k == 0);
        assert(d.subrange(0, d.len() as int) =~= d);
    } else if d[0] == ZERO {
        assert(k >= 1) by {
            if k == 0 {
                assert(d[0] != ZERO);
            }
        }
        lemma_strip_zeros_at(d.drop_first(), k - 1);
        assert(d.drop_first().subrange(k - 1, d.drop_first().len() as int) =~= d.subrange(
            k,
            d.len() as int,
        ));
    } else {
        assert(k == 0) by {
            if k > 0 {
                assert(d[0] == ZERO);
            }
        }
        assert(d.subrange(0, d.len() as int) =~= d);
    }
}

/// Stripping preserves digit-ness, non-emptiness, and yields normal form.
pub proof fn lemma_strip_zeros_wf(d: Seq<u8>)
    requires
        all_digits(d),
    ensures
        digits_wf(strip_zeros(d)),
        strip_zeros(d).len() > 0 <==> d.len() > 0,
    decreases d.len(),
{
    if d.len() > 1 && d[0] == ZERO {
        assert(forall|j: int|
            0 <= j < d.drop_first().len() ==> spec_is_digit(#[trigger] d.drop_first()[j]));
        lemma_strip_zeros_wf(d.drop_first());
    }
}

/// The chunk decomposition of a part is well-formed, and a part that opens
/// with a non-digit opens its first chunk with a non-empty run.
pub proof fn lemma_chunks_of_wf(s: Seq<u8>)
    ensures
        chunks_wf(chunks_of(s)),
        s.len() > 0 ==> chunks_of(s).len() > 0,
        s.len() > 0 && !spec_is_digit(s[0]) ==> chunks_of(s)[0].prefix.len() > 0,
    decreases s.len(),
{
    if s.len() > 0 {
        lemma_nondigit_run(s);
        let np = nondigit_run(s);
        let after = s.subrange(np, s.len() as int);
        lemma_digit_run(after);
        let nd = digit_run(after);
        assert(forall|j: int| 0 <= j < nd ==> spec_is_digit(#[trigger] s.subrange(
            np,
            np + nd,
        )[j]));
        lemma_strip_zeros_wf(s.subrange(np, np + nd));
        let rest = s.subrange(np + nd, s.len() as int);
        lemma_chunks_of_wf(rest);
        let c0 = SpecChunk {
            prefix: s.subrange(0, np),
            digits: strip_zeros(s.subrange(np, np + nd)),
        };
        let cs = chunks_of(s);
        assert(cs == seq![c0] + chunks_of(rest));
        // the first chunk is not empty
        assert(np + nd > 0);
        // a non-empty rest implies the digit run was non-empty and the rest
        // opens with a non-digit
        if rest.len() > 0 {
            assert(np + nd < s.len());
            assert(nd > 0) by {
                if nd == 0 {
                    assert(np < s.len());
                    assert(spec_is_digit(s[np]));
                    assert(after[0] == s[np]);
                    assert(digit_run(after) > 0);
                }
            }
            assert(!spec_is_digit(after[nd]));
            assert(rest[0] == s[np + nd]);
            assert(chunks_of(rest)[0].prefix.len() > 0);
        }
        assert forall|i: int| 0 <= i < cs.len() implies chunk_wf(#[trigger] cs[i]) by {
            if i > 0 {
                assert(cs[i] == chunks_of(rest)[i - 1]);
            }
        }
        assert forall|i: int| 1 <= i < cs.len() implies (#[trigger] cs[i]).prefix.len() > 0 by {
            assert(cs[i] == chunks_of(rest)[i - 1]);
            if i == 1 {
                assert(rest.len() > 0);
            }
        }
        assert forall|i: int| 0 <= i < cs.len() - 1 implies (#[trigger] cs[i]).digits.len()
            > 0 by {
            if i == 0 {
                assert(rest.len() > 0);
                assert(strip_zeros(s.subrange(np, np + nd)).len() > 0);
            } else {
                assert(cs[i] == chunks_of(rest)[i - 1]);
            }
        }
        assert forall|i: int| 0 <= i < cs.len() implies (#[trigger] cs[i]).prefix.len()
            + cs[i].digits.len() > 0 by {
            if i == 0 {
                if np == 0 {
                    assert(spec_is_digit(s[0]));
                    assert(after == s) by {
                        assert(s.subrange(0, s.len() as int) =~= s);
                    }
                    assert(nd > 0);
                    assert(strip_zeros(s.subrange(np, np + nd)).len() > 0);
                }
            } else {
                assert(cs[i] == chunks_of(rest)[i - 1]);
            }
        }
    }
}

/// Every byte of every chunk run of `chunks_of(s)` is a byte of `s`, so a
/// property of all bytes of `s` carries to the runs.
pub proof fn lemma_chunks_of_chars(s: Seq<u8>, p: spec_fn(u8) -> bool)
    requires
        forall|k: int| 0 <= k < s.len() ==> p(s[k]),
    ensures
        forall|i: int, j: int|
            0 <= i < chunks_of(s).len() && 0 <= j < chunks_of(s)[i].prefix.len() ==> p(
                #[trigger] chunks_of(s)[i].prefix[j],
            ),
    decreases s.len(),
{
    if s.len() > 0 {
        lemma_nondigit_run(s);
        let np = nondigit_run(s);
        let after = s.subrange(np, s.len() as int);
        lemma_digit_run(after);
        let nd = digit_run(after);
        let rest = s.subrange(np + nd, s.len() as int);
        assert(forall|k: int| 0 <= k < rest.len() ==> p(#[trigger] rest[k]));
        lemma_chunks_of_chars(rest, p);
        let cs = chunks_of(s);
        assert forall|i: int, j: int|
            0 <= i < cs.len() && 0 <= j < cs[i].prefix.len() implies p(
            #[trigger] cs[i].prefix[j],
        ) by {
            if i == 0 {
                assert(cs[0].prefix[j] == s[j]);
            } else {
                assert(cs[i] == chunks_of(rest)[i - 1]);
            }
        }
    }
}

/// The text of a chunk sequence: each chunk's runs, concatenated.
pub open spec fn render_chunks(cs: Seq<SpecChunk>) -> Seq<u8>
    decreases cs.len(),
{
    if cs.len() == 0 {
        Seq::empty()
    } else {
        cs[0].prefix + cs[0].digits + render_chunks(cs.drop_first())
    }
}

/// The canonical text of a version: epoch (when present) before a colon,
/// upstream, revision (when present) after a dash.
pub open spec fn spec_canonical(v: SpecVersion) -> Seq<u8> {
    (if v.epoch.len() > 0 {
        v.epoch + seq![COLON]
    } else {
        Seq::empty()
    }) + render_chunks(v.upstream) + (if v.revision.len() > 0 {
        seq![DASH] + render_chunks(v.revision)
    } else {
        Seq::empty()
    })
}

/// One run of non-digit characters followed by one run of digits.
#[derive(Debug)]
pub struct Chunk {
    pub prefix: Vec<u8>,
    pub digits: Vec<u8>,
}

impl View for Chunk {
    type V = SpecChunk;

    open spec fn view(&self) -> SpecChunk {
        SpecChunk { prefix: self.prefix@, digits: self.digits@ }
    }
}

/// The values of a sequence of chunks.
pub open spec fn view_chunks(s: Seq<Chunk>) -> Seq<SpecChunk> {
    s.map_values(|c: Chunk| c@)
}

/// A structured Debian-style package version, ordered by the comparison
/// rules, equal to another iff the comparison says so.
#[derive(Debug)]
pub struct Version {
    epoch: Vec<u8>,
    upstream: Vec<Chunk>,
    revision: Vec<Chunk>,
}

impl View for Version {
    type V = SpecVersion;

    closed spec fn view(&self) -> SpecVersion {
        SpecVersion {
            epoch: self.epoch@,
            upstream: view_chunks(self.upstream@),
            revision: view_chunks(self.revision@),
        }
    }
}

/// Decomposes a version part into its chunks.
fn parse_chunks(part: &[u8]) -> (r: Vec<Chunk>)
    ensures
        view_chunks(r@) == chunks_of(part@),
{
    let mut out: Vec<Chunk> = Vec::new();
    let mut pos: usize = 0;
    proof {
        assert(part@.subrange(0, part@.len() as int) =~= part@);
        assert(view_chunks(out@) =~= Seq::<SpecChunk>::empty());
    }
    while pos < part.len()
        invariant
            pos <= part@.len(),
            chunks_of(part@) == view_chunks(out@) + chunks_of(
                part@.subrange(pos as int, part@.len() as int),
            ),
        decreases part@.len() - pos,
    {
        let ghost suffix = part@.subrange(pos as int, part@.len() as int);
        let mut p: usize = pos;
        while p < part.len() && !is_digit(part[p])
            invariant
                pos <= p <= part@.len(),
                forall|j: int| pos <= j < p ==> !spec_is_digit(v_at(part@, j)),
            decreases part@.len() - p,
        {
            p += 1;
        }
        let mut q: usize = p;
        while q < part.len() && is_digit(part[q])
            invariant
                p <= q <= part@.len(),
                forall|j: int| p <= j < q ==> spec_is_digit(v_at(part@, j)),
            decreases part@.len() - q,
        {
            q += 1;
        }
        let mut z: usize = p;
        while z < q && q - z > 1 && part[z] == ZERO
            invariant
                p <= z,
                q > p ==> z < q,
                q == p ==> z == p,
                q <= part@.len(),
                forall|j: int| p <= j < z ==> v_at(part@, j) == ZERO,
            decreases q - z,
        {
            z += 1;
        }
        proof {
            lemma_nondigit_run(suffix);
            assert(forall|j: int| 0 <= j < suffix.len() ==> suffix[j] == v_at(part@, pos + j));
            assert(nondigit_run(suffix) == p - pos) by {
                let r = nondigit_run(suffix);
                if r < p - pos {
                    assert(spec_is_digit(suffix[r]));
                    assert(!spec_is_digit(v_at(part@, pos + r)));
                } else if r > p - pos {
                    assert(!spec_is_digit(suffix[p - pos]));
                    assert(p < part@.len());
                    assert(spec_is_digit(v_at(part@, p as int)));
                }
            }
            let after = suffix.subrange(p - pos, suffix.len() as int);
            lemma_digit_run(after);
            assert(forall|j: int| 0 <= j < after.len() ==> after[j] == v_at(part@, p + j));
            assert(digit_run(after) == q - p) by {
                let r = digit_run(after);
                if r < q - p {
                    assert(!spec_is_digit(after[r]));
                    assert(spec_is_digit(v_at(part@, p + r)));
                } else if r > q - p {
                    assert(spec_is_digit(after[q - p]));
                    assert(q < part@.len());
                    assert(!spec_is_digit(v_at(part@, q as int)));
                }
            }
        }
        let prefix = copy_range(part, pos, p);
        let digits = copy_range(part, z, q);
        let ghost pre = view_chunks(out@);
        out.push(Chunk { prefix, digits });
        proof {
            let np = p - pos;
            let nd = q - p;
            let run = suffix.subrange(np, np + nd);
            assert(run =~= part@.subrange(p as int, q as int));
            lemma_strip_zeros_at(run, z - p);
            assert(run.subrange(z - p, run.len() as int) =~= part@.subrange(z as int, q as int));
            assert(suffix.subrange(0, np) =~= part@.subrange(pos as int, p as int));
            assert(suffix.subrange(np + nd, suffix.len() as int) =~= part@.subrange(
                q as int,
                part@.len() as int,
            ));
            let c0 = SpecChunk {
                prefix: suffix.subrange(0, np),
                digits: strip_zeros(run),
            };
            assert(chunks_of(suffix) == seq![c0] + chunks_of(
                part@.subrange(q as int, part@.len() as int),
            ));
            assert(view_chunks(out@) =~= pre + seq![c0]);
            assert(chunks_of(part@) =~= view_chunks(out@) + chunks_of(
                part@.subrange(q as int, part@.len() as int),
            ));
        }
        pos = q;
    }
    proof {
        assert(chunks_of(part@.subrange(pos as int, part@.len() as int)) =~= Seq::<
            SpecChunk,
        >::empty());
        assert(chunks_of(part@) =~= view_chunks(out@));
    }
    out
}

/// The byte of `s` at `i` (a trigger anchor for loop invariants).
pub open spec fn v_at(s: Seq<u8>, i: int) -> u8 {
    s[i]
}

/// Whether every byte of the upstream part is a digit or an allowed
/// upstream character.
fn check_upstream_chars(up: &[u8], has_epoch: bool, has_rev: bool) -> (r: bool)
    ensures
        r == upstream_text_ok(up@, has_epoch, has_rev),
{
    let mut i: usize = 0;
    while i < up.len()
        invariant
            i <= up@.len(),
            forall|j: int|
                0 <= j < i ==> spec_is_digit(#[trigger] up@[j]) || upstream_char_ok(
                    up@[j],
                    has_epoch,
                    has_rev,
                ),
        decreases up@.len() - i,
    {
        let c = up[i];
        let ok = is_digit(c) || crate::text::is_alpha(c) || c == DOT || c == PLUS || c == TILDE
            || (c == COLON && has_epoch) || (c == DASH && has_rev);
        if !ok {
            assert(up@[i as int] == c);
            assert(!(spec_is_digit(c) || upstream_char_ok(c, has_epoch, has_rev)));
            return false;
        }
        i += 1;
    }
    true
}

/// Whether every byte of the revision part is a digit or an allowed
/// revision character.
fn check_revision_chars(rev: &[u8]) -> (r: bool)
    ensures
        r == revision_text_ok(rev@),
{
    let mut i: usize = 0;
    while i < rev.len()
        invariant
            i <= rev@.len(),
            forall|j: int|
                0 <= j < i ==> spec_is_digit(#[trigger] rev@[j]) || revision_char_ok(rev@[j]),
        decreases rev@.len() - i,
    {
        let c = rev[i];
        let ok = is_digit(c) || crate::text::is_alpha(c) || c == DOT || c == PLUS || c == TILDE;
        if !ok {
            assert(rev@[i as int] == c);
            assert(!(spec_is_digit(c) || revision_char_ok(c)));
            return false;
        }
        i += 1;
    }
    true
}

/// Normalizing keeps the shape, the prefixes and well-formedness, and
/// leaves every digit run non-empty.
pub proof fn lemma_norm_chunks_props(cs: Seq<SpecChunk>)
    requires
        chunks_wf(cs),
    ensures
        chunks_wf(norm_chunks(cs)),
        norm_chunks(cs).len() == cs.len(),
        norm_chunks(cs).len() > 0 ==> norm_chunks(cs).last().digits.len() > 0,
        forall|i: int| 0 <= i < cs.len() ==> (#[trigger] norm_chunks(cs)[i]).prefix == cs[i].prefix,
        forall|i: int|
            0 <= i < cs.len() - 1 ==> (#[trigger] norm_chunks(cs)[i]).digits == cs[i].digits,
{
    let n = norm_chunks(cs);
    if cs.len() > 0 && cs.last().digits.len() == 0 {
        assert(forall|i: int| 0 <= i < cs.len() - 1 ==> #[trigger] n[i] == cs[i]);
        assert(n.last().digits == seq![ZERO]);
        assert(digits_wf(seq![ZERO]));
        assert forall|i: int| 0 <= i < n.len() implies chunk_wf(#[trigger] n[i]) by {
            if i < cs.len() - 1 {
                assert(n[i] == cs[i]);
            }
        }
    }
}

/// Fixes an empty trailing digit run to a zero, in place.
fn normalize_last(cs: &mut Vec<Chunk>)
    ensures
        view_chunks(final(cs)@) == norm_chunks(view_chunks(old(cs)@)),
{
    let n = cs.len();
    let ghost pre = view_chunks(cs@);
    if n > 0 && cs[n - 1].digits.len() == 0 {
        let mut c = cs.pop().unwrap();
        c.digits.push(ZERO);
        let ghost fixed = c@;
        cs.push(c);
        proof {
            assert(fixed.digits =~= seq![ZERO]);
            assert(fixed.prefix == pre.last().prefix);
            assert(view_chunks(cs@) =~= pre.update(
                pre.len() - 1,
                SpecChunk { prefix: pre.last().prefix, digits: seq![ZERO] },
            ));
        }
    } else {
        proof {
            assert(view_chunks(cs@) =~= norm_chunks(pre));
        }
    }
}

/// Whether any non-digit run of the chunks holds the byte `b`, computed.
fn prefixes_have(cs: &Vec<Chunk>, b: u8) -> (r: bool)
    ensures
        r == prefixes_contain(view_chunks(cs@), b),
{
    let ghost v = view_chunks(cs@);
    let mut i: usize = 0;
    while i < cs.len()
        invariant
            i <= cs@.len(),
            v == view_chunks(cs@),
            forall|i2: int, j2: int|
                0 <= i2 < i && 0 <= j2 < v[i2].prefix.len() ==> #[trigger] v[i2].prefix[j2] != b,
        decreases cs@.len() - i,
    {
        match crate::text::scan_byte(cs[i].prefix.as_slice(), 0, b) {
            Some(j) => {
                proof {
                    assert(v[i as int].prefix[j as int] == b);
                    assert(prefixes_contain(v, b));
                }
                return true;
            },
            None => {
                proof {
                    assert(forall|j2: int|
                        0 <= j2 < v[i as int].prefix.len() ==> #[trigger] v[i as int].prefix[j2]
                            != b);
                }
            },
        }
        i += 1;
    }
    proof {
        assert(!prefixes_contain(v, b)) by {
            if prefixes_contain(v, b) {
                let (i2, j2) = choose|i2: int, j2: int|
                    0 <= i2 < v.len() && 0 <= j2 < v[i2].prefix.len() && v[i2].prefix[j2] == b;
                assert(v[i2].prefix[j2] != b);
            }
        }
    }
    false
}

impl Version {
    /// Parses an exact version text (no surrounding whitespace allowed).
    #[verifier::loop_isolation(false)]
    #[verifier::rlimit(60)]
    pub fn from_bytes(b: &[u8]) -> (r: Result<Version, PkgError>)
        ensures
            match r {
                Ok(v) => spec_parse(b@) == Some(v@) && version_wf(v@),
                Err(e) => spec_parse(b@) is None && e@ == SpecPkgError::InvalidVersion,
            },
    {
        let n = b.len();
        let colon = scan_byte(b, 0, COLON);
        proof {
            crate::text::lemma_find_byte(b@, COLON);
            match colon {
                Some(i) => {
                    assert(crate::text::find_byte(b@, COLON) == Some(i as int)) by {
                        match crate::text::find_byte(b@, COLON) {
                            Some(k) => {
                                if k < i {
                                    assert(b@[k] == COLON);
                                } else if k > i {
                                    assert(b@[i as int] == COLON);
                                }
                            },
                            None => {
                                assert(b@[i as int] == COLON);
                            },
                        }
                    }
                },
                None => {
                    assert(crate::text::find_byte(b@, COLON) is None) by {
                        match crate::text::find_byte(b@, COLON) {
                            Some(k) => {
                                assert(b@[k] == COLON);
                            },
                            None => {},
                        }
                    }
                },
            }
        }
        let has_epoch: bool;
        let epoch_end: usize;
        let rest_start: usize;
        match colon {
            Some(i) => {
                has_epoch = true;
                epoch_end = i;
                rest_start = i + 1;
            },
            None => {
                has_epoch = false;
                epoch_end = 0;
                rest_start = 0;
            },
        }
        let ghost epoch_seq = if has_epoch {
            b@.subrange(0, epoch_end as int)
        } else {
            Seq::<u8>::empty()
        };
        if has_epoch {
            if epoch_end == 0 {
                return Err(PkgError::InvalidVersion);
            }
            let mut i: usize = 0;
            while i < epoch_end
                invariant
                    i <= epoch_end <= b@.len(),
                    forall|j: int| 0 <= j < i ==> spec_is_digit(#[trigger] b@[j]),
                decreases epoch_end - i,
            {
                if !is_digit(b[i]) {
                    proof {
                        assert(epoch_seq[i as int] == b@[i as int]);
                        assert(!all_digits(epoch_seq));
                    }
                    return Err(PkgError::InvalidVersion);
                }
                i += 1;
            }
            proof {
                assert(forall|j: int|
                    0 <= j < epoch_seq.len() ==> #[trigger] epoch_seq[j] == b@[j]);
                assert(all_digits(epoch_seq));
            }
        }
        let rest = vstd::slice::slice_subrange(b, rest_start, n);
        let ghost rest_seq = b@.subrange(rest_start as int, n as int);
        let dash = rscan_byte(rest, DASH);
        proof {
            crate::text::lemma_rfind_byte(rest@, DASH);
            match dash {
                Some(j) => {
                    assert(crate::text::rfind_byte(rest@, DASH) == Some(j as int)) by {
                        match crate::text::rfind_byte(rest@, DASH) {
                            Some(k) => {
                                if k < j {
                                    assert(rest@[j as int] == DASH);
                                } else if k > j {
                                    assert(rest@[k] == DASH);
                                }
                            },
                            None => {
                                assert(rest@[j as int] == DASH);
                            },
                        }
                    }
                },
                None => {
                    assert(crate::text::rfind_byte(rest@, DASH) is None) by {
                        match crate::text::rfind_byte(rest@, DASH) {
                            Some(k) => {
                                assert(rest@[k] == DASH);
                            },
                            None => {},
                        }
                    }
                },
            }
        }
        let has_rev: bool;
        let up_end: usize;
        let rev_start: usize;
        match dash {
            Some(j) => {
                has_rev = true;
                up_end = j;
                rev_start = j + 1;
            },
            None => {
                has_rev = false;
                up_end = rest.len();
                rev_start = rest.len();
            },
        }
        let up = vstd::slice::slice_subrange(rest, 0, up_end);
        let rev = vstd::slice::slice_subrange(rest, rev_start, rest.len());
        let ghost sp_colon = crate::text::find_byte(b@, COLON);
        let ghost sp_rest = if sp_colon is Some {
            b@.subrange(sp_colon->Some_0 + 1, b@.len() as int)
        } else {
            b@
        };
        let ghost sp_dash = crate::text::rfind_byte(sp_rest, DASH);
        let ghost sp_up = if sp_dash is Some {
            sp_rest.subrange(0, sp_dash->Some_0)
        } else {
            sp_rest
        };
        let ghost sp_rev = if sp_dash is Some {
            sp_rest.subrange(sp_dash->Some_0 + 1, sp_rest.len() as int)
        } else {
            Seq::<u8>::empty()
        };
        proof {
            assert(rest@ =~= sp_rest);
            assert(sp_dash == crate::text::rfind_byte(rest@, DASH));
            assert(up@ =~= sp_up);
            assert(rev@ =~= sp_rev);
        }
        if up.len() == 0 {
            return Err(PkgError::InvalidVersion);
        }
        if has_rev && rev.len() == 0 {
            return Err(PkgError::InvalidVersion);
        }
        if !check_upstream_chars(up, has_epoch, has_rev) {
            proof {
                assert(sp_up == up@);
                assert(spec_parse(b@) is None);
            }
            return Err(PkgError::InvalidVersion);
        }
        if !check_revision_chars(rev) {
            proof {
                assert(sp_rev == rev@);
                assert(spec_parse(b@) is None);
            }
            return Err(PkgError::InvalidVersion);
        }
        let mut upstream = parse_chunks(up);
        normalize_last(&mut upstream);
        let ghost upv = view_chunks(upstream@);
        let mut revision = parse_chunks(rev);
        normalize_last(&mut revision);
        let ghost rev_normed = view_chunks(revision@);
        let mut z: usize = 0;
        while z < epoch_end && epoch_end - z > 1 && b[z] == ZERO
            invariant
                z <= epoch_end <= b@.len(),
                epoch_end > 0 ==> z < epoch_end,
                forall|j: int| 0 <= j < z ==> #[trigger] b@[j] == ZERO,
            decreases epoch_end - z,
        {
            z += 1;
        }
        let mut epoch = copy_range(b, z, epoch_end);
        proof {
            assert(forall|j: int| 0 <= j < epoch_seq.len() ==> #[trigger] epoch_seq[j] == b@[j]);
            lemma_strip_zeros_at(epoch_seq, z as int);
            assert(epoch@ =~= epoch_seq.subrange(z as int, epoch_seq.len() as int));
        }
        // a zero epoch is erased unless the upstream carries a colon
        let up_has_colon = prefixes_have(&upstream, COLON);
        let epoch_is_zero = epoch.len() == 1 && epoch[0] == ZERO;
        proof {
            assert(epoch_is_zero <==> strip_zeros(epoch_seq) == seq![ZERO]) by {
                if epoch_is_zero {
                    assert(epoch@ =~= seq![ZERO]);
                } else {
                    if strip_zeros(epoch_seq) == seq![ZERO] {
                        assert(epoch@.len() == 1 && epoch@[0] == ZERO);
                    }
                }
            }
        }
        if epoch_is_zero && !up_has_colon {
            epoch = Vec::new();
        }
        proof {
            assert(epoch@ =~= norm_epoch(epoch_seq, upv));
        }
        // a zero revision is erased unless the upstream carries a dash
        let up_has_dash = prefixes_have(&upstream, DASH);
        let rev_is_zero = revision.len() == 1 && revision[0].prefix.len() == 0
            && revision[0].digits.len() == 1 && revision[0].digits[0] == ZERO;
        proof {
            assert(rev_is_zero <==> rev_normed == seq![zero_chunk()]) by {
                if rev_is_zero {
                    assert(rev_normed[0].prefix =~= zero_chunk().prefix);
                    assert(rev_normed[0].digits =~= zero_chunk().digits);
                    assert(rev_normed =~= seq![zero_chunk()]);
                } else {
                    if rev_normed == seq![zero_chunk()] {
                        assert(rev_normed[0].prefix.len() == 0);
                        assert(rev_normed[0].digits == seq![ZERO]);
                        assert(rev_normed[0].digits.len() == 1 && rev_normed[0].digits[0] == ZERO);
                    }
                }
            }
        }
        if rev_is_zero && !up_has_dash {
            revision = Vec::new();
        }
        proof {
            if rev_is_zero && !prefixes_contain(upv, DASH) {
                assert(view_chunks(revision@) =~= Seq::<SpecChunk>::empty());
            }
            assert(view_chunks(revision@) =~= norm_revision(rev_normed, upv));
        }
        let v = Version { epoch, upstream, revision };
        proof {
            lemma_strip_zeros_wf(epoch_seq);
            lemma_chunks_of_wf(up@);
            lemma_chunks_of_wf(rev@);
            lemma_norm_chunks_props(chunks_of(up@));
            lemma_norm_chunks_props(chunks_of(rev@));
            lemma_chunks_of_chars(
                up@,
                |c: u8| spec_is_digit(c) || upstream_char_ok(c, has_epoch, has_rev),
            );
            lemma_chunks_of_chars(rev@, |c: u8| spec_is_digit(c) || revision_char_ok(c));
            assert(v@.upstream == norm_chunks(chunks_of(up@)));
            assert(v@.revision == norm_revision(norm_chunks(chunks_of(rev@)), v@.upstream));
            assert(v@.epoch == norm_epoch(epoch_seq, v@.upstream));
            // the raw runs of the normalized upstream satisfy the text's
            // character discipline
            assert forall|i2: int, j2: int|
                0 <= i2 < v@.upstream.len() && 0 <= j2
                    < v@.upstream[i2].prefix.len() implies (!spec_is_digit(
                #[trigger] v@.upstream[i2].prefix[j2],
            ) && upstream_char_ok(v@.upstream[i2].prefix[j2], has_epoch, has_rev)) by {
                let cu = chunks_of(up@);
                assert(v@.upstream[i2].prefix == cu[i2].prefix);
                let p = |c: u8| spec_is_digit(c) || upstream_char_ok(c, has_epoch, has_rev);
                assert(p(cu[i2].prefix[j2]));
                assert(chunk_wf(cu[i2]));
            }
            assert forall|i2: int, j2: int|
                0 <= i2 < v@.revision.len() && 0 <= j2
                    < v@.revision[i2].prefix.len() implies revision_char_ok(
                #[trigger] v@.revision[i2].prefix[j2],
            ) by {
                let cr = chunks_of(rev@);
                assert(v@.revision[i2] == norm_chunks(cr)[i2]);
                assert(v@.revision[i2].prefix == cr[i2].prefix);
                let p = |c: u8| spec_is_digit(c) || revision_char_ok(c);
                assert(p(cr[i2].prefix[j2]));
                assert(chunk_wf(cr[i2]));
            }
            // the epoch and revision presence flags, after normalization
            let eflag = v@.epoch.len() > 0;
            let rflag = v@.revision.len() > 0;
            assert(upstream_charset_ok(v@.upstream, eflag, rflag)) by {
                assert forall|i2: int, j2: int|
                    0 <= i2 < v@.upstream.len() && 0 <= j2
                        < v@.upstream[i2].prefix.len() implies upstream_char_ok(
                    #[trigger] v@.upstream[i2].prefix[j2],
                    eflag,
                    rflag,
                ) by {
                    let c = v@.upstream[i2].prefix[j2];
                    if c == COLON {
                        assert(prefixes_contain(v@.upstream, COLON));
                        assert(v@.epoch == strip_zeros(epoch_seq));
                        assert(has_epoch);
                        assert(epoch_seq.len() > 0);
                        assert(v@.epoch.len() > 0);
                    } else if c == DASH {
                        assert(prefixes_contain(v@.upstream, DASH));
                        assert(v@.revision == norm_chunks(chunks_of(rev@)));
                        assert(has_rev);
                        assert(rev@.len() > 0);
                        assert(chunks_of(rev@).len() > 0);
                        assert(v@.revision.len() > 0);
                    }
                }
            }
            assert(revision_charset_ok(v@.revision));
            assert(chunks_wf(v@.upstream));
            assert(chunks_wf(v@.revision)) by {
                if v@.revision.len() > 0 {
                    assert(v@.revision == norm_chunks(chunks_of(rev@)));
                }
            }
            assert(digits_wf(v@.epoch)) by {
                if v@.epoch.len() > 0 {
                    assert(v@.epoch == strip_zeros(epoch_seq));
                }
            }
            assert(v@.upstream.len() > 0);
            assert(v@.revision.len() > 0 ==> v@.revision.last().digits.len() > 0) by {
                if v@.revision.len() > 0 {
                    assert(v@.revision == norm_chunks(chunks_of(rev@)));
                }
            }
            assert(v@.epoch == seq![ZERO] ==> prefixes_contain(v@.upstream, COLON)) by {
                if v@.epoch == seq![ZERO] {
                    assert(epoch_is_zero);
                    assert(up_has_colon) by {
                        if !up_has_colon {
                            assert(v@.epoch.len() == 0);
                        }
                    }
                }
            }
            assert(v@.revision == seq![zero_chunk()] ==> prefixes_contain(v@.upstream, DASH)) by {
                if v@.revision == seq![zero_chunk()] {
                    assert(v@.revision.len() == 1);
                    assert(rev_normed == seq![zero_chunk()]) by {
                        assert(v@.revision == norm_revision(rev_normed, upv));
                    }
                    assert(up_has_dash) by {
                        if !up_has_dash {
                            assert(v@.revision.len() == 0);
                        }
                    }
                }
            }
            assert(version_wf(v@));
            assert(spec_parse(b@) == Some(v@));
        }
        Ok(v)
    }

    /// Parses a version text after trimming surrounding ASCII whitespace,
    /// as the stanza fields hand it over.
    pub fn new(s: String) -> (r: Result<Version, PkgError>)
        ensures
            ({
                let t = spec_trim(vstd::utf8::encode_utf8(s@));
                match r {
                    Ok(v) => spec_parse(t) == Some(v@) && version_wf(v@),
                    Err(e) => spec_parse(t) is None && e@ == SpecPkgError::InvalidVersion,
                }
            }),
    {
        let trimmed = trim_bytes(s.as_str().as_bytes());
        Version::from_bytes(trimmed.as_slice())
    }

    /// The canonical text of this version. Versions that compare equal
    /// hold the same value, so they render to the very same text, whatever
    /// their source texts looked like.
    pub fn canonical(&self) -> (r: Vec<u8>)
        ensures
            r@ == spec_canonical(self@),
    {
        let mut out: Vec<u8> = Vec::new();
        if self.epoch.len() > 0 {
            crate::text::append_bytes(&mut out, self.epoch.as_slice());
            out.push(COLON);
            assert(out@ =~= self@.epoch + seq![COLON]);
        }
        let ghost base = out@;
        render_into(&mut out, &self.upstream);
        if self.revision.len() > 0 {
            out.push(DASH);
            let ghost base2 = out@;
            render_into(&mut out, &self.revision);
            assert(out@ =~= spec_canonical(self@));
        } else {
            assert(view_chunks(self.revision@) =~= Seq::<SpecChunk>::empty());
            assert(out@ =~= spec_canonical(self@));
        }
        out
    }
}

/// `render_chunks` distributes over concatenation.
proof fn lemma_render_chunks_append(a: Seq<SpecChunk>, b: Seq<SpecChunk>)
    ensures
        render_chunks(a + b) == render_chunks(a) + render_chunks(b),
    decreases a.len(),
{
    if a.len() == 0 {
        assert(a + b =~= b);
        assert(render_chunks(a) + render_chunks(b) =~= render_chunks(b));
    } else {
        lemma_render_chunks_append(a.drop_first(), b);
        assert((a + b).drop_first() =~= a.drop_first() + b);
        assert((a + b)[0] == a[0]);
        assert(render_chunks(a + b) =~= render_chunks(a) + render_chunks(b));
    }
}

/// Appends the text of the chunks to `out`.
fn render_into(out: &mut Vec<u8>, cs: &Vec<Chunk>)
    ensures
        final(out)@ == old(out)@ + render_chunks(view_chunks(cs@)),
{
    let mut i: usize = 0;
    proof {
        assert(view_chunks(cs@).subrange(0, 0) =~= Seq::<SpecChunk>::empty());
        assert(out@ =~= out@ + render_chunks(view_chunks(cs@).subrange(0, 0)));
    }
    while i < cs.len()
        invariant
            i <= cs@.len(),
            out@ == old(out)@ + render_chunks(view_chunks(cs@).subrange(0, i as int)),
        decreases cs@.len() - i,
    {
        let c = &cs[i];
        crate::text::append_bytes(out, c.prefix.as_slice());
        crate::text::append_bytes(out, c.digits.as_slice());
        proof {
            let cv = view_chunks(cs@);
            let single = seq![cv[i as int]];
            assert(cv.subrange(0, i + 1 as int) =~= cv.subrange(0, i as int) + single);
            lemma_render_chunks_append(cv.subrange(0, i as int), single);
            assert(single.drop_first() =~= Seq::<SpecChunk>::empty());
            assert(render_chunks(single.drop_first()) == Seq::<u8>::empty());
            assert(render_chunks(single) == single[0].prefix + single[0].digits + render_chunks(
                single.drop_first(),
            ));
            assert(cv[i as int] == cs@[i as int]@);
            assert(out@ =~= old(out)@ + render_chunks(cv.subrange(0, i + 1 as int)));
        }
        i += 1;
    }
    proof {
        assert(view_chunks(cs@).subrange(0, cs@.len() as int) =~= view_chunks(cs@));
    }
}

/// The rank of a non-digit byte, computed.
fn sym_rank(b: u8) -> (r: i32)
    ensures
        r as int == sym_ord(b),
{
    if b == TILDE {
        -1
    } else if crate::text::is_alpha(b) {
        b as i32
    } else {
        (b as i32) + 256
    }
}

/// Compares two non-digit runs.
#[verifier::loop_isolation(false)]
fn nd_compare(a: &[u8], b: &[u8]) -> (r: i8)
    ensures
        r as int == ndcmp(a@, b@),
{
    let mut i: usize = 0;
    proof {
        assert(a@.subrange(0, a@.len() as int) =~= a@);
        assert(b@.subrange(0, b@.len() as int) =~= b@);
    }
    while i < a.len() && i < b.len()
        invariant
            i <= a@.len(),
            i <= b@.len(),
            ndcmp(a@, b@) == ndcmp(
                a@.subrange(i as int, a@.len() as int),
                b@.subrange(i as int, b@.len() as int),
            ),
        decreases a@.len() - i,
    {
        let ghost sa = a@.subrange(i as int, a@.len() as int);
        let ghost sb = b@.subrange(i as int, b@.len() as int);
        let ra = sym_rank(a[i]);
        let rb = sym_rank(b[i]);
        proof {
            assert(sa[0] == a@[i as int]);
            assert(sb[0] == b@[i as int]);
        }
        if ra < rb {
            return -1;
        }
        if ra > rb {
            return 1;
        }
        proof {
            assert(sa.drop_first() =~= a@.subrange(i + 1 as int, a@.len() as int));
            assert(sb.drop_first() =~= b@.subrange(i + 1 as int, b@.len() as int));
        }
        i += 1;
    }
    let ghost sa = a@.subrange(i as int, a@.len() as int);
    let ghost sb = b@.subrange(i as int, b@.len() as int);
    if i == a.len() && i == b.len() {
        proof {
            assert(sa.len() == 0 && sb.len() == 0);
        }
        0
    } else if i == a.len() {
        let rb = sym_rank(b[i]);
        proof {
            assert(sb[0] == b@[i as int]);
            lemma_sym_ord_nonzero(b@[i as int]);
        }
        if rb < 0 {
            1
        } else {
            -1
        }
    } else {
        let ra = sym_rank(a[i]);
        proof {
            assert(sa[0] == a@[i as int]);
            lemma_sym_ord_nonzero(a@[i as int]);
        }
        if ra < 0 {
            -1
        } else {
            1
        }
    }
}

/// Compares two texts of equal length byte by byte.
#[verifier::loop_isolation(false)]
fn lex_compare(a: &[u8], b: &[u8]) -> (r: i8)
    requires
        a@.len() == b@.len(),
    ensures
        r as int == lexcmp(a@, b@),
{
    let mut i: usize = 0;
    proof {
        assert(a@.subrange(0, a@.len() as int) =~= a@);
        assert(b@.subrange(0, b@.len() as int) =~= b@);
    }
    while i < a.len()
        invariant
            i <= a@.len(),
            lexcmp(a@, b@) == lexcmp(
                a@.subrange(i as int, a@.len() as int),
                b@.subrange(i as int, b@.len() as int),
            ),
        decreases a@.len() - i,
    {
        let ghost sa = a@.subrange(i as int, a@.len() as int);
        let ghost sb = b@.subrange(i as int, b@.len() as int);
        proof {
            assert(sa[0] == a@[i as int]);
            assert(sb[0] == b@[i as int]);
        }
        if a[i] < b[i] {
            return -1;
        }
        if a[i] > b[i] {
            return 1;
        }
        proof {
            assert(sa.drop_first() =~= a@.subrange(i + 1 as int, a@.len() as int));
            assert(sb.drop_first() =~= b@.subrange(i + 1 as int, b@.len() as int));
        }
        i += 1;
    }
    proof {
        assert(a@.subrange(i as int, a@.len() as int).len() == 0);
    }
    0
}

/// Compares two digit runs numerically, an absent run counting as zero.
fn dig_compare(a: &[u8], b: &[u8]) -> (r: i8)
    ensures
        r as int == dcmp(a@, b@),
{
    if a.len() == 0 && b.len() == 0 {
        proof {
            assert(dkey(a@) =~= dkey(b@));
            lemma_lexcmp_basic(dkey(a@), dkey(b@));
        }
        0
    } else if a.len() == 0 {
        // a single zero against b
        if b.len() > 1 {
            proof {
                assert(dkey(a@).len() == 1);
                assert(dkey(b@).len() == b@.len());
                assert(dcmp(a@, b@) == -1);
            }
            -1
        } else {
            let c = b[0];
            proof {
                assert(dkey(a@) =~= seq![ZERO]);
                assert(dkey(b@) == b@);
                assert(dkey(a@)[0] == ZERO);
                assert(dkey(b@)[0] == b@[0]);
                assert(dkey(a@).drop_first() =~= Seq::<u8>::empty());
                assert(dkey(b@).drop_first() =~= Seq::<u8>::empty());
            }
            proof {
                assert(dkey(a@).len() == 1 && dkey(b@).len() == 1);
                assert(dcmp(a@, b@) == lexcmp(dkey(a@), dkey(b@)));
                if ZERO < c {
                    assert(lexcmp(dkey(a@), dkey(b@)) == -1);
                } else if ZERO > c {
                    assert(lexcmp(dkey(a@), dkey(b@)) == 1);
                } else {
                    assert(lexcmp(dkey(a@), dkey(b@)) == lexcmp(
                        dkey(a@).drop_first(),
                        dkey(b@).drop_first(),
                    ));
                    assert(lexcmp(dkey(a@).drop_first(), dkey(b@).drop_first()) == 0);
                }
            }
            if ZERO < c {
                -1
            } else if ZERO > c {
                1
            } else {
                0
            }
        }
    } else if b.len() == 0 {
        if a.len() > 1 {
            proof {
                assert(dkey(b@).len() == 1);
                assert(dkey(a@).len() == a@.len());
                assert(dcmp(a@, b@) == 1);
            }
            1
        } else {
            let c = a[0];
            proof {
                assert(dkey(b@) =~= seq![ZERO]);
                assert(dkey(a@) == a@);
                assert(dkey(b@)[0] == ZERO);
                assert(dkey(a@)[0] == a@[0]);
                assert(dkey(a@).drop_first() =~= Seq::<u8>::empty());
                assert(dkey(b@).drop_first() =~= Seq::<u8>::empty());
            }
            proof {
                assert(dkey(a@).len() == 1 && dkey(b@).len() == 1);
                assert(dcmp(a@, b@) == lexcmp(dkey(a@), dkey(b@)));
                if c < ZERO {
                    assert(lexcmp(dkey(a@), dkey(b@)) == -1);
                } else if c > ZERO {
                    assert(lexcmp(dkey(a@), dkey(b@)) == 1);
                } else {
                    assert(lexcmp(dkey(a@), dkey(b@)) == lexcmp(
                        dkey(a@).drop_first(),
                        dkey(b@).drop_first(),
                    ));
                    assert(lexcmp(dkey(a@).drop_first(), dkey(b@).drop_first()) == 0);
                }
            }
            if c < ZERO {
                -1
            } else if c > ZERO {
                1
            } else {
                0
            }
        }
    } else if a.len() < b.len() {
        proof {
            assert(dkey(a@) == a@ && dkey(b@) == b@);
            assert(dcmp(a@, b@) == -1);
        }
        -1
    } else if a.len() > b.len() {
        proof {
            assert(dkey(a@) == a@ && dkey(b@) == b@);
            assert(dcmp(a@, b@) == 1);
        }
        1
    } else {
        let r = lex_compare(a, b);
        proof {
            assert(dkey(a@) == a@ && dkey(b@) == b@);
            assert(dcmp(a@, b@) == lexcmp(a@, b@));
        }
        r
    }
}

/// Compares two chunks.
fn chunk_compare(x: &Chunk, y: &Chunk) -> (r: i8)
    ensures
        r as int == chunk_cmp(x@, y@),
{
    let p = nd_compare(x.prefix.as_slice(), y.prefix.as_slice());
    if p != 0 {
        p
    } else {
        dig_compare(x.digits.as_slice(), y.digits.as_slice())
    }
}

/// Compares two chunk sequences, padding the shorter with empty chunks.
#[verifier::loop_isolation(false)]
fn chunks_compare(a: &Vec<Chunk>, b: &Vec<Chunk>) -> (r: i8)
    ensures
        r as int == chunks_cmp(view_chunks(a@), view_chunks(b@)),
{
    let pad = Chunk { prefix: Vec::new(), digits: Vec::new() };
    proof {
        assert(pad.prefix@ =~= Seq::<u8>::empty());
        assert(pad.digits@ =~= Seq::<u8>::empty());
        assert(pad@ == empty_chunk());
    }
    let ghost va = view_chunks(a@);
    let ghost vb = view_chunks(b@);
    let mut i: usize = 0;
    proof {
        assert(va.subrange(0, va.len() as int) =~= va);
        assert(vb.subrange(0, vb.len() as int) =~= vb);
    }
    while i < a.len() || i < b.len()
        invariant
            chunks_cmp(va, vb) == chunks_cmp(
                va.subrange(if i <= va.len() { i as int } else { va.len() as int }, va.len() as int),
                vb.subrange(if i <= vb.len() { i as int } else { vb.len() as int }, vb.len() as int),
            ),
        decreases a@.len() + b@.len() - i,
    {
        let ghost sa = va.subrange(if i <= va.len() { i as int } else { va.len() as int }, va.len() as int);
        let ghost sb = vb.subrange(if i <= vb.len() { i as int } else { vb.len() as int }, vb.len() as int);
        let ca: &Chunk = if i < a.len() { &a[i] } else { &pad };
        let cb: &Chunk = if i < b.len() { &b[i] } else { &pad };
        proof {
            if i < a.len() {
                assert(sa[0] == va[i as int]);
                assert(va[i as int] == a@[i as int]@);
            } else {
                assert(sa.len() == 0);
            }
            if i < b.len() {
                assert(sb[0] == vb[i as int]);
                assert(vb[i as int] == b@[i as int]@);
            } else {
                assert(sb.len() == 0);
            }
        }
        let c = chunk_compare(ca, cb);
        if c != 0 {
            return c;
        }
        proof {
            if sa.len() > 0 {
                assert(sa.drop_first() =~= va.subrange(
                    if i + 1 <= va.len() { i + 1 as int } else { va.len() as int },
                    va.len() as int,
                ));
            } else {
                assert(sa =~= va.subrange(
                    if i + 1 <= va.len() { i + 1 as int } else { va.len() as int },
                    va.len() as int,
                ));
            }
            if sb.len() > 0 {
                assert(sb.drop_first() =~= vb.subrange(
                    if i + 1 <= vb.len() { i + 1 as int } else { vb.len() as int },
                    vb.len() as int,
                ));
            } else {
                assert(sb =~= vb.subrange(
                    if i + 1 <= vb.len() { i + 1 as int } else { vb.len() as int },
                    vb.len() as int,
                ));
            }
        }
        i += 1;
    }
    proof {
        assert(va.subrange(va.len() as int, va.len() as int).len() == 0);
        assert(vb.subrange(vb.len() as int, vb.len() as int).len() == 0);
    }
    0
}

impl Version {
    /// Compares two versions: negative for earlier, zero for equal,
    /// positive for later.
    pub fn compare(&self, other: &Version) -> (r: i8)
        ensures
            r as int == vcmp(self@, other@),
    {
        let e = dig_compare(self.epoch.as_slice(), other.epoch.as_slice());
        if e != 0 {
            return e;
        }
        let u = chunks_compare(&self.upstream, &other.upstream);
        if u != 0 {
            return u;
        }
        chunks_compare(&self.revision, &other.revision)
    }

    /// Whether this version is strictly later than `other`.
    pub fn gt(&self, other: &Version) -> (r: bool)
        ensures
            r == (vcmp(self@, other@) > 0),
    {
        self.compare(other) > 0
    }

    /// Whether this version is later than or equal to `other`.
    pub fn ge(&self, other: &Version) -> (r: bool)
        ensures
            r == (vcmp(self@, other@) >= 0),
    {
        self.compare(other) >= 0
    }

    /// Whether this version is strictly earlier than `other`.
    pub fn lt(&self, other: &Version) -> (r: bool)
        ensures
            r == (vcmp(self@, other@) < 0),
    {
        self.compare(other) < 0
    }

    /// Whether this version is earlier than or equal to `other`.
    pub fn le(&self, other: &Version) -> (r: bool)
        ensures
            r == (vcmp(self@, other@) <= 0),
    {
        self.compare(other) <= 0
    }
}

impl PartialEq for Version {
    /// Two versions are equal iff the comparison says so, whatever their
    /// source texts were.
    fn eq(&self, other: &Version) -> (r: bool) {
        self.compare(other) == 0
    }
}

impl vstd::std_specs::cmp::PartialEqSpecImpl for Version {
    open spec fn obeys_eq_spec() -> bool {
        true
    }

    open spec fn eq_spec(&self, other: &Version) -> bool {
        vcmp(self.view(), other.view()) == 0
    }
}

impl Eq for Version {

}

/// `find_byte` returns exactly a known first occurrence.
proof fn lemma_find_byte_at(s: Seq<u8>, c: u8, i: int)
    requires
        0 <= i < s.len(),
        s[i] == c,
        forall|j: int| 0 <= j < i ==> s[j] != c,
    ensures
        crate::text::find_byte(s, c) == Some(i),
{
    crate::text::lemma_find_byte(s, c);
    match crate::text::find_byte(s, c) {
        Some(k) => {
            if k < i {
                assert(s[k] == c);
            } else if k > i {
                assert(s[i] == c);
            }
        },
        None => {
            assert(s[i] == c);
        },
    }
}

proof fn lemma_find_byte_none(s: Seq<u8>, c: u8)
    requires
        forall|j: int| 0 <= j < s.len() ==> s[j] != c,
    ensures
        crate::text::find_byte(s, c) is None,
{
    crate::text::lemma_find_byte(s, c);
    match crate::text::find_byte(s, c) {
        Some(k) => {
            assert(s[k] == c);
        },
        None => {},
    }
}

/// `rfind_byte` returns exactly a known last occurrence.
proof fn lemma_rfind_byte_at(s: Seq<u8>, c: u8, i: int)
    requires
        0 <= i < s.len(),
        s[i] == c,
        forall|j: int| i < j < s.len() ==> s[j] != c,
    ensures
        crate::text::rfind_byte(s, c) == Some(i),
{
    crate::text::lemma_rfind_byte(s, c);
    match crate::text::rfind_byte(s, c) {
        Some(k) => {
            if k > i {
                assert(s[k] == c);
            } else if k < i {
                assert(s[i] == c);
            }
        },
        None => {
            assert(s[i] == c);
        },
    }
}

proof fn lemma_rfind_byte_none(s: Seq<u8>, c: u8)
    requires
        forall|j: int| 0 <= j < s.len() ==> s[j] != c,
    ensures
        crate::text::rfind_byte(s, c) is None,
{
    crate::text::lemma_rfind_byte(s, c);
    match crate::text::rfind_byte(s, c) {
        Some(k) => {
            assert(s[k] == c);
        },
        None => {},
    }
}

/// `nondigit_run` equals a known maximal run length.
proof fn lemma_nondigit_run_at(s: Seq<u8>, k: int)
    requires
        0 <= k <= s.len(),
        forall|j: int| 0 <= j < k ==> !spec_is_digit(#[trigger] s[j]),
        k < s.len() ==> spec_is_digit(s[k]),
    ensures
        nondigit_run(s) == k,
{
    lemma_nondigit_run(s);
    let r = nondigit_run(s);
    if r < k {
        assert(spec_is_digit(s[r]));
        assert(!spec_is_digit(s[r]));
    } else if r > k {
        assert(!spec_is_digit(s[k]));
        assert(k < s.len());
        assert(spec_is_digit(s[k]));
    }
}

/// `digit_run` equals a known maximal run length.
proof fn lemma_digit_run_at(s: Seq<u8>, k: int)
    requires
        0 <= k <= s.len(),
        forall|j: int| 0 <= j < k ==> spec_is_digit(#[trigger] s[j]),
        k < s.len() ==> !spec_is_digit(s[k]),
    ensures
        digit_run(s) == k,
{
    lemma_digit_run(s);
    let r = digit_run(s);
    if r < k {
        assert(spec_is_digit(s[r]));
    } else if r > k {
        assert(spec_is_digit(s[k]));
    }
}

/// Stripping a digit run in normal form changes nothing.
proof fn lemma_strip_zeros_id(d: Seq<u8>)
    requires
        digits_wf(d),
    ensures
        strip_zeros(d) == d,
{
}

/// A property of all run bytes of a chunk sequence holds of all bytes of
/// its text.
proof fn lemma_render_chunks_chars(cs: Seq<SpecChunk>, p: spec_fn(u8) -> bool)
    requires
        forall|i: int, j: int|
            0 <= i < cs.len() && 0 <= j < cs[i].prefix.len() ==> p(#[trigger] cs[i].prefix[j]),
        forall|i: int, j: int|
            0 <= i < cs.len() && 0 <= j < cs[i].digits.len() ==> p(#[trigger] cs[i].digits[j]),
    ensures
        forall|k: int| 0 <= k < render_chunks(cs).len() ==> p(#[trigger] render_chunks(cs)[k]),
    decreases cs.len(),
{
    if cs.len() > 0 {
        let tail = cs.drop_first();
        assert(forall|i: int, j: int|
            0 <= i < tail.len() && 0 <= j < tail[i].prefix.len() ==> #[trigger] tail[i].prefix[j]
                == cs[i + 1].prefix[j]);
        assert(forall|i: int, j: int|
            0 <= i < tail.len() && 0 <= j < tail[i].digits.len() ==> #[trigger] tail[i].digits[j]
                == cs[i + 1].digits[j]);
        lemma_render_chunks_chars(tail, p);
        let r = render_chunks(cs);
        assert forall|k: int| 0 <= k < r.len() implies p(#[trigger] r[k]) by {
            let pl = cs[0].prefix.len() as int;
            let dl = cs[0].digits.len() as int;
            if k < pl {
                assert(r[k] == cs[0].prefix[k]);
            } else if k < pl + dl {
                assert(r[k] == cs[0].digits[k - pl]);
            } else {
                assert(r[k] == render_chunks(tail)[k - pl - dl]);
            }
        }
    }
}

/// A well-formed chunk sequence stays well-formed without its first chunk.
proof fn lemma_chunks_wf_tail(cs: Seq<SpecChunk>)
    requires
        chunks_wf(cs),
        cs.len() > 0,
    ensures
        chunks_wf(cs.drop_first()),
{
    let t = cs.drop_first();
    assert(forall|i: int| 0 <= i < t.len() ==> #[trigger] t[i] == cs[i + 1]);
}

/// The text of a non-empty well-formed chunk sequence is non-empty.
proof fn lemma_render_nonempty(cs: Seq<SpecChunk>)
    requires
        chunks_wf(cs),
        cs.len() > 0,
    ensures
        render_chunks(cs).len() > 0,
{
    assert(cs[0].prefix.len() + cs[0].digits.len() > 0);
}

/// Re-chunking the text of a well-formed chunk sequence gives it back.
proof fn lemma_chunks_of_render(cs: Seq<SpecChunk>)
    requires
        chunks_wf(cs),
    ensures
        chunks_of(render_chunks(cs)) == cs,
    decreases cs.len(),
{
    if cs.len() == 0 {
        assert(chunks_of(render_chunks(cs)) =~= cs);
    } else {
        let c0 = cs[0];
        let tail = cs.drop_first();
        let s = render_chunks(cs);
        let pl = c0.prefix.len() as int;
        let dl = c0.digits.len() as int;
        lemma_chunks_wf_tail(cs);
        // the leading non-digit run is exactly the first chunk prefix
        assert forall|j: int| 0 <= j < pl implies !spec_is_digit(#[trigger] s[j]) by {
            assert(s[j] == c0.prefix[j]);
            assert(chunk_wf(c0));
        }
        if dl > 0 {
            assert(spec_is_digit(s[pl])) by {
                assert(s[pl] == c0.digits[0]);
            }
            lemma_nondigit_run_at(s, pl);
        } else {
            // a chunk without digits is the last chunk
            assert(tail.len() == 0) by {
                if tail.len() > 0 {
                    assert(cs[0].digits.len() > 0);
                }
            }
            assert(render_chunks(tail).len() == 0);
            assert(s.len() == pl);
            lemma_nondigit_run_at(s, pl);
        }
        // the digit run after it is exactly the first chunk digits
        let after = s.subrange(pl, s.len() as int);
        assert forall|j: int| 0 <= j < dl implies spec_is_digit(#[trigger] after[j]) by {
            assert(after[j] == s[pl + j]);
            assert(s[pl + j] == c0.digits[j]);
            assert(chunk_wf(c0));
        }
        if pl + dl < s.len() {
            assert(tail.len() > 0) by {
                if tail.len() == 0 {
                    assert(render_chunks(tail).len() == 0);
                }
            }
            lemma_render_nonempty(tail);
            assert(!spec_is_digit(after[dl])) by {
                assert(after[dl] == s[pl + dl]);
                assert(s[pl + dl] == render_chunks(tail)[0]);
                assert(render_chunks(tail)[0] == tail[0].prefix[0]) by {
                    assert(tail[0].prefix.len() > 0) by {
                        assert(cs[1].prefix.len() > 0);
                        assert(tail[0] == cs[1]);
                    }
                }
                assert(chunk_wf(tail[0]));
            }
            lemma_digit_run_at(after, dl);
        } else {
            assert(after.len() == dl);
            lemma_digit_run_at(after, dl);
        }
        // so the first chunk is rebuilt unchanged
        assert(s.subrange(0, pl) =~= c0.prefix);
        assert(s.subrange(pl, pl + dl) =~= c0.digits);
        assert(chunk_wf(c0));
        lemma_strip_zeros_id(c0.digits);
        // and the rest of the text is the tail's text
        assert(s.subrange(pl + dl, s.len() as int) =~= render_chunks(tail));
        lemma_chunks_of_render(tail);
        assert(chunks_of(s) == seq![
            SpecChunk { prefix: c0.prefix, digits: c0.digits },
        ] + tail);
        assert(SpecChunk { prefix: c0.prefix, digits: c0.digits } == c0);
        assert(seq![c0] + tail =~= cs);
    }
}

/// Round trip: parsing the canonical text of a well-formed version gives
/// back the very same value, so equal versions render to texts that parse
/// equal, whatever their source texts looked like.
#[verifier::rlimit(80)]
pub proof fn lemma_canonical_round_trip(v: SpecVersion)
    requires
        version_wf(v),
    ensures
        spec_parse(spec_canonical(v)) == Some(v),
{
    let s = spec_canonical(v);
    let e = v.epoch;
    let ru = render_chunks(v.upstream);
    let rr = render_chunks(v.revision);
    let head = if e.len() > 0 {
        e + seq![COLON]
    } else {
        Seq::<u8>::empty()
    };
    let d = if v.revision.len() > 0 {
        seq![DASH] + rr
    } else {
        Seq::<u8>::empty()
    };
    let rest = ru + d;
    assert(s == head + ru + d);
    let has_epoch = e.len() > 0;
    let has_rev = v.revision.len() > 0;
    // character facts about the rendered parts
    lemma_render_chunks_chars(
        v.upstream,
        |b: u8| spec_is_digit(b) || upstream_char_ok(b, has_epoch, has_rev),
    );
    lemma_render_chunks_chars(v.revision, |b: u8| spec_is_digit(b) || revision_char_ok(b));
    assert(forall|k: int|
        0 <= k < ru.len() ==> spec_is_digit(#[trigger] ru[k]) || upstream_char_ok(
            ru[k],
            has_epoch,
            has_rev,
        ));
    assert(forall|k: int|
        0 <= k < rr.len() ==> spec_is_digit(#[trigger] rr[k]) || revision_char_ok(rr[k]));
    // the epoch is found at the first colon, or there is none
    if has_epoch {
        assert(s[e.len() as int] == COLON) by {
            assert(head[e.len() as int] == COLON);
            assert(s[e.len() as int] == head[e.len() as int]);
        }
        assert forall|j: int| 0 <= j < e.len() implies s[j] != COLON by {
            assert(s[j] == e[j]);
            assert(spec_is_digit(e[j]));
        }
        lemma_find_byte_at(s, COLON, e.len() as int);
        assert(s.subrange(0, e.len() as int) =~= e);
        assert(s.subrange(e.len() as int + 1, s.len() as int) =~= rest);
    } else {
        assert forall|j: int| 0 <= j < s.len() implies s[j] != COLON by {
            if j < ru.len() {
                assert(s[j] == ru[j]);
                assert(!upstream_char_ok(COLON, false, has_rev));
                assert(!spec_is_digit(COLON));
            } else {
                assert(s[j] == d[j - ru.len()]);
                if j - ru.len() == 0 {
                    assert(d[0] == DASH);
                } else {
                    assert(d[j - ru.len()] == rr[j - ru.len() - 1]);
                    assert(!revision_char_ok(COLON));
                }
            }
        }
        lemma_find_byte_none(s, COLON);
        assert(s =~= rest);
    }
    // the revision is found after the last dash, or there is none
    if has_rev {
        assert(rest[ru.len() as int] == DASH) by {
            assert(d[0] == DASH);
        }
        assert forall|j: int| ru.len() < j < rest.len() implies rest[j] != DASH by {
            assert(rest[j] == rr[j - ru.len() - 1]);
            assert(!revision_char_ok(DASH));
            assert(!spec_is_digit(DASH));
        }
        lemma_rfind_byte_at(rest, DASH, ru.len() as int);
        assert(rest.subrange(0, ru.len() as int) =~= ru);
        assert(rest.subrange(ru.len() as int + 1, rest.len() as int) =~= rr);
    } else {
        assert(rest =~= ru);
        assert forall|j: int| 0 <= j < rest.len() implies rest[j] != DASH by {
            assert(rest[j] == ru[j]);
            assert(!upstream_char_ok(DASH, has_epoch, false));
            assert(!spec_is_digit(DASH));
        }
        lemma_rfind_byte_none(rest, DASH);
    }
    // the upstream text is non-empty, and the revision text when present
    lemma_render_nonempty(v.upstream);
    if has_rev {
        lemma_render_nonempty(v.revision);
    }
    // both parts pass their character checks
    assert(upstream_text_ok(ru, has_epoch, has_rev));
    assert(revision_text_ok(rr));
    // each part re-chunks to the stored chunks, the epoch is already stripped
    lemma_chunks_of_render(v.upstream);
    lemma_chunks_of_render(v.revision);
    lemma_strip_zeros_id(e);
    if !has_rev {
        assert(rr.len() == 0) by {
            assert(render_chunks(v.revision) =~= Seq::<u8>::empty());
        }
        assert(chunks_of(Seq::<u8>::empty()) =~= Seq::<SpecChunk>::empty());
        assert(v.revision =~= Seq::<SpecChunk>::empty());
    }
    // walk the parse of the canonical text step by step
    let sp_colon = crate::text::find_byte(s, COLON);
    assert(has_epoch ==> sp_colon == Some(e.len() as int));
    assert(!has_epoch ==> sp_colon is None);
    let sp_epoch = if sp_colon is Some {
        s.subrange(0, sp_colon->Some_0)
    } else {
        Seq::<u8>::empty()
    };
    let sp_rest = if sp_colon is Some {
        s.subrange(sp_colon->Some_0 + 1, s.len() as int)
    } else {
        s
    };
    assert(sp_epoch == e) by {
        if has_epoch {
        } else {
            assert(sp_epoch =~= e);
        }
    }
    assert(sp_rest == rest);
    assert(!(sp_colon is Some && !(sp_epoch.len() > 0 && all_digits(sp_epoch))));
    let sp_dash = crate::text::rfind_byte(sp_rest, DASH);
    assert(has_rev ==> sp_dash == Some(ru.len() as int));
    assert(!has_rev ==> sp_dash is None);
    let sp_up = if sp_dash is Some {
        sp_rest.subrange(0, sp_dash->Some_0)
    } else {
        sp_rest
    };
    let sp_rev = if sp_dash is Some {
        sp_rest.subrange(sp_dash->Some_0 + 1, sp_rest.len() as int)
    } else {
        Seq::<u8>::empty()
    };
    assert(sp_up == ru);
    assert(has_rev ==> sp_rev == rr);
    assert(sp_up.len() > 0);
    assert(!(sp_dash is Some && sp_rev.len() == 0));
    assert(upstream_text_ok(sp_up, sp_colon is Some, sp_dash is Some));
    assert(revision_text_ok(sp_rev)) by {
        if !has_rev {
            assert(sp_rev.len() == 0);
        }
    }
    assert(strip_zeros(sp_epoch) == e);
    assert(chunks_of(sp_up) == v.upstream);
    assert(chunks_of(sp_rev) == v.revision) by {
        if !has_rev {
            assert(sp_rev =~= rr);
        }
    }
    assert(spec_parse(s) == Some(SpecVersion { epoch: e, upstream: v.upstream, revision: v.revision }));
    assert(SpecVersion { epoch: v.epoch, upstream: v.upstream, revision: v.revision } == v);
}

} // verus!
