//! Byte-string utilities shared by the parsers and the command builders.
//!
//! All textual values of this library are byte strings (`Vec<u8>` with a
//! `Seq<u8>` view); `&str` appears only at the boundary, where ASCII
//! literals are turned into their byte sequences.

use vstd::prelude::*;

verus! {

pub const NL: u8 = 10;

pub const CR: u8 = 13;

pub const SPACE: u8 = 32;

pub const COLON: u8 = 58;

pub const DASH: u8 = 45;

pub const TILDE: u8 = 126;

pub const ZERO: u8 = 48;

pub const NINE: u8 = 57;

/// The byte sequence of an ASCII character sequence, one byte per character.
pub open spec fn lit_bytes(s: Seq<char>) -> Seq<u8> {
    s.map_values(|c: char| c as u8)
}

/// The bytes of an ASCII string slice.
pub fn ascii_bytes<'a>(s: &'a str) -> (r: &'a [u8])
    requires
        s.is_ascii(),
    ensures
        r@ == lit_bytes(s@),
{
    proof {
        broadcast use vstd::string::is_ascii_spec_bytes;
    }
    let r = s.as_bytes();
    assert(r@ =~= lit_bytes(s@));
    r
}

/// Appends `src` to `dst`, element by element.
pub fn append_bytes(dst: &mut Vec<u8>, src: &[u8])
    ensures
        final(dst)@ == old(dst)@ + src@,
{
    let mut i: usize = 0;
    while i < src.len()
        invariant
            i <= src@.len(),
            dst@ == old(dst)@ + src@.subrange(0, i as int),
        decreases src@.len() - i,
    {
        dst.push(src[i]);
        assert(dst@ =~= old(dst)@ + src@.subrange(0, i + 1 as int));
        i += 1;
    }
    assert(src@.subrange(0, src@.len() as int) =~= src@);
}

/// The concatenation of two byte strings as a fresh vector.
pub fn concat_bytes(a: &[u8], b: &[u8]) -> (r: Vec<u8>)
    ensures
        r@ == a@ + b@,
{
    let mut r: Vec<u8> = Vec::new();
    append_bytes(&mut r, a);
    append_bytes(&mut r, b);
    assert(r@ =~= a@ + b@);
    r
}

/// Copies `v[from..to]` into a fresh vector.
pub fn copy_range(v: &[u8], from: usize, to: usize) -> (r: Vec<u8>)
    requires
        from <= to <= v@.len(),
    ensures
        r@ == v@.subrange(from as int, to as int),
{
    let mut r: Vec<u8> = Vec::new();
    let mut i: usize = from;
    while i < to
        invariant
            from <= i <= to <= v@.len(),
            r@ == v@.subrange(from as int, i as int),
        decreases to - i,
    {
        r.push(v[i]);
        assert(r@ =~= v@.subrange(from as int, i + 1 as int));
        i += 1;
    }
    r
}

/// Whether two byte strings hold the same bytes.
pub fn bytes_eq(a: &[u8], b: &[u8]) -> (r: bool)
    ensures
        r == (a@ == b@),
{
    if a.len() != b.len() {
        assert(a@ != b@) by {
            assert(a@.len() != b@.len());
        }
        return false;
    }
    let mut i: usize = 0;
    while i < a.len()
        invariant
            i <= a@.len(),
            a@.len() == b@.len(),
            a@.subrange(0, i as int) == b@.subrange(0, i as int),
        decreases a@.len() - i,
    {
        if a[i] != b[i] {
            assert(a@[i as int] != b@[i as int]);
            return false;
        }
        assert(a@.subrange(0, i + 1 as int) =~= a@.subrange(0, i as int).push(a@[i as int]));
        assert(b@.subrange(0, i + 1 as int) =~= b@.subrange(0, i as int).push(b@[i as int]));
        i += 1;
    }
    assert(a@ =~= a@.subrange(0, a@.len() as int));
    assert(b@ =~= b@.subrange(0, b@.len() as int));
    true
}

/// Whether `p` is a prefix of `s`.
pub open spec fn is_prefix(p: Seq<u8>, s: Seq<u8>) -> bool {
    p.len() <= s.len() && s.subrange(0, p.len() as int) == p
}

/// Whether the byte string `v` starts with `p`.
pub fn starts_with(v: &[u8], p: &[u8]) -> (r: bool)
    ensures
        r == is_prefix(p@, v@),
{
    if p.len() > v.len() {
        return false;
    }
    let mut i: usize = 0;
    while i < p.len()
        invariant
            i <= p@.len() <= v@.len(),
            v@.subrange(0, i as int) == p@.subrange(0, i as int),
        decreases p@.len() - i,
    {
        if v[i] != p[i] {
            assert(v@.subrange(0, p@.len() as int)[i as int] != p@[i as int]);
            return false;
        }
        assert(v@.subrange(0, i + 1 as int) =~= v@.subrange(0, i as int).push(v@[i as int]));
        assert(p@.subrange(0, i + 1 as int) =~= p@.subrange(0, i as int).push(p@[i as int]));
        i += 1;
    }
    assert(p@.subrange(0, p@.len() as int) =~= p@);
    true
}

/// Index of the first occurrence of `c` in `s`, if any.
pub open spec fn find_byte(s: Seq<u8>, c: u8) -> Option<int>
    decreases s.len(),
{
    if s.len() == 0 {
        None
    } else if s[0] == c {
        Some(0)
    } else {
        match find_byte(s.drop_first(), c) {
            Some(i) => Some(i + 1),
            None => None,
        }
    }
}

/// `find_byte` finds exactly the first occurrence.
pub proof fn lemma_find_byte(s: Seq<u8>, c: u8)
    ensures
        match find_byte(s, c) {
            Some(i) => 0 <= i < s.len() && s[i] == c && forall|j: int| 0 <= j < i ==> s[j] != c,
            None => forall|j: int| 0 <= j < s.len() ==> s[j] != c,
        },
    decreases s.len(),
{
    if s.len() > 0 && s[0] != c {
        lemma_find_byte(s.drop_first(), c);
        assert forall|j: int| 0 <= j < s.len() && (match find_byte(s.drop_first(), c) {
            Some(i) => j < i + 1,
            None => true,
        }) implies s[j] != c by {
            if j > 0 {
                assert(s.drop_first()[j - 1] == s[j]);
            }
        }
    }
}

/// Index of the last occurrence of `c` in `s`, if any.
pub open spec fn rfind_byte(s: Seq<u8>, c: u8) -> Option<int>
    decreases s.len(),
{
    if s.len() == 0 {
        None
    } else if s[s.len() - 1] == c {
        Some(s.len() - 1)
    } else {
        rfind_byte(s.drop_last(), c)
    }
}

/// `rfind_byte` finds exactly the last occurrence.
pub proof fn lemma_rfind_byte(s: Seq<u8>, c: u8)
    ensures
        match rfind_byte(s, c) {
            Some(i) => 0 <= i < s.len() && s[i] == c && forall|j: int|
                i < j < s.len() ==> s[j] != c,
            None => forall|j: int| 0 <= j < s.len() ==> s[j] != c,
        },
    decreases s.len(),
{
    if s.len() > 0 && s[s.len() - 1] != c {
        lemma_rfind_byte(s.drop_last(), c);
        assert(forall|j: int| 0 <= j < s.len() - 1 ==> s.drop_last()[j] == s[j]);
    }
}

/// Finds the first occurrence of `c` in `v` at or after `from`.
pub fn scan_byte(v: &[u8], from: usize, c: u8) -> (r: Option<usize>)
    requires
        from <= v@.len(),
    ensures
        match r {
            Some(i) => from <= i < v@.len() && v@[i as int] == c && forall|j: int|
                from <= j < i ==> v@[j] != c,
            None => forall|j: int| from <= j < v@.len() ==> v@[j] != c,
        },
{
    let mut i: usize = from;
    while i < v.len()
        invariant
            from <= i <= v@.len(),
            forall|j: int| from <= j < i ==> v@[j] != c,
        decreases v@.len() - i,
    {
        if v[i] == c {
            return Some(i);
        }
        i += 1;
    }
    None
}

/// Finds the last occurrence of `c` in `v`, scanning backwards.
pub fn rscan_byte(v: &[u8], c: u8) -> (r: Option<usize>)
    ensures
        match r {
            Some(i) => i < v@.len() && v@[i as int] == c && forall|j: int|
                i < j < v@.len() ==> v@[j] != c,
            None => forall|j: int| 0 <= j < v@.len() ==> v@[j] != c,
        },
{
    let mut i: usize = v.len();
    while i > 0
        invariant
            i <= v@.len(),
            forall|j: int| i <= j < v@.len() ==> v@[j] != c,
        decreases i,
    {
        i -= 1;
        if v[i] == c {
            return Some(i);
        }
    }
    None
}

/// `s` with leading ASCII whitespace removed.
pub open spec fn trim_start(s: Seq<u8>) -> Seq<u8>
    decreases s.len(),
{
    if s.len() > 0 && spec_is_space(s[0]) {
        trim_start(s.drop_first())
    } else {
        s
    }
}

/// `s` with trailing ASCII whitespace removed.
pub open spec fn trim_end(s: Seq<u8>) -> Seq<u8>
    decreases s.len(),
{
    if s.len() > 0 && spec_is_space(s[s.len() - 1]) {
        trim_end(s.drop_last())
    } else {
        s
    }
}

/// `s` with leading and trailing ASCII whitespace removed.
pub open spec fn spec_trim(s: Seq<u8>) -> Seq<u8> {
    trim_end(trim_start(s))
}

proof fn lemma_trim_start_char(s: Seq<u8>, a: int)
    requires
        0 <= a <= s.len(),
        forall|j: int| 0 <= j < a ==> spec_is_space(s[j]),
        a < s.len() ==> !spec_is_space(s[a]),
    ensures
        trim_start(s) == s.subrange(a, s.len() as int),
    decreases s.len(),
{
    if a == 0 {
        if s.len() > 0 && spec_is_space(s[0]) {
            assert(false);
        }
        assert(s.subrange(0, s.len() as int) =~= s);
    } else {
        assert(spec_is_space(s[0]));
        lemma_trim_start_char(s.drop_first(), a - 1);
        assert(s.drop_first().subrange(a - 1, s.drop_first().len() as int) =~= s.subrange(
            a,
            s.len() as int,
        ));
    }
}

proof fn lemma_trim_end_char(s: Seq<u8>, b: int)
    requires
        0 <= b <= s.len(),
        forall|j: int| b <= j < s.len() ==> spec_is_space(s[j]),
        b > 0 ==> !spec_is_space(s[b - 1]),
    ensures
        trim_end(s) == s.subrange(0, b),
    decreases s.len(),
{
    if b == s.len() {
        if s.len() > 0 && spec_is_space(s[s.len() - 1]) {
            assert(false);
        }
        assert(s.subrange(0, s.len() as int) =~= s);
    } else {
        assert(spec_is_space(s[s.len() - 1]));
        lemma_trim_end_char(s.drop_last(), b);
        assert(s.drop_last().subrange(0, b) =~= s.subrange(0, b));
    }
}

/// `v` with leading and trailing ASCII whitespace removed.
pub fn trim_bytes(v: &[u8]) -> (r: Vec<u8>)
    ensures
        r@ == spec_trim(v@),
{
    let mut a: usize = 0;
    while a < v.len() && is_space(v[a])
        invariant
            a <= v@.len(),
            forall|j: int| 0 <= j < a ==> spec_is_space(v@[j]),
        decreases v@.len() - a,
    {
        a += 1;
    }
    let mut b: usize = v.len();
    while b > a && is_space(v[b - 1])
        invariant
            a <= b <= v@.len(),
            forall|j: int| b <= j < v@.len() ==> spec_is_space(v@[j]),
        decreases b,
    {
        b -= 1;
    }
    proof {
        lemma_trim_start_char(v@, a as int);
        let t = v@.subrange(a as int, v@.len() as int);
        lemma_trim_end_char(t, b - a);
        assert(t.subrange(0, b - a) =~= v@.subrange(a as int, b as int));
    }
    copy_range(v, a, b)
}

/// A line with one trailing carriage return removed.
pub open spec fn strip_cr(l: Seq<u8>) -> Seq<u8> {
    if l.len() > 0 && l[l.len() - 1] == CR {
        l.drop_last()
    } else {
        l
    }
}

/// The lines of `s`: separated by newlines, each with one trailing carriage
/// return removed, with no empty line after a final newline.
pub open spec fn split_lines(s: Seq<u8>) -> Seq<Seq<u8>>
    decreases s.len(),
    via split_lines_decreases
{
    if s.len() == 0 {
        Seq::empty()
    } else {
        match find_byte(s, NL) {
            Some(i) => seq![strip_cr(s.subrange(0, i))] + split_lines(
                s.subrange(i + 1, s.len() as int),
            ),
            None => seq![strip_cr(s)],
        }
    }
}

#[via_fn]
proof fn split_lines_decreases(s: Seq<u8>) {
    lemma_find_byte(s, NL);
}

/// Splits `v` into its lines.
pub fn lines_of(v: &[u8]) -> (r: Vec<Vec<u8>>)
    ensures
        r.deep_view() == split_lines(v@),
{
    let mut r: Vec<Vec<u8>> = Vec::new();
    let mut pos: usize = 0;
    proof {
        assert(v@.subrange(0, v@.len() as int) =~= v@);
        assert(r.deep_view() =~= Seq::<Seq<u8>>::empty());
    }
    while pos < v.len()
        invariant
            pos <= v@.len(),
            split_lines(v@) == r.deep_view() + split_lines(v@.subrange(pos as int, v@.len() as int)),
        decreases v@.len() - pos,
    {
        let ghost suffix = v@.subrange(pos as int, v@.len() as int);
        let line_end: usize;
        let next_pos: usize;
        match scan_byte(v, pos, NL) {
            Some(i) => {
                line_end = i;
                next_pos = i + 1;
                proof {
                    lemma_find_byte(suffix, NL);
                    assert(forall|j: int|
                        0 <= j < i - pos ==> suffix[j] == v@[pos + j] && v@[pos + j] != NL);
                    assert(suffix[i - pos] == v@[i as int]);
                    assert(match find_byte(suffix, NL) {
                        Some(k) => k == i - pos,
                        None => false,
                    });
                    assert(suffix.subrange(0, i - pos) =~= v@.subrange(pos as int, i as int));
                    assert(suffix.subrange(i - pos + 1, suffix.len() as int) =~= v@.subrange(
                        i + 1 as int,
                        v@.len() as int,
                    ));
                }
            },
            None => {
                line_end = v.len();
                next_pos = v.len();
                proof {
                    lemma_find_byte(suffix, NL);
                    assert(forall|j: int|
                        0 <= j < suffix.len() ==> suffix[j] == v@[pos + j] && v@[pos + j] != NL);
                    assert(find_byte(suffix, NL) is None);
                    assert(suffix.subrange(0, suffix.len() as int) =~= suffix);
                    assert(suffix =~= v@.subrange(pos as int, v@.len() as int));
                }
            },
        }
        let line = if line_end > pos && v[line_end - 1] == CR {
            copy_range(v, pos, line_end - 1)
        } else {
            copy_range(v, pos, line_end)
        };
        proof {
            assert(line@ == strip_cr(v@.subrange(pos as int, line_end as int))) by {
                let raw = v@.subrange(pos as int, line_end as int);
                if raw.len() > 0 && raw[raw.len() - 1] == CR {
                    assert(raw.drop_last() =~= v@.subrange(pos as int, line_end - 1));
                }
            }
        }
        let ghost pre = r.deep_view();
        r.push(line);
        proof {
            assert(r.deep_view() =~~= pre + seq![line@]);
            assert(split_lines(v@) =~= r.deep_view() + split_lines(
                v@.subrange(next_pos as int, v@.len() as int),
            ));
        }
        pos = next_pos;
    }
    proof {
        assert(split_lines(v@.subrange(pos as int, v@.len() as int)) =~= Seq::<Seq<u8>>::empty());
        assert(r.deep_view() =~= r.deep_view() + Seq::<Seq<u8>>::empty());
    }
    r
}

/// Whether `b` is an ASCII decimal digit.
pub open spec fn spec_is_digit(b: u8) -> bool {
    ZERO <= b <= NINE
}

/// Whether `b` is an ASCII letter.
pub open spec fn spec_is_alpha(b: u8) -> bool {
    (65 <= b <= 90) || (97 <= b <= 122)
}

/// Whether `b` is an ASCII decimal digit.
pub fn is_digit(b: u8) -> (r: bool)
    ensures
        r == spec_is_digit(b),
{
    ZERO <= b && b <= NINE
}

/// Whether `b` is an ASCII letter.
pub fn is_alpha(b: u8) -> (r: bool)
    ensures
        r == spec_is_alpha(b),
{
    (65 <= b && b <= 90) || (97 <= b && b <= 122)
}

/// Whether `b` is ASCII whitespace (space, tab, newline, carriage return,
/// vertical tab or form feed).
pub open spec fn spec_is_space(b: u8) -> bool {
    b == SPACE || b == 9 || b == NL || b == CR || b == 11 || b == 12
}

/// Whether `b` is ASCII whitespace.
pub fn is_space(b: u8) -> (r: bool)
    ensures
        r == spec_is_space(b),
{
    b == SPACE || b == 9 || b == NL || b == CR || b == 11 || b == 12
}


/// The parts of `s` between occurrences of `sep`: one more part than
/// separators, empty parts kept.
pub open spec fn split_parts(s: Seq<u8>, sep: u8) -> Seq<Seq<u8>>
    decreases s.len(),
    via split_parts_decreases
{
    match find_byte(s, sep) {
        Some(i) => seq![s.subrange(0, i)] + split_parts(s.subrange(i + 1, s.len() as int), sep),
        None => seq![s],
    }
}

#[via_fn]
proof fn split_parts_decreases(s: Seq<u8>, sep: u8) {
    lemma_find_byte(s, sep);
}

/// Splits `v` into its parts between occurrences of `sep`.
#[verifier::loop_isolation(false)]
pub fn parts_of(v: &[u8], sep: u8) -> (r: Vec<Vec<u8>>)
    ensures
        r.deep_view() == split_parts(v@, sep),
{
    let n = v.len();
    let mut r: Vec<Vec<u8>> = Vec::new();
    let mut pos: usize = 0;
    proof {
        assert(v@.subrange(0, v@.len() as int) =~= v@);
        assert(r.deep_view() =~= Seq::<Seq<u8>>::empty());
    }
    loop
        invariant
            n == v@.len(),
            pos <= v@.len(),
            split_parts(v@, sep) == r.deep_view() + split_parts(
                v@.subrange(pos as int, v@.len() as int),
                sep,
            ),
        decreases v@.len() - pos + 1,
    {
        let ghost suffix = v@.subrange(pos as int, v@.len() as int);
        match scan_byte(v, pos, sep) {
            Some(i) => {
                proof {
                    lemma_find_byte(suffix, sep);
                    assert(forall|j: int|
                        0 <= j < i - pos ==> suffix[j] == v@[pos + j] && v@[pos + j] != sep);
                    assert(suffix[i - pos] == v@[i as int]);
                    assert(match find_byte(suffix, sep) {
                        Some(k) => k == i - pos,
                        None => false,
                    });
                    assert(suffix.subrange(0, i - pos) =~= v@.subrange(pos as int, i as int));
                    assert(suffix.subrange(i - pos + 1, suffix.len() as int) =~= v@.subrange(
                        i + 1 as int,
                        v@.len() as int,
                    ));
                }
                let part = copy_range(v, pos, i);
                let ghost pre = r.deep_view();
                r.push(part);
                proof {
                    assert(r.deep_view() =~~= pre + seq![part@]);
                    assert(split_parts(v@, sep) =~= r.deep_view() + split_parts(
                        v@.subrange(i + 1 as int, v@.len() as int),
                        sep,
                    ));
                }
                pos = i + 1;
            },
            None => {
                proof {
                    lemma_find_byte(suffix, sep);
                    assert(forall|j: int|
                        0 <= j < suffix.len() ==> suffix[j] == v@[pos + j] && v@[pos + j] != sep);
                    assert(find_byte(suffix, sep) is None);
                    assert(suffix =~= v@.subrange(pos as int, v@.len() as int));
                }
                let part = copy_range(v, pos, v.len());
                let ghost pre = r.deep_view();
                r.push(part);
                proof {
                    assert(part@ =~= suffix);
                    assert(r.deep_view() =~~= pre + seq![part@]);
                    assert(split_parts(v@, sep) =~= r.deep_view());
                }
                return r;
            },
        }
    }
}

/// A decimal digit run for a number: most significant digit first, no
/// leading zeros.
pub open spec fn spec_dec(n: nat) -> Seq<u8>
    decreases n,
{
    if n < 10 {
        seq![(n + 48) as u8]
    } else {
        spec_dec(n / 10) + seq![(n % 10 + 48) as u8]
    }
}

/// Renders a number in decimal.
pub fn dec_bytes(n: usize) -> (r: Vec<u8>)
    ensures
        r@ == spec_dec(n as nat),
    decreases n,
{
    if n < 10 {
        let mut r: Vec<u8> = Vec::new();
        r.push((n as u8) + 48);
        proof {
            assert(r@ =~= spec_dec(n as nat));
        }
        r
    } else {
        let mut r = dec_bytes(n / 10);
        r.push(((n % 10) as u8) + 48);
        proof {
            assert(r@ =~= spec_dec((n / 10) as nat) + seq![((n % 10) + 48) as u8]);
        }
        r
    }
}

} // verus!
