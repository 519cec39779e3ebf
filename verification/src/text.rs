//! Text helpers over `&str` whose contracts speak of the UTF-8 bytes of a
//! string (`spec_bytes`) or of its characters (`@`).

use vstd::prelude::*;
use vstd::utf8::*;
use vstd::string::{StringExecFns, StringSliceAdditionalSpecFns};

verus! {

broadcast use vstd::utf8::encode_utf8_valid_utf8, vstd::utf8::encode_utf8_decode_utf8;

/// Whether `b` is the encoding of a single ASCII character.
pub open spec fn is_ascii_byte(b: u8) -> bool {
    b < 0x80
}

/// In valid UTF-8, the index just after an ASCII byte is a character boundary.
pub proof fn lemma_boundary_after_ascii(bytes: Seq<u8>, j: int)
    requires
        valid_utf8(bytes),
        0 <= j < bytes.len(),
        is_ascii_byte(bytes[j]),
    ensures
        is_char_boundary(bytes, j),
        is_char_boundary(bytes, j + 1),
{
    is_char_boundary_iff_not_is_continuation_byte(bytes, j);
    if j + 1 == bytes.len() {
        is_char_boundary_start_end_of_seq(bytes);
    } else {
        valid_utf8_split(bytes, j);
        let s = bytes.subrange(j, bytes.len() as int);
        assert(s[0] == bytes[j]);
        assert(is_leading_byte_width_1(s[0]));
        assert(length_of_first_scalar(s) == 1);
        let rest = pop_first_scalar(s);
        assert(rest =~= bytes.subrange(j + 1, bytes.len() as int));
        assert(valid_utf8(rest));
        is_char_boundary_iff_not_is_continuation_byte(rest, 0);
        assert(rest[0] == bytes[j + 1]);
        is_char_boundary_iff_not_is_continuation_byte(bytes, j + 1);
    }
}

/// Equality of two byte slices.
pub fn bytes_eq(a: &[u8], b: &[u8]) -> (r: bool)
    ensures
        r == (a@ == b@),
{
    if a.len() != b.len() {
        return false;
    }
    let mut i: usize = 0;
    while i < a.len()
        invariant
            0 <= i <= a.len(),
            a.len() == b.len(),
            forall|k: int| 0 <= k < i ==> a@[k] == b@[k],
        decreases a.len() - i,
    {
        if a[i] != b[i] {
            return false;
        }
        i += 1;
    }
    assert(a@ =~= b@);
    true
}

/// Equality of two strings, decided on their UTF-8 bytes.
pub fn str_eq(a: &str, b: &str) -> (r: bool)
    ensures
        r == (a@ == b@),
{
    let r = bytes_eq(a.as_bytes(), b.as_bytes());
    proof {
        encode_utf8_decode_utf8(a@);
        encode_utf8_decode_utf8(b@);
    }
    r
}


/// Within valid UTF-8, a boundary of the whole that lies after `start` is a
/// boundary of the suffix that begins at the boundary `start`.
pub proof fn lemma_boundary_in_suffix(bytes: Seq<u8>, start: int, end: int)
    requires
        valid_utf8(bytes),
        0 <= start <= end <= bytes.len(),
        is_char_boundary(bytes, start),
        is_char_boundary(bytes, end),
    ensures
        valid_utf8(bytes.subrange(start, bytes.len() as int)),
        is_char_boundary(bytes.subrange(start, bytes.len() as int), end - start),
{
    valid_utf8_split(bytes, start);
    let rest = bytes.subrange(start, bytes.len() as int);
    if end == bytes.len() {
        is_char_boundary_start_end_of_seq(rest);
    } else if end == start {
    } else {
        is_char_boundary_iff_not_is_continuation_byte(bytes, end);
        is_char_boundary_iff_not_is_continuation_byte(rest, end - start);
    }
}

/// The part of `s` between the byte offsets `start` and `end`.
pub fn sub_str<'a>(s: &'a str, start: usize, end: usize) -> (r: &'a str)
    requires
        start <= end <= s.spec_bytes().len(),
        is_char_boundary(s.spec_bytes(), start as int),
        is_char_boundary(s.spec_bytes(), end as int),
    ensures
        r.spec_bytes() == s.spec_bytes().subrange(start as int, end as int),
        r@ == decode_utf8(s.spec_bytes().subrange(start as int, end as int)),
{
    proof {
        lemma_boundary_in_suffix(s.spec_bytes(), start as int, end as int);
    }
    let (_, rest) = s.split_at(start);
    assert(rest.spec_bytes() =~= s.spec_bytes().subrange(start as int, s.spec_bytes().len() as int));
    let (mid, _) = rest.split_at(end - start);
    assert(mid.spec_bytes() =~= s.spec_bytes().subrange(start as int, end as int));
    proof {
        encode_utf8_decode_utf8(mid@);
    }
    mid
}

/// `needle` occurs in `hay` as a contiguous run of bytes.
pub open spec fn bytes_contain(hay: Seq<u8>, needle: Seq<u8>) -> bool {
    exists|k: int|
        0 <= k && k + needle.len() <= hay.len() && #[trigger] hay.subrange(k, k + needle.len())
            == needle
}

/// Whether `needle` occurs in `hay` (byte-wise substring search, as `str::contains`).
pub fn str_contains(hay: &str, needle: &str) -> (r: bool)
    ensures
        r == bytes_contain(hay.spec_bytes(), needle.spec_bytes()),
{
    let h = hay.as_bytes();
    let n = needle.as_bytes();
    if n.len() > h.len() {
        return false;
    }
    if n.len() == 0 {
        assert(h@.subrange(0, 0 + n@.len() as int) =~= n@);
        return true;
    }
    let last = h.len() - n.len();
    let mut k: usize = 0;
    while k <= last
        invariant
            h@ == hay.spec_bytes(),
            n@ == needle.spec_bytes(),
            last == h.len() - n.len(),
            0 < n.len() <= h.len(),
            forall|q: int| 0 <= q < k ==> #[trigger] h@.subrange(q, q + n@.len()) != n@,
        decreases last + 1 - k,
    {
        let mut i: usize = 0;
        let mut ok = true;
        while ok && i < n.len()
            invariant
                k <= last,
                last == h.len() - n.len(),
                0 <= i <= n.len(),
                ok ==> forall|p: int| 0 <= p < i ==> h@[k + p] == n@[p],
                !ok ==> i < n.len() && h@[k + i] != n@[i as int],
            decreases (n.len() - i) + (if ok { 1int } else { 0int }),
        {
            if h[k + i] != n[i] {
                ok = false;
            } else {
                i += 1;
            }
        }
        if ok && i == n.len() {
            assert(h@.subrange(k as int, k + n@.len()) =~= n@);
            return true;
        }
        assert(h@.subrange(k as int, k + n@.len()) != n@) by {
            if !ok {
                assert(h@.subrange(k as int, k + n@.len())[i as int] != n@[i as int]);
            }
        }
        k += 1;
    }
    assert forall|q: int| 0 <= q && q + n@.len() <= h@.len() implies #[trigger] h@.subrange(q, q + n@.len()) != n@ by {
        assert(q < k);
    }
    false
}


/// Where the line that began at `start` ends, given its terminating `\n` at `j`:
/// a `\r` just before the `\n` is not part of the line.
pub open spec fn line_end(b: Seq<u8>, start: int, j: int) -> int {
    if j > start && b[j - 1] == 13u8 {
        j - 1
    } else {
        j
    }
}

/// The byte ranges of the lines of `b`, scanning from `j` with the current line
/// begun at `start`, as `str::lines` splits them: at `\n` or `\r\n`, with the
/// final line ending optional.
pub open spec fn lines_from(b: Seq<u8>, start: int, j: int) -> Seq<(int, int)>
    decreases b.len() - j,
{
    if j >= b.len() {
        if start < b.len() {
            seq![(start, b.len() as int)]
        } else {
            seq![]
        }
    } else if b[j] == 10u8 {
        seq![(start, line_end(b, start, j))] + lines_from(b, j + 1, j + 1)
    } else {
        lines_from(b, start, j + 1)
    }
}

/// The byte ranges of the lines of `b`.
pub open spec fn line_ranges(b: Seq<u8>) -> Seq<(int, int)> {
    lines_from(b, 0, 0)
}

/// The lines of `source`, each the slice of a range of [`line_ranges`].
pub fn lines_of<'a>(source: &'a str) -> (r: Vec<&'a str>)
    ensures
        r@.len() == line_ranges(source.spec_bytes()).len(),
        forall|k: int|
            0 <= k < r@.len() ==> #[trigger] r@[k].spec_bytes() == source.spec_bytes().subrange(
                line_ranges(source.spec_bytes())[k].0,
                line_ranges(source.spec_bytes())[k].1,
            ),
{
    let b = source.as_bytes();
    let ghost bs = source.spec_bytes();
    let mut out: Vec<&'a str> = Vec::new();
    let mut start: usize = 0;
    let mut j: usize = 0;
    proof {
        is_char_boundary_start_end_of_seq(bs);
    }
    while j < b.len()
        invariant
            b@ == bs,
            bs == source.spec_bytes(),
            valid_utf8(bs),
            start <= j <= b.len(),
            is_char_boundary(bs, start as int),
            out@.len() + lines_from(bs, start as int, j as int).len() == line_ranges(bs).len(),
            forall|k: int|
                0 <= k < out@.len() ==> #[trigger] out@[k].spec_bytes() == bs.subrange(
                    line_ranges(bs)[k].0,
                    line_ranges(bs)[k].1,
                ),
            forall|k: int|
                0 <= k < lines_from(bs, start as int, j as int).len() ==> line_ranges(bs)[out@.len()
                    + k] == #[trigger] lines_from(bs, start as int, j as int)[k],
        decreases b.len() - j,
    {
        if b[j] == 10u8 {
            proof {
                lemma_boundary_after_ascii(bs, j as int);
            }
            let end = if j > start && b[j - 1] == 13u8 {
                proof {
                    lemma_boundary_after_ascii(bs, j - 1);
                }
                j - 1
            } else {
                j
            };
            assert(end == line_end(bs, start as int, j as int));
            let line = sub_str(source, start, end);
            let ghost before = lines_from(bs, start as int, j as int);
            assert(before == seq![(start as int, end as int)] + lines_from(bs, j + 1, j + 1));
            assert(before[0] == (start as int, end as int));
            out.push(line);
            proof {
                assert forall|k: int| 0 <= k < lines_from(bs, j + 1, j + 1).len() implies line_ranges(
                    bs,
                )[out@.len() + k] == #[trigger] lines_from(bs, j + 1, j + 1)[k] by {
                    assert(before[k + 1] == lines_from(bs, j + 1, j + 1)[k]);
                }
            }
            start = j + 1;
        }
        j += 1;
    }
    if start < b.len() {
        proof {
            is_char_boundary_start_end_of_seq(bs);
        }
        let line = sub_str(source, start, b.len());
        assert(lines_from(bs, start as int, j as int)[0] == (start as int, b.len() as int));
        out.push(line);
    }
    out
}

/// Whether `c` is one of the two separators of a list of rule codes.
pub open spec fn is_code_separator(c: u8) -> bool {
    c == 44u8 || c == 32u8
}

/// The byte ranges of the pieces of `b` between separators, scanning from `j`
/// with the current piece begun at `start`, as `str::split` with the
/// separators `,` and ` ` yields them (empty pieces included).
pub open spec fn pieces_from(b: Seq<u8>, start: int, j: int) -> Seq<(int, int)>
    decreases b.len() - j,
{
    if j >= b.len() {
        seq![(start, b.len() as int)]
    } else if is_code_separator(b[j]) {
        seq![(start, j)] + pieces_from(b, j + 1, j + 1)
    } else {
        pieces_from(b, start, j + 1)
    }
}

/// The byte ranges of the pieces of `b`.
pub open spec fn piece_ranges(b: Seq<u8>) -> Seq<(int, int)> {
    pieces_from(b, 0, 0)
}

/// The pieces of `s` between `,` and ` ` separators.
pub fn split_codes<'a>(s: &'a str) -> (r: Vec<&'a str>)
    ensures
        r@.len() == piece_ranges(s.spec_bytes()).len(),
        forall|k: int|
            0 <= k < r@.len() ==> #[trigger] r@[k].spec_bytes() == s.spec_bytes().subrange(
                piece_ranges(s.spec_bytes())[k].0,
                piece_ranges(s.spec_bytes())[k].1,
            ),
{
    let b = s.as_bytes();
    let ghost bs = s.spec_bytes();
    let mut out: Vec<&'a str> = Vec::new();
    let mut start: usize = 0;
    let mut j: usize = 0;
    proof {
        is_char_boundary_start_end_of_seq(bs);
    }
    while j < b.len()
        invariant
            b@ == bs,
            bs == s.spec_bytes(),
            valid_utf8(bs),
            start <= j <= b.len(),
            is_char_boundary(bs, start as int),
            out@.len() + pieces_from(bs, start as int, j as int).len() == piece_ranges(bs).len(),
            forall|k: int|
                0 <= k < out@.len() ==> #[trigger] out@[k].spec_bytes() == bs.subrange(
                    piece_ranges(bs)[k].0,
                    piece_ranges(bs)[k].1,
                ),
            forall|k: int|
                0 <= k < pieces_from(bs, start as int, j as int).len() ==> piece_ranges(bs)[out@.len()
                    + k] == #[trigger] pieces_from(bs, start as int, j as int)[k],
        decreases b.len() - j,
    {
        if b[j] == 44u8 || b[j] == 32u8 {
            proof {
                lemma_boundary_after_ascii(bs, j as int);
            }
            let piece = sub_str(s, start, j);
            let ghost before = pieces_from(bs, start as int, j as int);
            assert(before == seq![(start as int, j as int)] + pieces_from(bs, j + 1, j + 1));
            assert(before[0] == (start as int, j as int));
            out.push(piece);
            proof {
                assert forall|k: int| 0 <= k < pieces_from(bs, j + 1, j + 1).len() implies piece_ranges(
                    bs,
                )[out@.len() + k] == #[trigger] pieces_from(bs, j + 1, j + 1)[k] by {
                    assert(before[k + 1] == pieces_from(bs, j + 1, j + 1)[k]);
                }
            }
            start = j + 1;
        }
        j += 1;
    }
    proof {
        is_char_boundary_start_end_of_seq(bs);
    }
    let piece = sub_str(s, start, b.len());
    assert(pieces_from(bs, start as int, j as int)[0] == (start as int, b.len() as int));
    out.push(piece);
    out
}


/// Lexicographic order of byte sequences (the order of `str`).
pub open spec fn bytes_lt(a: Seq<u8>, b: Seq<u8>) -> bool
    decreases a.len(),
{
    if a.len() == 0 {
        b.len() > 0
    } else if b.len() == 0 {
        false
    } else if a[0] != b[0] {
        a[0] < b[0]
    } else {
        bytes_lt(a.drop_first(), b.drop_first())
    }
}

/// The order of byte sequences is transitive.
pub proof fn lemma_bytes_lt_trans(a: Seq<u8>, b: Seq<u8>, c: Seq<u8>)
    requires
        bytes_lt(a, b),
        bytes_lt(b, c),
    ensures
        bytes_lt(a, c),
    decreases a.len(),
{
    if a.len() > 0 && a[0] == b[0] && b[0] == c[0] {
        lemma_bytes_lt_trans(a.drop_first(), b.drop_first(), c.drop_first());
    }
}

/// Whether `a` comes before `b` in byte order.
pub fn bytes_less(a: &[u8], b: &[u8]) -> (r: bool)
    ensures
        r == bytes_lt(a@, b@),
{
    let mut i: usize = 0;
    assert(a@.skip(0) =~= a@);
    assert(b@.skip(0) =~= b@);
    while i < a.len() && i < b.len()
        invariant
            0 <= i <= a.len(),
            i <= b.len(),
            bytes_lt(a@, b@) == bytes_lt(a@.skip(i as int), b@.skip(i as int)),
        decreases a.len() - i,
    {
        if a[i] != b[i] {
            assert(a@.skip(i as int)[0] == a@[i as int]);
            assert(b@.skip(i as int)[0] == b@[i as int]);
            return a[i] < b[i];
        }
        assert(a@.skip(i as int).drop_first() =~= a@.skip(i + 1));
        assert(b@.skip(i as int).drop_first() =~= b@.skip(i + 1));
        i += 1;
    }
    i < b.len()
}

/// The order of byte sequences is strict and total.
pub proof fn lemma_bytes_lt_total(a: Seq<u8>, b: Seq<u8>)
    ensures
        !(bytes_lt(a, b) && bytes_lt(b, a)),
        a != b ==> bytes_lt(a, b) || bytes_lt(b, a),
        !bytes_lt(a, a),
    decreases a.len(),
{
    if a.len() > 0 && b.len() > 0 {
        lemma_bytes_lt_total(a.drop_first(), b.drop_first());
        lemma_bytes_lt_total(a.drop_first(), a.drop_first());
        if a[0] == b[0] && a.drop_first() == b.drop_first() {
            assert forall|i: int| 0 <= i < a.len() implies a[i] == b[i] by {
                if i > 0 {
                    assert(a[i] == a.drop_first()[i - 1]);
                    assert(b[i] == b.drop_first()[i - 1]);
                }
            }
            assert(a =~= b);
        }
    } else if a.len() > 0 {
        lemma_bytes_lt_total(a.drop_first(), a.drop_first());
    } else if b.len() == 0 {
        assert(a =~= b);
    }
}

/// The three texts one after the other.
pub fn join3(a: &str, b: &str, c: &str) -> (r: String)
    ensures
        r@ == a@ + b@ + c@,
{
    let mut s = String::from_str(a);
    s.append(b);
    s.append(c);
    s
}

/// The five texts one after the other.
pub fn join5(a: &str, b: &str, c: &str, d: &str, e: &str) -> (r: String)
    ensures
        r@ == a@ + b@ + c@ + d@ + e@,
{
    let mut s = String::from_str(a);
    s.append(b);
    s.append(c);
    s.append(d);
    s.append(e);
    s
}

} // verus!
