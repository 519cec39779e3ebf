//! Inline suppression directives, read on the physical line of a finding:
//!
//!   * `# noqa`                         — suppress every rule on this line
//!   * `# noqa: djqlint-P001`           — suppress only P001 (comma separated)
//!   * `# noqa: P001, N001`             — bare codes also accepted
//!   * `# djqlint: disable`             — suppress every djqlint rule
//!   * `# djqlint: disable=P001,P002`   — suppress specific codes

use std::collections::HashMap;

use vstd::prelude::*;
use vstd::string::{StringSliceAdditionalSpecFns};
use vstd::utf8::*;

use crate::text::{line_ranges, lines_of, piece_ranges, split_codes, str_eq};

verus! {

broadcast use vstd::utf8::encode_utf8_valid_utf8, vstd::utf8::encode_utf8_decode_utf8,
    vstd::std_specs::hash::group_hash_axioms;

/// The `noqa` directive, case-insensitive, with an optional `:` and code list.
pub const NOQA_PATTERN: &'static str = r"(?i)#\s*noqa(?::\s*(?P<codes>[A-Za-z0-9_,\-\s]+))?";

/// The `djqlint: disable` directive, case-insensitive, with an optional `=` and code list.
pub const DISABLE_PATTERN: &'static str =
    r"(?i)#\s*djqlint\s*:\s*disable(?:\s*=\s*(?P<codes>[A-Za-z0-9_,\-\s]+))?";

/// What `regex` gives for `pattern` on `haystack`: `None` when the pattern
/// does not compile or nothing matches; otherwise the text of the named
/// `group` in the leftmost-first match, `None` when the group took no part.
pub uninterp spec fn regex_capture(pattern: Seq<char>, haystack: Seq<char>, group: Seq<char>) -> Option<
    Option<Seq<char>>,
>;

/// Unicode's `White_Space` property, by which `char::is_whitespace` and
/// `str::trim` go.
pub open spec fn is_white_space(c: char) -> bool {
    let u = c as u32;
    (0x9 <= u <= 0xd) || u == 0x20 || u == 0x85 || u == 0xa0 || u == 0x1680 || (0x2000 <= u
        <= 0x200a) || u == 0x2028 || u == 0x2029 || u == 0x202f || u == 0x205f || u == 0x3000
}

/// `s` without its leading whitespace.
pub open spec fn trim_start(s: Seq<char>) -> Seq<char>
    decreases s.len(),
{
    if s.len() > 0 && is_white_space(s[0]) {
        trim_start(s.drop_first())
    } else {
        s
    }
}

/// `s` without its trailing whitespace.
pub open spec fn trim_end(s: Seq<char>) -> Seq<char>
    decreases s.len(),
{
    if s.len() > 0 && is_white_space(s.last()) {
        trim_end(s.drop_last())
    } else {
        s
    }
}

/// `s` without its leading and trailing whitespace.
pub open spec fn trimmed(s: Seq<char>) -> Seq<char> {
    trim_end(trim_start(s))
}

/// The uppercase form of `s` (`str::to_uppercase`).
pub uninterp spec fn upper_case(s: Seq<char>) -> Seq<char>;

/// The texts in an optional capture, as character sequences.
pub open spec fn capture_view(c: Option<Option<String>>) -> Option<Option<Seq<char>>> {
    match c {
        None => None,
        Some(None) => Some(None),
        Some(Some(t)) => Some(Some(t@)),
    }
}

/// Compiles `pattern` with `regex::Regex::new` and runs `Regex::captures` on
/// `haystack`, handing back the text of the named `group`. The contract says
/// only that the result is [`regex_capture`] of the three texts; what the
/// match is, is left to that name.
#[verifier::external_body]
fn capture_named_group(pattern: &str, haystack: &str, group: &str) -> (r: Option<Option<String>>)
    ensures
        capture_view(r) == regex_capture(pattern@, haystack@, group@),
{
    let re = regex::Regex::new(pattern).ok()?;
    let caps = re.captures(haystack)?;
    Some(caps.name(group).map(|m| m.as_str().to_string()))
}

/// `str::trim`: `s` without its leading and trailing whitespace, whitespace
/// being the characters of Unicode's `White_Space` property, as its
/// documentation states.
#[verifier::external_body]
fn trim(s: &str) -> (r: &str)
    ensures
        r@ == trimmed(s@),
{
    s.trim()
}

/// `str::to_uppercase`. The contract says only that the result is
/// [`upper_case`] of `s`.
#[verifier::external_body]
pub fn to_uppercase(s: &str) -> (r: String)
    ensures
        r@ == upper_case(s@),
{
    s.to_uppercase()
}

/// `str::strip_prefix` with a string prefix: the rest of `s` after `prefix`
/// when `s` starts with it, as its documentation states.
#[verifier::external_body]
fn strip_prefix<'a>(s: &'a str, prefix: &str) -> (r: Option<&'a str>)
    ensures
        r is Some <==> prefix@.is_prefix_of(s@),
        r matches Some(t) ==> t@ == s@.skip(prefix@.len() as int),
{
    s.strip_prefix(prefix)
}

/// The canonical form of a code written in a directive: trimmed, without a
/// `djqlint-` or `djqlint:` prefix, uppercase; none for a blank entry.
pub open spec fn normalised(raw: Seq<char>) -> Option<Seq<char>> {
    let t = trimmed(raw);
    if t.len() == 0 {
        None
    } else {
        let bare = if "djqlint-"@.is_prefix_of(t) {
            t.skip("djqlint-"@.len() as int)
        } else if "djqlint:"@.is_prefix_of(t) {
            t.skip("djqlint:"@.len() as int)
        } else {
            t
        };
        Some(upper_case(trimmed(bare)))
    }
}

/// Normalise `djqlint-P001` / `P001` / ` p001 ` to canonical `P001`.
fn normalise_code(raw: &str) -> (r: Option<String>)
    ensures
        match r {
            Some(c) => normalised(raw@) == Some(c@),
            None => normalised(raw@) is None,
        },
{
    let trimmed = trim(raw);
    if trimmed.is_empty() {
        return None;
    }
    let bare = match strip_prefix(trimmed, "djqlint-") {
        Some(b) => b,
        None => match strip_prefix(trimmed, "djqlint:") {
            Some(b) => b,
            None => trimmed,
        },
    };
    Some(to_uppercase(trim(bare)))
}

/// The codes that a directive's code list names: the normalised pieces between
/// `,` and ` ` separators, blank pieces dropped.
pub open spec fn codes_in(list: Seq<char>) -> Set<Seq<char>> {
    let b = encode_utf8(list);
    Set::new(
        |c: Seq<char>|
            exists|k: int|
                0 <= k < piece_ranges(b).len() && #[trigger] normalised(
                    decode_utf8(b.subrange(piece_ranges(b)[k].0, piece_ranges(b)[k].1)),
                ) == Some(c),
    )
}

/// The texts of a list of strings, as a set.
pub open spec fn string_set(v: Seq<String>) -> Set<Seq<char>> {
    Set::new(|c: Seq<char>| exists|k: int| 0 <= k < v.len() && #[trigger] v[k]@ == c)
}

/// The codes that a directive's code list names.
fn parse_codes(codes: &str) -> (r: Vec<String>)
    ensures
        string_set(r@) == codes_in(codes@),
{
    let pieces = split_codes(codes);
    let ghost b = codes.spec_bytes();
    let mut out: Vec<String> = Vec::new();
    let mut k: usize = 0;
    while k < pieces.len()
        invariant
            b == codes.spec_bytes(),
            b == encode_utf8(codes@),
            pieces@.len() == piece_ranges(b).len(),
            forall|q: int|
                0 <= q < pieces@.len() ==> #[trigger] pieces@[q].spec_bytes() == b.subrange(
                    piece_ranges(b)[q].0,
                    piece_ranges(b)[q].1,
                ),
            0 <= k <= pieces@.len(),
            forall|c: Seq<char>|
                #[trigger] string_set(out@).contains(c) <==> exists|q: int|
                    0 <= q < k && #[trigger] normalised(
                        decode_utf8(b.subrange(piece_ranges(b)[q].0, piece_ranges(b)[q].1)),
                    ) == Some(c),
        decreases pieces@.len() - k,
    {
        let piece = pieces[k];
        proof {
            encode_utf8_decode_utf8(piece@);
            assert(pieces@[k as int].spec_bytes() == b.subrange(piece_ranges(b)[k as int].0, piece_ranges(b)[k as int].1));
            assert(piece@ == decode_utf8(b.subrange(piece_ranges(b)[k as int].0, piece_ranges(b)[k as int].1)));
        }
        let ghost before = out@;
        match normalise_code(piece) {
            Some(c) => {
                out.push(c);
                proof {
                    assert forall|x: Seq<char>|
                        #[trigger] string_set(out@).contains(x) <==> exists|q: int|
                            0 <= q < k + 1 && #[trigger] normalised(
                                decode_utf8(b.subrange(piece_ranges(b)[q].0, piece_ranges(b)[q].1)),
                            ) == Some(x) by {
                        if string_set(out@).contains(x) {
                            let w = choose|w: int| 0 <= w < out@.len() && #[trigger] out@[w]@ == x;
                            if w < before.len() {
                                assert(before[w] == out@[w]);
                                assert(string_set(before).contains(x));
                            }
                        }
                        if exists|q: int|
                            0 <= q < k + 1 && #[trigger] normalised(
                                decode_utf8(b.subrange(piece_ranges(b)[q].0, piece_ranges(b)[q].1)),
                            ) == Some(x) {
                            let q = choose|q: int|
                                0 <= q < k + 1 && #[trigger] normalised(
                                    decode_utf8(b.subrange(piece_ranges(b)[q].0, piece_ranges(b)[q].1)),
                                ) == Some(x);
                            if q < k {
                                assert(string_set(before).contains(x));
                                let w = choose|w: int| 0 <= w < before.len() && #[trigger] before[w]@ == x;
                                assert(out@[w] == before[w]);
                            } else {
                                assert(out@[before.len() as int]@ == x);
                            }
                        }
                    }
                }
            },
            None => {
                proof {
                    assert forall|x: Seq<char>|
                        #[trigger] string_set(out@).contains(x) <==> exists|q: int|
                            0 <= q < k + 1 && #[trigger] normalised(
                                decode_utf8(b.subrange(piece_ranges(b)[q].0, piece_ranges(b)[q].1)),
                            ) == Some(x) by {
                        if exists|q: int|
                            0 <= q < k + 1 && #[trigger] normalised(
                                decode_utf8(b.subrange(piece_ranges(b)[q].0, piece_ranges(b)[q].1)),
                            ) == Some(x) {
                            let q = choose|q: int|
                                0 <= q < k + 1 && #[trigger] normalised(
                                    decode_utf8(b.subrange(piece_ranges(b)[q].0, piece_ranges(b)[q].1)),
                                ) == Some(x);
                            assert(q < k);
                        }
                    }
                }
            },
        }
        k += 1;
    }
    assert(string_set(out@) =~= codes_in(codes@));
    out
}


/// The suppression that a line carries.
#[derive(Debug, Clone)]
pub enum LineRule {
    /// Suppress everything on the line.
    All,
    /// Suppress only these (normalised, e.g. `P001`) codes.
    Codes(Vec<String>),
}

/// The meaning of a line's suppression: every code, or a set of codes.
pub ghost enum Directive {
    All,
    Codes(Set<Seq<char>>),
}

/// The meaning of a line's suppression.
pub open spec fn rule_view(r: LineRule) -> Directive {
    match r {
        LineRule::All => Directive::All,
        LineRule::Codes(v) => Directive::Codes(string_set(v@)),
    }
}

/// The meaning of a line's suppression, if any.
pub open spec fn opt_rule_view(r: Option<LineRule>) -> Option<Directive> {
    match r {
        Some(r) => Some(rule_view(r)),
        None => None,
    }
}

/// A line's suppression after a further directive is merged into it: a line
/// that suppresses everything keeps doing so; code lists are joined.
pub open spec fn merge_directive(existing: Option<Directive>, new: Directive) -> Option<Directive> {
    match existing {
        Some(Directive::All) => Some(Directive::All),
        Some(Directive::Codes(e)) => match new {
            Directive::Codes(n) => Some(Directive::Codes(e.union(n))),
            Directive::All => Some(Directive::All),
        },
        None => Some(new),
    }
}

/// The line holds a `#`, which both directives begin with.
pub open spec fn has_hash(line: Seq<char>) -> bool {
    encode_utf8(line).contains(35u8)
}

/// The suppression that the captures of a line give, the `codes` group of
/// the `disable` directive and of the `noqa` directive: `disable` without
/// codes suppresses everything and ends the reading; otherwise the codes it
/// lists, then those of `noqa`, are merged in, a `noqa` without codes
/// suppressing everything.
pub open spec fn directive_from(
    disable: Option<Option<Seq<char>>>,
    noqa: Option<Option<Seq<char>>>,
) -> Option<Directive> {
    if disable == Some(None::<Seq<char>>) {
        Some(Directive::All)
    } else {
        let first = match disable {
            Some(Some(c)) => merge_directive(None, Directive::Codes(codes_in(c))),
            _ => None,
        };
        match noqa {
            None => first,
            Some(None) => Some(Directive::All),
            Some(Some(c)) => merge_directive(first, Directive::Codes(codes_in(c))),
        }
    }
}

/// The suppression that one line carries: none without a `#`; otherwise what
/// the two directives' captures give.
pub open spec fn line_directive(line: Seq<char>) -> Option<Directive> {
    if !has_hash(line) {
        None
    } else {
        directive_from(
            regex_capture(DISABLE_PATTERN@, line, "codes"@),
            regex_capture(NOQA_PATTERN@, line, "codes"@),
        )
    }
}

/// The text of line `k` (0-based) of `src`.
pub open spec fn line_text(src: Seq<char>, k: int) -> Seq<char> {
    let b = encode_utf8(src);
    decode_utf8(b.subrange(line_ranges(b)[k].0, line_ranges(b)[k].1))
}

/// The suppression of every line of `src`, the first line at index 0.
pub open spec fn source_directives(src: Seq<char>) -> Seq<Option<Directive>> {
    Seq::new(line_ranges(encode_utf8(src)).len(), |k: int| line_directive(line_text(src, k)))
}

/// Whether the line suppressions `d` drop a finding for `code` on the 1-based `line`.
pub open spec fn suppresses(d: Seq<Option<Directive>>, line: int, code: Seq<char>) -> bool {
    1 <= line <= d.len() && match d[line - 1] {
        Some(Directive::All) => true,
        Some(Directive::Codes(c)) => c.contains(upper_case(code)),
        None => false,
    }
}

/// The line suppressions `d` (the first line at index 0) keyed by 1-based
/// line number, holding only the lines that carry a directive.
pub open spec fn directive_map(d: Seq<Option<Directive>>) -> Map<usize, Directive> {
    Map::new(|l: usize| 1 <= l <= d.len() && d[l - 1] is Some, |l: usize| d[l - 1]->0)
}

/// Whether the directives keyed by line number `m` drop a finding for `code`
/// on the 1-based `line`.
pub open spec fn map_suppresses(m: Map<usize, Directive>, line: usize, code: Seq<char>) -> bool {
    m.contains_key(line) && match m[line] {
        Directive::All => true,
        Directive::Codes(c) => c.contains(upper_case(code)),
    }
}

/// Keyed by line number, the directives drop exactly the findings that the
/// per-line directives drop.
pub proof fn lemma_directive_map(d: Seq<Option<Directive>>, line: usize, code: Seq<char>)
    ensures
        map_suppresses(directive_map(d), line, code) == suppresses(d, line as int, code),
{
}

/// The suppression directives of a source file, by 1-based line number.
#[derive(Debug)]
pub struct Suppressions {
    lines: HashMap<usize, LineRule>,
}

impl View for Suppressions {
    type V = Map<usize, Directive>;

    closed spec fn view(&self) -> Map<usize, Directive> {
        self.lines@.map_values(|r: LineRule| rule_view(r))
    }
}

/// Whether `line` holds a `#`.
fn line_has_hash(line: &str) -> (r: bool)
    ensures
        r == has_hash(line@),
{
    let b = line.as_bytes();
    let mut i: usize = 0;
    while i < b.len()
        invariant
            b@ == encode_utf8(line@),
            0 <= i <= b.len(),
            forall|k: int| 0 <= k < i ==> b@[k] != 35u8,
        decreases b.len() - i,
    {
        if b[i] == 35u8 {
            assert(b@[i as int] == 35u8);
            return true;
        }
        i += 1;
    }
    false
}

/// Whether `text` is one of `items`.
fn contains_text(items: &Vec<String>, text: &str) -> (r: bool)
    ensures
        r == string_set(items@).contains(text@),
{
    let mut i: usize = 0;
    while i < items.len()
        invariant
            0 <= i <= items@.len(),
            forall|k: int| 0 <= k < i ==> items@[k]@ != text@,
        decreases items.len() - i,
    {
        if str_eq(items[i].as_str(), text) {
            assert(items@[i as int]@ == text@);
            return true;
        }
        i += 1;
    }
    false
}

impl Suppressions {
    /// Scan the source text line by line for suppression comments.
    pub fn parse(source: &str) -> (s: Self)
        ensures
            s@ == directive_map(source_directives(source@)),
    {
        let lines = lines_of(source);
        let ghost b = source.spec_bytes();
        let ghost d = source_directives(source@);
        let mut out: HashMap<usize, LineRule> = HashMap::new();
        let mut k: usize = 0;
        while k < lines.len()
            invariant
                b == source.spec_bytes(),
                b == encode_utf8(source@),
                d == source_directives(source@),
                lines@.len() == line_ranges(b).len(),
                forall|q: int|
                    0 <= q < lines@.len() ==> #[trigger] lines@[q].spec_bytes() == b.subrange(
                        line_ranges(b)[q].0,
                        line_ranges(b)[q].1,
                    ),
                0 <= k <= lines@.len(),
                out@.map_values(|r: LineRule| rule_view(r)) == directive_map(d.take(k as int)),
            decreases lines@.len() - k,
        {
            let line = lines[k];
            proof {
                encode_utf8_decode_utf8(line@);
                assert(lines@[k as int].spec_bytes() == b.subrange(
                    line_ranges(b)[k as int].0,
                    line_ranges(b)[k as int].1,
                ));
                assert(line@ == line_text(source@, k as int));
            }
            let ghost before = out@;
            let rule = Self::line_rule(line);
            assert(opt_rule_view(rule) == d[k as int]);
            match rule {
                Some(r) => {
                    out.insert(k + 1, r);
                },
                None => {},
            }
            proof {
                let old_m = before.map_values(|r: LineRule| rule_view(r));
                let new_m = out@.map_values(|r: LineRule| rule_view(r));
                let target = directive_map(d.take(k + 1));
                assert(old_m == directive_map(d.take(k as int)));
                assert forall|l: usize| #[trigger] new_m.contains_key(l) == target.contains_key(l) by {
                    assert(new_m.contains_key(l) == out@.contains_key(l));
                    assert(old_m.contains_key(l) == before.contains_key(l));
                    assert(out@.contains_key(l) == (before.contains_key(l) || (l == k + 1 && rule is Some)));
                    assert(d[k as int] is Some == rule is Some);
                    if l != k + 1 && 1 <= l <= k {
                        assert(d.take(k + 1)[l - 1] == d.take(k as int)[l - 1]);
                        assert(old_m.contains_key(l) == directive_map(d.take(k as int)).contains_key(l));
                    }
                    if l == k + 1 {
                        assert(d.take(k + 1)[l - 1] == d[k as int]);
                    }
                }
                assert forall|l: usize| #[trigger] new_m.contains_key(l) implies new_m[l] == target[l] by {
                    if l == k + 1 {
                        assert(d.take(k + 1)[l - 1] == d[k as int]);
                    } else {
                        assert(d.take(k + 1)[l - 1] == d.take(k as int)[l - 1]);
                        assert(old_m.contains_key(l));
                        assert(old_m[l] == directive_map(d.take(k as int))[l]);
                    }
                }
                assert(new_m =~= target);
            }
            k += 1;
        }
        assert(d.take(d.len() as int) =~= d);
        Suppressions { lines: out }
    }

    /// The suppression that one line carries.
    fn line_rule(line: &str) -> (r: Option<LineRule>)
        ensures
            opt_rule_view(r) == line_directive(line@),
    {
        if !line_has_hash(line) {
            return None;
        }
        // `# djqlint: disable[=codes]` takes precedence for our own codes.
        let disable = capture_named_group(DISABLE_PATTERN, line, "codes");
        if let Some(None) = disable {
            return Some(LineRule::All);
        }
        let noqa = capture_named_group(NOQA_PATTERN, line, "codes");
        Self::rule_from_captures(disable, noqa)
    }

    /// The suppression that a line's captures give: `disable` and `noqa` are
    /// the `codes` groups of the two directives, as [`regex_capture`] has
    /// them.
    pub fn rule_from_captures(disable: Option<Option<String>>, noqa: Option<Option<String>>) -> (r:
        Option<LineRule>)
        ensures
            opt_rule_view(r) == directive_from(capture_view(disable), capture_view(noqa)),
    {
        let mut rule: Option<LineRule> = None;
        match disable {
            Some(Some(c)) => {
                rule = Self::merge(rule, LineRule::Codes(parse_codes(c.as_str())));
            },
            Some(None) => {
                return Some(LineRule::All);
            },
            None => {},
        }
        match noqa {
            Some(Some(c)) => {
                rule = Self::merge(rule, LineRule::Codes(parse_codes(c.as_str())));
            },
            Some(None) => {
                rule = Some(LineRule::All);
            },
            None => {},
        }
        rule
    }

    /// Merge a further directive into a line's suppression.
    fn merge(existing: Option<LineRule>, rule: LineRule) -> (r: Option<LineRule>)
        ensures
            opt_rule_view(r) == merge_directive(opt_rule_view(existing), rule_view(rule)),
    {
        match existing {
            Some(LineRule::All) => Some(LineRule::All),
            Some(LineRule::Codes(mut codes)) => match rule {
                LineRule::Codes(mut new) => {
                    let ghost e = codes@;
                    let ghost n = new@;
                    codes.append(&mut new);
                    proof {
                        assert(codes@ == e + n);
                        assert forall|c: Seq<char>| #[trigger] string_set(codes@).contains(c) == string_set(e).union(string_set(n)).contains(c) by {
                            if string_set(codes@).contains(c) {
                                let w = choose|w: int| 0 <= w < codes@.len() && #[trigger] codes@[w]@ == c;
                                if w < e.len() {
                                    assert(e[w] == codes@[w]);
                                } else {
                                    assert(n[w - e.len()] == codes@[w]);
                                }
                            }
                            if string_set(e).contains(c) {
                                let w = choose|w: int| 0 <= w < e.len() && #[trigger] e[w]@ == c;
                                assert(codes@[w] == e[w]);
                            }
                            if string_set(n).contains(c) {
                                let w = choose|w: int| 0 <= w < n.len() && #[trigger] n[w]@ == c;
                                assert(codes@[e.len() + w] == n[w]);
                            }
                        }
                        assert(string_set(codes@) =~= string_set(e).union(string_set(n)));
                    }
                    Some(LineRule::Codes(codes))
                },
                LineRule::All => Some(LineRule::All),
            },
            None => Some(rule),
        }
    }

    /// Should a finding for `code` on `line` (1-based) be suppressed?
    pub fn is_suppressed(&self, line: usize, code: &str) -> (r: bool)
        ensures
            r == map_suppresses(self@, line, code@),
    {
        match self.lines.get(&line) {
            Some(LineRule::All) => true,
            Some(LineRule::Codes(codes)) => {
                let upper = to_uppercase(code);
                contains_text(codes, upper.as_str())
            },
            None => false,
        }
    }
}

/// A `# noqa` directive without codes suppresses every rule on its line.
pub proof fn law_bare_noqa_suppresses_all(source: Seq<char>, line: int, code: Seq<char>)
    requires
        1 <= line <= source_directives(source).len(),
        has_hash(line_text(source, line - 1)),
        regex_capture(NOQA_PATTERN@, line_text(source, line - 1), "codes"@) == Some(
            None::<Seq<char>>,
        ),
    ensures
        suppresses(source_directives(source), line, code),
{
}

/// A `# djqlint: disable` directive without codes suppresses every rule on its line.
pub proof fn law_bare_disable_suppresses_all(source: Seq<char>, line: int, code: Seq<char>)
    requires
        1 <= line <= source_directives(source).len(),
        has_hash(line_text(source, line - 1)),
        regex_capture(DISABLE_PATTERN@, line_text(source, line - 1), "codes"@) == Some(
            None::<Seq<char>>,
        ),
    ensures
        suppresses(source_directives(source), line, code),
{
}

/// A `# noqa: ...` directive suppresses, on its line, each code that its list
/// names (in any case, with or without the `djqlint-` prefix).
pub proof fn law_noqa_code_suppressed(
    source: Seq<char>,
    line: int,
    list: Seq<char>,
    code: Seq<char>,
)
    requires
        1 <= line <= source_directives(source).len(),
        has_hash(line_text(source, line - 1)),
        regex_capture(NOQA_PATTERN@, line_text(source, line - 1), "codes"@) == Some(Some(list)),
        codes_in(list).contains(upper_case(code)),
    ensures
        suppresses(source_directives(source), line, code),
{
}

/// A `# djqlint: disable=...` directive suppresses, on its line, each code that
/// its list names.
pub proof fn law_disable_code_suppressed(
    source: Seq<char>,
    line: int,
    list: Seq<char>,
    code: Seq<char>,
)
    requires
        1 <= line <= source_directives(source).len(),
        has_hash(line_text(source, line - 1)),
        regex_capture(DISABLE_PATTERN@, line_text(source, line - 1), "codes"@) == Some(Some(list)),
        codes_in(list).contains(upper_case(code)),
    ensures
        suppresses(source_directives(source), line, code),
{
}

/// A line without a directive comment suppresses nothing, and no line outside
/// the source is suppressed.
pub proof fn law_plain_line_suppresses_nothing(source: Seq<char>, line: int, code: Seq<char>)
    requires
        !(1 <= line <= source_directives(source).len()) || !has_hash(line_text(source, line - 1)),
    ensures
        !suppresses(source_directives(source), line, code),
{
}

} // verus!
