//! Report data: the aggregate summary and the SARIF records. Rendering them
//! to text is left to the program that prints them.

pub mod sarif;

use vstd::prelude::*;
use vstd::string::StringExecFns;
use vstd::utf8::encode_utf8;

use crate::diagnostic::{Diagnostic, FileReport};
use crate::text::{bytes_lt, lemma_bytes_lt_total, str_eq};

verus! {

broadcast use vstd::seq_lib::group_to_multiset_ensures, vstd::multiset::group_multiset_axioms;

/// The codes of the findings of the first `m` reports, report after report.
pub open spec fn report_codes(reports: Seq<FileReport>, m: int) -> Seq<Seq<char>>
    decreases m,
{
    if m <= 0 {
        seq![]
    } else {
        report_codes(reports, m - 1) + reports[m - 1].diagnostics@.map_values(
            |d: Diagnostic| d.code@,
        )
    }
}

/// The codes of all findings of `reports`, one entry per finding.
pub open spec fn all_codes(reports: Seq<FileReport>) -> Seq<Seq<char>> {
    report_codes(reports, reports.len() as int)
}

/// The entries are in increasing order of their codes.
pub open spec fn codes_sorted(by_code: Seq<(String, usize)>) -> bool {
    forall|i: int|
        0 <= i < by_code.len() - 1 ==> bytes_lt(
            encode_utf8((#[trigger] by_code[i]).0@),
            encode_utf8(by_code[i + 1].0@),
        )
}

/// The entries count the codes of `codes`: one entry per distinct code, with
/// the number of times it occurs.
pub open spec fn counts_codes(by_code: Seq<(String, usize)>, codes: Seq<Seq<char>>) -> bool {
    &&& forall|i: int|
        0 <= i < by_code.len() ==> (#[trigger] by_code[i]).1 == codes.to_multiset().count(
            by_code[i].0@,
        ) && by_code[i].1 > 0
    &&& forall|c: Seq<char>|
        #[trigger] codes.contains(c) ==> exists|i: int| 0 <= i < by_code.len() && by_code[i].0@ == c
    &&& forall|i: int, j: int|
        0 <= i < by_code.len() && 0 <= j < by_code.len() && i != j ==> (#[trigger] by_code[i]).0@
            != (#[trigger] by_code[j]).0@
}

/// The sum of the counts of the entries.
pub open spec fn count_sum(by_code: Seq<(String, usize)>) -> int
    decreases by_code.len(),
{
    if by_code.len() == 0 {
        0
    } else {
        count_sum(by_code.drop_last()) + by_code.last().1
    }
}

proof fn lemma_count_sum_update(v: Seq<(String, usize)>, q: int, x: (String, usize))
    requires
        0 <= q < v.len(),
    ensures
        count_sum(v.update(q, x)) == count_sum(v) - v[q].1 + x.1,
    decreases v.len(),
{
    let w = v.update(q, x);
    if q == v.len() - 1 {
        assert(w.drop_last() =~= v.drop_last());
    } else {
        lemma_count_sum_update(v.drop_last(), q, x);
        assert(w.drop_last() =~= v.drop_last().update(q, x));
    }
}

proof fn lemma_count_sum_insert(v: Seq<(String, usize)>, p: int, x: (String, usize))
    requires
        0 <= p <= v.len(),
    ensures
        count_sum(v.insert(p, x)) == count_sum(v) + x.1,
    decreases v.len(),
{
    let w = v.insert(p, x);
    if p == v.len() {
        assert(w.drop_last() =~= v);
    } else {
        lemma_count_sum_insert(v.drop_last(), p, x);
        assert(w.drop_last() =~= v.drop_last().insert(p, x));
    }
}

/// Aggregate counts across all analysed files.
#[derive(Debug, Clone)]
pub struct Summary {
    pub files_with_findings: usize,
    pub total_findings: usize,
    /// Findings grouped by rule code, in increasing order of code.
    pub by_code: Vec<(String, usize)>,
}

/// The entry of `by_code` whose code is `code`.
fn find_code(by_code: &Vec<(String, usize)>, code: &str) -> (r: Option<usize>)
    ensures
        match r {
            Some(q) => q < by_code@.len() && by_code@[q as int].0@ == code@,
            None => forall|i: int| 0 <= i < by_code@.len() ==> (#[trigger] by_code@[i]).0@ != code@,
        },
{
    let mut q: usize = 0;
    while q < by_code.len()
        invariant
            0 <= q <= by_code@.len(),
            forall|i: int| 0 <= i < q ==> (#[trigger] by_code@[i]).0@ != code@,
        decreases by_code.len() - q,
    {
        if str_eq(by_code[q].0.as_str(), code) {
            return Some(q);
        }
        q += 1;
    }
    None
}

/// The index of the first entry whose code follows `code`.
fn find_slot(by_code: &Vec<(String, usize)>, code: &str) -> (r: usize)
    ensures
        r <= by_code@.len(),
        forall|i: int| 0 <= i < r ==> !bytes_lt(encode_utf8(code@), encode_utf8((#[trigger] by_code@[i]).0@)),
        r < by_code@.len() ==> bytes_lt(encode_utf8(code@), encode_utf8(by_code@[r as int].0@)),
{
    let mut pos: usize = 0;
    while pos < by_code.len() && !crate::engine::code_lt(code, by_code[pos].0.as_str())
        invariant
            0 <= pos <= by_code@.len(),
            forall|i: int| 0 <= i < pos ==> !bytes_lt(encode_utf8(code@), encode_utf8((#[trigger] by_code@[i]).0@)),
        decreases by_code.len() - pos,
    {
        pos += 1;
    }
    pos
}

proof fn lemma_count_incremented(
    old_v: Seq<(String, usize)>,
    v: Seq<(String, usize)>,
    q: int,
    done: Seq<Seq<char>>,
    code: Seq<char>,
)
    requires
        codes_sorted(old_v),
        counts_codes(old_v, done),
        0 <= q < old_v.len(),
        old_v[q].0@ == code,
        v.len() == old_v.len(),
        v[q].0@ == code,
        v[q].1 == old_v[q].1 + 1,
        forall|i: int| 0 <= i < v.len() && i != q ==> v[i] == old_v[i],
    ensures
        codes_sorted(v),
        counts_codes(v, done.push(code)),
{
    let next = done.push(code);
    assert(next.to_multiset() =~= done.to_multiset().insert(code));
    assert forall|i: int|
        0 <= i < v.len() implies (#[trigger] v[i]).1 == next.to_multiset().count(v[i].0@) && v[i].1
        > 0 by {
        if i != q {
            assert(old_v[i].0@ != old_v[q].0@);
        }
    }
    assert forall|c: Seq<char>| #[trigger] next.contains(c) implies exists|i: int|
        0 <= i < v.len() && v[i].0@ == c by {
        if c == code {
            assert(v[q].0@ == c);
        } else {
            let k = choose|k: int| 0 <= k < next.len() && next[k] == c;
            assert(done[k] == c);
            assert(done.contains(c));
            let i = choose|i: int| 0 <= i < old_v.len() && old_v[i].0@ == c;
            assert(v[i].0@ == c);
        }
    }
    assert forall|i: int, j: int|
        0 <= i < v.len() && 0 <= j < v.len() && i != j implies (#[trigger] v[i]).0@ != (
        #[trigger] v[j]).0@ by {
        assert(v[i].0@ == old_v[i].0@);
        assert(v[j].0@ == old_v[j].0@);
    }
    assert forall|i: int| 0 <= i < v.len() - 1 implies bytes_lt(
        encode_utf8((#[trigger] v[i]).0@),
        encode_utf8(v[i + 1].0@),
    ) by {
        assert(v[i].0@ == old_v[i].0@);
        assert(v[i + 1].0@ == old_v[i + 1].0@);
    }
}

#[verifier::spinoff_prover]
proof fn lemma_count_inserted(
    old_v: Seq<(String, usize)>,
    v: Seq<(String, usize)>,
    pos: int,
    done: Seq<Seq<char>>,
    code: Seq<char>,
)
    requires
        codes_sorted(old_v),
        counts_codes(old_v, done),
        forall|i: int| 0 <= i < old_v.len() ==> (#[trigger] old_v[i]).0@ != code,
        0 <= pos <= old_v.len(),
        forall|i: int| 0 <= i < pos ==> !bytes_lt(encode_utf8(code), encode_utf8((#[trigger] old_v[i]).0@)),
        pos < old_v.len() ==> bytes_lt(encode_utf8(code), encode_utf8(old_v[pos].0@)),
        v == old_v.insert(pos, v[pos]),
        v[pos].0@ == code,
        v[pos].1 == 1,
    ensures
        codes_sorted(v),
        counts_codes(v, done.push(code)),
{
    let next = done.push(code);
    assert(next.to_multiset() =~= done.to_multiset().insert(code));
    assert(done.to_multiset().count(code) == 0) by {
        if done.contains(code) {
            let i = choose|i: int| 0 <= i < old_v.len() && old_v[i].0@ == code;
        }
    }
    assert forall|i: int| 0 <= i < v.len() implies (#[trigger] v[i]).1 == next.to_multiset().count(
        v[i].0@,
    ) && v[i].1 > 0 by {
        if i < pos {
            assert(v[i] == old_v[i]);
        } else if i > pos {
            assert(v[i] == old_v[i - 1]);
        }
    }
    assert forall|c: Seq<char>| #[trigger] next.contains(c) implies exists|i: int|
        0 <= i < v.len() && v[i].0@ == c by {
        if c == code {
            assert(v[pos].0@ == c);
        } else {
            let k = choose|k: int| 0 <= k < next.len() && next[k] == c;
            assert(done[k] == c);
            assert(done.contains(c));
            let i = choose|i: int| 0 <= i < old_v.len() && old_v[i].0@ == c;
            if i < pos {
                assert(v[i] == old_v[i]);
            } else {
                assert(v[i + 1] == old_v[i]);
            }
        }
    }
    assert forall|i: int, j: int|
        0 <= i < v.len() && 0 <= j < v.len() && i != j implies (#[trigger] v[i]).0@ != (
        #[trigger] v[j]).0@ by {
        if i != pos && j != pos {
            let oi = if i < pos { i } else { i - 1 };
            let oj = if j < pos { j } else { j - 1 };
            assert(v[i] == old_v[oi]);
            assert(v[j] == old_v[oj]);
        } else if i == pos {
            let oj = if j < pos { j } else { j - 1 };
            assert(v[j] == old_v[oj]);
        } else {
            let oi = if i < pos { i } else { i - 1 };
            assert(v[i] == old_v[oi]);
        }
    }
    assert forall|i: int| 0 <= i < v.len() - 1 implies bytes_lt(
        encode_utf8((#[trigger] v[i]).0@),
        encode_utf8(v[i + 1].0@),
    ) by {
        if i + 1 < pos {
            assert(v[i] == old_v[i]);
            assert(v[i + 1] == old_v[i + 1]);
        } else if i + 1 == pos {
            assert(v[i] == old_v[i]);
            let a = encode_utf8(old_v[i].0@);
            let b = encode_utf8(code);
            lemma_bytes_lt_total(a, b);
            vstd::utf8::encode_utf8_decode_utf8(old_v[i].0@);
            vstd::utf8::encode_utf8_decode_utf8(code);
            assert(!bytes_lt(b, a));
            assert(old_v[i].0@ != code);
        } else if i == pos {
            assert(v[i + 1] == old_v[i]);
        } else {
            assert(v[i] == old_v[i - 1]);
            assert(v[i + 1] == old_v[i]);
        }
    }
}

/// Count one more occurrence of `code` in `by_code`, which counts `done`.
fn count_code(by_code: &mut Vec<(String, usize)>, code: &str, Ghost(done): Ghost<Seq<Seq<char>>>)
    requires
        codes_sorted(old(by_code)@),
        counts_codes(old(by_code)@, done),
        done.len() < usize::MAX,
    ensures
        codes_sorted(final(by_code)@),
        counts_codes(final(by_code)@, done.push(code@)),
        count_sum(final(by_code)@) == count_sum(old(by_code)@) + 1,
{
    let ghost old_v = by_code@;
    match find_code(by_code, code) {
        Some(q) => {
            let key = by_code[q].0.clone();
            let n = by_code[q].1;
            proof {
                assert(n == done.to_multiset().count(code@));
                assert(done.to_multiset().len() == done.len());
                assert(n <= done.len());
            }
            by_code.set(q, (key, n + 1));
            proof {
                lemma_count_sum_update(old_v, q as int, by_code@[q as int]);
                assert(by_code@ =~= old_v.update(q as int, by_code@[q as int]));
                lemma_count_incremented(old_v, by_code@, q as int, done, code@);
            }
        },
        None => {
            let pos = find_slot(by_code, code);
            by_code.insert(pos, (String::from_str(code), 1));
            proof {
                assert(by_code@ =~= old_v.insert(pos as int, by_code@[pos as int]));
                lemma_count_inserted(old_v, by_code@, pos as int, done, code@);
                lemma_count_sum_insert(old_v, pos as int, by_code@[pos as int]);
            }
        },
    }
}

impl Summary {
    /// Count the findings of `reports`: the files with findings, all findings,
    /// and the findings of each code.
    pub fn from_reports(reports: &[FileReport]) -> (s: Self)
        requires
            all_codes(reports@).len() <= usize::MAX,
        ensures
            s.files_with_findings == reports@.len(),
            s.total_findings == all_codes(reports@).len(),
            codes_sorted(s.by_code@),
            counts_codes(s.by_code@, all_codes(reports@)),
            count_sum(s.by_code@) == s.total_findings,
            summarises(s, reports@),
    {
        let mut by_code: Vec<(String, usize)> = Vec::new();
        let mut total: usize = 0;
        let ghost mut done: Seq<Seq<char>> = seq![];
        let mut f: usize = 0;
        proof {
            lemma_report_codes_len(reports@, reports@.len() as int);
        }
        while f < reports.len()
            invariant
                0 <= f <= reports@.len(),
                done == report_codes(reports@, f as int),
                total == done.len(),
                count_sum(by_code@) == total,
                all_codes(reports@).len() <= usize::MAX,
                forall|m: int| 0 <= m <= reports@.len() ==> #[trigger] report_codes(reports@, m).len() <= all_codes(reports@).len(),
                codes_sorted(by_code@),
                counts_codes(by_code@, done),
            decreases reports.len() - f,
        {
            let diags = &reports[f].diagnostics;
            let ghost start = done;
            let mut k: usize = 0;
            assert(report_codes(reports@, f + 1) == start + diags@.map_values(|d: Diagnostic| d.code@));
            while k < diags.len()
                invariant
                    0 <= k <= diags@.len(),
                    f < reports@.len(),
                    diags@ == reports@[f as int].diagnostics@,
                    done == start + diags@.map_values(|d: Diagnostic| d.code@).take(k as int),
                    report_codes(reports@, f + 1) == start + diags@.map_values(|d: Diagnostic| d.code@),
                    report_codes(reports@, f + 1).len() <= all_codes(reports@).len(),
                    total == done.len(),
                    count_sum(by_code@) == total,
                    all_codes(reports@).len() <= usize::MAX,
                    codes_sorted(by_code@),
                    counts_codes(by_code@, done),
                decreases diags.len() - k,
            {
                count_code(&mut by_code, diags[k].code, Ghost(done));
                proof {
                    let mv = diags@.map_values(|d: Diagnostic| d.code@);
                    assert(mv.take(k + 1) =~= mv.take(k as int).push(diags@[k as int].code@));
                    done = done.push(diags@[k as int].code@);
                }
                total += 1;
                k += 1;
            }
            proof {
                let mv = diags@.map_values(|d: Diagnostic| d.code@);
                assert(mv.take(k as int) =~= mv);
            }
            f += 1;
        }
        Summary { files_with_findings: reports.len(), total_findings: total, by_code }
    }
}

proof fn lemma_report_codes_len(reports: Seq<FileReport>, m: int)
    ensures
        forall|j: int| 0 <= j <= m ==> #[trigger] report_codes(reports, j).len() <= report_codes(reports, m).len(),
    decreases m,
{
    if m > 0 {
        lemma_report_codes_len(reports, m - 1);
    }
}

/// The count that `by_code` gives for `code`: the count of its entry, or 0
/// where it has none.
pub open spec fn code_count(by_code: Seq<(String, usize)>, code: Seq<char>) -> int
    decreases by_code.len(),
{
    if by_code.len() == 0 {
        0
    } else if by_code.last().0@ == code {
        by_code.last().1 as int
    } else {
        code_count(by_code.drop_last(), code)
    }
}

/// `s` is what [`Summary::from_reports`] gives for `reports`.
pub open spec fn summarises(s: Summary, reports: Seq<FileReport>) -> bool {
    &&& s.files_with_findings == reports.len()
    &&& s.total_findings == all_codes(reports).len()
    &&& codes_sorted(s.by_code@)
    &&& counts_codes(s.by_code@, all_codes(reports))
}

proof fn lemma_code_count_entry(v: Seq<(String, usize)>, code: Seq<char>)
    requires
        forall|i: int, j: int|
            0 <= i < v.len() && 0 <= j < v.len() && i != j ==> (#[trigger] v[i]).0@ != (#[trigger] v[j]).0@,
    ensures
        forall|i: int| 0 <= i < v.len() && (#[trigger] v[i]).0@ == code ==> code_count(v, code) == v[i].1,
        (forall|i: int| 0 <= i < v.len() ==> (#[trigger] v[i]).0@ != code) ==> code_count(v, code) == 0,
    decreases v.len(),
{
    if v.len() > 0 {
        let w = v.drop_last();
        assert forall|i: int, j: int|
            0 <= i < w.len() && 0 <= j < w.len() && i != j implies (#[trigger] w[i]).0@ != (#[trigger] w[j]).0@ by {
            assert(w[i] == v[i] && w[j] == v[j]);
        }
        lemma_code_count_entry(w, code);
        assert forall|i: int| 0 <= i < v.len() && (#[trigger] v[i]).0@ == code implies code_count(v, code) == v[i].1 by {
            if i < v.len() - 1 {
                assert(v.last() == v[v.len() - 1]);
                assert(w[i] == v[i]);
            }
        }
        if forall|i: int| 0 <= i < v.len() ==> (#[trigger] v[i]).0@ != code {
            assert(v.last() == v[v.len() - 1]);
            assert forall|i: int| 0 <= i < w.len() implies (#[trigger] w[i]).0@ != code by {
                assert(w[i] == v[i]);
            }
        }
    }
}

/// The count that a summary gives for a code is the number of findings with
/// that code.
pub proof fn lemma_code_count(by_code: Seq<(String, usize)>, codes: Seq<Seq<char>>, code: Seq<char>)
    requires
        counts_codes(by_code, codes),
    ensures
        code_count(by_code, code) == codes.to_multiset().count(code),
{
    lemma_code_count_entry(by_code, code);
    if exists|i: int| 0 <= i < by_code.len() && (#[trigger] by_code[i]).0@ == code {
        let i = choose|i: int| 0 <= i < by_code.len() && (#[trigger] by_code[i]).0@ == code;
        assert(by_code[i].1 == codes.to_multiset().count(code));
    } else {
        if codes.to_multiset().count(code) > 0 {
            assert(codes.to_multiset().contains(code));
            assert(codes.contains(code));
        }
    }
}

proof fn lemma_report_codes_concat(a: Seq<FileReport>, b: Seq<FileReport>, m: int)
    requires
        0 <= m <= b.len(),
    ensures
        report_codes(a + b, a.len() + m) == all_codes(a) + report_codes(b, m),
    decreases m,
{
    if m == 0 {
        assert forall|j: int| 0 <= j <= a.len() implies #[trigger] report_codes(a + b, j) == report_codes(a, j) by {
            lemma_report_codes_prefix(a, b, j);
        }
        assert(all_codes(a) + report_codes(b, 0) =~= all_codes(a));
    } else {
        lemma_report_codes_concat(a, b, m - 1);
        assert((a + b)[a.len() + m - 1] == b[m - 1]);
        assert(report_codes(a + b, a.len() + m) =~= all_codes(a) + report_codes(b, m));
    }
}

proof fn lemma_report_codes_prefix(a: Seq<FileReport>, b: Seq<FileReport>, j: int)
    requires
        0 <= j <= a.len(),
    ensures
        report_codes(a + b, j) == report_codes(a, j),
    decreases j,
{
    if j > 0 {
        lemma_report_codes_prefix(a, b, j - 1);
        assert((a + b)[j - 1] == a[j - 1]);
    }
}

/// Summarising two lists of reports one after the other adds up: the files
/// with findings, the findings, and the findings of each code.
pub proof fn law_summary_of_concatenation(
    a: Seq<FileReport>,
    b: Seq<FileReport>,
    s1: Summary,
    s2: Summary,
    s: Summary,
    code: Seq<char>,
)
    requires
        summarises(s1, a),
        summarises(s2, b),
        summarises(s, a + b),
    ensures
        s.files_with_findings == s1.files_with_findings + s2.files_with_findings,
        s.total_findings == s1.total_findings + s2.total_findings,
        code_count(s.by_code@, code) == code_count(s1.by_code@, code) + code_count(s2.by_code@, code),
{
    lemma_report_codes_concat(a, b, b.len() as int);
    assert(all_codes(a + b) == all_codes(a) + all_codes(b));
    lemma_code_count(s.by_code@, all_codes(a + b), code);
    lemma_code_count(s1.by_code@, all_codes(a), code);
    lemma_code_count(s2.by_code@, all_codes(b), code);
    vstd::seq_lib::lemma_multiset_commutative(all_codes(a), all_codes(b));
}

} // verus!
