//! The file filters of the filesystem walk: which paths are Python files, and
//! which the configuration excludes. The walk itself reads the filesystem and
//! is left to the program.

use vstd::prelude::*;
use vstd::string::StringSliceAdditionalSpecFns;
use vstd::utf8::encode_utf8;

use crate::text::{
    bytes_contain, bytes_eq, bytes_less, bytes_lt, lemma_bytes_lt_total, lemma_bytes_lt_trans, str_contains,
};

verus! {

/// ASCII lowercase of one byte.
pub open spec fn ascii_lower(b: u8) -> u8 {
    if 65u8 <= b <= 90u8 {
        (b + 32) as u8
    } else {
        b
    }
}

/// The two byte sequences are equal up to ASCII case (`str::eq_ignore_ascii_case`).
pub open spec fn eq_ascii_case_insensitive(a: Seq<u8>, b: Seq<u8>) -> bool {
    a.len() == b.len() && forall|i: int| 0 <= i < a.len() ==> ascii_lower(#[trigger] a[i]) == ascii_lower(b[i])
}

/// Whether `a` and `b` are equal up to ASCII case.
pub fn eq_ignore_ascii_case(a: &str, b: &str) -> (r: bool)
    ensures
        r == eq_ascii_case_insensitive(a.spec_bytes(), b.spec_bytes()),
{
    let x = a.as_bytes();
    let y = b.as_bytes();
    if x.len() != y.len() {
        return false;
    }
    let mut i: usize = 0;
    while i < x.len()
        invariant
            x@ == a.spec_bytes(),
            y@ == b.spec_bytes(),
            x.len() == y.len(),
            0 <= i <= x.len(),
            forall|k: int| 0 <= k < i ==> ascii_lower(#[trigger] x@[k]) == ascii_lower(y@[k]),
        decreases x.len() - i,
    {
        let p = if 65u8 <= x[i] && x[i] <= 90u8 { x[i] + 32 } else { x[i] };
        let q = if 65u8 <= y[i] && y[i] <= 90u8 { y[i] + 32 } else { y[i] };
        if p != q {
            assert(ascii_lower(x@[i as int]) != ascii_lower(y@[i as int]));
            return false;
        }
        i += 1;
    }
    true
}

/// A path with this file extension is Python source: `py` or `pyi`, in any ASCII case.
pub open spec fn python_extension(ext: Option<Seq<u8>>) -> bool {
    match ext {
        Some(e) => eq_ascii_case_insensitive(e, encode_utf8("py"@))
            || eq_ascii_case_insensitive(e, encode_utf8("pyi"@)),
        None => false,
    }
}

/// Whether a path is a Python file, given whether it is a regular file and its
/// extension (as UTF-8 text, when it has one that is).
pub fn is_python_file(is_file: bool, extension: Option<&str>) -> (r: bool)
    ensures
        r == (is_file && python_extension(
            match extension {
                Some(e) => Some(e.spec_bytes()),
                None => None,
            },
        )),
{
    if !is_file {
        return false;
    }
    match extension {
        Some(e) => eq_ignore_ascii_case(e, "py") || eq_ignore_ascii_case(e, "pyi"),
        None => false,
    }
}

/// The path's text contains one of the non-empty exclude fragments.
pub open spec fn excluded(path: Seq<u8>, excludes: Seq<String>) -> bool {
    exists|k: int|
        0 <= k < excludes.len() && excludes[k]@.len() > 0 && bytes_contain(
            path,
            #[trigger] encode_utf8(excludes[k]@),
        )
}

/// Whether the path's text contains any of the non-empty `excludes` fragments.
pub fn is_excluded(path: &str, excludes: &[String]) -> (r: bool)
    ensures
        r == excluded(path.spec_bytes(), excludes@),
{
    let mut k: usize = 0;
    while k < excludes.len()
        invariant
            0 <= k <= excludes@.len(),
            forall|q: int|
                0 <= q < k ==> !(excludes@[q]@.len() > 0 && bytes_contain(
                    path.spec_bytes(),
                    #[trigger] encode_utf8(excludes@[q]@),
                )),
        decreases excludes.len() - k,
    {
        let frag = excludes[k].as_str();
        if !frag.is_empty() && str_contains(path, frag) {
            return true;
        }
        k += 1;
    }
    false
}

/// One component of a path, as `std::path::Component` has them on Unix.
#[derive(Clone, Debug)]
pub enum PathComponent {
    /// The root, for a path that starts with `/`.
    RootDir,
    /// A leading `.`.
    CurDir,
    /// `..`.
    ParentDir,
    /// Any other non-empty name.
    Normal(Vec<u8>),
}

/// What a component is, its name taken as bytes.
pub ghost enum ComponentView {
    RootDir,
    CurDir,
    ParentDir,
    Normal(Seq<u8>),
}

impl View for PathComponent {
    type V = ComponentView;

    open spec fn view(&self) -> ComponentView {
        match self {
            PathComponent::RootDir => ComponentView::RootDir,
            PathComponent::CurDir => ComponentView::CurDir,
            PathComponent::ParentDir => ComponentView::ParentDir,
            PathComponent::Normal(n) => ComponentView::Normal(n@),
        }
    }
}

/// The views of the components `v`.
pub open spec fn component_views(v: Seq<PathComponent>) -> Seq<ComponentView> {
    v.map_values(|c: PathComponent| c@)
}

/// The component that one piece between separators gives: none for an empty
/// piece or `.`, `..` for the parent, otherwise the name.
pub open spec fn piece_components(piece: Seq<u8>) -> Seq<ComponentView> {
    if piece.len() == 0 || piece == seq![46u8] {
        seq![]
    } else if piece == seq![46u8, 46u8] {
        seq![ComponentView::ParentDir]
    } else {
        seq![ComponentView::Normal(piece)]
    }
}

/// The components of the pieces of `p`, the current piece starting at
/// `start` and the scan at `j`.
pub open spec fn pieces_from(p: Seq<u8>, start: int, j: int) -> Seq<ComponentView>
    decreases p.len() - j,
{
    if j >= p.len() {
        piece_components(p.subrange(start, p.len() as int))
    } else if p[j] == 47u8 {
        piece_components(p.subrange(start, j)) + pieces_from(p, j + 1, j + 1)
    } else {
        pieces_from(p, start, j + 1)
    }
}

/// The path starts at the root.
pub open spec fn has_root(p: Seq<u8>) -> bool {
    p.len() > 0 && p[0] == 47u8
}

/// The path starts with a `.` component, which is kept only there.
pub open spec fn has_cur_dir(p: Seq<u8>) -> bool {
    !has_root(p) && p.len() > 0 && p[0] == 46u8 && (p.len() == 1 || p[1] == 47u8)
}

/// The components of path `p` (`Path::components` on Unix): the root, a
/// leading `.`, then each piece between separators, with empty pieces and
/// `.` left out.
pub open spec fn components(p: Seq<u8>) -> Seq<ComponentView> {
    (if has_root(p) { seq![ComponentView::RootDir] } else { seq![] }) + (if has_cur_dir(p) {
        seq![ComponentView::CurDir]
    } else {
        seq![]
    }) + pieces_from(p, 0, 0)
}

/// The place of a component's kind in the order of components.
pub open spec fn component_rank(c: ComponentView) -> int {
    match c {
        ComponentView::RootDir => 0,
        ComponentView::CurDir => 1,
        ComponentView::ParentDir => 2,
        ComponentView::Normal(_) => 3,
    }
}

/// Component `a` comes before `b`: by kind, then names in byte order.
pub open spec fn component_lt(a: ComponentView, b: ComponentView) -> bool {
    component_rank(a) < component_rank(b) || match (a, b) {
        (ComponentView::Normal(x), ComponentView::Normal(y)) => bytes_lt(x, y),
        _ => false,
    }
}

/// Components `a` come before `b`: the first that differ decide, and a
/// proper prefix comes first.
pub open spec fn components_lt(a: Seq<ComponentView>, b: Seq<ComponentView>) -> bool
    decreases a.len(),
{
    if a.len() == 0 {
        b.len() > 0
    } else if b.len() == 0 {
        false
    } else if a[0] != b[0] {
        component_lt(a[0], b[0])
    } else {
        components_lt(a.drop_first(), b.drop_first())
    }
}

/// Path `a` comes before path `b` (`Path`'s order: by components).
pub open spec fn path_lt(a: Seq<u8>, b: Seq<u8>) -> bool {
    components_lt(components(a), components(b))
}

/// Paths `a` and `b` are equal as `Path`s: they have the same components.
pub open spec fn path_eq(a: Seq<u8>, b: Seq<u8>) -> bool {
    components(a) == components(b)
}

proof fn lemma_component_lt_order(a: ComponentView, b: ComponentView, c: ComponentView)
    ensures
        !(component_lt(a, b) && component_lt(b, a)),
        a != b ==> component_lt(a, b) || component_lt(b, a),
        component_lt(a, b) && component_lt(b, c) ==> component_lt(a, c),
{
    match (a, b) {
        (ComponentView::Normal(x), ComponentView::Normal(y)) => {
            lemma_bytes_lt_total(x, y);
        },
        _ => {},
    }
    if component_lt(a, b) && component_lt(b, c) {
        match (a, b, c) {
            (ComponentView::Normal(x), ComponentView::Normal(y), ComponentView::Normal(z)) => {
                lemma_bytes_lt_trans(x, y, z);
            },
            _ => {},
        }
    }
}

/// The order of sequences of components is strict, total and transitive.
pub proof fn lemma_components_lt_order(
    a: Seq<ComponentView>,
    b: Seq<ComponentView>,
    c: Seq<ComponentView>,
)
    ensures
        !components_lt(a, a),
        !(components_lt(a, b) && components_lt(b, a)),
        a != b ==> components_lt(a, b) || components_lt(b, a),
        components_lt(a, b) && components_lt(b, c) ==> components_lt(a, c),
    decreases a.len(),
{
    if a.len() > 0 {
        lemma_components_lt_order(a.drop_first(), a.drop_first(), a.drop_first());
    }
    if a.len() > 0 && b.len() > 0 {
        lemma_component_lt_order(a[0], b[0], a[0]);
        if c.len() > 0 {
            lemma_component_lt_order(a[0], b[0], c[0]);
            lemma_components_lt_order(a.drop_first(), b.drop_first(), c.drop_first());
        } else {
            lemma_components_lt_order(a.drop_first(), b.drop_first(), b.drop_first());
        }
        if a[0] == b[0] && a.drop_first() == b.drop_first() {
            assert(a =~= seq![a[0]] + a.drop_first());
            assert(b =~= seq![b[0]] + b.drop_first());
        }
    } else if a.len() == 0 && b.len() == 0 {
        assert(a =~= b);
    }
}

/// The bytes of `p` from `start` up to `end`.
fn copy_range(p: &[u8], start: usize, end: usize) -> (r: Vec<u8>)
    requires
        start <= end <= p@.len(),
    ensures
        r@ == p@.subrange(start as int, end as int),
{
    let mut r: Vec<u8> = Vec::new();
    let mut i: usize = start;
    while i < end
        invariant
            start <= i <= end <= p@.len(),
            r@ == p@.subrange(start as int, i as int),
        decreases end - i,
    {
        r.push(p[i]);
        assert(r@ =~= p@.subrange(start as int, i + 1));
        i += 1;
    }
    r
}

/// Add the component of the piece `p[start..end]`, if it gives one.
fn push_piece(out: &mut Vec<PathComponent>, p: &[u8], start: usize, end: usize)
    requires
        start <= end <= p@.len(),
    ensures
        component_views(final(out)@) == component_views(old(out)@) + piece_components(
            p@.subrange(start as int, end as int),
        ),
{
    let ghost piece = p@.subrange(start as int, end as int);
    let ghost before = component_views(out@);
    let n = end - start;
    if n == 0 || (n == 1 && p[start] == 46u8) {
        if n == 1 {
            assert(piece =~= seq![46u8]);
        }
        assert(component_views(out@) =~= before + piece_components(piece));
    } else if n == 2 && p[start] == 46u8 && p[start + 1] == 46u8 {
        assert(piece =~= seq![46u8, 46u8]);
        out.push(PathComponent::ParentDir);
        assert(component_views(out@) =~= before + piece_components(piece));
    } else {
        assert(piece != seq![46u8]) by {
            if n == 1 {
                assert(piece[0] == p@[start as int]);
            }
        }
        assert(piece != seq![46u8, 46u8]) by {
            if n == 2 {
                assert(piece[0] == p@[start as int]);
                assert(piece[1] == p@[start + 1]);
            }
        }
        let c = PathComponent::Normal(copy_range(p, start, end));
        out.push(c);
        assert(component_views(out@) =~= before + piece_components(piece));
    }
}

/// The components of path `p`.
pub fn path_components(p: &[u8]) -> (r: Vec<PathComponent>)
    ensures
        component_views(r@) == components(p@),
{
    let mut out: Vec<PathComponent> = Vec::new();
    let rooted = p.len() > 0 && p[0] == 47u8;
    if rooted {
        out.push(PathComponent::RootDir);
    }
    if !rooted && p.len() > 0 && p[0] == 46u8 && (p.len() == 1 || p[1] == 47u8) {
        out.push(PathComponent::CurDir);
    }
    let ghost head = component_views(out@);
    assert(head == (if has_root(p@) { seq![ComponentView::RootDir] } else { seq![] }) + (if has_cur_dir(
        p@,
    ) {
        seq![ComponentView::CurDir]
    } else {
        seq![]
    }));
    let mut start: usize = 0;
    let mut j: usize = 0;
    while j < p.len()
        invariant
            start <= j <= p@.len(),
            component_views(out@) + pieces_from(p@, start as int, j as int) == head + pieces_from(
                p@,
                0,
                0,
            ),
        decreases p@.len() - j,
    {
        if p[j] == 47u8 {
            let ghost before = component_views(out@);
            push_piece(&mut out, p, start, j);
            assert(component_views(out@) + pieces_from(p@, j + 1, j + 1) =~= before + pieces_from(
                p@,
                start as int,
                j as int,
            ));
            start = j + 1;
        }
        j += 1;
    }
    let ghost before = component_views(out@);
    push_piece(&mut out, p, start, j);
    assert(component_views(out@) =~= before + pieces_from(p@, start as int, j as int));
    assert(component_views(out@) =~= components(p@));
    out
}

/// Whether components `a` and `b` are the same.
fn component_eq(a: &PathComponent, b: &PathComponent) -> (r: bool)
    ensures
        r == (a@ == b@),
{
    match (a, b) {
        (PathComponent::RootDir, PathComponent::RootDir) => true,
        (PathComponent::CurDir, PathComponent::CurDir) => true,
        (PathComponent::ParentDir, PathComponent::ParentDir) => true,
        (PathComponent::Normal(x), PathComponent::Normal(y)) => bytes_eq(x.as_slice(), y.as_slice()),
        _ => false,
    }
}

/// Whether component `a` comes before `b`.
fn component_less(a: &PathComponent, b: &PathComponent) -> (r: bool)
    ensures
        r == component_lt(a@, b@),
{
    match (a, b) {
        (PathComponent::Normal(x), PathComponent::Normal(y)) => bytes_less(x.as_slice(), y.as_slice()),
        (PathComponent::RootDir, PathComponent::RootDir) => false,
        (PathComponent::RootDir, _) => true,
        (PathComponent::CurDir, PathComponent::RootDir) => false,
        (PathComponent::CurDir, PathComponent::CurDir) => false,
        (PathComponent::CurDir, _) => true,
        (PathComponent::ParentDir, PathComponent::Normal(_)) => true,
        (PathComponent::ParentDir, _) => false,
        (PathComponent::Normal(_), _) => false,
    }
}

/// Whether components `a` come before components `b`.
pub fn components_less(a: &Vec<PathComponent>, b: &Vec<PathComponent>) -> (r: bool)
    ensures
        r == components_lt(component_views(a@), component_views(b@)),
{
    let ghost x = component_views(a@);
    let ghost y = component_views(b@);
    let mut i: usize = 0;
    assert(x.skip(0) =~= x);
    assert(y.skip(0) =~= y);
    while i < a.len() && i < b.len()
        invariant
            x == component_views(a@),
            y == component_views(b@),
            0 <= i <= a@.len(),
            i <= b@.len(),
            components_lt(x, y) == components_lt(x.skip(i as int), y.skip(i as int)),
        decreases a@.len() - i,
    {
        assert(x.skip(i as int)[0] == a@[i as int]@);
        assert(y.skip(i as int)[0] == b@[i as int]@);
        if !component_eq(&a[i], &b[i]) {
            return component_less(&a[i], &b[i]);
        }
        assert(x.skip(i as int).drop_first() =~= x.skip(i + 1));
        assert(y.skip(i as int).drop_first() =~= y.skip(i + 1));
        i += 1;
    }
    i < b.len()
}

/// Whether path `a` comes before path `b` (`Path`'s order).
pub fn path_less(a: &[u8], b: &[u8]) -> (r: bool)
    ensures
        r == path_lt(a@, b@),
{
    components_less(&path_components(a), &path_components(b))
}

/// The paths of `s` are in strictly increasing order.
pub open spec fn sorted_paths(s: Seq<Vec<u8>>) -> bool {
    forall|a: int, b: int| 0 <= a < b < s.len() ==> path_lt(#[trigger] s[a]@, #[trigger] s[b]@)
}

proof fn lemma_before_sorted(s: Seq<Vec<u8>>, k: int, i: int, p: Seq<u8>)
    requires
        sorted_paths(s),
        0 <= k <= i < s.len(),
        path_lt(p, s[k]@),
    ensures
        path_lt(p, s[i]@),
{
    if i > k {
        assert(path_lt(s[k]@, s[i]@));
        lemma_components_lt_order(components(p), components(s[k]@), components(s[i]@));
    }
}

proof fn lemma_insert_sorted(old: Seq<Vec<u8>>, new: Seq<Vec<u8>>, k: int, p: Seq<u8>)
    requires
        sorted_paths(old),
        0 <= k <= old.len(),
        new.len() == old.len() + 1,
        new[k]@ == p,
        forall|i: int| 0 <= i < k ==> new[i] == old[i],
        forall|i: int| k < i < new.len() ==> new[i] == old[i - 1],
        forall|q: int| 0 <= q < k ==> path_lt(#[trigger] old[q]@, p),
        k < old.len() ==> path_lt(p, old[k]@),
    ensures
        sorted_paths(new),
{
    assert forall|a: int, b: int| 0 <= a < b < new.len() implies path_lt(#[trigger] new[a]@, #[trigger] new[b]@) by {
        if b < k {
            assert(new[a] == old[a] && new[b] == old[b]);
            assert(path_lt(old[a]@, old[b]@));
        } else if b == k {
            assert(new[a] == old[a]);
        } else if a == k {
            assert(new[b] == old[b - 1]);
            lemma_before_sorted(old, k, b - 1, p);
        } else if a < k {
            assert(new[a] == old[a] && new[b] == old[b - 1]);
            assert(path_lt(old[a]@, old[b - 1]@));
        } else {
            assert(new[a] == old[a - 1] && new[b] == old[b - 1]);
            assert(path_lt(old[a - 1]@, old[b - 1]@));
        }
    }
}

/// A path strictly between the paths before position `k` and the path at
/// `k` of sorted `s` is equal to none of them.
proof fn lemma_not_held(s: Seq<Vec<u8>>, k: int, p: Seq<u8>, x: Seq<u8>)
    requires
        sorted_paths(s),
        0 <= k <= s.len(),
        forall|q: int| 0 <= q < k ==> path_lt(#[trigger] s[q]@, p),
        k < s.len() ==> path_lt(p, s[k]@),
        holds_equal(s, x),
    ensures
        !path_eq(x, p),
{
    let i = choose|i: int| 0 <= i < s.len() && path_eq(#[trigger] s[i]@, x);
    lemma_components_lt_order(components(s[i]@), components(p), components(p));
    if i >= k {
        lemma_before_sorted(s, k, i, p);
    } else {
        assert(path_lt(s[i]@, p));
    }
}

/// Path `p` is, among the first `n` of `ps`, the first of the paths equal to
/// it.
pub open spec fn first_of_its_kind(ps: Seq<Vec<u8>>, n: int, p: Seq<u8>) -> bool {
    exists|j: int|
        0 <= j < n && #[trigger] ps[j]@ == p && forall|k: int| 0 <= k < j ==> !path_eq(#[trigger] ps[k]@, p)
}

/// Some path of `r` is equal to `p`.
pub open spec fn holds_equal(r: Seq<Vec<u8>>, p: Seq<u8>) -> bool {
    exists|i: int| 0 <= i < r.len() && path_eq(#[trigger] r[i]@, p)
}

/// The paths of `paths` sorted and without repeats, as `sort` then `dedup`
/// leave a `Vec<PathBuf>`: in `Path`'s order, and of equal paths only the
/// first.
#[verifier::spinoff_prover]
#[verifier::rlimit(40)]
pub fn sort_dedup_paths(paths: Vec<Vec<u8>>) -> (r: Vec<Vec<u8>>)
    ensures
        forall|i: int, j: int| 0 <= i < j < r@.len() ==> path_lt(r@[i]@, r@[j]@),
        forall|i: int, j: int| 0 <= i < j < r@.len() ==> !path_eq(r@[i]@, r@[j]@),
        forall|i: int| 0 <= i < r@.len() ==> first_of_its_kind(paths@, paths@.len() as int, #[trigger] r@[i]@),
        forall|j: int| 0 <= j < paths@.len() ==> holds_equal(r@, #[trigger] paths@[j]@),
{
    let mut out: Vec<Vec<u8>> = Vec::new();
    let mut keys: Vec<Vec<PathComponent>> = Vec::new();
    let mut j: usize = 0;
    while j < paths.len()
        invariant
            0 <= j <= paths@.len(),
            keys@.len() == out@.len(),
            forall|i: int| 0 <= i < out@.len() ==> component_views(#[trigger] keys@[i]@) == components(out@[i]@),
            sorted_paths(out@),
            forall|i: int| 0 <= i < out@.len() ==> first_of_its_kind(paths@, j as int, #[trigger] out@[i]@),
            forall|q: int| 0 <= q < j ==> holds_equal(out@, #[trigger] paths@[q]@),
        decreases paths@.len() - j,
    {
        let p = &paths[j];
        let pk = path_components(p.as_slice());
        let mut k: usize = 0;
        while k < out.len() && components_less(&keys[k], &pk)
            invariant
                0 <= k <= out@.len(),
                keys@.len() == out@.len(),
                forall|i: int| 0 <= i < out@.len() ==> component_views(#[trigger] keys@[i]@) == components(out@[i]@),
                component_views(pk@) == components(p@),
                forall|q: int| 0 <= q < k ==> path_lt(#[trigger] out@[q]@, p@),
            decreases out@.len() - k,
        {
            k += 1;
        }
        let ghost old_out = out@;
        let ghost old_keys = keys@;
        if k < out.len() && !components_less(&pk, &keys[k]) {
            proof {
                lemma_components_lt_order(components(out@[k as int]@), components(p@), components(p@));
                assert(path_eq(out@[k as int]@, p@));
                assert forall|i: int| 0 <= i < out@.len() implies first_of_its_kind(paths@, j + 1, #[trigger] out@[i]@) by {
                    assert(first_of_its_kind(paths@, j as int, out@[i]@));
                    let w = choose|w: int|
                        0 <= w < j && #[trigger] paths@[w]@ == out@[i]@ && forall|x: int| 0 <= x < w ==> !path_eq(#[trigger] paths@[x]@, out@[i]@);
                    assert(0 <= w < j + 1);
                }
                assert forall|q: int| 0 <= q < j + 1 implies holds_equal(out@, #[trigger] paths@[q]@) by {
                    if q == j {
                        assert(path_eq(out@[k as int]@, paths@[q]@));
                    }
                }
            }
        } else {
            proof {
                if k < out@.len() {
                    lemma_components_lt_order(components(out@[k as int]@), components(p@), components(p@));
                    assert(path_lt(p@, out@[k as int]@));
                }
                // No earlier path equals `p`: each is equal to some kept path,
                // and every kept path sorts strictly before or after `p`.
                assert forall|x: int| 0 <= x < j implies !path_eq(#[trigger] paths@[x]@, p@) by {
                    lemma_not_held(old_out, k as int, p@, paths@[x]@);
                }
            }
            let c = p.clone();
            assert(c@ == p@);
            out.insert(k, c);
            keys.insert(k, pk);
            proof {
                assert forall|i: int| 0 <= i < out@.len() implies component_views(#[trigger] keys@[i]@) == components(out@[i]@) by {
                    if i < k {
                        assert(keys@[i] == old_keys[i] && out@[i] == old_out[i]);
                    } else if i > k {
                        assert(keys@[i] == old_keys[i - 1] && out@[i] == old_out[i - 1]);
                    }
                }
                lemma_insert_sorted(old_out, out@, k as int, p@);
                assert forall|i: int| 0 <= i < out@.len() implies first_of_its_kind(paths@, j + 1, #[trigger] out@[i]@) by {
                    if i == k {
                        assert(paths@[j as int]@ == out@[i]@);
                    } else {
                        let o = if i < k { i } else { i - 1 };
                        assert(out@[i] == old_out[o]);
                        assert(first_of_its_kind(paths@, j as int, old_out[o]@));
                        let w = choose|w: int|
                            0 <= w < j && #[trigger] paths@[w]@ == old_out[o]@ && forall|x: int| 0 <= x < w ==> !path_eq(#[trigger] paths@[x]@, old_out[o]@);
                        assert(0 <= w < j + 1);
                    }
                }
                assert forall|q: int| 0 <= q < j + 1 implies holds_equal(out@, #[trigger] paths@[q]@) by {
                    if q == j {
                        assert(path_eq(out@[k as int]@, paths@[q]@));
                    } else {
                        assert(holds_equal(old_out, paths@[q]@));
                        let i = choose|i: int| 0 <= i < old_out.len() && path_eq(#[trigger] old_out[i]@, paths@[q]@);
                        if i < k {
                            assert(out@[i] == old_out[i]);
                        } else {
                            assert(out@[i + 1] == old_out[i]);
                        }
                    }
                }
            }
        }
        j += 1;
    }
    assert forall|a: int, b: int| 0 <= a < b < out@.len() implies !path_eq(out@[a]@, out@[b]@) by {
        assert(path_lt(out@[a]@, out@[b]@));
        lemma_components_lt_order(components(out@[a]@), components(out@[b]@), components(out@[b]@));
    }
    out
}

} // verus!
