//! A conservative data-flow model of Django QuerySets.
//!
//! It recognises the syntactic shapes that in Django code denote a
//! `QuerySet`/`Manager`: a manager-rooted chain (`Model.objects`,
//! `Model.objects.filter(...)`), a QuerySet-returning method called on a
//! QuerySet, and a local name bound, anywhere in the module, to one of these.

use vstd::prelude::*;
use vstd::string::{StringExecFns, StringSliceAdditionalSpecFns};
use vstd::utf8::*;

use crate::engine::syntax::{
    field_child, first_named_child, lemma_field_child_from, lemma_named_child_from, node_ok,
    node_text_of, nodes_wf, FieldName, NodeKind, SyntaxNode, SyntaxTree,
};
use crate::engine::util::{node_text, preorder, walk_preorder};
use crate::text::{bytes_contain, str_contains, str_eq};

verus! {

/// The QuerySet-returning methods: a chain that ends in one of these, called on
/// a manager or a QuerySet, is itself a QuerySet.
pub open spec fn qs_method_names() -> Seq<Seq<char>> {
    seq![
        "all"@,
        "filter"@,
        "exclude"@,
        "annotate"@,
        "alias"@,
        "select_related"@,
        "prefetch_related"@,
        "order_by"@,
        "reverse"@,
        "distinct"@,
        "values"@,
        "values_list"@,
        "only"@,
        "defer"@,
        "none"@,
        "union"@,
        "intersection"@,
        "difference"@,
        "extra"@,
        "using"@,
        "select_for_update"@,
        "get_queryset"@,
    ]
}

/// Whether `name` is one of [`qs_method_names`].
pub fn is_qs_method(name: &str) -> (r: bool)
    ensures
        r == qs_method_names().contains(name@),
{
    let names: Vec<&str> = vec![
        "all",
        "filter",
        "exclude",
        "annotate",
        "alias",
        "select_related",
        "prefetch_related",
        "order_by",
        "reverse",
        "distinct",
        "values",
        "values_list",
        "only",
        "defer",
        "none",
        "union",
        "intersection",
        "difference",
        "extra",
        "using",
        "select_for_update",
        "get_queryset",
    ];
    assert(names@.len() == qs_method_names().len());
    assert forall|k: int| 0 <= k < names@.len() implies #[trigger] names@[k]@ == qs_method_names()[k] by {}
    let mut i: usize = 0;
    while i < names.len()
        invariant
            0 <= i <= names@.len(),
            names@.len() == qs_method_names().len(),
            forall|k: int| 0 <= k < names@.len() ==> #[trigger] names@[k]@ == qs_method_names()[k],
            forall|k: int| 0 <= k < i ==> qs_method_names()[k] != name@,
        decreases names.len() - i,
    {
        if str_eq(names[i], name) {
            assert(qs_method_names()[i as int] == name@);
            return true;
        }
        i += 1;
    }
    false
}

/// The set of local names known to hold a QuerySet within a module.
#[derive(Debug, Clone)]
pub struct Bindings {
    queryset_vars: Vec<String>,
}

impl View for Bindings {
    type V = Set<Seq<char>>;

    closed spec fn view(&self) -> Set<Seq<char>> {
        Set::new(
            |n: Seq<char>|
                exists|k: int|
                    0 <= k < self.queryset_vars@.len() && #[trigger] self.queryset_vars@[k]@ == n,
        )
    }
}

impl Default for Bindings {
    fn default() -> (r: Self)
        ensures
            r@ == Set::<Seq<char>>::empty(),
    {
        let r = Bindings { queryset_vars: Vec::new() };
        assert(r@ =~= Set::<Seq<char>>::empty());
        r
    }
}

impl Bindings {
    /// Whether `name` is bound to a QuerySet.
    pub fn is_queryset_var(&self, name: &str) -> (r: bool)
        ensures
            r == self@.contains(name@),
    {
        let mut i: usize = 0;
        while i < self.queryset_vars.len()
            invariant
                0 <= i <= self.queryset_vars@.len(),
                forall|k: int| 0 <= k < i ==> self.queryset_vars@[k]@ != name@,
            decreases self.queryset_vars.len() - i,
        {
            if str_eq(self.queryset_vars[i].as_str(), name) {
                assert(self.queryset_vars@[i as int]@ == name@);
                return true;
            }
            i += 1;
        }
        false
    }

    /// Bind `name`; true when it was not bound before.
    fn insert(&mut self, name: &str) -> (r: bool)
        ensures
            final(self)@ == old(self)@.insert(name@),
            r == !old(self)@.contains(name@),
    {
        if self.is_queryset_var(name) {
            assert(self@ =~= self@.insert(name@));
            return false;
        }
        let ghost before = self@;
        self.queryset_vars.push(String::from_str(name));
        proof {
            let n = self.queryset_vars@.len() - 1;
            assert(self.queryset_vars@[n]@ == name@);
            assert forall|x: Seq<char>| #[trigger] self@.contains(x) == before.insert(name@).contains(
                x,
            ) by {
                if before.contains(x) {
                    let k = choose|k: int|
                        0 <= k < old(self).queryset_vars@.len() && #[trigger] old(
                            self,
                        ).queryset_vars@[k]@ == x;
                    assert(self.queryset_vars@[k] == old(self).queryset_vars@[k]);
                }
                if self@.contains(x) && x != name@ {
                    let k = choose|k: int|
                        0 <= k < self.queryset_vars@.len() && #[trigger] self.queryset_vars@[k]@ == x;
                    assert(k < n);
                    assert(self.queryset_vars@[k] == old(self).queryset_vars@[k]);
                }
            }
            assert(self@ =~= before.insert(name@));
        }
        true
    }
}

/// Whether the expression at node `i` denotes a QuerySet or Manager, given the
/// names `vars` bound to QuerySets.
pub open spec fn is_queryset_expr(
    ns: Seq<SyntaxNode>,
    src: Seq<u8>,
    vars: Set<Seq<char>>,
    i: int,
) -> bool
    decreases ns.len() - i,
    when nodes_wf(ns) && 0 <= i < ns.len()
{
    match ns[i].kind {
        NodeKind::Identifier => vars.contains(node_text_of(ns, src, i)),
        NodeKind::ParenthesizedExpression => match first_named_child(ns, i) {
            Some(c) => {
                proof {
                    lemma_named_child_from(ns, i, i + 1);
                    assert(node_ok(ns, i));
                }
                is_queryset_expr(ns, src, vars, c)
            },
            None => false,
        },
        NodeKind::Call => match field_child(ns, i, FieldName::Function) {
            Some(c) => {
                proof {
                    lemma_field_child_from(ns, i, FieldName::Function, i + 1);
                    assert(node_ok(ns, i));
                }
                is_queryset_expr(ns, src, vars, c)
            },
            None => false,
        },
        NodeKind::Attribute => match (
            field_child(ns, i, FieldName::Attribute),
            field_child(ns, i, FieldName::Object),
        ) {
            (Some(a), Some(o)) => {
                proof {
                    lemma_field_child_from(ns, i, FieldName::Object, i + 1);
                    assert(node_ok(ns, i));
                }
                let attr = node_text_of(ns, src, a);
                attr == "objects"@ || (qs_method_names().contains(attr) && is_queryset_expr(
                    ns,
                    src,
                    vars,
                    o,
                ))
            },
            _ => false,
        },
        NodeKind::Subscript => match field_child(ns, i, FieldName::Value) {
            Some(c) => {
                proof {
                    lemma_field_child_from(ns, i, FieldName::Value, i + 1);
                    assert(node_ok(ns, i));
                }
                is_queryset_expr(ns, src, vars, c)
            },
            None => false,
        },
        _ => false,
    }
}

/// The methods of a Django QuerySet or Manager that return a QuerySet.
pub open spec fn returns_queryset(name: Seq<char>) -> bool {
        name == "all"@ || name == "filter"@ || name == "exclude"@ || name == "annotate"@ ||
            name == "alias"@ || name == "select_related"@ || name == "prefetch_related"@ ||
            name == "order_by"@ || name == "reverse"@ || name == "distinct"@ ||
            name == "values"@ || name == "values_list"@ || name == "only"@ || name == "defer"@ ||
            name == "none"@ || name == "union"@ || name == "intersection"@ ||
            name == "difference"@ || name == "extra"@ || name == "using"@ ||
            name == "select_for_update"@ || name == "get_queryset"@
}

proof fn lemma_returns_queryset_listed(name: Seq<char>)
    requires
        returns_queryset(name),
    ensures
        qs_method_names().contains(name),
{
    if name == "all"@ {
        assert(qs_method_names()[0] == name);
    } else if name == "filter"@ {
        assert(qs_method_names()[1] == name);
    } else if name == "exclude"@ {
        assert(qs_method_names()[2] == name);
    } else if name == "annotate"@ {
        assert(qs_method_names()[3] == name);
    } else if name == "alias"@ {
        assert(qs_method_names()[4] == name);
    } else if name == "select_related"@ {
        assert(qs_method_names()[5] == name);
    } else if name == "prefetch_related"@ {
        assert(qs_method_names()[6] == name);
    } else if name == "order_by"@ {
        assert(qs_method_names()[7] == name);
    } else if name == "reverse"@ {
        assert(qs_method_names()[8] == name);
    } else if name == "distinct"@ {
        assert(qs_method_names()[9] == name);
    } else if name == "values"@ {
        assert(qs_method_names()[10] == name);
    } else if name == "values_list"@ {
        assert(qs_method_names()[11] == name);
    } else if name == "only"@ {
        assert(qs_method_names()[12] == name);
    } else if name == "defer"@ {
        assert(qs_method_names()[13] == name);
    } else if name == "none"@ {
        assert(qs_method_names()[14] == name);
    } else if name == "union"@ {
        assert(qs_method_names()[15] == name);
    } else if name == "intersection"@ {
        assert(qs_method_names()[16] == name);
    } else if name == "difference"@ {
        assert(qs_method_names()[17] == name);
    } else if name == "extra"@ {
        assert(qs_method_names()[18] == name);
    } else if name == "using"@ {
        assert(qs_method_names()[19] == name);
    } else if name == "select_for_update"@ {
        assert(qs_method_names()[20] == name);
    } else if name == "get_queryset"@ {
        assert(qs_method_names()[21] == name);
    }
}

proof fn lemma_listed_returns_queryset(name: Seq<char>)
    requires
        qs_method_names().contains(name),
    ensures
        returns_queryset(name),
{
    let k = choose|k: int| 0 <= k < qs_method_names().len() && qs_method_names()[k] == name;
    assert(0 <= k < 22);
}

/// A call of a QuerySet-returning method on a QuerySet or Manager is a
/// QuerySet: for `<o>.<m>(...)` with `m` one of `all`, `filter`, `exclude`,
/// `annotate`, `alias`, `select_related`, `prefetch_related`, `order_by`,
/// `reverse`, `distinct`, `values`, `values_list`, `only`, `defer`, `none`,
/// `union`, `intersection`, `difference`, `extra`, `using`,
/// `select_for_update` or `get_queryset`, when `<o>` denotes a QuerySet (such
/// as `Model.objects`), so do `<o>.<m>` and the call.
pub proof fn law_queryset_method_call(
    ns: Seq<SyntaxNode>,
    src: Seq<u8>,
    vars: Set<Seq<char>>,
    call: int,
    callee: int,
    method: int,
    object: int,
)
    requires
        nodes_wf(ns),
        0 <= call < ns.len(),
        ns[call].kind == NodeKind::Call,
        field_child(ns, call, FieldName::Function) == Some(callee),
        ns[callee].kind == NodeKind::Attribute,
        field_child(ns, callee, FieldName::Attribute) == Some(method),
        field_child(ns, callee, FieldName::Object) == Some(object),
        returns_queryset(node_text_of(ns, src, method)),
        is_queryset_expr(ns, src, vars, object),
    ensures
        is_queryset_expr(ns, src, vars, callee),
        is_queryset_expr(ns, src, vars, call),
{
    assert(node_ok(ns, call));
    lemma_field_child_from(ns, call, FieldName::Function, call + 1);
    assert(node_ok(ns, callee));
    lemma_field_child_from(ns, callee, FieldName::Object, callee + 1);
    lemma_returns_queryset_listed(node_text_of(ns, src, method));
    assert(is_queryset_expr(ns, src, vars, callee));
    assert(0 <= callee < ns.len());
    reveal_with_fuel(is_queryset_expr, 2);
}

/// The other forms of QuerySet expressions: a name denotes a QuerySet exactly
/// when it is bound to one; `<x>.objects` is a manager; slicing or
/// parenthesising a QuerySet gives one; an attribute whose name is neither
/// `objects` nor a QuerySet-returning method, or a call of one, is no
/// QuerySet; and no other kind of node is one.
pub proof fn law_queryset_forms(ns: Seq<SyntaxNode>, src: Seq<u8>, vars: Set<Seq<char>>, i: int)
    requires
        nodes_wf(ns),
        0 <= i < ns.len(),
    ensures
        ns[i].kind == NodeKind::Identifier ==> (is_queryset_expr(ns, src, vars, i) <==> vars.contains(
            node_text_of(ns, src, i),
        )),
        ns[i].kind == NodeKind::Attribute ==> match (
            field_child(ns, i, FieldName::Attribute),
            field_child(ns, i, FieldName::Object),
        ) {
            (Some(a), Some(_)) => {
                &&& node_text_of(ns, src, a) == "objects"@ ==> is_queryset_expr(ns, src, vars, i)
                &&& node_text_of(ns, src, a) != "objects"@ && !returns_queryset(node_text_of(ns, src, a))
                    ==> !is_queryset_expr(ns, src, vars, i)
            },
            _ => !is_queryset_expr(ns, src, vars, i),
        },
        ns[i].kind == NodeKind::Call ==> match field_child(ns, i, FieldName::Function) {
            Some(f) => is_queryset_expr(ns, src, vars, i) == is_queryset_expr(ns, src, vars, f),
            None => !is_queryset_expr(ns, src, vars, i),
        },
        ns[i].kind == NodeKind::Subscript ==> match field_child(ns, i, FieldName::Value) {
            Some(v) => is_queryset_expr(ns, src, vars, i) == is_queryset_expr(ns, src, vars, v),
            None => !is_queryset_expr(ns, src, vars, i),
        },
        ns[i].kind == NodeKind::ParenthesizedExpression ==> match first_named_child(ns, i) {
            Some(c) => is_queryset_expr(ns, src, vars, i) == is_queryset_expr(ns, src, vars, c),
            None => !is_queryset_expr(ns, src, vars, i),
        },
        ns[i].kind != NodeKind::Identifier && ns[i].kind != NodeKind::Attribute && ns[i].kind
            != NodeKind::Call && ns[i].kind != NodeKind::Subscript && ns[i].kind
            != NodeKind::ParenthesizedExpression ==> !is_queryset_expr(ns, src, vars, i),
{
    assert(node_ok(ns, i));
    if ns[i].kind == NodeKind::Attribute {
        if let (Some(a), Some(_)) = (
            field_child(ns, i, FieldName::Attribute),
            field_child(ns, i, FieldName::Object),
        ) {
            if qs_method_names().contains(node_text_of(ns, src, a)) {
                lemma_listed_returns_queryset(node_text_of(ns, src, a));
            }
        }
    }
    lemma_field_child_from(ns, i, FieldName::Function, i + 1);
    lemma_field_child_from(ns, i, FieldName::Value, i + 1);
    lemma_field_child_from(ns, i, FieldName::Object, i + 1);
    lemma_named_child_from(ns, i, i + 1);
}

/// Binding more names never makes an expression stop denoting a QuerySet.
pub proof fn lemma_queryset_expr_monotone(
    ns: Seq<SyntaxNode>,
    src: Seq<u8>,
    small: Set<Seq<char>>,
    large: Set<Seq<char>>,
    i: int,
)
    requires
        nodes_wf(ns),
        0 <= i < ns.len(),
        small.subset_of(large),
        is_queryset_expr(ns, src, small, i),
    ensures
        is_queryset_expr(ns, src, large, i),
    decreases ns.len() - i,
{
    assert(node_ok(ns, i));
    match ns[i].kind {
        NodeKind::ParenthesizedExpression => {
            lemma_named_child_from(ns, i, i + 1);
            let c = first_named_child(ns, i).unwrap();
            lemma_queryset_expr_monotone(ns, src, small, large, c);
        },
        NodeKind::Call => {
            lemma_field_child_from(ns, i, FieldName::Function, i + 1);
            let c = field_child(ns, i, FieldName::Function).unwrap();
            lemma_queryset_expr_monotone(ns, src, small, large, c);
        },
        NodeKind::Attribute => {
            lemma_field_child_from(ns, i, FieldName::Object, i + 1);
            let a = field_child(ns, i, FieldName::Attribute).unwrap();
            let o = field_child(ns, i, FieldName::Object).unwrap();
            if node_text_of(ns, src, a) != "objects"@ {
                lemma_queryset_expr_monotone(ns, src, small, large, o);
            }
        },
        NodeKind::Subscript => {
            lemma_field_child_from(ns, i, FieldName::Value, i + 1);
            let c = field_child(ns, i, FieldName::Value).unwrap();
            lemma_queryset_expr_monotone(ns, src, small, large, c);
        },
        _ => {},
    }
}

/// Does the expression at `node` evaluate to a QuerySet or Manager?
pub fn expr_is_queryset(tree: &SyntaxTree, node: usize, source: &str, bindings: &Bindings) -> (r:
    bool)
    requires
        tree.wf(),
        node < tree.nodes@.len(),
    ensures
        r == is_queryset_expr(tree.nodes@, source.spec_bytes(), bindings@, node as int),
    decreases tree.nodes@.len() - node,
{
    let ghost ns = tree.nodes@;
    proof {
        assert(node_ok(ns, node as int));
    }
    match tree.nodes[node].kind {
        NodeKind::Identifier => bindings.is_queryset_var(node_text(tree, node, source)),
        NodeKind::ParenthesizedExpression => match tree.named_child(node) {
            Some(c) => expr_is_queryset(tree, c, source, bindings),
            None => false,
        },
        NodeKind::Call => match tree.child_by_field_name(node, FieldName::Function) {
            Some(c) => expr_is_queryset(tree, c, source, bindings),
            None => false,
        },
        NodeKind::Attribute => {
            let attr = match tree.child_by_field_name(node, FieldName::Attribute) {
                Some(a) => node_text(tree, a, source),
                None => return false,
            };
            let object = match tree.child_by_field_name(node, FieldName::Object) {
                Some(o) => o,
                None => return false,
            };
            if str_eq(attr, "objects") {
                return true;
            }
            if is_qs_method(attr) {
                return expr_is_queryset(tree, object, source, bindings);
            }
            false
        },
        NodeKind::Subscript => match tree.child_by_field_name(node, FieldName::Value) {
            Some(c) => expr_is_queryset(tree, c, source, bindings),
            None => false,
        },
        _ => false,
    }
}


/// The binding that node `i` makes, when it is an assignment of a value to a
/// plain name: the name and the node of the value.
pub open spec fn assignment_at(ns: Seq<SyntaxNode>, src: Seq<u8>, i: int) -> Option<
    (Seq<char>, int),
> {
    if ns[i].kind == NodeKind::Assignment {
        match (field_child(ns, i, FieldName::Left), field_child(ns, i, FieldName::Right)) {
            (Some(l), Some(r)) => if ns[l].kind == NodeKind::Identifier {
                Some((node_text_of(ns, src, l), r))
            } else {
                None
            },
            _ => None,
        }
    } else {
        None
    }
}

/// The bindings that the nodes from `j` up to `stop` make, in pre-order.
pub open spec fn assignments_from(ns: Seq<SyntaxNode>, src: Seq<u8>, j: int, stop: int) -> Seq<
    (Seq<char>, int),
>
    decreases stop - j,
{
    if j >= stop {
        seq![]
    } else {
        match assignment_at(ns, src, j) {
            Some(a) => seq![a] + assignments_from(ns, src, j + 1, stop),
            None => assignments_from(ns, src, j + 1, stop),
        }
    }
}

/// The name-to-value assignments of the whole module (the root's subtree), in pre-order.
pub open spec fn module_assignments(ns: Seq<SyntaxNode>, src: Seq<u8>) -> Seq<(Seq<char>, int)> {
    if ns.len() == 0 {
        seq![]
    } else {
        assignments_from(ns, src, 0, ns[0].end as int)
    }
}

/// `vars` is closed under the assignments `asg`: whenever the value of an
/// assignment denotes a QuerySet given `vars`, its name is in `vars`.
pub open spec fn closed_under(
    ns: Seq<SyntaxNode>,
    src: Seq<u8>,
    asg: Seq<(Seq<char>, int)>,
    vars: Set<Seq<char>>,
) -> bool {
    forall|k: int|
        0 <= k < asg.len() && #[trigger] is_queryset_expr(ns, src, vars, asg[k].1) ==> vars.contains(
            asg[k].0,
        )
}

/// The least set of names closed under the module's assignments: the names
/// that every closed set holds.
pub open spec fn least_bindings(ns: Seq<SyntaxNode>, src: Seq<u8>) -> Set<Seq<char>> {
    Set::new(
        |n: Seq<char>|
            forall|vars: Set<Seq<char>>|
                closed_under(ns, src, module_assignments(ns, src), vars) ==> #[trigger] vars.contains(
                    n,
                ),
    )
}

/// How many of the first `m` assignments bind a name outside `vars`.
pub open spec fn unbound_count(asg: Seq<(Seq<char>, int)>, vars: Set<Seq<char>>, m: int) -> nat
    decreases m,
{
    if m <= 0 {
        0
    } else {
        unbound_count(asg, vars, m - 1) + if vars.contains(asg[m - 1].0) {
            0nat
        } else {
            1nat
        }
    }
}

proof fn lemma_unbound_count_shrinks(
    asg: Seq<(Seq<char>, int)>,
    small: Set<Seq<char>>,
    large: Set<Seq<char>>,
    m: int,
    q: int,
)
    requires
        small.subset_of(large),
    ensures
        unbound_count(asg, large, m) <= unbound_count(asg, small, m),
        0 <= q < m && !small.contains(asg[q].0) && large.contains(asg[q].0) ==> unbound_count(
            asg,
            large,
            m,
        ) < unbound_count(asg, small, m),
    decreases m,
{
    if m > 0 {
        lemma_unbound_count_shrinks(asg, small, large, m - 1, q);
    }
}

proof fn lemma_assignments_in_range(ns: Seq<SyntaxNode>, src: Seq<u8>, j: int, stop: int)
    requires
        nodes_wf(ns),
        0 <= j,
        stop <= ns.len(),
    ensures
        forall|k: int|
            0 <= k < assignments_from(ns, src, j, stop).len() ==> j < (
            #[trigger] assignments_from(ns, src, j, stop)[k]).1 < ns.len(),
    decreases stop - j,
{
    if j < stop {
        lemma_assignments_in_range(ns, src, j + 1, stop);
        let rest = assignments_from(ns, src, j + 1, stop);
        let all = assignments_from(ns, src, j, stop);
        if let Some(a) = assignment_at(ns, src, j) {
            assert(node_ok(ns, j));
            lemma_field_child_from(ns, j, FieldName::Right, j + 1);
            assert(all == seq![a] + rest);
            assert forall|k: int| 0 <= k < all.len() implies j < (#[trigger] all[k]).1 < ns.len() by {
                if k > 0 {
                    assert(all[k] == rest[k - 1]);
                }
            }
        }
    }
}

/// The binding that `node` makes, when it assigns a value to a plain name.
fn assignment_of<'a>(tree: &SyntaxTree, node: usize, source: &'a str) -> (r: Option<(&'a str, usize)>)
    requires
        tree.wf(),
        node < tree.nodes@.len(),
    ensures
        match r {
            Some(a) => assignment_at(tree.nodes@, source.spec_bytes(), node as int) == Some(
                (a.0@, a.1 as int),
            ),
            None => assignment_at(tree.nodes@, source.spec_bytes(), node as int) is None,
        },
{
    if tree.nodes[node].kind != NodeKind::Assignment {
        return None;
    }
    match (
        tree.child_by_field_name(node, FieldName::Left),
        tree.child_by_field_name(node, FieldName::Right),
    ) {
        (Some(left), Some(right)) => {
            if tree.nodes[left].kind == NodeKind::Identifier {
                Some((node_text(tree, left, source), right))
            } else {
                None
            }
        },
        _ => None,
    }
}

/// The module's name-to-value assignments, in pre-order.
pub fn module_assignment_list<'a>(tree: &SyntaxTree, source: &'a str) -> (r: Vec<(&'a str, usize)>)
    requires
        tree.wf(),
    ensures
        r@.len() == module_assignments(tree.nodes@, source.spec_bytes()).len(),
        forall|k: int|
            0 <= k < r@.len() ==> (#[trigger] r@[k]).0@ == module_assignments(
                tree.nodes@,
                source.spec_bytes(),
            )[k].0 && r@[k].1 == module_assignments(tree.nodes@, source.spec_bytes())[k].1,
        forall|k: int|
            0 <= k < r@.len() ==> 0 <= #[trigger] module_assignments(
                tree.nodes@,
                source.spec_bytes(),
            )[k].1 < tree.nodes@.len(),
{
    let ghost ns = tree.nodes@;
    let ghost src = source.spec_bytes();
    let ghost asg = module_assignments(ns, src);
    let mut assignments: Vec<(&str, usize)> = Vec::new();
    if tree.len() > 0 {
        let order = walk_preorder(tree, 0);
        let ghost stop = ns[0].end as int;
        assert(node_ok(ns, 0));
        assert forall|k: int| 0 <= k < order@.len() implies order@[k] == k by {
            assert(order@[k] == preorder(ns, 0)[k]);
        }
        let mut idx: usize = 0;
        while idx < order.len()
            invariant
                ns == tree.nodes@,
                src == source.spec_bytes(),
                tree.wf(),
                ns.len() > 0,
                stop == ns[0].end,
                stop <= ns.len(),
                order@.len() == stop,
                forall|k: int| 0 <= k < order@.len() ==> order@[k] == k,
                0 <= idx <= order@.len(),
                assignments@.len() + assignments_from(ns, src, idx as int, stop).len()
                    == assignments_from(ns, src, 0, stop).len(),
                forall|k: int|
                    0 <= k < assignments@.len() ==> (#[trigger] assignments@[k]).0@
                        == assignments_from(ns, src, 0, stop)[k].0 && assignments@[k].1
                        == assignments_from(ns, src, 0, stop)[k].1,
                forall|k: int|
                    0 <= k < assignments_from(ns, src, idx as int, stop).len() ==> assignments_from(
                        ns,
                        src,
                        0,
                        stop,
                    )[assignments@.len() + k] == #[trigger] assignments_from(
                        ns,
                        src,
                        idx as int,
                        stop,
                    )[k],
            decreases order@.len() - idx,
        {
            let n = order[idx];
            assert(n == idx);
            let ghost before = assignments_from(ns, src, idx as int, stop);
            let ghost after = assignments_from(ns, src, idx + 1, stop);
            let found = assignment_of(tree, n, source);
            match found {
                Some(a) => {
                    assert(before == seq![assignment_at(ns, src, idx as int).unwrap()] + after);
                    assert(before[0] == assignment_at(ns, src, idx as int).unwrap());
                    assert(before[0].0 == a.0@ && before[0].1 == a.1);
                    assignments.push(a);
                    assert forall|k: int| 0 <= k < after.len() implies assignments_from(
                        ns,
                        src,
                        0,
                        stop,
                    )[assignments@.len() + k] == #[trigger] after[k] by {
                        assert(before[k + 1] == after[k]);
                    }
                },
                None => {
                    assert(before == after);
                },
            }
            idx += 1;
        }
        assert(asg == assignments_from(ns, src, 0, stop));
        proof {
            lemma_assignments_in_range(ns, src, 0, stop);
        }
    }
    assert(assignments@.len() == asg.len());
    assert forall|k: int| 0 <= k < asg.len() implies 0 <= #[trigger] asg[k].1 < ns.len() by {
        if ns.len() > 0 {
            assert(0 < asg[k].1 < ns.len());
        }
    }
    assignments
}

/// Collect the names bound to QuerySets in the module. Assignments are
/// re-examined until none adds a name, so that chains of bindings
/// (`qs2 = qs.filter(...)`) are captured: the result is the least set of names
/// closed under the module's assignments.
pub fn collect_bindings(tree: &SyntaxTree, source: &str) -> (b: Bindings)
    requires
        tree.wf(),
    ensures
        closed_under(
            tree.nodes@,
            source.spec_bytes(),
            module_assignments(tree.nodes@, source.spec_bytes()),
            b@,
        ),
        forall|vars: Set<Seq<char>>|
            closed_under(
                tree.nodes@,
                source.spec_bytes(),
                module_assignments(tree.nodes@, source.spec_bytes()),
                vars,
            ) ==> #[trigger] b@.subset_of(vars),
        b@ == least_bindings(tree.nodes@, source.spec_bytes()),
{
    let ghost ns = tree.nodes@;
    let ghost src = source.spec_bytes();
    let ghost asg = module_assignments(ns, src);
    let assignments = module_assignment_list(tree, source);
    let mut bindings = Bindings::default();
    loop
        invariant
            ns == tree.nodes@,
            src == source.spec_bytes(),
            tree.wf(),
            asg == module_assignments(ns, src),
            assignments@.len() == asg.len(),
            forall|k: int|
                0 <= k < asg.len() ==> (#[trigger] assignments@[k]).0@ == asg[k].0
                    && assignments@[k].1 == asg[k].1,
            forall|k: int| 0 <= k < asg.len() ==> 0 <= #[trigger] asg[k].1 < ns.len(),
            forall|vars: Set<Seq<char>>|
                closed_under(ns, src, asg, vars) ==> #[trigger] bindings@.subset_of(vars),
        decreases unbound_count(asg, bindings@, asg.len() as int),
    {
        let ghost start = bindings@;
        let mut changed = false;
        let mut k: usize = 0;
        while k < assignments.len()
            invariant
                ns == tree.nodes@,
                src == source.spec_bytes(),
                tree.wf(),
                asg == module_assignments(ns, src),
                assignments@.len() == asg.len(),
                forall|q: int|
                    0 <= q < asg.len() ==> (#[trigger] assignments@[q]).0@ == asg[q].0
                        && assignments@[q].1 == asg[q].1,
                forall|q: int| 0 <= q < asg.len() ==> 0 <= #[trigger] asg[q].1 < ns.len(),
                forall|vars: Set<Seq<char>>|
                    closed_under(ns, src, asg, vars) ==> #[trigger] bindings@.subset_of(vars),
                0 <= k <= assignments@.len(),
                start.subset_of(bindings@),
                !changed ==> bindings@ == start,
                changed ==> unbound_count(asg, bindings@, asg.len() as int) < unbound_count(
                    asg,
                    start,
                    asg.len() as int,
                ),
                !changed ==> forall|q: int|
                    0 <= q < k ==> bindings@.contains(asg[q].0) || !#[trigger] is_queryset_expr(
                        ns,
                        src,
                        bindings@,
                        asg[q].1,
                    ),
            decreases assignments@.len() - k,
        {
            let (name, value) = assignments[k];
            if !bindings.is_queryset_var(name) {
                if expr_is_queryset(tree, value, source, &bindings) {
                    let ghost before = bindings@;
                    let added = bindings.insert(name);
                    proof {
                        assert forall|vars: Set<Seq<char>>|
                            closed_under(ns, src, asg, vars) implies #[trigger] bindings@.subset_of(
                            vars,
                        ) by {
                            assert(before.subset_of(vars));
                            lemma_queryset_expr_monotone(ns, src, before, vars, asg[k as int].1);
                            assert(is_queryset_expr(ns, src, vars, asg[k as int].1));
                        }
                        lemma_unbound_count_shrinks(asg, start, bindings@, asg.len() as int, k as int);
                        lemma_unbound_count_shrinks(asg, before, bindings@, asg.len() as int, k as int);
                    }
                    changed = changed || added;
                }
            }
            k += 1;
        }
        if !changed {
            proof {
                assert(closed_under(ns, src, asg, bindings@));
                assert forall|x: Seq<char>| #[trigger] least_bindings(ns, src).contains(x) implies bindings@.contains(x) by {
                    assert(closed_under(ns, src, asg, bindings@));
                }
                assert forall|x: Seq<char>| bindings@.contains(x) implies #[trigger] least_bindings(ns, src).contains(x) by {
                    assert forall|vars: Set<Seq<char>>| closed_under(ns, src, module_assignments(ns, src), vars) implies #[trigger] vars.contains(x) by {
                        assert(bindings@.subset_of(vars));
                    }
                }
                assert(bindings@ =~= least_bindings(ns, src));
            }
            return bindings;
        }
    }
}

/// Only names that the module assigns to are ever bound to QuerySets.
pub proof fn law_bindings_are_assigned_names(ns: Seq<SyntaxNode>, src: Seq<u8>, name: Seq<char>)
    requires
        least_bindings(ns, src).contains(name),
    ensures
        exists|k: int|
            0 <= k < module_assignments(ns, src).len() && (#[trigger] module_assignments(
                ns,
                src,
            )[k]).0 == name,
{
    let asg = module_assignments(ns, src);
    let names = Set::new(
        |n: Seq<char>| exists|k: int| 0 <= k < asg.len() && (#[trigger] asg[k]).0 == n,
    );
    assert(closed_under(ns, src, asg, names)) by {
        assert forall|k: int|
            0 <= k < asg.len() && #[trigger] is_queryset_expr(ns, src, names, asg[k].1) implies names.contains(
            asg[k].0,
        ) by {}
    }
    assert(names.contains(name));
}

/// The node's text holds an eager-loading hint (`select_related` or
/// `prefetch_related`).
pub open spec fn eager_loaded(ns: Seq<SyntaxNode>, src: Seq<u8>, i: int) -> bool {
    bytes_contain(encode_utf8(node_text_of(ns, src, i)), encode_utf8("select_related"@))
        || bytes_contain(encode_utf8(node_text_of(ns, src, i)), encode_utf8("prefetch_related"@))
}

/// Whether the text of `node` mentions an eager-loading hint
/// (`select_related` or `prefetch_related`).
pub fn has_eager_loading(tree: &SyntaxTree, node: usize, source: &str) -> (r: bool)
    requires
        node < tree.nodes@.len(),
    ensures
        r == eager_loaded(tree.nodes@, source.spec_bytes(), node as int),
{
    let text = node_text(tree, node, source);
    str_contains(text, "select_related") || str_contains(text, "prefetch_related")
}

/// Assignment `k` of the module binds `name` to a QuerySet expression (given
/// the QuerySet names `vars`).
pub open spec fn binds_queryset(
    ns: Seq<SyntaxNode>,
    src: Seq<u8>,
    vars: Set<Seq<char>>,
    name: Seq<char>,
    k: int,
) -> bool {
    module_assignments(ns, src)[k].0 == name && is_queryset_expr(
        ns,
        src,
        vars,
        module_assignments(ns, src)[k].1,
    )
}

/// `name` is bound to an eager-loaded QuerySet: the module assigns it a
/// QuerySet expression (given the QuerySet names `vars`), and every QuerySet
/// expression that it assigns it holds an eager-loading hint.
pub open spec fn eagerly_bound(
    ns: Seq<SyntaxNode>,
    src: Seq<u8>,
    vars: Set<Seq<char>>,
    name: Seq<char>,
) -> bool {
    &&& exists|k: int|
        0 <= k < module_assignments(ns, src).len() && #[trigger] binds_queryset(ns, src, vars, name, k)
    &&& forall|k: int|
        0 <= k < module_assignments(ns, src).len() && #[trigger] binds_queryset(ns, src, vars, name, k)
            ==> eager_loaded(ns, src, module_assignments(ns, src)[k].1)
}

/// A name is eager-loaded exactly when the module binds it to a QuerySet and
/// each of its QuerySet bindings holds a hint: one binding without a hint is
/// enough to make it not eager-loaded.
pub proof fn law_eagerly_bound(
    ns: Seq<SyntaxNode>,
    src: Seq<u8>,
    vars: Set<Seq<char>>,
    name: Seq<char>,
    k: int,
)
    requires
        0 <= k < module_assignments(ns, src).len(),
        module_assignments(ns, src)[k].0 == name,
        is_queryset_expr(ns, src, vars, module_assignments(ns, src)[k].1),
    ensures
        !eager_loaded(ns, src, module_assignments(ns, src)[k].1) ==> !eagerly_bound(ns, src, vars, name),
        (forall|q: int|
            0 <= q < module_assignments(ns, src).len() && module_assignments(ns, src)[q].0 == name
                && #[trigger] is_queryset_expr(ns, src, vars, module_assignments(ns, src)[q].1)
                ==> eager_loaded(ns, src, module_assignments(ns, src)[q].1)) ==> eagerly_bound(
            ns,
            src,
            vars,
            name,
        ),
{
    assert(binds_queryset(ns, src, vars, name, k));
}

/// Whether `name` is bound to an eager-loaded QuerySet, given the module's
/// assignments `assignments` (from [`module_assignment_list`]).
pub fn is_eagerly_bound(
    tree: &SyntaxTree,
    source: &str,
    bindings: &Bindings,
    assignments: &Vec<(&str, usize)>,
    name: &str,
) -> (r: bool)
    requires
        tree.wf(),
        assignments@.len() == module_assignments(tree.nodes@, source.spec_bytes()).len(),
        forall|k: int|
            0 <= k < assignments@.len() ==> (#[trigger] assignments@[k]).0@ == module_assignments(
                tree.nodes@,
                source.spec_bytes(),
            )[k].0 && assignments@[k].1 == module_assignments(tree.nodes@, source.spec_bytes())[k].1,
        forall|k: int|
            0 <= k < assignments@.len() ==> 0 <= #[trigger] module_assignments(
                tree.nodes@,
                source.spec_bytes(),
            )[k].1 < tree.nodes@.len(),
    ensures
        r == eagerly_bound(tree.nodes@, source.spec_bytes(), bindings@, name@),
{
    let ghost ns = tree.nodes@;
    let ghost src = source.spec_bytes();
    let ghost asg = module_assignments(ns, src);
    let ghost vars = bindings@;
    let mut bound = false;
    let mut k: usize = 0;
    while k < assignments.len()
        invariant
            ns == tree.nodes@,
            src == source.spec_bytes(),
            asg == module_assignments(ns, src),
            vars == bindings@,
            tree.wf(),
            assignments@.len() == asg.len(),
            forall|q: int|
                0 <= q < asg.len() ==> (#[trigger] assignments@[q]).0@ == asg[q].0
                    && assignments@[q].1 == asg[q].1,
            forall|q: int| 0 <= q < asg.len() ==> 0 <= #[trigger] asg[q].1 < ns.len(),
            0 <= k <= asg.len(),
            bound == exists|q: int| 0 <= q < k && #[trigger] binds_queryset(ns, src, vars, name@, q),
            forall|q: int|
                0 <= q < k && #[trigger] binds_queryset(ns, src, vars, name@, q) ==> eager_loaded(
                    ns,
                    src,
                    asg[q].1,
                ),
        decreases asg.len() - k,
    {
        let (n, value) = assignments[k];
        assert(asg[k as int].1 < ns.len());
        if str_eq(n, name) && expr_is_queryset(tree, value, source, bindings) {
            assert(binds_queryset(ns, src, vars, name@, k as int));
            if !has_eager_loading(tree, value, source) {
                return false;
            }
            bound = true;
        } else {
            assert(!binds_queryset(ns, src, vars, name@, k as int));
        }
        k += 1;
    }
    bound
}

} // verus!
