//! Lifetimes, the lifetime signature of a function, and the context that
//! collects lifetime constraints while a function is analysed.
use vstd::prelude::*;
use crate::text::{decimal, join, lemma_join_step, push_char, push_decimal};
use crate::utilities::{label_of, lemma_label_injective, usize_to_string};
use crate::dsu::{
    DSU, all_reach_roots, ancestor, is_root, lemma_rep_is_reached_root, lemma_union_map_reps,
    parent_in, rep_of, union_map,
};
use crate::graph::{
    ConstraintGraph, all_occupied, graph_add_edge, graph_add_node, graph_edge_slots, graph_new,
    graph_node_count, graph_node_indices, graph_node_weight, graph_out_neighbors, graph_sccs, graph_slots,
    graph_succs, mutually_reachable, out_list, tarjan_components,
};
use crate::ir::{Function, Name, NameView, Parameter, Type, name_text};
use std::collections::HashMap;

verus! {

/// A lifetime: that of a local, of the heap, or a lifetime variable.
#[derive(Clone, Copy, PartialEq, Eq, Structural, Hash, Debug)]
pub enum Lifetime {
    Local,
    Heap,
    Var(u32),
}

impl Default for Lifetime {
    fn default() -> (r: Self)
        ensures
            r == Lifetime::Local,
    {
        Lifetime::Local
    }
}

/// How a lifetime is written: `local`, `heap` or `var(<id>)`.
pub open spec fn lifetime_text(lt: Lifetime) -> Seq<char> {
    match lt {
        Lifetime::Local => seq!['l', 'o', 'c', 'a', 'l'],
        Lifetime::Heap => seq!['h', 'e', 'a', 'p'],
        Lifetime::Var(id) => seq!['v', 'a', 'r', '('] + decimal(id as nat) + seq![')'],
    }
}

impl Lifetime {
    /// The lifetime as text; see [`lifetime_text`].
    pub fn to_string(&self) -> (s: String)
        ensures
            s@ == lifetime_text(*self),
    {
        let mut s = String::new();
        match self {
            Lifetime::Local => {
                push_char(&mut s, 'l');
                push_char(&mut s, 'o');
                push_char(&mut s, 'c');
                push_char(&mut s, 'a');
                push_char(&mut s, 'l');
            },
            Lifetime::Heap => {
                push_char(&mut s, 'h');
                push_char(&mut s, 'e');
                push_char(&mut s, 'a');
                push_char(&mut s, 'p');
            },
            Lifetime::Var(id) => {
                push_char(&mut s, 'v');
                push_char(&mut s, 'a');
                push_char(&mut s, 'r');
                push_char(&mut s, '(');
                push_decimal(&mut s, *id as usize);
                push_char(&mut s, ')');
            },
        }
        proof {
            assert(s@ =~= lifetime_text(*self));
        }
        s
    }
}

/// The lifetime signature of a function: for each parameter the lifetimes
/// of its levels of indirection (the value itself first), the lifetimes of
/// the returned value, and outlives constraints `(longer, shorter)`.
#[derive(Clone, PartialEq, Eq, Hash, Debug)]
pub struct FunctionLifetimes {
    parameters: Vec<Vec<Lifetime>>,
    return_variable: Vec<Lifetime>,
    constraints: Vec<(Lifetime, Lifetime)>,
}

/// A [`FunctionLifetimes`] as a mathematical value.
pub struct FunctionLifetimesView {
    pub parameters: Seq<Seq<Lifetime>>,
    pub return_variable: Seq<Lifetime>,
    pub constraints: Seq<(Lifetime, Lifetime)>,
}

impl View for FunctionLifetimes {
    type V = FunctionLifetimesView;

    closed spec fn view(&self) -> FunctionLifetimesView {
        FunctionLifetimesView {
            parameters: self.parameters@.map_values(|p: Vec<Lifetime>| p@),
            return_variable: self.return_variable@,
            constraints: self.constraints@,
        }
    }
}

impl Default for FunctionLifetimes {
    fn default() -> (r: Self)
        ensures
            r@.parameters.len() == 0,
            r@.return_variable.len() == 0,
            r@.constraints.len() == 0,
    {
        FunctionLifetimes { parameters: Vec::new(), return_variable: Vec::new(), constraints: Vec::new() }
    }
}

impl FunctionLifetimes {
    /// A signature with the given parameter lifetimes, return lifetimes and
    /// constraints.
    pub fn new(
        parameters: Vec<Vec<Lifetime>>,
        return_variable: Vec<Lifetime>,
        constraints: Vec<(Lifetime, Lifetime)>,
    ) -> (r: Self)
        ensures
            r@.parameters == parameters@.map_values(|p: Vec<Lifetime>| p@),
            r@.return_variable == return_variable@,
            r@.constraints == constraints@,
    {
        FunctionLifetimes { parameters, return_variable, constraints }
    }
}

/// `s` without its first element (empty if `s` is empty).
pub open spec fn after_first<A>(s: Seq<A>) -> Seq<A> {
    if s.len() == 0 {
        s
    } else {
        s.skip(1)
    }
}

/// Each parameter's lifetimes after the first, in order.
pub open spec fn params_mentioned(ps: Seq<Seq<Lifetime>>) -> Seq<Lifetime>
    decreases ps.len(),
{
    if ps.len() == 0 {
        seq![]
    } else {
        params_mentioned(ps.drop_last()) + after_first(ps.last())
    }
}

/// Both sides of each constraint, in order.
pub open spec fn constraints_mentioned(cs: Seq<(Lifetime, Lifetime)>) -> Seq<Lifetime>
    decreases cs.len(),
{
    if cs.len() == 0 {
        seq![]
    } else {
        constraints_mentioned(cs.drop_last()) + seq![cs.last().0, cs.last().1]
    }
}

/// Every lifetime that the rendering of `fl` names, in the order it meets
/// them: each parameter's lifetimes after the first, then both sides of
/// each constraint.
pub open spec fn mentioned(fl: FunctionLifetimesView) -> Seq<Lifetime> {
    params_mentioned(fl.parameters) + constraints_mentioned(fl.constraints)
}

/// The ids of the lifetime variables in `s`, each once, in order of first
/// appearance.
pub open spec fn first_vars(s: Seq<Lifetime>) -> Seq<u32>
    decreases s.len(),
{
    if s.len() == 0 {
        seq![]
    } else {
        let f = first_vars(s.drop_last());
        match s.last() {
            Lifetime::Var(id) => if f.contains(id) {
                f
            } else {
                f.push(id)
            },
            _ => f,
        }
    }
}

/// The label of `lt` when lifetime variables are named in the order
/// `order`: `'` followed by the letter label of its position in `order`,
/// or by the text of `local` and `heap`.
pub open spec fn lifetime_label(order: Seq<u32>, lt: Lifetime) -> Seq<char> {
    seq!['\''] + match lt {
        Lifetime::Var(id) => label_of(order.index_of(id) as nat),
        _ => lifetime_text(lt),
    }
}

/// `(l1, l2, ...)`: the labels of a parameter's lifetimes after the first.
pub open spec fn render_param(order: Seq<u32>, p: Seq<Lifetime>) -> Seq<char> {
    seq!['('] + join(after_first(p).map_values(|l: Lifetime| lifetime_label(order, l)), seq![',', ' '])
        + seq![')']
}

/// `l >= r`
pub open spec fn render_constraint(order: Seq<u32>, c: (Lifetime, Lifetime)) -> Seq<char> {
    lifetime_label(order, c.0) + seq![' ', '>', '=', ' '] + lifetime_label(order, c.1)
}

/// The text of a lifetime signature: the parameters, each in parentheses,
/// joined by ` -> `, then, if there are constraints, ` where ` and the
/// constraints joined by `, `. Lifetime variables are labelled `'a`, `'b`,
/// ... in the order in which the text first mentions them.
pub open spec fn render(fl: FunctionLifetimesView) -> Seq<char> {
    let order = first_vars(mentioned(fl));
    let ps = join(
        fl.parameters.map_values(|p: Seq<Lifetime>| render_param(order, p)),
        seq![' ', '-', '>', ' '],
    );
    if fl.constraints.len() > 0 {
        ps + seq![' ', 'w', 'h', 'e', 'r', 'e', ' '] + join(
            fl.constraints.map_values(|c: (Lifetime, Lifetime)| render_constraint(order, c)),
            seq![',', ' '],
        )
    } else {
        ps
    }
}

/// `a` is an initial part of `b`.
pub open spec fn is_prefix<A>(a: Seq<A>, b: Seq<A>) -> bool {
    a.len() <= b.len() && forall|i: int| 0 <= i < a.len() ==> #[trigger] a[i] == b[i]
}

proof fn lemma_prefix_trans<A>(a: Seq<A>, b: Seq<A>, c: Seq<A>)
    requires
        is_prefix(a, b),
        is_prefix(b, c),
    ensures
        is_prefix(a, c),
{
    assert forall|i: int| 0 <= i < a.len() implies #[trigger] a[i] == c[i] by {
        assert(a[i] == b[i]);
    }
}

proof fn lemma_prefix_concat<A>(a: Seq<A>, b: Seq<A>)
    ensures
        is_prefix(a, a + b),
{
    assert forall|i: int| 0 <= i < a.len() implies #[trigger] a[i] == (a + b)[i] by {}
}

proof fn lemma_first_vars_no_dup(s: Seq<Lifetime>)
    ensures
        first_vars(s).no_duplicates(),
    decreases s.len(),
{
    if s.len() > 0 {
        lemma_first_vars_no_dup(s.drop_last());
    }
}

proof fn lemma_first_vars_prefix(s: Seq<Lifetime>, k: int)
    requires
        0 <= k <= s.len(),
    ensures
        is_prefix(first_vars(s.take(k)), first_vars(s)),
    decreases s.len() - k,
{
    if k < s.len() {
        lemma_first_vars_prefix(s, k + 1);
        assert(s.take(k + 1).drop_last() =~= s.take(k));
        let f = first_vars(s.take(k));
        let g = first_vars(s.take(k + 1));
        assert(is_prefix(f, g)) by {
            if g != f {
                assert(g == f.push(s[k]->Var_0));
                assert(forall|i: int| 0 <= i < f.len() ==> f[i] == #[trigger] g[i]);
            }
        }
        lemma_prefix_trans(f, g, first_vars(s));
    } else {
        assert(s.take(k) =~= s);
    }
}

proof fn lemma_index_of_in_prefix(a: Seq<u32>, b: Seq<u32>, x: u32)
    requires
        is_prefix(a, b),
        b.no_duplicates(),
        a.contains(x),
    ensures
        b.index_of(x) == a.index_of(x),
        0 <= a.index_of(x) < a.len(),
        a[a.index_of(x)] == x,
{
    let i = choose|i: int| 0 <= i < a.len() && a[i] == x;
    assert(b[i] == x);
    let j = b.index_of(x);
    assert(0 <= j < b.len() && b[j] == x);
}

proof fn lemma_params_mentioned_split(ps: Seq<Seq<Lifetime>>, i: int)
    requires
        0 <= i < ps.len(),
    ensures
        params_mentioned(ps.take(i + 1)) == params_mentioned(ps.take(i)) + after_first(ps[i]),
        is_prefix(params_mentioned(ps.take(i + 1)), params_mentioned(ps)),
    decreases ps.len() - i,
{
    assert(ps.take(i + 1).drop_last() =~= ps.take(i));
    if i + 1 < ps.len() {
        lemma_params_mentioned_split(ps, i + 1);
        lemma_prefix_concat(params_mentioned(ps.take(i + 1)), after_first(ps[i + 1]));
        lemma_prefix_trans(
            params_mentioned(ps.take(i + 1)),
            params_mentioned(ps.take(i + 2)),
            params_mentioned(ps),
        );
    } else {
        assert(ps.take(i + 1) =~= ps);
    }
}

proof fn lemma_constraints_mentioned_split(cs: Seq<(Lifetime, Lifetime)>, i: int)
    requires
        0 <= i < cs.len(),
    ensures
        constraints_mentioned(cs.take(i + 1)) == constraints_mentioned(cs.take(i)) + seq![
            cs[i].0,
            cs[i].1,
        ],
        is_prefix(constraints_mentioned(cs.take(i + 1)), constraints_mentioned(cs)),
    decreases cs.len() - i,
{
    assert(cs.take(i + 1).drop_last() =~= cs.take(i));
    if i + 1 < cs.len() {
        lemma_constraints_mentioned_split(cs, i + 1);
        lemma_prefix_concat(constraints_mentioned(cs.take(i + 1)), seq![cs[i + 1].0, cs[i + 1].1]);
        lemma_prefix_trans(
            constraints_mentioned(cs.take(i + 1)),
            constraints_mentioned(cs.take(i + 2)),
            constraints_mentioned(cs),
        );
    } else {
        assert(cs.take(i + 1) =~= cs);
    }
}

proof fn lemma_prefix_take<A>(a: Seq<A>, b: Seq<A>, k: int)
    requires
        0 <= k <= b.len(),
    ensures
        is_prefix(a + b.take(k), a + b),
{
    assert forall|i: int| 0 <= i < (a + b.take(k)).len() implies #[trigger] (a + b.take(k))[i] == (a
        + b)[i] by {}
}

/// Labelling `lt` after the initial part `q` of `full` gives the label it has
/// in the order of the whole of `full`.
proof fn lemma_label_stable(q: Seq<Lifetime>, lt: Lifetime, full: Seq<Lifetime>)
    requires
        is_prefix(q.push(lt), full),
    ensures
        lifetime_label(first_vars(q.push(lt)), lt) == lifetime_label(first_vars(full), lt),
{
    let q2 = q.push(lt);
    assert(full.take(q2.len() as int) =~= q2);
    lemma_first_vars_prefix(full, q2.len() as int);
    lemma_first_vars_no_dup(full);
    assert(q2.drop_last() =~= q);
    if let Lifetime::Var(id) = lt {
        assert(first_vars(q2).contains(id)) by {
            let f = first_vars(q);
            if !f.contains(id) {
                assert(first_vars(q2) == f.push(id));
                assert(first_vars(q2)[f.len() as int] == id);
            }
        }
        lemma_index_of_in_prefix(first_vars(q2), first_vars(full), id);
    }
}

/// Labels `lt`, first giving it the next position in `order` if it is a
/// lifetime variable not seen before.
fn label_lifetime(order: &mut Vec<u32>, lt: Lifetime, Ghost(seen): Ghost<Seq<Lifetime>>) -> (s:
    String)
    requires
        old(order)@ == first_vars(seen),
    ensures
        final(order)@ == first_vars(seen.push(lt)),
        s@ == lifetime_label(final(order)@, lt),
{
    proof {
        assert(seen.push(lt).drop_last() =~= seen);
        lemma_first_vars_no_dup(seen.push(lt));
    }
    let mut s = String::new();
    push_char(&mut s, '\'');
    match lt {
        Lifetime::Var(id) => {
            let mut pos: usize = 0;
            while pos < order.len() && order[pos] != id
                invariant
                    pos <= order@.len(),
                    forall|k: int| 0 <= k < pos ==> order@[k] != id,
                decreases order@.len() - pos,
            {
                pos = pos + 1;
            }
            if pos == order.len() {
                order.push(id);
            }
            proof {
                assert(order@[pos as int] == id);
                assert(order@.contains(id));
                let j = order@.index_of(id);
                assert(0 <= j < order@.len() && order@[j] == id);
                assert(j == pos);
            }
            let label = usize_to_string(pos);
            s.append(label.as_str());
        },
        _ => {
            let text = lt.to_string();
            s.append(text.as_str());
        },
    }
    proof {
        assert(s@ =~= lifetime_label(order@, lt));
    }
    s
}

/// Renders one parameter, labelling its lifetimes after `base` has been
/// labelled.
fn render_param_exec(
    p: &Vec<Lifetime>,
    order: &mut Vec<u32>,
    Ghost(base): Ghost<Seq<Lifetime>>,
    Ghost(full): Ghost<Seq<Lifetime>>,
) -> (s: String)
    requires
        old(order)@ == first_vars(base),
        is_prefix(base + after_first(p@), full),
    ensures
        final(order)@ == first_vars(base + after_first(p@)),
        s@ == render_param(first_vars(full), p@),
{
    let ghost order_full = first_vars(full);
    let ghost rest = after_first(p@);
    let ghost labels = rest.map_values(|l: Lifetime| lifetime_label(order_full, l));
    let ghost sep = seq![',', ' '];
    proof {
        reveal_strlit(", ");
        assert(base + rest.take(0) =~= base);
    }
    let m = p.len();
    let mut inner = String::new();
    let mut j: usize = 1;
    while j < m
        invariant
            m == p@.len(),
            rest == after_first(p@),
            (m == 0 && j == 1) || (1 <= j <= m),
            rest.len() == if m == 0 { 0 } else { m - 1 },
            labels == rest.map_values(|l: Lifetime| lifetime_label(order_full, l)),
            order_full == first_vars(full),
            sep == seq![',', ' '],
            ", "@ == sep,
            is_prefix(base + rest, full),
            inner@ == join(labels.take(j - 1), sep),
            order@ == first_vars(base + rest.take(j - 1)),
        decreases m - j,
    {
        let lt = p[j];
        let ghost seen = base + rest.take(j - 1);
        proof {
            assert(rest[j - 1] == lt);
            assert(seen.push(lt) =~= base + rest.take(j as int));
            lemma_prefix_take(base, rest, j as int);
            lemma_prefix_trans(seen.push(lt), base + rest, full);
            lemma_label_stable(seen, lt, full);
        }
        let lab = label_lifetime(order, lt, Ghost(seen));
        if j > 1 {
            inner.append(", ");
        }
        inner.append(lab.as_str());
        proof {
            lemma_join_step(labels, sep, j - 1);
        }
        j = j + 1;
    }
    proof {
        assert(labels.take(rest.len() as int) =~= labels);
        assert(rest.take(rest.len() as int) =~= rest);
    }
    let mut s = String::new();
    push_char(&mut s, '(');
    s.append(inner.as_str());
    push_char(&mut s, ')');
    proof {
        assert(s@ =~= render_param(order_full, p@));
    }
    s
}

impl FunctionLifetimes {
    /// The signature as text; see [`render`].
    pub fn to_string(&self) -> (s: String)
        ensures
            s@ == render(self@),
    {
        let ghost fl = self@;
        let ghost full = mentioned(fl);
        let ghost order_full = first_vars(full);
        let ghost pparts = fl.parameters.map_values(|p: Seq<Lifetime>| render_param(order_full, p));
        let ghost psep = seq![' ', '-', '>', ' '];
        proof {
            reveal_strlit(" -> ");
            lemma_prefix_concat(params_mentioned(fl.parameters), constraints_mentioned(fl.constraints));
            assert(fl.parameters.take(0) =~= Seq::<Seq<Lifetime>>::empty());
        }
        let mut order: Vec<u32> = Vec::new();
        let mut out = String::new();
        let n = self.parameters.len();
        for i in 0..n
            invariant
                n == self.parameters@.len(),
                fl == self@,
                full == mentioned(fl),
                order_full == first_vars(full),
                pparts == fl.parameters.map_values(|p: Seq<Lifetime>| render_param(order_full, p)),
                psep == seq![' ', '-', '>', ' '],
                " -> "@ == psep,
                is_prefix(params_mentioned(fl.parameters), full),
                out@ == join(pparts.take(i as int), psep),
                order@ == first_vars(params_mentioned(fl.parameters.take(i as int))),
        {
            proof {
                lemma_params_mentioned_split(fl.parameters, i as int);
                lemma_prefix_trans(
                    params_mentioned(fl.parameters.take(i + 1)),
                    params_mentioned(fl.parameters),
                    full,
                );
                assert(fl.parameters[i as int] == self.parameters@[i as int]@);
            }
            let part = render_param_exec(
                &self.parameters[i],
                &mut order,
                Ghost(params_mentioned(fl.parameters.take(i as int))),
                Ghost(full),
            );
            if i > 0 {
                out.append(" -> ");
            }
            out.append(part.as_str());
            proof {
                lemma_join_step(pparts, psep, i as int);
            }
        }
        proof {
            assert(pparts.take(n as int) =~= pparts);
            assert(fl.parameters.take(n as int) =~= fl.parameters);
        }
        if self.constraints.len() > 0 {
            let ghost pm = params_mentioned(fl.parameters);
            let ghost cs = fl.constraints;
            let ghost cparts = cs.map_values(
                |c: (Lifetime, Lifetime)| render_constraint(order_full, c),
            );
            let ghost csep = seq![',', ' '];
            proof {
                reveal_strlit(", ");
                reveal_strlit(" >= ");
                reveal_strlit(" where ");
                assert(cs.take(0) =~= Seq::<(Lifetime, Lifetime)>::empty());
                assert(pm + constraints_mentioned(cs.take(0)) =~= pm);
            }
            let mut cout = String::new();
            let c = self.constraints.len();
            for k in 0..c
                invariant
                    c == self.constraints@.len(),
                    fl == self@,
                    cs == fl.constraints,
                    pm == params_mentioned(fl.parameters),
                    full == mentioned(fl),
                    full == pm + constraints_mentioned(cs),
                    order_full == first_vars(full),
                    cparts == cs.map_values(
                        |c: (Lifetime, Lifetime)| render_constraint(order_full, c),
                    ),
                    csep == seq![',', ' '],
                    ", "@ == csep,
                    " >= "@ == seq![' ', '>', '=', ' '],
                    cout@ == join(cparts.take(k as int), csep),
                    order@ == first_vars(pm + constraints_mentioned(cs.take(k as int))),
            {
                let pair = self.constraints[k];
                let l = pair.0;
                let r = pair.1;
                let ghost seen0 = pm + constraints_mentioned(cs.take(k as int));
                proof {
                    lemma_constraints_mentioned_split(cs, k as int);
                    assert(pm + constraints_mentioned(cs.take(k + 1)) =~= seen0.push(l).push(r));
                    lemma_prefix_concat(pm, constraints_mentioned(cs));
                    assert(is_prefix(
                        pm + constraints_mentioned(cs.take(k + 1)),
                        pm + constraints_mentioned(cs),
                    )) by {
                        assert forall|i: int|
                            0 <= i < (pm + constraints_mentioned(cs.take(k + 1))).len() implies #[trigger] (
                        pm + constraints_mentioned(cs.take(k + 1)))[i] == (pm
                            + constraints_mentioned(cs))[i] by {
                            if i >= pm.len() {
                                assert(constraints_mentioned(cs.take(k + 1))[i - pm.len()]
                                    == constraints_mentioned(cs)[i - pm.len()]);
                            }
                        }
                    }
                    lemma_prefix_concat(seen0.push(l), seq![r]);
                    assert(seen0.push(l) + seq![r] =~= seen0.push(l).push(r));
                    lemma_prefix_trans(seen0.push(l), seen0.push(l).push(r), full);
                    lemma_label_stable(seen0, l, full);
                    lemma_label_stable(seen0.push(l), r, full);
                }
                let lab_l = label_lifetime(&mut order, l, Ghost(seen0));
                let lab_r = label_lifetime(&mut order, r, Ghost(seen0.push(l)));
                let mut piece = String::new();
                piece.append(lab_l.as_str());
                piece.append(" >= ");
                piece.append(lab_r.as_str());
                if k > 0 {
                    cout.append(", ");
                }
                cout.append(piece.as_str());
                proof {
                    assert(piece@ =~= cparts[k as int]);
                    lemma_join_step(cparts, csep, k as int);
                }
            }
            proof {
                assert(cparts.take(c as int) =~= cparts);
            }
            out.append(" where ");
            out.append(cout.as_str());
        }
        proof {
            assert(out@ =~= render(self@));
        }
        out
    }
}

/// An abstract memory location: a named value seen through `indirection`
/// levels of pointers (level 0 is the value itself).
pub struct AbstractLocation {
    name: Name,
    indirection: u32,
}

/// An [`AbstractLocation`] as a mathematical value.
pub type LocView = (NameView, u32);

impl View for AbstractLocation {
    type V = LocView;

    closed spec fn view(&self) -> LocView {
        (self.name@, self.indirection)
    }
}

/// How a location is written: `<name>@<indirection>`.
pub open spec fn location_text(loc: LocView) -> Seq<char> {
    name_text(loc.0) + seq!['@'] + decimal(loc.1 as nat)
}

impl AbstractLocation {
    /// The location as text; see [`location_text`].
    pub fn to_string(&self) -> (s: String)
        ensures
            s@ == location_text(self@),
    {
        let mut s = self.name.to_string();
        push_char(&mut s, '@');
        push_decimal(&mut s, self.indirection as usize);
        proof {
            assert(s@ =~= location_text(self@));
        }
        s
    }
}

/// The number that stands for a lifetime in the union-find structure:
/// `local` is 0, `heap` is 1 and `var(id)` is `id + 2`.
pub open spec fn lt_key(lt: Lifetime) -> u64 {
    match lt {
        Lifetime::Local => 0,
        Lifetime::Heap => 1,
        Lifetime::Var(id) => (id + 2) as u64,
    }
}

/// The lifetime that the number `k` stands for (see [`lt_key`]).
pub open spec fn key_lt(k: u64) -> Lifetime {
    if k == 0 {
        Lifetime::Local
    } else if k == 1 {
        Lifetime::Heap
    } else {
        Lifetime::Var((k - 2) as u32)
    }
}

/// `k` stands for some lifetime.
pub open spec fn valid_key(k: u64) -> bool {
    k <= 0x1_0000_0001
}

impl Lifetime {
    /// The number that stands for this lifetime; see [`lt_key`].
    pub fn key(&self) -> (k: u64)
        ensures
            k == lt_key(*self),
            valid_key(k),
            key_lt(k) == *self,
    {
        match self {
            Lifetime::Local => 0,
            Lifetime::Heap => 1,
            Lifetime::Var(id) => *id as u64 + 2,
        }
    }

    /// The lifetime that `k` stands for; see [`key_lt`].
    pub fn from_key(k: u64) -> (lt: Lifetime)
        requires
            valid_key(k),
        ensures
            lt == key_lt(k),
            lt_key(lt) == k,
    {
        if k == 0 {
            Lifetime::Local
        } else if k == 1 {
            Lifetime::Heap
        } else {
            Lifetime::Var((k - 2) as u32)
        }
    }
}

/// The representative lifetime of `lt` under the parent map `parents`.
pub open spec fn rep_lt(parents: Map<u64, u64>, lt: Lifetime) -> Lifetime {
    key_lt(rep_of(parents, lt_key(lt)))
}

/// The state of a [`LifetimeCtx`] as a mathematical value.
pub struct CtxView {
    /// The number of lifetime variables made so far.
    pub counter: u32,
    /// The lifetime of each registered location, in order of registration.
    pub ids: Seq<(LocView, Lifetime)>,
    /// The union-find parent map over lifetime numbers (see [`lt_key`]).
    pub parents: Map<u64, u64>,
    /// The lifetime of each node of the constraint graph, by node index.
    pub slots: Seq<Option<Lifetime>>,
    /// The outgoing neighbours of each node of the constraint graph.
    pub succs: Map<usize, Seq<usize>>,
    /// The node index of each lifetime number that has a node.
    pub node_of: Map<u64, usize>,
    /// The number of constraint edges added so far.
    pub links: nat,
}

/// The context before anything is registered.
pub open spec fn empty_ctx() -> CtxView {
    CtxView {
        counter: 0,
        ids: seq![],
        parents: Map::empty(),
        slots: seq![],
        succs: Map::empty(),
        node_of: Map::empty(),
        links: 0,
    }
}

/// The registrations are numbered: the `i`-th registered location (from 0)
/// has the variable `i + 1`, and the counter is the number of registrations.
/// Each registered location is below level 0 and registered once.
pub open spec fn ids_wf(v: CtxView) -> bool {
    &&& v.counter as nat == v.ids.len()
    &&& forall|i: int|
        0 <= i < v.ids.len() ==> #[trigger] v.ids[i].1 == Lifetime::Var((i + 1) as u32)
    &&& forall|i: int| 0 <= i < v.ids.len() ==> (#[trigger] v.ids[i]).0.1 != 0
    &&& forall|i: int, j: int|
        0 <= i < v.ids.len() && 0 <= j < v.ids.len() && i != j ==> (#[trigger] v.ids[i]).0 != (
        #[trigger] v.ids[j]).0
}

/// The lifetime last registered for `loc` in `ids`, if any.
pub open spec fn lookup_loc(ids: Seq<(LocView, Lifetime)>, loc: LocView) -> Option<Lifetime>
    decreases ids.len(),
{
    if ids.len() == 0 {
        None
    } else if ids.last().0 == loc {
        Some(ids.last().1)
    } else {
        lookup_loc(ids.drop_last(), loc)
    }
}

/// `v` with `lt` made a root of its own in the union-find structure.
pub open spec fn with_root(v: CtxView, lt: Lifetime) -> CtxView {
    CtxView { parents: v.parents.insert(lt_key(lt), lt_key(lt)), ..v }
}

/// Registering a location: level 0 is `local`; another level gets the
/// lifetime it already has, or else the next lifetime variable. Either way
/// the lifetime is then made a root of its own in the union-find structure.
/// `None` when a new variable is needed and the counter is at its maximum.
pub open spec fn reg_step(v: CtxView, loc: LocView) -> Option<(CtxView, Lifetime)> {
    if loc.1 == 0 {
        Some((with_root(v, Lifetime::Local), Lifetime::Local))
    } else {
        match lookup_loc(v.ids, loc) {
            Some(lt) => Some((with_root(v, lt), lt)),
            None => if v.counter == u32::MAX {
                None
            } else {
                let lt = Lifetime::Var((v.counter + 1) as u32);
                Some(
                    (
                        with_root(
                            CtxView { counter: (v.counter + 1) as u32, ids: v.ids.push((loc, lt)), ..v },
                            lt,
                        ),
                        lt,
                    ),
                )
            },
        }
    }
}

/// Registering the locations of a value `name` of type `ty` from level
/// `ind` down through every level of pointers; the lifetimes in order of
/// level. `None` where the analysis stops: a type that is neither an integer
/// nor a pointer, or a counter at its maximum.
pub open spec fn chain_step(v: CtxView, name: NameView, ty: Type, ind: u32) -> Option<
    (CtxView, Seq<Lifetime>),
>
    decreases ty,
{
    match reg_step(v, (name, ind)) {
        None => None,
        Some((v1, l)) => match ty {
            Type::IntegerType { .. } => Some((v1, seq![l])),
            Type::PointerType { pointee_type, .. } => if ind == u32::MAX {
                None
            } else {
                match chain_step(v1, name, *pointee_type, (ind + 1) as u32) {
                    None => None,
                    Some((v2, rest)) => Some((v2, seq![l] + rest)),
                }
            },
            Type::Other => None,
        },
    }
}

/// Declaring `left` and `right` equal: the class of `right` joins that of `left`.
pub open spec fn equate(v: CtxView, left: Lifetime, right: Lifetime) -> CtxView {
    CtxView { parents: union_map(v.parents, lt_key(left), lt_key(right)), ..v }
}

/// The node of `lt` in the constraint graph, added if it has none yet.
/// `None` when a node is needed and the graph's index space is full.
pub open spec fn node_step(v: CtxView, lt: Lifetime) -> Option<(CtxView, usize)> {
    if v.node_of.contains_key(lt_key(lt)) {
        Some((v, v.node_of[lt_key(lt)]))
    } else if v.slots.len() >= u32::MAX {
        None
    } else {
        Some(
            (
                CtxView {
                    slots: v.slots.push(Some(lt)),
                    node_of: v.node_of.insert(lt_key(lt), v.slots.len() as usize),
                    ..v
                },
                v.slots.len() as usize,
            ),
        )
    }
}

/// Declaring that `right` outlives `left`: unless they are the same
/// lifetime, an edge from the node of `right` to the node of `left`.
/// `None` when the graph's index space for nodes or edges is full.
pub open spec fn outlives_step(v: CtxView, left: Lifetime, right: Lifetime) -> Option<CtxView> {
    if left == right {
        Some(v)
    } else {
        match node_step(v, left) {
            None => None,
            Some((v1, shorter)) => match node_step(v1, right) {
                None => None,
                Some((v2, longer)) => if v2.links >= u32::MAX {
                    None
                } else {
                    Some(
                        CtxView {
                            succs: v2.succs.insert(
                                longer,
                                seq![shorter] + out_list(v2.succs, longer),
                            ),
                            links: v2.links + 1,
                            ..v2
                        },
                    )
                },
            },
        }
    }
}

/// The lifetimes of the nodes `comp`, read from the graph slots.
pub open spec fn comp_lifetimes(slots: Seq<Option<Lifetime>>, comp: Seq<usize>) -> Seq<Lifetime> {
    comp.map_values(|n: usize| slots[n as int]->Some_0)
}

/// Declaring `head` equal to each lifetime of `tail` in turn.
pub open spec fn equate_all(v: CtxView, head: Lifetime, tail: Seq<Lifetime>) -> CtxView
    decreases tail.len(),
{
    if tail.len() == 0 {
        v
    } else {
        equate(equate_all(v, head, tail.drop_last()), head, tail.last())
    }
}

/// Declaring the first lifetime of a component equal to each of the others.
pub open spec fn unify_component(v: CtxView, lts: Seq<Lifetime>) -> CtxView {
    if lts.len() == 0 {
        v
    } else {
        equate_all(v, lts[0], lts.skip(1))
    }
}

/// Unifying each component in turn.
pub open spec fn unify_components(v: CtxView, comps: Seq<Seq<Lifetime>>) -> CtxView
    decreases comps.len(),
{
    if comps.len() == 0 {
        v
    } else {
        unify_component(unify_components(v, comps.drop_last()), comps.last())
    }
}

/// The components of the constraint graph of `v`, as lists of lifetimes.
pub open spec fn graph_components(v: CtxView) -> Seq<Seq<Lifetime>> {
    tarjan_components(v.slots, v.succs).map_values(|c: Seq<usize>| comp_lifetimes(v.slots, c))
}

/// Registering each parameter again in turn and reading the representative
/// of each of its lifetimes right after it is registered.
pub open spec fn solve_params(v: CtxView, params: Seq<Parameter>) -> Option<
    (CtxView, Seq<Seq<Lifetime>>),
>
    decreases params.len(),
{
    if params.len() == 0 {
        Some((v, seq![]))
    } else {
        match solve_params(v, params.drop_last()) {
            None => None,
            Some((v1, done)) => match chain_step(v1, params.last().name@, params.last().ty, 0) {
                None => None,
                Some((v2, lts)) => Some(
                    (v2, done.push(lts.map_values(|l: Lifetime| rep_lt(v2.parents, l)))),
                ),
            },
        }
    }
}

/// Finishing the analysis of `func` with the components `comps`: the
/// lifetimes of each component are made equal, then the signature lists,
/// for each parameter, the representatives of its lifetimes. It has no
/// return lifetimes and no constraints.
pub open spec fn finalize_from(v: CtxView, comps: Seq<Seq<Lifetime>>, func: Function) -> Option<
    (CtxView, FunctionLifetimesView),
> {
    let v1 = unify_components(v, comps);
    match solve_params(v1, func.parameters@) {
        None => None,
        Some((v2, ps)) => Some(
            (
                v2,
                FunctionLifetimesView { parameters: ps, return_variable: seq![], constraints: seq![] },
            ),
        ),
    }
}

/// Finishing the analysis of `func` with the strongly connected components
/// of the constraint graph; see [`finalize_from`].
pub open spec fn finalize_step(v: CtxView, func: Function) -> Option<
    (CtxView, FunctionLifetimesView),
> {
    finalize_from(v, graph_components(v), func)
}

/// The pairs `(longer, shorter)` of the edges out of node `i`, in the order
/// in which the graph lists them.
pub open spec fn node_pairs(v: CtxView, i: int) -> Seq<(Lifetime, Lifetime)> {
    out_list(v.succs, i as usize).map_values(
        |j: usize| (v.slots[i]->Some_0, v.slots[j as int]->Some_0),
    )
}

/// The pairs of the edges out of nodes `0..n`, node by node.
pub open spec fn edge_pairs(v: CtxView, n: nat) -> Seq<(Lifetime, Lifetime)>
    decreases n,
{
    if n == 0 {
        seq![]
    } else {
        edge_pairs(v, (n - 1) as nat) + node_pairs(v, n - 1)
    }
}

/// The pairs of `s` whose two sides differ.
pub open spec fn keep_distinct(s: Seq<(Lifetime, Lifetime)>) -> Seq<(Lifetime, Lifetime)>
    decreases s.len(),
{
    if s.len() == 0 {
        seq![]
    } else if s.last().0 != s.last().1 {
        keep_distinct(s.drop_last()).push(s.last())
    } else {
        keep_distinct(s.drop_last())
    }
}

/// The outlives constraints between representatives: each edge's pair with
/// both sides replaced by their representatives, dropping pairs that became
/// equal.
pub open spec fn solved_constraints(v: CtxView) -> Seq<(Lifetime, Lifetime)> {
    keep_distinct(
        edge_pairs(v, v.slots.len()).map_values(
            |p: (Lifetime, Lifetime)| (rep_lt(v.parents, p.0), rep_lt(v.parents, p.1)),
        ),
    )
}

proof fn lemma_solve_params_prefix(v: CtxView, ps: Seq<Parameter>, k: int)
    requires
        0 <= k <= ps.len(),
        solve_params(v, ps) is Some,
    ensures
        solve_params(v, ps.take(k)) is Some,
    decreases ps.len(),
{
    if k < ps.len() {
        assert(ps.drop_last().take(k) =~= ps.take(k));
        lemma_solve_params_prefix(v, ps.drop_last(), k);
    } else {
        assert(ps.take(k) =~= ps);
    }
}

/// The registered locations as text: `<location>:<lifetime>` and a line
/// break (`\r\n`) for each.
pub open spec fn ids_text(ids: Seq<(LocView, Lifetime)>) -> Seq<char>
    decreases ids.len(),
{
    if ids.len() == 0 {
        seq![]
    } else {
        ids_text(ids.drop_last()) + location_text(ids.last().0) + seq![':'] + lifetime_text(
            ids.last().1,
        ) + seq!['\r', '\n']
    }
}

/// The constraints out of node `i` as text: `<lifetime> >= {<l1>,<l2>,...}`
/// and a line break, or nothing if the node has no outgoing edge.
pub open spec fn node_text(v: CtxView, i: int) -> Seq<char> {
    let list = out_list(v.succs, i as usize).map_values(
        |j: usize| lifetime_text(v.slots[j as int]->Some_0),
    );
    if list.len() > 0 {
        lifetime_text(v.slots[i]->Some_0) + seq![' ', '>', '=', ' ', '{'] + join(list, seq![','])
            + seq!['}', '\r', '\n']
    } else {
        seq![]
    }
}

/// The number of times `c` occurs in `s`.
pub open spec fn count_char(s: Seq<char>, c: char) -> nat
    decreases s.len(),
{
    if s.len() == 0 {
        0
    } else {
        count_char(s.drop_last(), c) + if s.last() == c {
            1nat
        } else {
            0nat
        }
    }
}

proof fn lemma_count_concat(a: Seq<char>, b: Seq<char>, c: char)
    ensures
        count_char(a + b, c) == count_char(a, c) + count_char(b, c),
    decreases b.len(),
{
    if b.len() == 0 {
        assert(a + b =~= a);
    } else {
        assert((a + b).drop_last() =~= a + b.drop_last());
        lemma_count_concat(a, b.drop_last(), c);
    }
}

proof fn lemma_decimal_no_comma(n: nat)
    ensures
        count_char(decimal(n), ',') == 0,
    decreases n,
{
    if n >= 10 {
        lemma_decimal_no_comma(n / 10);
        assert(decimal(n).drop_last() =~= decimal(n / 10));
    }
    let d = n % 10;
    assert(crate::text::digit_char(d) as u32 == d + 48);
    assert((',' as u32) == 44);
    assert(decimal(n).last() == crate::text::digit_char(d));
    assert(decimal(n).last() != ',');
    if n < 10 {
        assert(decimal(n).drop_last() =~= Seq::<char>::empty());
    }
    assert(count_char(decimal(n).drop_last(), ',') == 0);
    assert(decimal(n).len() > 0);
    assert(count_char(decimal(n), ',') == count_char(decimal(n).drop_last(), ','));
}

proof fn lemma_lifetime_text_no_comma(lt: Lifetime)
    ensures
        count_char(lifetime_text(lt), ',') == 0,
{
    match lt {
        Lifetime::Var(id) => {
            lemma_decimal_no_comma(id as nat);
            lemma_count_concat(seq!['v', 'a', 'r', '('], decimal(id as nat), ',');
            lemma_count_concat(seq!['v', 'a', 'r', '('] + decimal(id as nat), seq![')'], ',');
            assert(count_char(seq!['v', 'a', 'r', '('], ',') == 0) by {
                reveal_with_fuel(count_char, 5);
            }
            assert(count_char(seq![')'], ',') == 0) by {
                reveal_with_fuel(count_char, 2);
            }
        },
        Lifetime::Local => {
            reveal_with_fuel(count_char, 6);
        },
        Lifetime::Heap => {
            reveal_with_fuel(count_char, 5);
        },
    }
}

proof fn lemma_join_commas(parts: Seq<Seq<char>>)
    requires
        parts.len() > 0,
        forall|k: int| 0 <= k < parts.len() ==> count_char(#[trigger] parts[k], ',') == 0,
    ensures
        count_char(join(parts, seq![',']), ',') == parts.len() - 1,
    decreases parts.len(),
{
    if parts.len() > 1 {
        let p1 = parts.drop_last();
        assert forall|k: int| 0 <= k < p1.len() implies count_char(#[trigger] p1[k], ',') == 0 by {
            assert(p1[k] == parts[k]);
        }
        lemma_join_commas(p1);
        lemma_count_concat(join(p1, seq![',']), seq![','], ',');
        lemma_count_concat(join(p1, seq![',']) + seq![','], parts.last(), ',');
        assert(count_char(parts[parts.len() - 1], ',') == 0);
        assert(count_char(seq![','], ',') == 1) by {
            reveal_with_fuel(count_char, 2);
        }
    }
}

proof fn lemma_join_holds_part(parts: Seq<Seq<char>>, sep: Seq<char>, j: int)
    requires
        0 <= j < parts.len(),
    ensures
        exists|off: int| #[trigger] occurs_at(join(parts, sep), parts[j], off),
    decreases parts.len(),
{
    let jn = join(parts, sep);
    if parts.len() == 1 {
        assert(jn == parts[0]);
        assert(jn.subrange(0, parts[j].len() as int) =~= parts[j]);
        assert(occurs_at(jn, parts[j], 0));
    } else {
        let p1 = parts.drop_last();
        let pre = join(p1, sep) + sep;
        assert(jn == pre + parts.last());
        if j == parts.len() - 1 {
            let off = pre.len() as int;
            assert(jn.subrange(off, off + parts[j].len()) =~= parts[j]);
            assert(occurs_at(jn, parts[j], off));
        } else {
            lemma_join_holds_part(p1, sep, j);
            let off = choose|off: int| #[trigger] occurs_at(join(p1, sep), p1[j], off);
            assert(p1[j] == parts[j]);
            assert(jn.subrange(off, off + parts[j].len()) =~= join(p1, sep).subrange(
                off,
                off + p1[j].len(),
            ));
            assert(occurs_at(jn, parts[j], off));
        }
    }
}

/// `t` occurs in `s` at position `off`.
pub open spec fn occurs_at(s: Seq<char>, t: Seq<char>, off: int) -> bool {
    0 <= off && off + t.len() <= s.len() && s.subrange(off, off + t.len()) == t
}

/// The constraint line of node `i` lists every outgoing edge: it is empty
/// exactly when the node has no outgoing edge; otherwise the neighbours are
/// separated by exactly one comma each (as many entries as edges), and the
/// text of each neighbour occurs after the node's own `<lifetime> >= {`.
pub proof fn lemma_node_text_lists_each_edge(v: CtxView, i: int)
    ensures
        out_list(v.succs, i as usize).len() == 0 <==> node_text(v, i).len() == 0,
        out_list(v.succs, i as usize).len() > 0 ==> count_char(node_text(v, i), ',') == out_list(
            v.succs,
            i as usize,
        ).len() - 1,
        forall|j: int|
            #![trigger out_list(v.succs, i as usize)[j]]
            0 <= j < out_list(v.succs, i as usize).len() ==> exists|off: int|
                lifetime_text(v.slots[i]->Some_0).len() + 5 <= off && #[trigger] occurs_at(
                    node_text(v, i),
                    lifetime_text(v.slots[out_list(v.succs, i as usize)[j] as int]->Some_0),
                    off,
                ),
{
    let outs = out_list(v.succs, i as usize);
    let list = outs.map_values(|j: usize| lifetime_text(v.slots[j as int]->Some_0));
    let head = lifetime_text(v.slots[i]->Some_0) + seq![' ', '>', '=', ' ', '{'];
    let tail = seq!['}', '\r', '\n'];
    if outs.len() > 0 {
        let body = join(list, seq![',']);
        assert(node_text(v, i) == head + body + tail);
        assert forall|k: int| 0 <= k < list.len() implies count_char(#[trigger] list[k], ',') == 0 by {
            lemma_lifetime_text_no_comma(v.slots[outs[k] as int]->Some_0);
        }
        lemma_join_commas(list);
        lemma_lifetime_text_no_comma(v.slots[i]->Some_0);
        lemma_count_concat(lifetime_text(v.slots[i]->Some_0), seq![' ', '>', '=', ' ', '{'], ',');
        assert(count_char(seq![' ', '>', '=', ' ', '{'], ',') == 0) by {
            reveal_with_fuel(count_char, 6);
        }
        assert(count_char(tail, ',') == 0) by {
            reveal_with_fuel(count_char, 4);
        }
        lemma_count_concat(head, body, ',');
        lemma_count_concat(head + body, tail, ',');
        assert forall|j: int| #![trigger outs[j]] 0 <= j < outs.len() implies exists|off: int|
            lifetime_text(v.slots[i]->Some_0).len() + 5 <= off && #[trigger] occurs_at(
                node_text(v, i),
                lifetime_text(v.slots[outs[j] as int]->Some_0),
                off,
            ) by {
            lemma_join_holds_part(list, seq![','], j);
            let t = list[j];
            assert(t == lifetime_text(v.slots[outs[j] as int]->Some_0));
            let off = choose|off: int| #[trigger] occurs_at(body, list[j], off);
            let o2 = head.len() + off;
            assert(node_text(v, i).subrange(o2, o2 + t.len()) =~= body.subrange(off, off + t.len()));
            assert(occurs_at(node_text(v, i), t, o2));
        }
    }
}

/// The text of nodes `0..n`, node by node.
pub open spec fn nodes_text(v: CtxView, n: nat) -> Seq<char>
    decreases n,
{
    if n == 0 {
        seq![]
    } else {
        nodes_text(v, (n - 1) as nat) + node_text(v, n - 1)
    }
}

/// The context as text: a line break, the registered locations, a line
/// break, and the constraints of each node.
pub open spec fn ctx_text(v: CtxView) -> Seq<char> {
    seq!['\r', '\n'] + ids_text(v.ids) + seq!['\r', '\n'] + nodes_text(v, v.slots.len())
}

/// Registering the levels of `name` of type `ty` from level `ind` on, with
/// the counter at `c`, does not stop: the type is a chain of pointers ending
/// at an integer type, the levels stay within `u32`, and the counter has room
/// for every level not registered yet.
pub open spec fn chain_fits(ids: Seq<(LocView, Lifetime)>, name: NameView, ty: Type, ind: u32, c: nat) -> bool
    decreases ty,
{
    let fresh = ind != 0 && lookup_loc(ids, (name, ind)) is None;
    if fresh && c >= u32::MAX {
        false
    } else {
        match ty {
            Type::IntegerType { .. } => true,
            Type::PointerType { pointee_type, .. } => ind < u32::MAX && chain_fits(
                ids,
                name,
                *pointee_type,
                (ind + 1) as u32,
                if fresh {
                    c + 1
                } else {
                    c
                },
            ),
            Type::Other => false,
        }
    }
}

proof fn lemma_chain_fits_push(
    ids: Seq<(LocView, Lifetime)>,
    e: (LocView, Lifetime),
    name: NameView,
    ty: Type,
    ind: u32,
    c: nat,
)
    requires
        e.0.0 == name,
        e.0.1 < ind,
    ensures
        chain_fits(ids.push(e), name, ty, ind, c) == chain_fits(ids, name, ty, ind, c),
    decreases ty,
{
    assert(ids.push(e).drop_last() =~= ids);
    assert(lookup_loc(ids.push(e), (name, ind)) == lookup_loc(ids, (name, ind)));
    let fresh = ind != 0 && lookup_loc(ids, (name, ind)) is None;
    if let Type::PointerType { pointee_type, .. } = ty {
        if ind < u32::MAX {
            lemma_chain_fits_push(ids, e, name, *pointee_type, (ind + 1) as u32, if fresh {
                c + 1
            } else {
                c
            });
        }
    }
}

/// Registering a value does not stop exactly when [`chain_fits`] holds.
proof fn lemma_chain_fits(v: CtxView, name: NameView, ty: Type, ind: u32)
    ensures
        (chain_step(v, name, ty, ind) is Some) == chain_fits(v.ids, name, ty, ind, v.counter as nat),
    decreases ty,
{
    let loc = (name, ind);
    let fresh = ind != 0 && lookup_loc(v.ids, loc) is None;
    if !(fresh && v.counter >= u32::MAX) {
        let v1 = reg_step(v, loc)->Some_0.0;
        if let Type::PointerType { pointee_type, .. } = ty {
            if ind < u32::MAX {
                let ind1 = (ind + 1) as u32;
                lemma_chain_fits(v1, name, *pointee_type, ind1);
                if fresh {
                    lemma_chain_fits_push(
                        v.ids,
                        (loc, Lifetime::Var((v.counter + 1) as u32)),
                        name,
                        *pointee_type,
                        ind1,
                        (v.counter + 1) as nat,
                    );
                }
            }
        }
    }
}

/// Every number in the parent map stands for a lifetime.
pub open spec fn valid_parents(m: Map<u64, u64>) -> bool {
    forall|k: u64| #[trigger] m.contains_key(k) ==> valid_key(k) && valid_key(m[k])
}

/// Walks from a valid key stay on valid keys when the map holds only valid keys.
proof fn lemma_valid_ancestor(m: Map<u64, u64>, x: u64, n: nat)
    requires
        valid_key(x),
        forall|k: u64| #[trigger] m.contains_key(k) ==> valid_key(k) && valid_key(m[k]),
    ensures
        valid_key(ancestor(m, x, n)),
    decreases n,
{
    if n > 0 {
        lemma_valid_ancestor(m, parent_in(m, x), (n - 1) as nat);
    }
}

proof fn lemma_valid_rep(m: Map<u64, u64>, x: u64)
    requires
        valid_key(x),
        forall|k: u64| #[trigger] m.contains_key(k) ==> valid_key(k) && valid_key(m[k]),
    ensures
        valid_key(rep_of(m, x)),
{
    let n = choose|n: nat| is_root(m, #[trigger] ancestor(m, x, n));
    lemma_valid_ancestor(m, x, n);
}

/// The context in which the lifetimes of one function are collected: the
/// lifetime of each abstract location, the equalities between lifetimes (a
/// union-find structure over their numbers) and the outlives constraints (a
/// graph with an edge from the longer to the shorter lifetime).
pub struct LifetimeCtx {
    lifetime_counter: u32,
    pub lifetime_ids: Vec<(AbstractLocation, Lifetime)>,
    pub constraints: ConstraintGraph,
    pub unification: DSU<u64>,
    pub lifetime_node_indices: HashMap<u64, usize>,
    links: u32,
}

impl View for LifetimeCtx {
    type V = CtxView;

    closed spec fn view(&self) -> CtxView {
        CtxView {
            counter: self.lifetime_counter,
            ids: self.lifetime_ids@.map_values(|e: (AbstractLocation, Lifetime)| (e.0@, e.1)),
            parents: self.unification@,
            slots: graph_slots(self.constraints),
            succs: graph_succs(self.constraints),
            node_of: self.lifetime_node_indices@,
            links: self.links as nat,
        }
    }
}

impl Default for LifetimeCtx {
    fn default() -> (r: Self)
        ensures
            r.wf(),
            r@ == empty_ctx(),
    {
        let r = LifetimeCtx {
            lifetime_counter: 0,
            lifetime_ids: Vec::new(),
            constraints: graph_new(),
            unification: DSU::new(),
            lifetime_node_indices: HashMap::new(),
            links: 0,
        };
        proof {
            assert(r@.ids =~= Seq::<(LocView, Lifetime)>::empty());
            assert(r@.slots =~= Seq::<Option<Lifetime>>::empty());
            assert(r@.succs =~= Map::<usize, Seq<usize>>::empty());
        }
        r
    }
}

impl LifetimeCtx {
    /// The context is well formed: the union-find structure is, it holds
    /// only numbers of lifetimes, every graph slot holds a node, each node
    /// is recorded under its lifetime's number and only there, and every
    /// edge ends at a node.
    pub closed spec fn wf(&self) -> bool {
        let v = self@;
        &&& ids_wf(v)
        &&& self.unification.wf()
        &&& forall|k: u64| #[trigger]
            v.parents.contains_key(k) ==> valid_key(k) && valid_key(v.parents[k])
        &&& all_occupied(v.slots)
        &&& v.slots.len() <= u32::MAX
        &&& forall|i: int|
            0 <= i < v.slots.len() ==> {
                &&& #[trigger] v.node_of.contains_key(lt_key(v.slots[i]->Some_0))
                &&& v.node_of[lt_key(v.slots[i]->Some_0)] == i
            }
        &&& forall|k: u64| #[trigger]
            v.node_of.contains_key(k) ==> {
                &&& v.node_of[k] < v.slots.len()
                &&& lt_key(v.slots[v.node_of[k] as int]->Some_0) == k
            }
        &&& forall|a: usize, j: int|
            0 <= j < out_list(v.succs, a).len() ==> #[trigger] out_list(v.succs, a)[j]
                < v.slots.len()
        &&& graph_edge_slots(self.constraints) <= v.links
    }

    /// The lifetime registered for level `ind` of `name`, if any.
    fn find_location(&self, name: &Name, ind: u32) -> (r: Option<Lifetime>)
        ensures
            r == lookup_loc(self@.ids, (name@, ind)),
    {
        let ghost ids = self@.ids;
        let ghost loc = (name@, ind);
        let mut i = self.lifetime_ids.len();
        proof {
            assert(ids.take(ids.len() as int) =~= ids);
        }
        while i > 0
            invariant
                i <= self.lifetime_ids@.len(),
                ids == self@.ids,
                ids.len() == self.lifetime_ids@.len(),
                loc == (name@, ind),
                lookup_loc(ids, loc) == lookup_loc(ids.take(i as int), loc),
            decreases i,
        {
            proof {
                assert(ids.take(i as int).drop_last() =~= ids.take(i - 1));
                assert(ids[i - 1] == (self.lifetime_ids@[i - 1].0@, self.lifetime_ids@[i - 1].1));
            }
            let entry = &self.lifetime_ids[i - 1];
            if entry.0.name.same(name) && entry.0.indirection == ind {
                return Some(entry.1);
            }
            i = i - 1;
        }
        proof {
            assert(ids.take(0) =~= Seq::<(LocView, Lifetime)>::empty());
        }
        None
    }

    /// Whether registering the levels of `name` of type `ty` from level `ind`
    /// on, with the counter at `c`, would go through; see [`chain_fits`].
    fn chain_fits_from(&self, name: &Name, ty: &Type, ind: u32, c: u32) -> (b: bool)
        ensures
            b == chain_fits(self@.ids, name@, *ty, ind, c as nat),
        decreases ty,
    {
        let fresh = ind != 0 && self.find_location(name, ind).is_none();
        if fresh && c == u32::MAX {
            return false;
        }
        match ty {
            Type::IntegerType { .. } => true,
            Type::PointerType { pointee_type, .. } => {
                if ind == u32::MAX {
                    false
                } else {
                    let c1 = if fresh {
                        c + 1
                    } else {
                        c
                    };
                    self.chain_fits_from(name, pointee_type, ind + 1, c1)
                }
            },
            Type::Other => false,
        }
    }

    /// Whether registering the value `name` of type `ty` would go through:
    /// exactly when [`chain_step`] gives a result.
    pub fn chain_feasible(&self, name: &Name, ty: &Type) -> (b: bool)
        ensures
            b == (chain_step(self@, name@, *ty, 0) is Some),
    {
        proof {
            lemma_chain_fits(self@, name@, *ty, 0);
        }
        self.chain_fits_from(name, ty, 0, self.lifetime_counter)
    }

    /// Whether declaring that `right` outlives `left` would go through:
    /// exactly when [`outlives_step`] gives a result.
    pub fn outlives_feasible(&self, left: Lifetime, right: Lifetime) -> (b: bool)
        requires
            self.wf(),
        ensures
            b == (outlives_step(self@, left, right) is Some),
    {
        if left == right {
            return true;
        }
        let n = graph_node_count(&self.constraints);
        let lk = left.key();
        let rk = right.key();
        let has_left = self.lifetime_node_indices.get(&lk).is_some();
        let has_right = self.lifetime_node_indices.get(&rk).is_some();
        proof {
            assert(lt_key(left) != lt_key(right)) by {
                assert(key_lt(lt_key(left)) == left);
                assert(key_lt(lt_key(right)) == right);
            }
        }
        if !has_left && n >= 0xFFFF_FFFF {
            return false;
        }
        let n1 = if has_left {
            n
        } else {
            n + 1
        };
        if !has_right && n1 >= 0xFFFF_FFFF {
            return false;
        }
        self.links < 0xFFFF_FFFF
    }

    /// Registers one location; see [`reg_step`].
    fn register(&mut self, lt: AbstractLocation) -> (r: Lifetime)
        requires
            old(self).wf(),
            reg_step(old(self)@, lt@) is Some,
        ensures
            final(self).wf(),
            reg_step(old(self)@, lt@) == Some((final(self)@, r)),
    {
        let ghost loc = lt@;
        let registered_lifetime = if lt.indirection == 0 {
            Lifetime::Local
        } else {
            let ghost ids = self@.ids;
            let mut i = self.lifetime_ids.len();
            let mut found: Option<Lifetime> = None;
            proof {
                assert(ids.take(ids.len() as int) =~= ids);
            }
            while i > 0
                invariant_except_break
                    found is None,
                    lookup_loc(ids, loc) == lookup_loc(ids.take(i as int), loc),
                invariant
                    i <= self.lifetime_ids@.len(),
                    ids == self@.ids,
                    ids.len() == self.lifetime_ids@.len(),
                    loc == lt@,
                ensures
                    found == lookup_loc(ids, loc),
                decreases i,
            {
                proof {
                    assert(ids.take(i as int).drop_last() =~= ids.take(i - 1));
                    assert(ids[i - 1] == (self.lifetime_ids@[i - 1].0@, self.lifetime_ids@[i - 1].1));
                }
                let entry = &self.lifetime_ids[i - 1];
                if entry.0.name.same(&lt.name) && entry.0.indirection == lt.indirection {
                    found = Some(entry.1);
                    break;
                }
                i = i - 1;
            }
            proof {
                if found is None {
                    assert(ids.take(0) =~= Seq::<(LocView, Lifetime)>::empty());
                }
            }
            match found {
                Some(existing) => existing,
                None => {
                    self.lifetime_counter = self.lifetime_counter + 1;
                    let fresh = Lifetime::Var(self.lifetime_counter);
                    self.lifetime_ids.push((lt, fresh));
                    proof {
                        assert(self@.ids =~= ids.push((loc, fresh)));
                    }
                    fresh
                },
            }
        };
        proof {
            lemma_reg_keeps_ids_wf(old(self)@, loc);
        }
        let key = registered_lifetime.key();
        self.unification.add(key);
        registered_lifetime
    }

    /// Registers the locations of the value `name` of type `ty` from level
    /// `indirection` down; see [`chain_step`].
    fn recurse_lifetimes(&mut self, name: &Name, ty: &Type, indirection: u32) -> (r: Vec<Lifetime>)
        requires
            old(self).wf(),
            chain_step(old(self)@, name@, *ty, indirection) is Some,
        ensures
            final(self).wf(),
            chain_step(old(self)@, name@, *ty, indirection) == Some((final(self)@, r@)),
        decreases ty,
    {
        let curr_loc = AbstractLocation { name: name.clone(), indirection };
        let curr_lifetime = self.register(curr_loc);
        match ty {
            Type::IntegerType { .. } => {
                let mut v = Vec::new();
                v.push(curr_lifetime);
                proof {
                    assert(v@ =~= seq![curr_lifetime]);
                }
                v
            },
            Type::PointerType { pointee_type, .. } => {
                let rest = self.recurse_lifetimes(name, pointee_type, indirection + 1);
                let mut v = Vec::new();
                v.push(curr_lifetime);
                let mut k: usize = 0;
                while k < rest.len()
                    invariant
                        k <= rest@.len(),
                        v@ == seq![curr_lifetime] + rest@.take(k as int),
                    decreases rest@.len() - k,
                {
                    v.push(rest[k]);
                    proof {
                        assert(v@ =~= seq![curr_lifetime] + rest@.take(k + 1));
                    }
                    k = k + 1;
                }
                proof {
                    assert(rest@.take(rest@.len() as int) =~= rest@);
                }
                v
            },
            Type::Other => {
                proof {
                    assert(false);
                }
                Vec::new()
            },
        }
    }

    /// Registers the locations of the value `name` of type `ty`, one per
    /// level of indirection, and returns their lifetimes.
    pub fn get_lifetimes(&mut self, name: &Name, ty: &Type) -> (r: Vec<Lifetime>)
        requires
            old(self).wf(),
            chain_step(old(self)@, name@, *ty, 0) is Some,
        ensures
            final(self).wf(),
            chain_step(old(self)@, name@, *ty, 0) == Some((final(self)@, r@)),
    {
        self.recurse_lifetimes(name, ty, 0)
    }

    /// Registers the locations of a parameter; see [`Self::get_lifetimes`].
    pub fn register_parameter_lifetimes(&mut self, param: &Parameter) -> (r: Vec<Lifetime>)
        requires
            old(self).wf(),
            chain_step(old(self)@, param.name@, param.ty, 0) is Some,
        ensures
            final(self).wf(),
            chain_step(old(self)@, param.name@, param.ty, 0) == Some((final(self)@, r@)),
    {
        self.register_lifetimes(&param.name, &param.ty)
    }

    /// Registers the locations of a value; see [`Self::get_lifetimes`].
    pub fn register_lifetimes(&mut self, name: &Name, ty: &Type) -> (r: Vec<Lifetime>)
        requires
            old(self).wf(),
            chain_step(old(self)@, name@, *ty, 0) is Some,
        ensures
            final(self).wf(),
            chain_step(old(self)@, name@, *ty, 0) == Some((final(self)@, r@)),
    {
        self.get_lifetimes(name, ty)
    }

    /// Declares `left` and `right` equal; see [`equate`].
    pub fn generate_equality(&mut self, left: Lifetime, right: Lifetime)
        requires
            old(self).wf(),
        ensures
            final(self).wf(),
            final(self)@ == equate(old(self)@, left, right),
    {
        let ghost m = self.unification@;
        let lk = left.key();
        let rk = right.key();
        proof {
            assert(m == self@.parents);
            self.unification.lemma_rep_well_defined(lk);
            self.unification.lemma_rep_well_defined(rk);
            lemma_valid_rep(m, lk);
            lemma_valid_rep(m, rk);
        }
        self.unification.union(lk, rk);
        proof {
            let m2 = self.unification@;
            assert(m2 == m.insert(rep_of(m, rk), rep_of(m, lk)));
            assert forall|k: u64| #[trigger] m2.contains_key(k) implies valid_key(k) && valid_key(
                m2[k],
            ) by {
                if k != rep_of(m, rk) {
                    assert(m.contains_key(k));
                }
            }
            assert(self@.parents == m2);
            assert(self@.slots == old(self)@.slots);
            assert(self@.node_of == old(self)@.node_of);
            assert(self@.succs == old(self)@.succs);
            assert(self.unification.wf());
        }
    }

    /// The node of `id` in the constraint graph, added if it has none yet;
    /// see [`node_step`].
    fn lifetime_node_index(&mut self, id: Lifetime) -> (r: usize)
        requires
            old(self).wf(),
            node_step(old(self)@, id) is Some,
        ensures
            final(self).wf(),
            node_step(old(self)@, id) == Some((final(self)@, r)),
            r < final(self)@.slots.len(),
    {
        let k = id.key();
        match self.lifetime_node_indices.get(&k) {
            Some(idx) => {
                let r = *idx;
                proof {
                    assert(self@.node_of.contains_key(k));
                }
                r
            },
            None => {
                let ghost old_v = self@;
                let new_node_index = graph_add_node(&mut self.constraints, id);
                self.lifetime_node_indices.insert(k, new_node_index);
                proof {
                    let v = self@;
                    assert(v.slots == old_v.slots.push(Some(id)));
                    assert(v.node_of == old_v.node_of.insert(k, old_v.slots.len() as usize));
                    assert forall|i: int| 0 <= i < v.slots.len() implies {
                        &&& #[trigger] v.node_of.contains_key(lt_key(v.slots[i]->Some_0))
                        &&& v.node_of[lt_key(v.slots[i]->Some_0)] == i
                    } by {
                        if i < old_v.slots.len() {
                            assert(old_v.slots[i] is Some);
                            assert(v.slots[i] == old_v.slots[i]);
                            assert(old_v.node_of.contains_key(lt_key(old_v.slots[i]->Some_0)));
                        }
                    }
                    assert forall|kk: u64| #[trigger] v.node_of.contains_key(kk) implies {
                        &&& v.node_of[kk] < v.slots.len()
                        &&& lt_key(v.slots[v.node_of[kk] as int]->Some_0) == kk
                    } by {
                        if kk != k {
                            assert(old_v.node_of.contains_key(kk));
                        }
                    }
                    assert forall|a: usize, j: int|
                        0 <= j < out_list(v.succs, a).len() implies #[trigger] out_list(v.succs, a)[j]
                        < v.slots.len() by {
                        assert(out_list(old_v.succs, a)[j] < old_v.slots.len());
                    }
                    assert(all_occupied(v.slots)) by {
                        assert forall|i: int| 0 <= i < v.slots.len() implies #[trigger] v.slots[i] is Some by {
                            if i < old_v.slots.len() {
                                assert(old_v.slots[i] is Some);
                            }
                        }
                    }
                }
                new_node_index
            },
        }
    }

    /// Declares that `right` outlives `left`; see [`outlives_step`].
    pub fn generate_outlives(&mut self, left: Lifetime, right: Lifetime)
        requires
            old(self).wf(),
            outlives_step(old(self)@, left, right) is Some,
        ensures
            final(self).wf(),
            outlives_step(old(self)@, left, right) == Some(final(self)@),
    {
        if left != right {
            let shorter = self.lifetime_node_index(left);
            let longer = self.lifetime_node_index(right);
            let ghost mid = self@;
            proof {
                assert(mid.slots[shorter as int] is Some);
                assert(mid.slots[longer as int] is Some);
            }
            graph_add_edge(&mut self.constraints, longer, shorter);
            self.links = self.links + 1;
            proof {
                let v = self@;
                assert(v.succs == mid.succs.insert(longer, seq![shorter] + out_list(mid.succs, longer)));
                assert forall|a: usize, j: int|
                    0 <= j < out_list(v.succs, a).len() implies #[trigger] out_list(v.succs, a)[j]
                    < v.slots.len() by {
                    if a == longer {
                        if j > 0 {
                            assert(out_list(v.succs, a)[j] == out_list(mid.succs, longer)[j - 1]);
                        }
                    } else {
                        assert(out_list(v.succs, a) == out_list(mid.succs, a));
                    }
                }
            }
        }
    }

    /// Declares `head` equal to each lifetime of `tail` in turn.
    fn equate_with_all(&mut self, head: Lifetime, tail: &Vec<Lifetime>, from: usize)
        requires
            old(self).wf(),
            from <= tail@.len(),
        ensures
            final(self).wf(),
            final(self)@ == equate_all(old(self)@, head, tail@.skip(from as int)),
            final(self)@.slots == old(self)@.slots,
    {
        let ghost start = self@;
        let ghost rest = tail@.skip(from as int);
        let mut k = from;
        proof {
            assert(rest.take(0) =~= Seq::<Lifetime>::empty());
        }
        while k < tail.len()
            invariant
                from <= k <= tail@.len(),
                rest == tail@.skip(from as int),
                self.wf(),
                self@ == equate_all(start, head, rest.take(k - from)),
                self@.slots == start.slots,
            decreases tail@.len() - k,
        {
            self.generate_equality(head, tail[k]);
            proof {
                assert(rest.take(k + 1 - from).drop_last() =~= rest.take(k - from));
                assert(rest[k - from] == tail@[k as int]);
            }
            k = k + 1;
        }
        proof {
            assert(rest.take(k - from) =~= rest);
        }
    }

    /// Solves the constraints and returns the signature of `func`; see
    /// [`finalize_step`]. The components come from `tarjan_scc`; the rest is
    /// [`Self::finalize_with_components`]. In the unification phase, the
    /// lifetimes of any two nodes that outlive each other through a cycle of
    /// constraints get one representative.
    pub fn finalize(&mut self, func: &Function) -> (r: FunctionLifetimes)
        requires
            old(self).wf(),
            finalize_step(old(self)@, *func) is Some,
        ensures
            final(self).wf(),
            finalize_step(old(self)@, *func) == Some((final(self)@, r@)),
            forall|a: usize, b: usize|
                a < old(self)@.slots.len() && b < old(self)@.slots.len() && #[trigger] mutually_reachable(
                    old(self)@.succs,
                    a,
                    b,
                ) ==> same_rep(
                    unify_components(old(self)@, graph_components(old(self)@)),
                    old(self)@.slots[a as int]->Some_0,
                    old(self)@.slots[b as int]->Some_0,
                ),
            forall|x: Lifetime, y: Lifetime|
                #[trigger] same_rep(unify_components(old(self)@, graph_components(old(self)@)), x, y)
                    <==> linked(old(self)@, graph_components(old(self)@), x, y),
    {
        let components = graph_sccs(&self.constraints);
        proof {
            let v = self@;
            let raw = components@.map_values(|c: Vec<usize>| c@);
            let mine = components@.map_values(|c: Vec<usize>| comp_lifetimes(v.slots, c@));
            assert(mine =~= graph_components(v)) by {
                assert forall|i: int| 0 <= i < components@.len() implies #[trigger] mine[i]
                    == graph_components(v)[i] by {
                    assert(raw[i] == components@[i]@);
                }
            }
            let comps = graph_components(v);
            self.lemma_valid();
            lemma_unify_components(v, comps);
            lemma_unify_classes(v, comps);
            assert forall|a: usize, b: usize|
                a < v.slots.len() && b < v.slots.len() && #[trigger] mutually_reachable(v.succs, a, b)
                    implies same_rep(
                unify_components(v, comps),
                v.slots[a as int]->Some_0,
                v.slots[b as int]->Some_0,
            ) by {
                assert(v.slots[a as int] is Some);
                assert(v.slots[b as int] is Some);
                let (i1, j1) = choose|i: int, j: int|
                    0 <= i < components@.len() && 0 <= j < components@[i]@.len()
                        && #[trigger] components@[i]@[j] == a as int;
                let (i2, j2) = choose|i: int, j: int|
                    0 <= i < components@.len() && 0 <= j < components@[i]@.len()
                        && #[trigger] components@[i]@[j] == b as int;
                if i1 != i2 {
                    assert(!mutually_reachable(v.succs, components@[i1]@[j1], components@[i2]@[j2]));
                }
                assert(mine[i1] == comp_lifetimes(v.slots, components@[i1]@));
                assert(comps[i1][j1] == v.slots[a as int]->Some_0);
                assert(comps[i1][j2] == v.slots[b as int]->Some_0);
            }
        }
        self.finalize_with_components(func, &components)
    }

    /// Makes the lifetimes of the nodes of each component equal: the first
    /// lifetime of a component is declared equal to each of the others.
    fn unify_with(&mut self, components: &Vec<Vec<usize>>)
        requires
            old(self).wf(),
            forall|i: int, j: int|
                0 <= i < components@.len() && 0 <= j < components@[i]@.len() ==> {
                    &&& #[trigger] components@[i]@[j] < old(self)@.slots.len()
                    &&& old(self)@.slots[components@[i]@[j] as int] is Some
                },
        ensures
            final(self).wf(),
            final(self)@ == unify_components(
                old(self)@,
                components@.map_values(|c: Vec<usize>| comp_lifetimes(old(self)@.slots, c@)),
            ),
    {
        let ghost v0 = self@;
        let ghost comps = components@.map_values(|c: Vec<usize>| comp_lifetimes(v0.slots, c@));
        proof {
            assert(comps.take(0) =~= Seq::<Seq<Lifetime>>::empty());
        }
        let nc = components.len();
        for c in 0..nc
            invariant
                nc == components@.len(),
                comps == components@.map_values(|c: Vec<usize>| comp_lifetimes(v0.slots, c@)),
                forall|i: int, j: int|
                    0 <= i < components@.len() && 0 <= j < components@[i]@.len() ==> {
                        &&& #[trigger] components@[i]@[j] < v0.slots.len()
                        &&& v0.slots[components@[i]@[j] as int] is Some
                    },
                self.wf(),
                self@.slots == v0.slots,
                self@ == unify_components(v0, comps.take(c as int)),
        {
            let component = &components[c];
            let mut ids: Vec<Lifetime> = Vec::new();
            let m = component.len();
            let ghost comp_lts = comps[c as int];
            proof {
                assert(comp_lts == comp_lifetimes(v0.slots, components@[c as int]@));
            }
            for j in 0..m
                invariant
                    m == component@.len(),
                    component == &components@[c as int],
                    comp_lts == comp_lifetimes(v0.slots, component@),
                    forall|j: int|
                        0 <= j < m ==> {
                            &&& #[trigger] component@[j] < v0.slots.len()
                            &&& v0.slots[component@[j] as int] is Some
                        },
                    self.wf(),
                    self@.slots == v0.slots,
                    ids@ == comp_lts.take(j as int),
            {
                let n = component[j];
                proof {
                    assert(component@[j as int] < v0.slots.len());
                }
                let w = graph_node_weight(&self.constraints, n);
                let lt = w.unwrap();
                ids.push(lt);
                proof {
                    assert(ids@ =~= comp_lts.take(j + 1));
                }
            }
            proof {
                assert(ids@ =~= comp_lts);
                assert(comps.take(c + 1).drop_last() =~= comps.take(c as int));
            }
            if ids.len() > 0 {
                let head = ids[0];
                self.equate_with_all(head, &ids, 1);
            }
        }
        proof {
            assert(comps.take(nc as int) =~= comps);
        }
    }

    /// Makes the lifetimes of the nodes of each component equal, then
    /// returns the signature of `func`; see [`finalize_from`].
    pub fn finalize_with_components(&mut self, func: &Function, components: &Vec<Vec<usize>>) -> (r:
        FunctionLifetimes)
        requires
            old(self).wf(),
            forall|i: int, j: int|
                0 <= i < components@.len() && 0 <= j < components@[i]@.len() ==> {
                    &&& #[trigger] components@[i]@[j] < old(self)@.slots.len()
                    &&& old(self)@.slots[components@[i]@[j] as int] is Some
                },
            finalize_from(
                old(self)@,
                components@.map_values(|c: Vec<usize>| comp_lifetimes(old(self)@.slots, c@)),
                *func,
            ) is Some,
        ensures
            final(self).wf(),
            finalize_from(
                old(self)@,
                components@.map_values(|c: Vec<usize>| comp_lifetimes(old(self)@.slots, c@)),
                *func,
            ) == Some((final(self)@, r@)),
    {
        let ghost v0 = self@;
        let ghost comps = components@.map_values(|c: Vec<usize>| comp_lifetimes(v0.slots, c@));
        self.unify_with(components);
        let ghost v1 = self@;
        let mut parameters: Vec<Vec<Lifetime>> = Vec::new();
        let np = func.parameters.len();
        proof {
            assert(func.parameters@.take(0) =~= Seq::<Parameter>::empty());
            assert(solve_params(v1, func.parameters@.take(0)) == Some((v1, Seq::<Seq<Lifetime>>::empty())));
            assert(parameters@.map_values(|p: Vec<Lifetime>| p@) =~= Seq::<Seq<Lifetime>>::empty());
        }
        for i in 0..np
            invariant
                np == func.parameters@.len(),
                v1 == unify_components(v0, comps),
                finalize_from(v0, comps, *func) is Some,
                self.wf(),
                solve_params(v1, func.parameters@.take(i as int)) == Some(
                    (self@, parameters@.map_values(|p: Vec<Lifetime>| p@)),
                ),
        {
            proof {
                assert(func.parameters@.take(i + 1).drop_last() =~= func.parameters@.take(i as int));
                lemma_solve_params_prefix(v1, func.parameters@, i + 1);
            }
            let ghost done = parameters@.map_values(|p: Vec<Lifetime>| p@);
            let solved = self.get_solved_parameter_lifetimes(&func.parameters[i]);
            parameters.push(solved);
            proof {
                assert(parameters@.map_values(|p: Vec<Lifetime>| p@) =~= done.push(solved@));
            }
        }
        proof {
            assert(func.parameters@.take(np as int) =~= func.parameters@);
        }
        let _constraints = self.get_constraints();
        let r = FunctionLifetimes {
            parameters: parameters,
            return_variable: Vec::new(),
            constraints: Vec::new(),
        };
        proof {
            assert(r@.return_variable =~= Seq::<Lifetime>::empty());
            assert(r@.constraints =~= Seq::<(Lifetime, Lifetime)>::empty());
        }
        r
    }

    /// Like [`Self::finalize`], but it gives `None`, instead of needing it
    /// ruled out beforehand, where the signature cannot be made (a parameter
    /// that cannot be registered again); see [`finalize_step`].
    pub fn try_finalize(&mut self, func: &Function) -> (r: Option<FunctionLifetimes>)
        requires
            old(self).wf(),
        ensures
            final(self).wf(),
            r is Some <==> finalize_step(old(self)@, *func) is Some,
            r matches Some(fl) ==> finalize_step(old(self)@, *func) == Some((final(self)@, fl@)),
    {
        let ghost v0 = self@;
        let components = graph_sccs(&self.constraints);
        let ghost comps = components@.map_values(|c: Vec<usize>| comp_lifetimes(v0.slots, c@));
        proof {
            let raw = components@.map_values(|c: Vec<usize>| c@);
            assert(comps =~= graph_components(v0)) by {
                assert forall|i: int| 0 <= i < components@.len() implies #[trigger] comps[i]
                    == graph_components(v0)[i] by {
                    assert(raw[i] == components@[i]@);
                }
            }
        }
        self.unify_with(&components);
        let ghost v1 = self@;
        let mut parameters: Vec<Vec<Lifetime>> = Vec::new();
        let np = func.parameters.len();
        proof {
            assert(func.parameters@.take(0) =~= Seq::<Parameter>::empty());
            assert(solve_params(v1, func.parameters@.take(0)) == Some((v1, Seq::<Seq<Lifetime>>::empty())));
            assert(parameters@.map_values(|p: Vec<Lifetime>| p@) =~= Seq::<Seq<Lifetime>>::empty());
        }
        for i in 0..np
            invariant
                np == func.parameters@.len(),
                v0 == old(self)@,
                v1 == unify_components(v0, graph_components(v0)),
                self.wf(),
                solve_params(v1, func.parameters@.take(i as int)) == Some(
                    (self@, parameters@.map_values(|p: Vec<Lifetime>| p@)),
                ),
        {
            proof {
                assert(func.parameters@.take(i + 1).drop_last() =~= func.parameters@.take(i as int));
            }
            let p = &func.parameters[i];
            if !self.chain_feasible(&p.name, &p.ty) {
                proof {
                    assert(func.parameters@.take(i + 1).last() == func.parameters@[i as int]);
                    if solve_params(v1, func.parameters@) is Some {
                        lemma_solve_params_prefix(v1, func.parameters@, i + 1);
                        assert(false);
                    }
                    assert(finalize_step(v0, *func) is None);
                }
                return None;
            }
            let ghost done = parameters@.map_values(|p: Vec<Lifetime>| p@);
            let solved = self.get_solved_parameter_lifetimes(p);
            parameters.push(solved);
            proof {
                assert(parameters@.map_values(|p: Vec<Lifetime>| p@) =~= done.push(solved@));
            }
        }
        proof {
            assert(func.parameters@.take(np as int) =~= func.parameters@);
        }
        let _constraints = self.get_constraints();
        let r = FunctionLifetimes {
            parameters: parameters,
            return_variable: Vec::new(),
            constraints: Vec::new(),
        };
        proof {
            assert(r@.return_variable =~= Seq::<Lifetime>::empty());
            assert(r@.constraints =~= Seq::<(Lifetime, Lifetime)>::empty());
        }
        Some(r)
    }

    /// Registers the parameter again and returns the representative of each
    /// of its lifetimes.
    fn get_solved_parameter_lifetimes(&mut self, param: &Parameter) -> (r: Vec<Lifetime>)
        requires
            old(self).wf(),
            chain_step(old(self)@, param.name@, param.ty, 0) is Some,
        ensures
            final(self).wf(),
            chain_step(old(self)@, param.name@, param.ty, 0) == Some(
                (final(self)@, chain_step(old(self)@, param.name@, param.ty, 0)->Some_0.1),
            ),
            r@ == chain_step(old(self)@, param.name@, param.ty, 0)->Some_0.1.map_values(
                |l: Lifetime| rep_lt(final(self)@.parents, l),
            ),
    {
        let lts = self.register_parameter_lifetimes(param);
        let mut r: Vec<Lifetime> = Vec::new();
        let n = lts.len();
        for k in 0..n
            invariant
                n == lts@.len(),
                self.wf(),
                r@ == lts@.take(k as int).map_values(|l: Lifetime| rep_lt(self@.parents, l)),
        {
            let key = lts[k].key();
            let found = self.unification.find(key);
            proof {
                assert(self@.parents == self.unification@);
                lemma_valid_rep(self.unification@, key);
            }
            let lt = Lifetime::from_key(found);
            r.push(lt);
            proof {
                assert(r@ =~= lts@.take(k + 1).map_values(|l: Lifetime| rep_lt(self@.parents, l)));
            }
        }
        proof {
            assert(lts@.take(n as int) =~= lts@);
        }
        r
    }

    /// The outlives constraints between representatives; see
    /// [`solved_constraints`].
    fn get_constraints(&self) -> (r: Vec<(Lifetime, Lifetime)>)
        requires
            self.wf(),
        ensures
            r@ == solved_constraints(self@),
    {
        let ghost v = self@;
        let indices = graph_node_indices(&self.constraints);
        let mut pairs: Vec<(Lifetime, Lifetime)> = Vec::new();
        let n = indices.len();
        for t in 0..n
            invariant
                v == self@,
                self.wf(),
                n == v.slots.len(),
                indices@ == Seq::new(v.slots.len(), |i: int| i as usize),
                pairs@ == edge_pairs(v, t as nat),
        {
            let idx = indices[t];
            let w = graph_node_weight(&self.constraints, idx).unwrap();
            let nbrs = graph_out_neighbors(&self.constraints, idx);
            let nn = nbrs.len();
            proof {
                assert(v.slots[idx as int] is Some);
                assert(nbrs@ == out_list(v.succs, idx));
            }
            for q in 0..nn
                invariant
                    v == self@,
                    self.wf(),
                    idx == t,
                    t < v.slots.len(),
                    w == v.slots[t as int]->Some_0,
                    nbrs@ == out_list(v.succs, idx),
                    nn == nbrs@.len(),
                    pairs@ == edge_pairs(v, t as nat) + node_pairs(v, t as int).take(q as int),
            {
                let target = nbrs[q];
                proof {
                    assert(target < v.slots.len());
                }
                let nw = graph_node_weight(&self.constraints, target).unwrap();
                pairs.push((w, nw));
                proof {
                    assert(pairs@ =~= edge_pairs(v, t as nat) + node_pairs(v, t as int).take(q + 1));
                }
            }
            proof {
                assert(node_pairs(v, t as int).take(nn as int) =~= node_pairs(v, t as int));
                assert(edge_pairs(v, (t + 1) as nat) == edge_pairs(v, t as nat) + node_pairs(
                    v,
                    t as int,
                ));
            }
        }
        let ghost mapped = pairs@.map_values(
            |p: (Lifetime, Lifetime)| (rep_lt(v.parents, p.0), rep_lt(v.parents, p.1)),
        );
        let mut result: Vec<(Lifetime, Lifetime)> = Vec::new();
        let np = pairs.len();
        proof {
            assert(mapped.take(0) =~= Seq::<(Lifetime, Lifetime)>::empty());
        }
        for k in 0..np
            invariant
                v == self@,
                self.wf(),
                np == pairs@.len(),
                mapped == pairs@.map_values(
                    |p: (Lifetime, Lifetime)| (rep_lt(v.parents, p.0), rep_lt(v.parents, p.1)),
                ),
                result@ == keep_distinct(mapped.take(k as int)),
        {
            let pair = pairs[k];
            let lk = pair.0.key();
            let rk = pair.1.key();
            let lf = self.unification.find(lk);
            let rf = self.unification.find(rk);
            proof {
                assert(v.parents == self.unification@);
                lemma_valid_rep(self.unification@, lk);
                lemma_valid_rep(self.unification@, rk);
            }
            let l = Lifetime::from_key(lf);
            let r = Lifetime::from_key(rf);
            if l != r {
                result.push((l, r));
            }
            proof {
                assert(mapped.take(k + 1).drop_last() =~= mapped.take(k as int));
                assert(mapped[k as int] == (l, r));
            }
        }
        proof {
            assert(mapped.take(np as int) =~= mapped);
        }
        result
    }

    /// The context as text; see [`ctx_text`].
    pub fn to_string(&self) -> (s: String)
        requires
            self.wf(),
        ensures
            s@ == ctx_text(self@),
    {
        let ghost v = self@;
        let mut keys = String::new();
        let ni = self.lifetime_ids.len();
        proof {
            assert(v.ids.take(0) =~= Seq::<(LocView, Lifetime)>::empty());
        }
        for i in 0..ni
            invariant
                v == self@,
                ni == self.lifetime_ids@.len(),
                v.ids.len() == ni,
                keys@ == ids_text(v.ids.take(i as int)),
        {
            let entry = &self.lifetime_ids[i];
            let loc_text = entry.0.to_string();
            let lt_text = entry.1.to_string();
            keys.append(loc_text.as_str());
            push_char(&mut keys, ':');
            keys.append(lt_text.as_str());
            push_char(&mut keys, '\r');
            push_char(&mut keys, '\n');
            proof {
                assert(v.ids[i as int] == (entry.0@, entry.1));
                assert(v.ids.take(i + 1).drop_last() =~= v.ids.take(i as int));
                assert(keys@ =~= ids_text(v.ids.take(i + 1)));
            }
        }
        proof {
            assert(v.ids.take(ni as int) =~= v.ids);
        }
        let indices = graph_node_indices(&self.constraints);
        let mut cons = String::new();
        let n = indices.len();
        for t in 0..n
            invariant
                v == self@,
                self.wf(),
                n == v.slots.len(),
                indices@ == Seq::new(v.slots.len(), |i: int| i as usize),
                cons@ == nodes_text(v, t as nat),
        {
            let idx = indices[t];
            let root = graph_node_weight(&self.constraints, idx).unwrap();
            let nbrs = graph_out_neighbors(&self.constraints, idx);
            let nn = nbrs.len();
            let ghost list = out_list(v.succs, idx).map_values(
                |j: usize| lifetime_text(v.slots[j as int]->Some_0),
            );
            proof {
                assert(v.slots[idx as int] is Some);
                assert(nbrs@ == out_list(v.succs, idx));
                assert(list.take(0) =~= Seq::<Seq<char>>::empty());
            }
            let mut joined = String::new();
            for q in 0..nn
                invariant
                    v == self@,
                    self.wf(),
                    idx == t,
                    t < v.slots.len(),
                    nbrs@ == out_list(v.succs, idx),
                    nn == nbrs@.len(),
                    list == out_list(v.succs, idx).map_values(
                        |j: usize| lifetime_text(v.slots[j as int]->Some_0),
                    ),
                    joined@ == join(list.take(q as int), seq![',']),
            {
                let target = nbrs[q];
                proof {
                    assert(target < v.slots.len());
                }
                let w = graph_node_weight(&self.constraints, target).unwrap();
                let text = w.to_string();
                if q > 0 {
                    push_char(&mut joined, ',');
                }
                joined.append(text.as_str());
                proof {
                    lemma_join_step(list, seq![','], q as int);
                    assert(joined@ =~= join(list.take(q + 1), seq![',']));
                }
            }
            proof {
                assert(list.take(nn as int) =~= list);
            }
            if nn > 0 {
                let root_text = root.to_string();
                cons.append(root_text.as_str());
                push_char(&mut cons, ' ');
                push_char(&mut cons, '>');
                push_char(&mut cons, '=');
                push_char(&mut cons, ' ');
                push_char(&mut cons, '{');
                cons.append(joined.as_str());
                push_char(&mut cons, '}');
                push_char(&mut cons, '\r');
                push_char(&mut cons, '\n');
            }
            proof {
                assert(cons@ =~= nodes_text(v, (t + 1) as nat));
            }
        }
        let mut s = String::new();
        push_char(&mut s, '\r');
        push_char(&mut s, '\n');
        s.append(keys.as_str());
        push_char(&mut s, '\r');
        push_char(&mut s, '\n');
        s.append(cons.as_str());
        proof {
            assert(s@ =~= ctx_text(v));
        }
        s
    }
}

proof fn lemma_lookup_is_entry(ids: Seq<(LocView, Lifetime)>, loc: LocView)
    requires
        lookup_loc(ids, loc) is Some,
    ensures
        exists|i: int|
            0 <= i < ids.len() && #[trigger] ids[i] == (loc, lookup_loc(ids, loc)->Some_0),
    decreases ids.len(),
{
    if ids.last().0 == loc {
        assert(ids[ids.len() - 1] == (loc, lookup_loc(ids, loc)->Some_0));
    } else {
        lemma_lookup_is_entry(ids.drop_last(), loc);
        let i = choose|i: int|
            0 <= i < ids.drop_last().len() && #[trigger] ids.drop_last()[i] == (
                loc,
                lookup_loc(ids.drop_last(), loc)->Some_0,
            );
        assert(ids[i] == ids.drop_last()[i]);
    }
}

proof fn lemma_reg_keeps_ids_wf(v: CtxView, loc: LocView)
    requires
        ids_wf(v),
        reg_step(v, loc) is Some,
    ensures
        ids_wf(reg_step(v, loc)->Some_0.0),
{
    let v1 = reg_step(v, loc)->Some_0.0;
    if loc.1 != 0 && lookup_loc(v.ids, loc) is None {
        lemma_lookup_none(v.ids, loc);
        assert forall|i: int| 0 <= i < v1.ids.len() implies #[trigger] v1.ids[i].1 == Lifetime::Var(
            (i + 1) as u32,
        ) by {
            if i < v.ids.len() {
                assert(v1.ids[i] == v.ids[i]);
            }
        }
        assert forall|i: int| 0 <= i < v1.ids.len() implies (#[trigger] v1.ids[i]).0.1 != 0 by {
            if i < v.ids.len() {
                assert(v1.ids[i] == v.ids[i]);
            }
        }
        assert forall|i: int, j: int|
            0 <= i < v1.ids.len() && 0 <= j < v1.ids.len() && i != j implies (
            #[trigger] v1.ids[i]).0 != (#[trigger] v1.ids[j]).0 by {
            if i < v.ids.len() {
                assert(v1.ids[i] == v.ids[i]);
            }
            if j < v.ids.len() {
                assert(v1.ids[j] == v.ids[j]);
            }
        }
    }
}

proof fn lemma_lookup_none(ids: Seq<(LocView, Lifetime)>, loc: LocView)
    requires
        lookup_loc(ids, loc) is None,
    ensures
        forall|i: int| 0 <= i < ids.len() ==> (#[trigger] ids[i]).0 != loc,
    decreases ids.len(),
{
    if ids.len() > 0 {
        lemma_lookup_none(ids.drop_last(), loc);
        assert forall|i: int| 0 <= i < ids.len() implies (#[trigger] ids[i]).0 != loc by {
            if i < ids.len() - 1 {
                assert(ids[i] == ids.drop_last()[i]);
            }
        }
    }
}

/// Registered locations and lifetime variables correspond one to one: two
/// registered locations have the same lifetime exactly when they are the
/// same location; each registered location is below level 0 and has a
/// variable `var(1)` to `var(counter)`; and registering never gives `heap`.
/// Every well-formed context (see [`LifetimeCtx::lemma_valid`]) satisfies
/// [`ids_wf`], so this holds over any sequence of calls.
pub proof fn lemma_locations_one_to_one(v: CtxView)
    requires
        ids_wf(v),
    ensures
        forall|loc1: LocView, loc2: LocView|
            #[trigger] lookup_loc(v.ids, loc1) is Some && #[trigger] lookup_loc(v.ids, loc2) is Some
                ==> (lookup_loc(v.ids, loc1) == lookup_loc(v.ids, loc2) <==> loc1 == loc2),
        forall|loc: LocView|
            #[trigger] lookup_loc(v.ids, loc) is Some ==> {
                &&& loc.1 != 0
                &&& lookup_loc(v.ids, loc)->Some_0 is Var
                &&& 1 <= lookup_loc(v.ids, loc)->Some_0->Var_0 <= v.counter
            },
        forall|loc: LocView|
            #[trigger] reg_step(v, loc) is Some ==> reg_step(v, loc)->Some_0.1 != Lifetime::Heap,
{
    assert forall|loc1: LocView, loc2: LocView|
        #[trigger] lookup_loc(v.ids, loc1) is Some && #[trigger] lookup_loc(v.ids, loc2) is Some
            implies (lookup_loc(v.ids, loc1) == lookup_loc(v.ids, loc2) <==> loc1 == loc2) by {
        lemma_lookup_is_entry(v.ids, loc1);
        lemma_lookup_is_entry(v.ids, loc2);
        let i = choose|i: int|
            0 <= i < v.ids.len() && #[trigger] v.ids[i] == (loc1, lookup_loc(v.ids, loc1)->Some_0);
        let j = choose|j: int|
            0 <= j < v.ids.len() && #[trigger] v.ids[j] == (loc2, lookup_loc(v.ids, loc2)->Some_0);
        if lookup_loc(v.ids, loc1) == lookup_loc(v.ids, loc2) {
            assert(v.ids[i].1 == Lifetime::Var((i + 1) as u32));
            assert(v.ids[j].1 == Lifetime::Var((j + 1) as u32));
            assert(i == j);
        }
    }
    assert forall|loc: LocView| #[trigger] lookup_loc(v.ids, loc) is Some implies {
        &&& loc.1 != 0
        &&& lookup_loc(v.ids, loc)->Some_0 is Var
        &&& 1 <= lookup_loc(v.ids, loc)->Some_0->Var_0 <= v.counter
    } by {
        lemma_lookup_is_entry(v.ids, loc);
        let i = choose|i: int|
            0 <= i < v.ids.len() && #[trigger] v.ids[i] == (loc, lookup_loc(v.ids, loc)->Some_0);
        assert(v.ids[i].1 == Lifetime::Var((i + 1) as u32));
    }
    assert forall|loc: LocView| #[trigger] reg_step(v, loc) is Some implies reg_step(v, loc)->Some_0.1
        != Lifetime::Heap by {
        if loc.1 != 0 {
            if let Some(l) = lookup_loc(v.ids, loc) {
                lemma_lookup_is_entry(v.ids, loc);
                let i = choose|i: int|
                    0 <= i < v.ids.len() && #[trigger] v.ids[i] == (loc, l);
                assert(v.ids[i].1 == Lifetime::Var((i + 1) as u32));
            }
        }
    }
}

/// Registering a location again gives the lifetime it was given the first
/// time.
pub proof fn lemma_register_again(v: CtxView, loc: LocView)
    requires
        reg_step(v, loc) is Some,
    ensures
        reg_step(reg_step(v, loc)->Some_0.0, loc) == Some(
            (
                with_root(reg_step(v, loc)->Some_0.0, reg_step(v, loc)->Some_0.1),
                reg_step(v, loc)->Some_0.1,
            ),
        ),
{
    let v1 = reg_step(v, loc)->Some_0.0;
    if loc.1 != 0 {
        match lookup_loc(v.ids, loc) {
            Some(lt) => {
                assert(v1.ids == v.ids);
            },
            None => {
                assert(v1.ids.drop_last() =~= v.ids);
            },
        }
    }
}

/// Two different locations below level 0, registered one after the other,
/// get different lifetimes.
pub proof fn lemma_distinct_locations(v: CtxView, loc1: LocView, loc2: LocView)
    requires
        ids_wf(v),
        loc1.1 != 0,
        loc2.1 != 0,
        loc1 != loc2,
        reg_step(v, loc1) is Some,
        reg_step(reg_step(v, loc1)->Some_0.0, loc2) is Some,
    ensures
        reg_step(v, loc1)->Some_0.1 != reg_step(reg_step(v, loc1)->Some_0.0, loc2)->Some_0.1,
{
    let v1 = reg_step(v, loc1)->Some_0.0;
    let l1 = reg_step(v, loc1)->Some_0.1;
    let v2 = reg_step(v1, loc2)->Some_0.0;
    let l2 = reg_step(v1, loc2)->Some_0.1;
    lemma_reg_keeps_ids_wf(v, loc1);
    lemma_reg_keeps_ids_wf(v1, loc2);
    lemma_register_again(v, loc1);
    // after the first registration, loc1 has an entry holding l1
    assert(lookup_loc(v1.ids, loc1) == Some(l1));
    lemma_lookup_is_entry(v1.ids, loc1);
    let i = choose|i: int| 0 <= i < v1.ids.len() && #[trigger] v1.ids[i] == (loc1, l1);
    // the second lifetime is an entry of loc2 in v2
    lemma_register_again(v1, loc2);
    assert(lookup_loc(v2.ids, loc2) == Some(l2));
    lemma_lookup_is_entry(v2.ids, loc2);
    let j = choose|j: int| 0 <= j < v2.ids.len() && #[trigger] v2.ids[j] == (loc2, l2);
    assert(v2.ids[i] == v1.ids[i]) by {
        if lookup_loc(v1.ids, loc2) is None {
            assert(v2.ids == v1.ids.push((loc2, l2)));
        }
    }
    assert(i != j);
    assert(v2.ids[i].1 == Lifetime::Var((i + 1) as u32));
    assert(v2.ids[j].1 == Lifetime::Var((j + 1) as u32));
}

/// The lifetimes `r` are those recorded for the levels of `name` from
/// level `ind` on: `local` at level 0, the registered lifetime below it.
pub open spec fn records(v: CtxView, name: NameView, ind: u32, r: Seq<Lifetime>) -> bool {
    forall|k: int|
        #![trigger r[k]]
        0 <= k < r.len() ==> if ind + k == 0 {
            r[k] == Lifetime::Local
        } else {
            ind + k <= u32::MAX && lookup_loc(v.ids, (name, (ind + k) as u32)) == Some(r[k])
        }
}

proof fn lemma_reg_keeps_lookup(v: CtxView, loc2: LocView, loc: LocView)
    requires
        reg_step(v, loc2) is Some,
        lookup_loc(v.ids, loc) is Some,
    ensures
        lookup_loc(reg_step(v, loc2)->Some_0.0.ids, loc) == lookup_loc(v.ids, loc),
{
    let w = reg_step(v, loc2)->Some_0.0;
    if loc2.1 != 0 && lookup_loc(v.ids, loc2) is None {
        assert(w.ids.drop_last() =~= v.ids);
    }
}

proof fn lemma_chain_keeps_lookup(v: CtxView, name: NameView, ty: Type, ind: u32, loc: LocView)
    requires
        chain_step(v, name, ty, ind) is Some,
        lookup_loc(v.ids, loc) is Some,
    ensures
        lookup_loc(chain_step(v, name, ty, ind)->Some_0.0.ids, loc) == lookup_loc(v.ids, loc),
    decreases ty,
{
    lemma_reg_keeps_lookup(v, (name, ind), loc);
    let v1 = reg_step(v, (name, ind))->Some_0.0;
    if let Type::PointerType { pointee_type, .. } = ty {
        lemma_chain_keeps_lookup(v1, name, *pointee_type, (ind + 1) as u32, loc);
    }
}

proof fn lemma_chain_records(v: CtxView, name: NameView, ty: Type, ind: u32)
    requires
        chain_step(v, name, ty, ind) is Some,
    ensures
        records(chain_step(v, name, ty, ind)->Some_0.0, name, ind, chain_step(v, name, ty, ind)->Some_0.1),
    decreases ty,
{
    let (v1, l) = reg_step(v, (name, ind))->Some_0;
    let (w, r) = chain_step(v, name, ty, ind)->Some_0;
    if ind != 0 {
        if lookup_loc(v.ids, (name, ind)) is None {
            assert(v1.ids.drop_last() =~= v.ids);
        }
        assert(lookup_loc(v1.ids, (name, ind)) == Some(l));
    }
    match ty {
        Type::PointerType { pointee_type, .. } => {
            let ind1 = (ind + 1) as u32;
            lemma_chain_records(v1, name, *pointee_type, ind1);
            let rest = chain_step(v1, name, *pointee_type, ind1)->Some_0.1;
            assert(r == seq![l] + rest);
            if ind != 0 {
                lemma_chain_keeps_lookup(v1, name, *pointee_type, ind1, (name, ind));
            }
            assert forall|k: int| #![trigger r[k]] 0 <= k < r.len() implies (if ind + k == 0 {
                r[k] == Lifetime::Local
            } else {
                ind + k <= u32::MAX && lookup_loc(w.ids, (name, (ind + k) as u32)) == Some(r[k])
            }) by {
                if k > 0 {
                    assert(r[k] == rest[k - 1]);
                    assert(ind1 + (k - 1) == ind + k);
                }
            }
        },
        _ => {
            assert(r == seq![l]);
        },
    }
}

proof fn lemma_chain_reads(v: CtxView, name: NameView, ty: Type, ind: u32, r: Seq<Lifetime>)
    requires
        chain_step(v, name, ty, ind) is Some,
        records(v, name, ind, r),
    ensures
        forall|k: int|
            0 <= k < r.len() && 0 <= k < chain_step(v, name, ty, ind)->Some_0.1.len()
                ==> #[trigger] chain_step(v, name, ty, ind)->Some_0.1[k] == r[k],
    decreases ty,
{
    let (v1, l) = reg_step(v, (name, ind))->Some_0;
    let r2 = chain_step(v, name, ty, ind)->Some_0.1;
    if r.len() > 0 {
        if ind != 0 {
            assert(lookup_loc(v.ids, (name, ind)) == Some(r[0]));
        }
        assert(l == r[0]);
    }
    match ty {
        Type::PointerType { pointee_type, .. } => {
            let ind1 = (ind + 1) as u32;
            let r1 = if r.len() > 0 { r.skip(1) } else { r };
            assert(records(v1, name, ind1, r1)) by {
                assert forall|k: int| #![trigger r1[k]] 0 <= k < r1.len() implies (if ind1 + k == 0 {
                    r1[k] == Lifetime::Local
                } else {
                    ind1 + k <= u32::MAX && lookup_loc(v1.ids, (name, (ind1 + k) as u32)) == Some(r1[k])
                }) by {
                    assert(r1[k] == r[k + 1]);
                    assert(ind + (k + 1) == ind1 + k);
                    lemma_reg_keeps_lookup(v, (name, ind), (name, (ind1 + k) as u32));
                }
            }
            lemma_chain_reads(v1, name, *pointee_type, ind1, r1);
            let rest = chain_step(v1, name, *pointee_type, ind1)->Some_0.1;
            assert(r2 == seq![l] + rest);
            assert forall|k: int| 0 <= k < r.len() && 0 <= k < r2.len() implies #[trigger] r2[k] == r[k] by {
                if k > 0 {
                    assert(r2[k] == rest[k - 1]);
                    assert(r1[k - 1] == r[k]);
                }
            }
        },
        _ => {
            assert(r2 == seq![l]);
        },
    }
}

proof fn lemma_chain_len_by_type(v1: CtxView, v2: CtxView, n1: NameView, n2: NameView, ty: Type, i1: u32, i2: u32)
    requires
        chain_step(v1, n1, ty, i1) is Some,
        chain_step(v2, n2, ty, i2) is Some,
    ensures
        chain_step(v1, n1, ty, i1)->Some_0.1.len() == chain_step(v2, n2, ty, i2)->Some_0.1.len(),
    decreases ty,
{
    if let Type::PointerType { pointee_type, .. } = ty {
        let w1 = reg_step(v1, (n1, i1))->Some_0.0;
        let w2 = reg_step(v2, (n2, i2))->Some_0.0;
        lemma_chain_len_by_type(w1, w2, n1, n2, *pointee_type, (i1 + 1) as u32, (i2 + 1) as u32);
    }
}

/// Registering the same value twice, the second time under a type `t2`
/// that may differ from the first `t1`, gives the same lifetime for each
/// level that both registrations cover; with the same type it gives the
/// same lifetimes.
pub proof fn lemma_register_value_twice(v: CtxView, name: NameView, t1: Type, t2: Type, ind: u32)
    requires
        chain_step(v, name, t1, ind) is Some,
        chain_step(chain_step(v, name, t1, ind)->Some_0.0, name, t2, ind) is Some,
    ensures
        ({
            let r1 = chain_step(v, name, t1, ind)->Some_0.1;
            let r2 = chain_step(chain_step(v, name, t1, ind)->Some_0.0, name, t2, ind)->Some_0.1;
            &&& forall|k: int| 0 <= k < r1.len() && 0 <= k < r2.len() ==> #[trigger] r1[k] == r2[k]
            &&& t1 == t2 ==> r1 == r2
        }),
{
    let (v1, r1) = chain_step(v, name, t1, ind)->Some_0;
    let r2 = chain_step(v1, name, t2, ind)->Some_0.1;
    lemma_chain_records(v, name, t1, ind);
    lemma_chain_reads(v1, name, t2, ind, r1);
    assert forall|k: int| 0 <= k < r1.len() && 0 <= k < r2.len() implies #[trigger] r1[k] == r2[k] by {
        assert(r2[k] == r1[k]);
    }
    if t1 == t2 {
        lemma_chain_len_by_type(v, v1, name, name, t1, ind, ind);
        assert(r1 =~= r2);
    }
}

proof fn lemma_reg_keeps_roots(v: CtxView, loc: LocView, k: u64)
    requires
        reg_step(v, loc) is Some,
    ensures
        is_root(v.parents, k) ==> is_root(reg_step(v, loc)->Some_0.0.parents, k),
        is_root(reg_step(v, loc)->Some_0.0.parents, lt_key(reg_step(v, loc)->Some_0.1)),
{
}

proof fn lemma_chain_keeps_roots(v: CtxView, name: NameView, ty: Type, ind: u32, k: u64)
    requires
        chain_step(v, name, ty, ind) is Some,
        is_root(v.parents, k),
    ensures
        is_root(chain_step(v, name, ty, ind)->Some_0.0.parents, k),
    decreases ty,
{
    lemma_reg_keeps_roots(v, (name, ind), k);
    let v1 = reg_step(v, (name, ind))->Some_0.0;
    if let Type::PointerType { pointee_type, .. } = ty {
        lemma_chain_keeps_roots(v1, name, *pointee_type, (ind + 1) as u32, k);
    }
}

/// Right after the locations of a value are registered, each of their
/// lifetimes is its own representative.
pub proof fn lemma_chain_lifetimes_are_representatives(
    v: CtxView,
    name: NameView,
    ty: Type,
    ind: u32,
)
    requires
        chain_step(v, name, ty, ind) is Some,
    ensures
        forall|i: int|
            0 <= i < chain_step(v, name, ty, ind)->Some_0.1.len() ==> rep_lt(
                chain_step(v, name, ty, ind)->Some_0.0.parents,
                #[trigger] chain_step(v, name, ty, ind)->Some_0.1[i],
            ) == chain_step(v, name, ty, ind)->Some_0.1[i],
    decreases ty,
{
    let (v2, lts) = chain_step(v, name, ty, ind)->Some_0;
    let (v1, l) = reg_step(v, (name, ind))->Some_0;
    lemma_reg_keeps_roots(v, (name, ind), lt_key(l));
    assert forall|i: int| 0 <= i < lts.len() implies rep_lt(v2.parents, #[trigger] lts[i]) == lts[i] by {
        if i == 0 {
            assert(lts[0] == l);
            if let Type::PointerType { pointee_type, .. } = ty {
                lemma_chain_keeps_roots(v1, name, *pointee_type, (ind + 1) as u32, lt_key(l));
            }
            lemma_rep_is_reached_root(v2.parents, lt_key(l), 0);
        } else {
            if let Type::PointerType { pointee_type, .. } = ty {
                lemma_chain_lifetimes_are_representatives(v1, name, *pointee_type, (ind + 1) as u32);
                let rest = chain_step(v1, name, *pointee_type, (ind + 1) as u32)->Some_0.1;
                assert(lts[i] == rest[i - 1]);
            }
        }
    }
}

/// Registering each parameter in turn, collecting the lifetimes.
pub open spec fn register_params(v: CtxView, params: Seq<Parameter>) -> Option<
    (CtxView, Seq<Seq<Lifetime>>),
>
    decreases params.len(),
{
    if params.len() == 0 {
        Some((v, seq![]))
    } else {
        match register_params(v, params.drop_last()) {
            None => None,
            Some((v1, done)) => match chain_step(v1, params.last().name@, params.last().ty, 0) {
                None => None,
                Some((v2, lts)) => Some((v2, done.push(lts))),
            },
        }
    }
}

/// The signature that finalize reports lists, for each parameter, exactly
/// the lifetimes registered for it again: registering makes each of them its
/// own representative, so the equalities found before do not show in it.
pub proof fn lemma_solved_params_are_registered(v: CtxView, params: Seq<Parameter>)
    ensures
        solve_params(v, params) == register_params(v, params),
    decreases params.len(),
{
    if params.len() > 0 {
        lemma_solved_params_are_registered(v, params.drop_last());
        match register_params(v, params.drop_last()) {
            None => {},
            Some((v1, done)) => {
                let p = params.last();
                match chain_step(v1, p.name@, p.ty, 0) {
                    None => {},
                    Some((v2, lts)) => {
                        lemma_chain_lifetimes_are_representatives(v1, p.name@, p.ty, 0);
                        assert(lts.map_values(|l: Lifetime| rep_lt(v2.parents, l)) =~= lts);
                    },
                }
            },
        }
    }
}

/// Declaring two lifetimes equal gives them one representative, and
/// lifetimes that had one representative keep sharing one.
pub proof fn lemma_equate_joins(v: CtxView, left: Lifetime, right: Lifetime)
    requires
        all_reach_roots(v.parents),
        valid_parents(v.parents),
    ensures
        all_reach_roots(equate(v, left, right).parents),
        rep_lt(equate(v, left, right).parents, left) == rep_lt(equate(v, left, right).parents, right),
        forall|x: Lifetime, y: Lifetime|
            rep_lt(v.parents, x) == rep_lt(v.parents, y) ==> #[trigger] rep_lt(
                equate(v, left, right).parents,
                x,
            ) == #[trigger] rep_lt(equate(v, left, right).parents, y),
{
    let m = v.parents;
    lemma_union_map_reps(m, lt_key(left), lt_key(right));
    let m2 = equate(v, left, right).parents;
    assert(rep_of(m2, lt_key(left)) == rep_of(m2, lt_key(right))) by {
        assert(rep_of(m2, lt_key(left)) == if rep_of(m, lt_key(left)) == rep_of(m, lt_key(right)) {
            rep_of(m, lt_key(left))
        } else {
            rep_of(m, lt_key(left))
        });
    }
    assert forall|x: Lifetime, y: Lifetime|
        rep_lt(m, x) == rep_lt(m, y) implies #[trigger] rep_lt(m2, x) == #[trigger] rep_lt(m2, y) by {
        lemma_valid_rep(m, lt_key(x));
        lemma_valid_rep(m, lt_key(y));
        assert(rep_of(m, lt_key(x)) == rep_of(m, lt_key(y)));
        assert(rep_of(m2, lt_key(x)) == if rep_of(m, lt_key(x)) == rep_of(m, lt_key(right)) {
            rep_of(m, lt_key(left))
        } else {
            rep_of(m, lt_key(x))
        });
        assert(rep_of(m2, lt_key(y)) == if rep_of(m, lt_key(y)) == rep_of(m, lt_key(right)) {
            rep_of(m, lt_key(left))
        } else {
            rep_of(m, lt_key(y))
        });
    }
}

proof fn lemma_key_lt_injective(a: u64, b: u64)
    requires
        valid_key(a),
        valid_key(b),
        key_lt(a) == key_lt(b),
    ensures
        a == b,
{
    if a >= 2 && b >= 2 {
        assert((a - 2) as u32 == (b - 2) as u32);
    }
}

/// Declaring `left` equal to `right` merges exactly the class of `right`
/// into the class of `left`: a lifetime of the class of `right` gets the
/// representative of `left`, every other lifetime keeps its own.
pub proof fn lemma_equate_exact(v: CtxView, left: Lifetime, right: Lifetime)
    requires
        all_reach_roots(v.parents),
        valid_parents(v.parents),
    ensures
        all_reach_roots(equate(v, left, right).parents),
        valid_parents(equate(v, left, right).parents),
        forall|x: Lifetime|
            #[trigger] rep_lt(equate(v, left, right).parents, x) == if rep_lt(v.parents, x) == rep_lt(
                v.parents,
                right,
            ) {
                rep_lt(v.parents, left)
            } else {
                rep_lt(v.parents, x)
            },
{
    let m = v.parents;
    lemma_union_map_reps(m, lt_key(left), lt_key(right));
    lemma_equate_valid(v, left, right);
    lemma_valid_rep(m, lt_key(right));
    assert forall|x: Lifetime| #[trigger] rep_lt(equate(v, left, right).parents, x) == if rep_lt(
        m,
        x,
    ) == rep_lt(m, right) {
        rep_lt(m, left)
    } else {
        rep_lt(m, x)
    } by {
        lemma_valid_rep(m, lt_key(x));
        if rep_lt(m, x) == rep_lt(m, right) {
            lemma_key_lt_injective(rep_of(m, lt_key(x)), rep_of(m, lt_key(right)));
        }
    }
}

/// After `left` is declared equal to `right`, two lifetimes share a
/// representative exactly when they shared one before, or each of them
/// shared one with `left` or with `right`.
pub proof fn lemma_equate_classes(v: CtxView, left: Lifetime, right: Lifetime)
    requires
        all_reach_roots(v.parents),
        valid_parents(v.parents),
    ensures
        forall|x: Lifetime, y: Lifetime|
            #[trigger] same_rep(equate(v, left, right), x, y) <==> (same_rep(v, x, y) || (
            (same_rep(v, x, left) || same_rep(v, x, right)) && (same_rep(v, y, left) || same_rep(
                v,
                y,
                right,
            )))),
{
    lemma_equate_exact(v, left, right);
    let w = equate(v, left, right);
    assert forall|x: Lifetime, y: Lifetime|
        #[trigger] same_rep(w, x, y) <==> (same_rep(v, x, y) || ((same_rep(v, x, left) || same_rep(
            v,
            x,
            right,
        )) && (same_rep(v, y, left) || same_rep(v, y, right)))) by {
        assert(rep_lt(w.parents, x) == if rep_lt(v.parents, x) == rep_lt(v.parents, right) {
            rep_lt(v.parents, left)
        } else {
            rep_lt(v.parents, x)
        });
        assert(rep_lt(w.parents, y) == if rep_lt(v.parents, y) == rep_lt(v.parents, right) {
            rep_lt(v.parents, left)
        } else {
            rep_lt(v.parents, y)
        });
    }
}

/// `x` shares a representative in `v` with `head` or with some lifetime of
/// `tail`.
pub open spec fn in_group(v: CtxView, x: Lifetime, head: Lifetime, tail: Seq<Lifetime>) -> bool {
    same_rep(v, x, head) || exists|i: int| 0 <= i < tail.len() && #[trigger] same_rep(v, x, tail[i])
}

proof fn lemma_group_step(v: CtxView, x: Lifetime, head: Lifetime, tail: Seq<Lifetime>)
    requires
        tail.len() > 0,
    ensures
        in_group(v, x, head, tail) <==> (in_group(v, x, head, tail.drop_last()) || same_rep(
            v,
            x,
            tail.last(),
        )),
{
    let t1 = tail.drop_last();
    if in_group(v, x, head, t1) && !same_rep(v, x, head) {
        let i = choose|i: int| 0 <= i < t1.len() && #[trigger] same_rep(v, x, t1[i]);
        assert(tail[i] == t1[i]);
        assert(same_rep(v, x, tail[i]));
    }
    if same_rep(v, x, tail.last()) {
        assert(same_rep(v, x, tail[tail.len() - 1]));
    }
    if in_group(v, x, head, tail) && !same_rep(v, x, head) {
        let i = choose|i: int| 0 <= i < tail.len() && #[trigger] same_rep(v, x, tail[i]);
        if i < t1.len() {
            assert(t1[i] == tail[i]);
            assert(same_rep(v, x, t1[i]));
        }
    }
}

proof fn lemma_equate_classes_at(v: CtxView, left: Lifetime, right: Lifetime, x: Lifetime, y: Lifetime)
    requires
        all_reach_roots(v.parents),
        valid_parents(v.parents),
    ensures
        same_rep(equate(v, left, right), x, y) <==> (same_rep(v, x, y) || ((same_rep(v, x, left)
            || same_rep(v, x, right)) && (same_rep(v, y, left) || same_rep(v, y, right)))),
{
    lemma_equate_exact(v, left, right);
    let w = equate(v, left, right);
    assert(rep_lt(w.parents, x) == rep_lt(w.parents, x));
    assert(rep_lt(w.parents, y) == rep_lt(w.parents, y));
}

proof fn lemma_equate_all_at(v: CtxView, head: Lifetime, tail: Seq<Lifetime>, x: Lifetime, y: Lifetime)
    requires
        all_reach_roots(v.parents),
        valid_parents(v.parents),
    ensures
        same_rep(equate_all(v, head, tail), x, y) <==> (same_rep(v, x, y) || (in_group(
            v,
            x,
            head,
            tail,
        ) && in_group(v, y, head, tail))),
    decreases tail.len(),
{
    if tail.len() > 0 {
        let t1 = tail.drop_last();
        let r = tail.last();
        let e = equate_all(v, head, t1);
        lemma_equate_all(v, head, t1);
        lemma_equate_all_at(v, head, t1, x, y);
        lemma_equate_all_at(v, head, t1, x, head);
        lemma_equate_all_at(v, head, t1, x, r);
        lemma_equate_all_at(v, head, t1, y, head);
        lemma_equate_all_at(v, head, t1, y, r);
        lemma_equate_classes_at(e, head, r, x, y);
        lemma_group_step(v, x, head, tail);
        lemma_group_step(v, y, head, tail);
        assert(in_group(v, head, head, t1));
    }
}

/// Declaring `head` equal to each lifetime of `tail` merges exactly the
/// classes of `head` and of the lifetimes of `tail`, and nothing else.
pub proof fn lemma_equate_all_classes(v: CtxView, head: Lifetime, tail: Seq<Lifetime>)
    requires
        all_reach_roots(v.parents),
        valid_parents(v.parents),
    ensures
        forall|x: Lifetime, y: Lifetime|
            #[trigger] same_rep(equate_all(v, head, tail), x, y) <==> (same_rep(v, x, y) || (in_group(
                v,
                x,
                head,
                tail,
            ) && in_group(v, y, head, tail))),
{
    assert forall|x: Lifetime, y: Lifetime|
        #[trigger] same_rep(equate_all(v, head, tail), x, y) <==> (same_rep(v, x, y) || (in_group(
            v,
            x,
            head,
            tail,
        ) && in_group(v, y, head, tail))) by {
        lemma_equate_all_at(v, head, tail, x, y);
    }
}

/// `x` is joined, through the components `comps`, to one of the first `n`
/// lifetimes of `c`.
pub open spec fn touches(v: CtxView, comps: Seq<Seq<Lifetime>>, x: Lifetime, c: Seq<Lifetime>, n: nat) -> bool
    decreases comps.len(), n + 1,
{
    if n == 0 || n > c.len() {
        false
    } else {
        linked(v, comps, x, c[n - 1]) || touches(v, comps, x, c, (n - 1) as nat)
    }
}

/// `x` and `y` are joined through the components `comps` over the classes
/// of `v`: they share a representative in `v`, or, component by component,
/// each is joined to some lifetime of one component.
pub open spec fn linked(v: CtxView, comps: Seq<Seq<Lifetime>>, x: Lifetime, y: Lifetime) -> bool
    decreases comps.len(), 0nat,
{
    if comps.len() == 0 {
        same_rep(v, x, y)
    } else {
        let c = comps.last();
        linked(v, comps.drop_last(), x, y) || (touches(v, comps.drop_last(), x, c, c.len())
            && touches(v, comps.drop_last(), y, c, c.len()))
    }
}

proof fn lemma_touches(v: CtxView, comps: Seq<Seq<Lifetime>>, x: Lifetime, c: Seq<Lifetime>, n: nat)
    requires
        n <= c.len(),
    ensures
        touches(v, comps, x, c, n) <==> exists|i: int| 0 <= i < n && #[trigger] linked(v, comps, x, c[i]),
    decreases n,
{
    if n > 0 {
        lemma_touches(v, comps, x, c, (n - 1) as nat);
        if exists|i: int| 0 <= i < n && #[trigger] linked(v, comps, x, c[i]) {
            let i = choose|i: int| 0 <= i < n && #[trigger] linked(v, comps, x, c[i]);
            if i < n - 1 {
                assert(exists|k: int| 0 <= k < n - 1 && #[trigger] linked(v, comps, x, c[k]));
            }
        }
        if linked(v, comps, x, c[n - 1]) {
            assert(exists|k: int| 0 <= k < n && #[trigger] linked(v, comps, x, c[k]));
        }
        if touches(v, comps, x, c, (n - 1) as nat) {
            let i = choose|i: int| 0 <= i < n - 1 && #[trigger] linked(v, comps, x, c[i]);
            assert(exists|k: int| 0 <= k < n && #[trigger] linked(v, comps, x, c[k]));
        }
    }
}

/// The unification phase merges classes through the components and in no
/// other way: afterwards two lifetimes share a representative exactly when
/// they are [`linked`] through the components. In particular two cycles
/// whose lifetimes were not equal before stay apart, and a lifetime of no
/// component keeps a class of its own.
pub proof fn lemma_unify_classes(v: CtxView, comps: Seq<Seq<Lifetime>>)
    requires
        all_reach_roots(v.parents),
        valid_parents(v.parents),
    ensures
        forall|x: Lifetime, y: Lifetime|
            #[trigger] same_rep(unify_components(v, comps), x, y) <==> linked(v, comps, x, y),
    decreases comps.len(),
{
    if comps.len() > 0 {
        let p = comps.drop_last();
        let c = comps.last();
        lemma_unify_classes(v, p);
        lemma_unify_components(v, p);
        let w = unify_components(v, p);
        let w2 = unify_components(v, comps);
        if c.len() == 0 {
            assert(w2 == w);
            assert forall|x: Lifetime, y: Lifetime| #[trigger] same_rep(w2, x, y) <==> linked(
                v,
                comps,
                x,
                y,
            ) by {
                assert(same_rep(w, x, y) == linked(v, p, x, y));
                assert(!touches(v, p, x, c, c.len()));
            }
        } else {
            assert(w2 == equate_all(w, c[0], c.skip(1)));
            assert forall|x: Lifetime, y: Lifetime| #[trigger] same_rep(w2, x, y) <==> linked(
                v,
                comps,
                x,
                y,
            ) by {
                lemma_equate_all_at(w, c[0], c.skip(1), x, y);
                lemma_group_linked(v, p, c, x);
                lemma_group_linked(v, p, c, y);
                assert(same_rep(w, x, y) == linked(v, p, x, y));
                assert(in_group(w, x, c[0], c.skip(1)) == touches(v, p, x, c, c.len()));
                assert(in_group(w, y, c[0], c.skip(1)) == touches(v, p, y, c, c.len()));
            }
        }
    } else {
        assert forall|x: Lifetime, y: Lifetime| #[trigger] same_rep(unify_components(v, comps), x, y)
            <==> linked(v, comps, x, y) by {}
    }
}

proof fn lemma_group_linked(v: CtxView, p: Seq<Seq<Lifetime>>, c: Seq<Lifetime>, x: Lifetime)
    requires
        c.len() > 0,
        forall|a: Lifetime, b: Lifetime|
            #[trigger] same_rep(unify_components(v, p), a, b) <==> linked(v, p, a, b),
    ensures
        in_group(unify_components(v, p), x, c[0], c.skip(1)) <==> touches(v, p, x, c, c.len()),
{
    let w = unify_components(v, p);
    lemma_touches(v, p, x, c, c.len());
    if in_group(w, x, c[0], c.skip(1)) {
        if same_rep(w, x, c[0]) {
            assert(linked(v, p, x, c[0]));
        } else {
            let i = choose|i: int| 0 <= i < c.skip(1).len() && #[trigger] same_rep(w, x, c.skip(1)[i]);
            assert(c.skip(1)[i] == c[i + 1]);
            assert(same_rep(w, x, c[i + 1]));
            assert(linked(v, p, x, c[i + 1]));
        }
    }
    if exists|i: int| 0 <= i < c.len() && #[trigger] linked(v, p, x, c[i]) {
        let i = choose|i: int| 0 <= i < c.len() && #[trigger] linked(v, p, x, c[i]);
        assert(same_rep(w, x, c[i]));
        if i > 0 {
            assert(c.skip(1)[i - 1] == c[i]);
            assert(same_rep(w, x, c.skip(1)[i - 1]));
        }
    }
}

proof fn lemma_var_in_first_vars(s: Seq<Lifetime>, id: u32)
    requires
        s.contains(Lifetime::Var(id)),
    ensures
        first_vars(s).contains(id),
    decreases s.len(),
{
    let f = first_vars(s.drop_last());
    if s.last() == Lifetime::Var(id) {
        if !f.contains(id) {
            assert(first_vars(s) == f.push(id));
            assert(first_vars(s)[f.len() as int] == id);
        }
    } else {
        let k = choose|k: int| 0 <= k < s.len() && s[k] == Lifetime::Var(id);
        assert(s.drop_last()[k] == Lifetime::Var(id));
        lemma_var_in_first_vars(s.drop_last(), id);
        let j = choose|j: int| 0 <= j < f.len() && f[j] == id;
        assert(first_vars(s)[j] == id);
    }
}

/// In the text of a signature, two different lifetime variables get
/// different labels (and every mention of one variable gets the same label).
pub proof fn lemma_labels_tell_variables_apart(fl: FunctionLifetimesView, a: u32, b: u32)
    requires
        a != b,
        mentioned(fl).contains(Lifetime::Var(a)),
        mentioned(fl).contains(Lifetime::Var(b)),
    ensures
        lifetime_label(first_vars(mentioned(fl)), Lifetime::Var(a)) != lifetime_label(
            first_vars(mentioned(fl)),
            Lifetime::Var(b),
        ),
{
    let order = first_vars(mentioned(fl));
    lemma_first_vars_no_dup(mentioned(fl));
    lemma_var_in_first_vars(mentioned(fl), a);
    lemma_var_in_first_vars(mentioned(fl), b);
    let ia = order.index_of(a);
    let ib = order.index_of(b);
    assert(order[ia] == a);
    assert(order[ib] == b);
    let la = lifetime_label(order, Lifetime::Var(a));
    let lb = lifetime_label(order, Lifetime::Var(b));
    if la == lb {
        assert(la.skip(1) =~= label_of(ia as nat));
        assert(lb.skip(1) =~= label_of(ib as nat));
        lemma_label_injective(ia as nat, ib as nat);
    }
}

/// `lt` with a lifetime variable `var(id)` renamed to `var(f(id))`.
pub open spec fn rename_lt(f: spec_fn(u32) -> u32, lt: Lifetime) -> Lifetime {
    match lt {
        Lifetime::Var(id) => Lifetime::Var(f(id)),
        _ => lt,
    }
}

/// The parameter lifetimes of `ps` with every variable renamed by `f`.
pub open spec fn rename_params(f: spec_fn(u32) -> u32, ps: Seq<Seq<Lifetime>>) -> Seq<Seq<Lifetime>> {
    ps.map_values(|p: Seq<Lifetime>| p.map_values(|l: Lifetime| rename_lt(f, l)))
}

/// The constraints `cs` with every variable renamed by `f`.
pub open spec fn rename_constraints(f: spec_fn(u32) -> u32, cs: Seq<(Lifetime, Lifetime)>) -> Seq<
    (Lifetime, Lifetime),
> {
    cs.map_values(|c: (Lifetime, Lifetime)| (rename_lt(f, c.0), rename_lt(f, c.1)))
}

/// `f` maps different numbers to different numbers.
pub open spec fn injective_u32(f: spec_fn(u32) -> u32) -> bool {
    forall|a: u32, b: u32| #[trigger] f(a) == #[trigger] f(b) ==> a == b
}

proof fn lemma_rename_params_mentioned(f: spec_fn(u32) -> u32, ps: Seq<Seq<Lifetime>>)
    ensures
        params_mentioned(rename_params(f, ps)) == params_mentioned(ps).map_values(
            |l: Lifetime| rename_lt(f, l),
        ),
    decreases ps.len(),
{
    if ps.len() > 0 {
        lemma_rename_params_mentioned(f, ps.drop_last());
        assert(rename_params(f, ps).drop_last() =~= rename_params(f, ps.drop_last()));
        let p = ps.last();
        assert(after_first(p.map_values(|l: Lifetime| rename_lt(f, l))) =~= after_first(p).map_values(
            |l: Lifetime| rename_lt(f, l),
        ));
        assert(params_mentioned(rename_params(f, ps)) =~= params_mentioned(ps).map_values(
            |l: Lifetime| rename_lt(f, l),
        ));
    } else {
        assert(params_mentioned(rename_params(f, ps)) =~= params_mentioned(ps).map_values(
            |l: Lifetime| rename_lt(f, l),
        ));
    }
}

proof fn lemma_rename_constraints_mentioned(f: spec_fn(u32) -> u32, cs: Seq<(Lifetime, Lifetime)>)
    ensures
        constraints_mentioned(rename_constraints(f, cs)) == constraints_mentioned(cs).map_values(
            |l: Lifetime| rename_lt(f, l),
        ),
    decreases cs.len(),
{
    if cs.len() > 0 {
        lemma_rename_constraints_mentioned(f, cs.drop_last());
        assert(rename_constraints(f, cs).drop_last() =~= rename_constraints(f, cs.drop_last()));
    }
    assert(constraints_mentioned(rename_constraints(f, cs)) =~= constraints_mentioned(cs).map_values(
        |l: Lifetime| rename_lt(f, l),
    ));
}

proof fn lemma_rename_first_vars(f: spec_fn(u32) -> u32, s: Seq<Lifetime>)
    requires
        injective_u32(f),
    ensures
        first_vars(s.map_values(|l: Lifetime| rename_lt(f, l))) == first_vars(s).map_values(
            |id: u32| f(id),
        ),
    decreases s.len(),
{
    let rs = s.map_values(|l: Lifetime| rename_lt(f, l));
    if s.len() > 0 {
        lemma_rename_first_vars(f, s.drop_last());
        assert(rs.drop_last() =~= s.drop_last().map_values(|l: Lifetime| rename_lt(f, l)));
        let fv = first_vars(s.drop_last());
        let fm = fv.map_values(|id: u32| f(id));
        if let Lifetime::Var(id) = s.last() {
            assert(rs.last() == Lifetime::Var(f(id)));
            assert(fm.contains(f(id)) == fv.contains(id)) by {
                if fm.contains(f(id)) {
                    let j = choose|j: int| 0 <= j < fm.len() && fm[j] == f(id);
                    assert(fv[j] == id);
                }
                if fv.contains(id) {
                    let j = choose|j: int| 0 <= j < fv.len() && fv[j] == id;
                    assert(fm[j] == f(id));
                }
            }
            if !fv.contains(id) {
                assert(fm.push(f(id)) =~= fv.push(id).map_values(|i: u32| f(i)));
            }
        } else {
            assert(rs.last() == s.last());
        }
    } else {
        assert(first_vars(rs) =~= first_vars(s).map_values(|id: u32| f(id)));
    }
}

proof fn lemma_rename_label(f: spec_fn(u32) -> u32, order: Seq<u32>, lt: Lifetime)
    requires
        injective_u32(f),
        order.no_duplicates(),
        lt matches Lifetime::Var(id) ==> order.contains(id),
    ensures
        lifetime_label(order.map_values(|id: u32| f(id)), rename_lt(f, lt)) == lifetime_label(order, lt),
{
    if let Lifetime::Var(id) = lt {
        let om = order.map_values(|i: u32| f(i));
        let i = order.index_of(id);
        assert(0 <= i < order.len() && order[i] == id);
        assert(om[i] == f(id));
        assert(om.contains(f(id)));
        let j = om.index_of(f(id));
        assert(0 <= j < om.len() && om[j] == f(id));
        assert(order[j] == id);
        assert(i == j);
    }
}

/// Every variable that a parameter or a constraint of `fl` names is in the
/// labelling order of its text.
proof fn lemma_mentioned_in_order(fl: FunctionLifetimesView)
    ensures
        forall|i: int, k: int|
            0 <= i < fl.parameters.len() && 0 <= k < after_first(fl.parameters[i]).len() ==> (
            #[trigger] after_first(fl.parameters[i])[k] matches Lifetime::Var(id) ==> first_vars(
                mentioned(fl),
            ).contains(id)),
        forall|i: int|
            0 <= i < fl.constraints.len() ==> ((#[trigger] fl.constraints[i]).0 matches Lifetime::Var(
                id,
            ) ==> first_vars(mentioned(fl)).contains(id)) && (fl.constraints[i].1 matches Lifetime::Var(
                id,
            ) ==> first_vars(mentioned(fl)).contains(id)),
{
    let m = mentioned(fl);
    let pm = params_mentioned(fl.parameters);
    let cm = constraints_mentioned(fl.constraints);
    assert forall|i: int, k: int|
        0 <= i < fl.parameters.len() && 0 <= k < after_first(fl.parameters[i]).len() implies (
        #[trigger] after_first(fl.parameters[i])[k] matches Lifetime::Var(id) ==> first_vars(
            m,
        ).contains(id)) by {
        lemma_params_mentioned_split(fl.parameters, i);
        let base = params_mentioned(fl.parameters.take(i));
        let x = after_first(fl.parameters[i])[k];
        let idx = base.len() + k;
        assert(params_mentioned(fl.parameters.take(i + 1))[idx] == x);
        assert(pm[idx] == x);
        assert(m[idx] == x);
        if let Lifetime::Var(id) = x {
            lemma_var_in_first_vars(m, id);
        }
    }
    assert forall|i: int| 0 <= i < fl.constraints.len() implies ((#[trigger] fl.constraints[i]).0 matches Lifetime::Var(
        id,
    ) ==> first_vars(m).contains(id)) && (fl.constraints[i].1 matches Lifetime::Var(id) ==> first_vars(
        m,
    ).contains(id)) by {
        lemma_constraints_mentioned_split(fl.constraints, i);
        let base = constraints_mentioned(fl.constraints.take(i));
        let bl: int = base.len() as int;
        let pl: int = pm.len() as int;
        let c = fl.constraints[i];
        assert(constraints_mentioned(fl.constraints.take(i + 1))[bl] == c.0);
        assert(constraints_mentioned(fl.constraints.take(i + 1))[bl + 1] == c.1);
        assert(cm[bl] == c.0);
        assert(cm[bl + 1] == c.1);
        assert(m[pl + bl] == c.0);
        assert(m[pl + bl + 1] == c.1);
        if let Lifetime::Var(id) = c.0 {
            lemma_var_in_first_vars(m, id);
        }
        if let Lifetime::Var(id) = c.1 {
            lemma_var_in_first_vars(m, id);
        }
    }
}

/// Renaming the lifetime variables of a signature one to one leaves its text
/// unchanged: labels depend only on the order in which variables are first
/// mentioned, and the returned value's lifetimes are never printed.
pub proof fn lemma_rename_keeps_text(
    f: spec_fn(u32) -> u32,
    fl: FunctionLifetimesView,
    fl2: FunctionLifetimesView,
)
    requires
        injective_u32(f),
        fl2.parameters == rename_params(f, fl.parameters),
        fl2.constraints == rename_constraints(f, fl.constraints),
    ensures
        render(fl2) == render(fl),
{
    let m = mentioned(fl);
    lemma_rename_params_mentioned(f, fl.parameters);
    lemma_rename_constraints_mentioned(f, fl.constraints);
    assert(mentioned(fl2) =~= m.map_values(|l: Lifetime| rename_lt(f, l)));
    lemma_rename_first_vars(f, m);
    let order = first_vars(m);
    let order2 = first_vars(mentioned(fl2));
    assert(order2 == order.map_values(|id: u32| f(id)));
    lemma_first_vars_no_dup(m);
    lemma_mentioned_in_order(fl);
    let pp = fl.parameters.map_values(|p: Seq<Lifetime>| render_param(order, p));
    let pp2 = fl2.parameters.map_values(|p: Seq<Lifetime>| render_param(order2, p));
    assert forall|i: int| 0 <= i < pp.len() implies #[trigger] pp2[i] == pp[i] by {
        let p = fl.parameters[i];
        let p2 = fl2.parameters[i];
        assert(p2 == p.map_values(|l: Lifetime| rename_lt(f, l)));
        assert(after_first(p2) =~= after_first(p).map_values(|l: Lifetime| rename_lt(f, l)));
        let a = after_first(p2).map_values(|l: Lifetime| lifetime_label(order2, l));
        let b = after_first(p).map_values(|l: Lifetime| lifetime_label(order, l));
        assert forall|k: int| 0 <= k < b.len() implies #[trigger] a[k] == b[k] by {
            let x = after_first(p)[k];
            assert(after_first(fl.parameters[i])[k] == x);
            lemma_rename_label(f, order, x);
        }
        assert(a =~= b);
    }
    assert(pp2 =~= pp);
    if fl.constraints.len() > 0 {
        let cp = fl.constraints.map_values(|c: (Lifetime, Lifetime)| render_constraint(order, c));
        let cp2 = fl2.constraints.map_values(|c: (Lifetime, Lifetime)| render_constraint(order2, c));
        assert forall|i: int| 0 <= i < cp.len() implies #[trigger] cp2[i] == cp[i] by {
            let c = fl.constraints[i];
            assert(fl2.constraints[i] == (rename_lt(f, c.0), rename_lt(f, c.1)));
            assert(fl.constraints[i].0 == c.0);
            assert(fl.constraints[i].1 == c.1);
            lemma_rename_label(f, order, c.0);
            lemma_rename_label(f, order, c.1);
        }
        assert(cp2 =~= cp);
    }
}

/// No solved constraint relates a lifetime to itself.
pub proof fn lemma_keep_distinct(s: Seq<(Lifetime, Lifetime)>)
    ensures
        forall|i: int|
            0 <= i < keep_distinct(s).len() ==> #[trigger] keep_distinct(s)[i].0 != keep_distinct(
                s,
            )[i].1,
    decreases s.len(),
{
    if s.len() > 0 {
        lemma_keep_distinct(s.drop_last());
        let k = keep_distinct(s.drop_last());
        assert forall|i: int| 0 <= i < keep_distinct(s).len() implies #[trigger] keep_distinct(
            s,
        )[i].0 != keep_distinct(s)[i].1 by {
            if i < k.len() {
                assert(keep_distinct(s)[i] == k[i]);
            }
        }
    }
}

proof fn lemma_equate_valid(v: CtxView, left: Lifetime, right: Lifetime)
    requires
        all_reach_roots(v.parents),
        valid_parents(v.parents),
    ensures
        valid_parents(equate(v, left, right).parents),
{
    let m = v.parents;
    lemma_valid_rep(m, lt_key(left));
    lemma_valid_rep(m, lt_key(right));
    let m2 = equate(v, left, right).parents;
    assert forall|k: u64| #[trigger] m2.contains_key(k) implies valid_key(k) && valid_key(m2[k]) by {
        if k != rep_of(m, lt_key(right)) {
            assert(m.contains_key(k));
        }
    }
}

/// One representative for `x` and `y`.
pub open spec fn same_rep(v: CtxView, x: Lifetime, y: Lifetime) -> bool {
    rep_lt(v.parents, x) == rep_lt(v.parents, y)
}

proof fn lemma_equate_all(v: CtxView, head: Lifetime, tail: Seq<Lifetime>)
    requires
        all_reach_roots(v.parents),
        valid_parents(v.parents),
    ensures
        all_reach_roots(equate_all(v, head, tail).parents),
        valid_parents(equate_all(v, head, tail).parents),
        forall|i: int| 0 <= i < tail.len() ==> same_rep(equate_all(v, head, tail), head, #[trigger] tail[i]),
        forall|x: Lifetime, y: Lifetime|
            #[trigger] same_rep(v, x, y) ==> same_rep(equate_all(v, head, tail), x, y),
    decreases tail.len(),
{
    if tail.len() > 0 {
        let w = equate_all(v, head, tail.drop_last());
        lemma_equate_all(v, head, tail.drop_last());
        lemma_equate_joins(w, head, tail.last());
        lemma_equate_valid(w, head, tail.last());
        let w2 = equate_all(v, head, tail);
        assert forall|i: int| 0 <= i < tail.len() implies same_rep(w2, head, #[trigger] tail[i]) by {
            if i < tail.len() - 1 {
                assert(tail.drop_last()[i] == tail[i]);
                assert(same_rep(w, head, tail[i]));
                assert(rep_lt(w2.parents, head) == rep_lt(w2.parents, tail[i]));
            }
        }
        assert forall|x: Lifetime, y: Lifetime| #[trigger] same_rep(v, x, y) implies same_rep(w2, x, y) by {
            assert(same_rep(w, x, y));
            assert(rep_lt(w2.parents, x) == rep_lt(w2.parents, y));
        }
    }
}

proof fn lemma_unify_component(v: CtxView, lts: Seq<Lifetime>)
    requires
        all_reach_roots(v.parents),
        valid_parents(v.parents),
    ensures
        all_reach_roots(unify_component(v, lts).parents),
        valid_parents(unify_component(v, lts).parents),
        forall|i: int, j: int|
            0 <= i < lts.len() && 0 <= j < lts.len() ==> same_rep(
                unify_component(v, lts),
                #[trigger] lts[i],
                #[trigger] lts[j],
            ),
        forall|x: Lifetime, y: Lifetime|
            #[trigger] same_rep(v, x, y) ==> same_rep(unify_component(v, lts), x, y),
{
    if lts.len() > 0 {
        let tail = lts.skip(1);
        lemma_equate_all(v, lts[0], tail);
        let w = unify_component(v, lts);
        assert forall|i: int| 0 <= i < lts.len() implies same_rep(w, lts[0], #[trigger] lts[i]) by {
            if i > 0 {
                assert(tail[i - 1] == lts[i]);
            }
        }
        assert forall|i: int, j: int|
            0 <= i < lts.len() && 0 <= j < lts.len() implies same_rep(
            w,
            #[trigger] lts[i],
            #[trigger] lts[j],
        ) by {
            assert(same_rep(w, lts[0], lts[i]));
            assert(same_rep(w, lts[0], lts[j]));
        }
    }
}

/// After the unification phase of finalize, the lifetimes of each
/// component share one representative (and lifetimes that shared one before
/// still do).
pub proof fn lemma_unify_components(v: CtxView, comps: Seq<Seq<Lifetime>>)
    requires
        all_reach_roots(v.parents),
        valid_parents(v.parents),
    ensures
        all_reach_roots(unify_components(v, comps).parents),
        valid_parents(unify_components(v, comps).parents),
        forall|c: int, i: int, j: int|
            0 <= c < comps.len() && 0 <= i < comps[c].len() && 0 <= j < comps[c].len() ==> same_rep(
                unify_components(v, comps),
                #[trigger] comps[c][i],
                #[trigger] comps[c][j],
            ),
        forall|x: Lifetime, y: Lifetime|
            #[trigger] same_rep(v, x, y) ==> same_rep(unify_components(v, comps), x, y),
    decreases comps.len(),
{
    if comps.len() > 0 {
        let w = unify_components(v, comps.drop_last());
        lemma_unify_components(v, comps.drop_last());
        lemma_unify_component(w, comps.last());
        let w2 = unify_components(v, comps);
        assert forall|c: int, i: int, j: int|
            0 <= c < comps.len() && 0 <= i < comps[c].len() && 0 <= j < comps[c].len() implies same_rep(
            w2,
            #[trigger] comps[c][i],
            #[trigger] comps[c][j],
        ) by {
            if c < comps.len() - 1 {
                assert(comps.drop_last()[c] == comps[c]);
                assert(same_rep(w, comps[c][i], comps[c][j]));
            } else {
                assert(comps.last()[i] == comps[c][i]);
                assert(comps.last()[j] == comps[c][j]);
            }
        }
    }
}

impl LifetimeCtx {
    /// What every well-formed context satisfies: its registrations are
    /// numbered, every walk of its union-find structure ends, and the
    /// structure holds only numbers of lifetimes.
    pub proof fn lemma_valid(&self)
        requires
            self.wf(),
        ensures
            ids_wf(self@),
            all_reach_roots(self@.parents),
            valid_parents(self@.parents),
    {
        self.unification.lemma_all_reach_roots();
    }
}

} // verus!
