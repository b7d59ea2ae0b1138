//! The tree behind a frontier: what was decided at each node, and what lies below it.
use vstd::prelude::*;

use crate::adapter::{Clause, RuleSolver};
use crate::bits;
use crate::ct;
use crate::cube;
use crate::cube::{Cube, CubeNodeKind, CubeNodeTrace, CubeRefutationReason, Setting};
use crate::dnf;
use crate::domain::DomainMask;
use crate::network::ConstraintNetwork;
use crate::problem;
use crate::selector;
use crate::selector::Selector;
use crate::table;
use crate::util;

verus! {

/// What was found at a node: the decisions that lead there, the domains, and the rule with the
/// disjoint clauses that were branched on.
pub struct Step {
    pub kind: CubeNodeKind,
    pub reason: Option<CubeRefutationReason>,
    pub decisions: Seq<(usize, bool)>,
    pub doms: Seq<DomainMask>,
    pub sigma_all: int,
    pub variables: Seq<usize>,
    pub rule: Seq<Clause>,
    pub parts: Seq<(Clause, usize)>,
}

/// A cubing tree. One that was stopped has parts that were not looked at.
pub enum Tree {
    /// Not looked at.
    Unseen,
    /// A leaf whose cube was not handed out, since its node was refused.
    Declined(Step),
    /// A leaf.
    Leaf(Step),
    /// A branch, with what lies below its first clauses.
    Branch(Step, Seq<Tree>),
}

impl Tree {
    /// What was found at its root.
    pub open spec fn root(self) -> Option<Step> {
        match self {
            Tree::Unseen => None,
            Tree::Declined(x) => Some(x),
            Tree::Leaf(x) => Some(x),
            Tree::Branch(x, kids) => Some(x),
        }
    }
}

/// The leaves from left to right.
pub open spec fn leaves(t: Tree) -> Seq<Step>
    decreases t, 0int,
{
    match t {
        Tree::Leaf(x) => seq![x],
        Tree::Branch(x, kids) => leaves_of(kids, kids.len() as int),
        _ => Seq::empty(),
    }
}

/// The leaves of the first trees.
pub open spec fn leaves_of(kids: Seq<Tree>, upto: int) -> Seq<Step>
    decreases kids, upto,
{
    if 0 < upto <= kids.len() {
        leaves_of(kids, upto - 1) + leaves(kids[upto - 1])
    } else {
        Seq::empty()
    }
}

/// The nodes in the order of a depth-first walk.
pub open spec fn walk(t: Tree) -> Seq<Step>
    decreases t, 0int,
{
    match t {
        Tree::Unseen => Seq::empty(),
        Tree::Declined(x) => seq![x],
        Tree::Leaf(x) => seq![x],
        Tree::Branch(x, kids) => seq![x] + walk_of(kids, kids.len() as int),
    }
}

/// The nodes of the first trees.
pub open spec fn walk_of(kids: Seq<Tree>, upto: int) -> Seq<Step>
    decreases kids, upto,
{
    if 0 < upto <= kids.len() {
        walk_of(kids, upto - 1) + walk(kids[upto - 1])
    } else {
        Seq::empty()
    }
}

/// Nothing is missing: below each branch there is a tree for every clause.
pub open spec fn whole(t: Tree) -> bool
    decreases t,
{
    match t {
        Tree::Leaf(x) => true,
        Tree::Branch(x, kids) => kids.len() == x.parts.len() && forall|i: int| 0 <= i < kids.len() ==> whole(#[trigger] kids[i]),
        _ => false,
    }
}

/// Propagation refuted the node, so that it was not looked at any further.
pub open spec fn fell(x: Step) -> bool {
    x.reason is Some && x.reason != Some(CubeRefutationReason::SelectorNoFeasibleConfig)
}

/// The selector, with the help of the rule solver, gives this rule at the node. None refutes it.
pub open spec fn ruled_by<S: RuleSolver>(w: Setting, solver: S, x: Step, clauses: Option<Seq<Clause>>) -> bool {
    exists|scope: Seq<usize>, r: table::BranchingResult| #[trigger]
        selector::selects(w.selector, w.cn, x.doms, scope, r) && cube::lists_open(x.doms, scope) && selector::consults(w.selector, solver, w.net, w.masks, x.doms, scope, w.measure, r) && x.variables == r.variables@ && match r.clauses {
            None => clauses is None,
            Some(c) => clauses == Some(c@),
        }
}

/// What a node is: cut where the cutoff applies, a model where nothing is open, and otherwise
/// what the rule of the selector makes of it.
#[verifier::opaque]
pub open spec fn decided<S: RuleSolver>(w: Setting, solver: S, x: Step) -> bool {
    let free = util::unfixed(x.doms, w.cn.n()) as int;
    if fell(x) {
        x.kind == CubeNodeKind::Refuted && x.variables.len() == 0 && x.rule.len() == 0 && x.parts.len() == 0
    } else {
        &&& cube::stands(w.cn, w.doms, x.decisions, x.sigma_all, x.doms)
        &&& x.kind == CubeNodeKind::Cutoff <==> cube::cut_here(w.cn, w.cutoff, x.doms, x.decisions)
        &&& x.kind == CubeNodeKind::Sat <==> free == 0 && x.kind != CubeNodeKind::Cutoff
        &&& x.kind == CubeNodeKind::Refuted <==> x.reason == Some(CubeRefutationReason::SelectorNoFeasibleConfig)
        &&& match x.kind {
            CubeNodeKind::Branch => ruled_by(w, solver, x, Some(x.rule)) && dnf::disjoint_cover(x.rule, x.parts) && (dnf::pairwise_clash(x.rule) ==> x.parts == dnf::placed(x.rule)) && x.parts.len() > 0,
            CubeNodeKind::Refuted => ruled_by(w, solver, x, None) && x.rule.len() == 0 && x.parts.len() == 0,
            _ => x.variables.len() == 0 && x.rule.len() == 0 && x.parts.len() == 0,
        }
    }
}

/// Where a branch leads: to domains within those that the clause leaves, arc consistent and
/// reduced.
pub open spec fn lands(cn: ConstraintNetwork, x: Step, c: Clause, e: Seq<DomainMask>) -> bool {
    &&& ct::closed_under(cn, e)
    &&& ct::narrower(e, ct::assigned(x.doms, x.variables, c.mask, c.val, x.variables.len() as int))
    &&& problem::reduced(cn, e)
}

/// What lies below clause `i` of a branch: a node with its decisions, where the clause leads, or
/// one that propagation refuted. Without a companion no companion refutes it.
pub open spec fn hangs_below(w: Setting, silent: bool, x: Step, i: int, kid: Tree) -> bool {
    kid.root() matches Some(y) ==> {
        &&& y.decisions == cube::child_dec(x.decisions, x.variables, x.parts[i].0)
        &&& if fell(y) {
            y.reason == Some(CubeRefutationReason::BranchPropagation) || (!silent && y.reason == Some(CubeRefutationReason::CdclPropagationConflict))
        } else {
            lands(w.cn, x, x.parts[i].0, y.doms)
        }
    }
}

/// Every node is what it has to be, and lies where a clause leads.
pub open spec fn grown<S: RuleSolver>(w: Setting, solver: S, silent: bool, t: Tree) -> bool
    decreases t,
{
    match t {
        Tree::Unseen => true,
        Tree::Declined(x) => x.kind != CubeNodeKind::Branch && decided(w, solver, x),
        Tree::Leaf(x) => x.kind != CubeNodeKind::Branch && decided(w, solver, x),
        Tree::Branch(x, kids) => {
            &&& x.kind == CubeNodeKind::Branch
            &&& x.reason is None
            &&& decided(w, solver, x)
            &&& kids.len() <= x.parts.len()
            &&& forall|i: int| 0 <= i < kids.len() ==> hangs_below(w, silent, x, i, #[trigger] kids[i]) && grown(w, solver, silent, kids[i])
        },
    }
}

/// The cube is that of the leaf.
pub open spec fn marks(c: Cube, x: Step) -> bool {
    &&& c.decisions@ == x.decisions
    &&& c.sigma_dec == x.decisions.len()
    &&& c.sigma_all == x.sigma_all
    &&& c.refuted == (x.kind == CubeNodeKind::Refuted)
    &&& c.sat == (x.kind == CubeNodeKind::Sat)
}

/// The cubes that were handed out are those of the leaves, in order.
#[verifier::opaque]
pub open spec fn handed(s0: Seq<Cube>, s1: Seq<Cube>, steps: Seq<Step>) -> bool {
    &&& s1.len() == s0.len() + steps.len()
    &&& s1.take(s0.len() as int) == s0
    &&& forall|k: int| 0 <= k < steps.len() ==> marks(s1[s0.len() + k], #[trigger] steps[k])
}

/// The node reports the step.
pub open spec fn shows(n: CubeNodeTrace, x: Step) -> bool {
    &&& n.kind == x.kind
    &&& n.refutation_reason == x.reason
    &&& n.decisions@ == x.decisions
    &&& n.sigma_all == x.sigma_all
    &&& n.variables@ == x.variables
    &&& cube::bare(n.optimized_clauses@) == x.rule
    &&& cube::bare_parts(n.clauses@, n.partition_sources@) == x.parts
}

/// The nodes that were reported are those of the walk, in order.
#[verifier::opaque]
pub open spec fn walked(n0: Seq<CubeNodeTrace>, n1: Seq<CubeNodeTrace>, steps: Seq<Step>) -> bool {
    &&& n1.len() == n0.len() + steps.len()
    &&& n1.take(n0.len() as int) == n0
    &&& forall|k: int| 0 <= k < steps.len() ==> shows(n1[n0.len() + k], #[trigger] steps[k])
}

/// The root of the tree: without decisions, at the domains of the setting where there is no
/// companion, or refuted by propagation.
pub open spec fn rooted(w: Setting, silent: bool, t: Tree) -> bool {
    t.root() matches Some(x) ==> {
        &&& x.decisions.len() == 0
        &&& !fell(x) && silent ==> x.doms == w.doms
        &&& fell(x) ==> !silent && (x.reason == Some(CubeRefutationReason::RootPropagation) || x.reason == Some(CubeRefutationReason::CdclPropagationConflict))
    }
}

/// The cubes are the leaves of a tree that the selector and the rule solver grow, and where nodes
/// are reported they are those of the same tree. A complete frontier has a whole tree.
pub open spec fn of_tree<S: RuleSolver>(w: Setting, solver: S, silent: bool, traced: bool, s0: Seq<Cube>, s1: Seq<Cube>, n0: Seq<CubeNodeTrace>, n1: Seq<CubeNodeTrace>, complete: bool) -> bool {
    exists|t: Tree| #[trigger]
        grown(w, solver, silent, t) && rooted(w, silent, t) && handed(s0, s1, leaves(t)) && (traced ==> walked(n0, n1, walk(t))) && (complete ==> whole(t))
}

/// The rule that was found at a node is its rule.
pub proof fn lemma_ruled<S: RuleSolver>(w: Setting, solver: S, x: Step, scope: Seq<usize>, r: table::BranchingResult)
    requires
        selector::selects(w.selector, w.cn, x.doms, scope, r),
        cube::lists_open(x.doms, scope),
        selector::consults(w.selector, solver, w.net, w.masks, x.doms, scope, w.measure, r),
        x.variables == r.variables@,
    ensures
        r.clauses is None ==> ruled_by(w, solver, x, None),
        r.clauses matches Some(c) ==> ruled_by(w, solver, x, Some(c@)),
{
}

pub proof fn lemma_handed_none(s: Seq<Cube>)
    ensures
        handed(s, s, Seq::empty()),
{
    reveal(handed);
    assert(s.take(s.len() as int) =~= s);
}

pub proof fn lemma_walked_none(n: Seq<CubeNodeTrace>)
    ensures
        walked(n, n, Seq::empty()),
{
    reveal(walked);
    assert(n.take(n.len() as int) =~= n);
}

pub proof fn lemma_handed_join(s0: Seq<Cube>, s1: Seq<Cube>, s2: Seq<Cube>, x: Seq<Step>, y: Seq<Step>)
    requires
        handed(s0, s1, x),
        handed(s1, s2, y),
    ensures
        handed(s0, s2, x + y),
{
    reveal(handed);
    assert forall|k: int| 0 <= k < s1.len() implies s1[k] == #[trigger] s2[k] by {
        assert(s2[k] == s2.take(s1.len() as int)[k]);
    }
    assert(s2.take(s0.len() as int) =~= s1.take(s0.len() as int));
    let all = x + y;
    assert forall|k: int| 0 <= k < all.len() implies marks(s2[s0.len() + k], #[trigger] all[k]) by {
        if k < x.len() {
            assert(marks(s1[s0.len() + k], x[k]));
            assert(s1[s0.len() + k] == s2[s0.len() + k]);
        } else {
            let j = k - x.len();
            assert(marks(s2[s1.len() + j], y[j]));
        }
    }
}

pub proof fn lemma_walked_join(n0: Seq<CubeNodeTrace>, n1: Seq<CubeNodeTrace>, n2: Seq<CubeNodeTrace>, x: Seq<Step>, y: Seq<Step>)
    requires
        walked(n0, n1, x),
        walked(n1, n2, y),
    ensures
        walked(n0, n2, x + y),
{
    reveal(walked);
    assert forall|k: int| 0 <= k < n1.len() implies n1[k] == #[trigger] n2[k] by {
        assert(n2[k] == n2.take(n1.len() as int)[k]);
    }
    assert(n2.take(n0.len() as int) =~= n1.take(n0.len() as int));
    let all = x + y;
    assert forall|k: int| 0 <= k < all.len() implies shows(n2[n0.len() + k], #[trigger] all[k]) by {
        if k < x.len() {
            assert(shows(n1[n0.len() + k], x[k]));
            assert(n1[n0.len() + k] == n2[n0.len() + k]);
        } else {
            let j = k - x.len();
            assert(shows(n2[n1.len() + j], y[j]));
        }
    }
}

/// One cube more.
pub proof fn lemma_handed_one(s0: Seq<Cube>, s1: Seq<Cube>, x: Step)
    requires
        s1.len() == s0.len() + 1,
        s1.take(s0.len() as int) == s0,
        marks(s1[s0.len() as int], x),
    ensures
        handed(s0, s1, seq![x]),
{
    reveal(handed);
}

/// One node more.
pub proof fn lemma_walked_one(n0: Seq<CubeNodeTrace>, n1: Seq<CubeNodeTrace>, x: Step)
    requires
        n1.len() == n0.len() + 1,
        n1.take(n0.len() as int) == n0,
        shows(n1[n0.len() as int], x),
    ensures
        walked(n0, n1, seq![x]),
{
    reveal(walked);
}

/// The lists of the first trees do not depend on what follows.
pub proof fn lemma_kids_push(kids: Seq<Tree>, t: Tree, upto: int)
    requires
        0 <= upto <= kids.len(),
    ensures
        leaves_of(kids.push(t), upto) == leaves_of(kids, upto),
        walk_of(kids.push(t), upto) == walk_of(kids, upto),
    decreases upto,
{
    if upto > 0 {
        lemma_kids_push(kids, t, upto - 1);
        assert(kids.push(t)[upto - 1] == kids[upto - 1]);
    }
}

/// One more tree below a branch.
pub proof fn lemma_kid_more(kids: Seq<Tree>, t: Tree)
    ensures
        leaves_of(kids.push(t), kids.len() as int + 1) == leaves_of(kids, kids.len() as int) + leaves(t),
        walk_of(kids.push(t), kids.len() as int + 1) == walk_of(kids, kids.len() as int) + walk(t),
{
    lemma_kids_push(kids, t, kids.len() as int);
    assert(kids.push(t)[kids.len() as int] == t);
}

/// What a part of the generation leaves behind: the leaves of its tree as cubes and, where nodes
/// are reported, its nodes.
#[verifier::opaque]
pub open spec fn borne<S: RuleSolver>(w: Setting, solver: S, silent: bool, traced: bool, s0: Seq<Cube>, s1: Seq<Cube>, n0: Seq<CubeNodeTrace>, n1: Seq<CubeNodeTrace>, t: Tree, done: bool) -> bool {
    &&& grown(w, solver, silent, t)
    &&& handed(s0, s1, leaves(t))
    &&& traced ==> walked(n0, n1, walk(t))
    &&& done ==> whole(t)
}

/// Nothing was looked at.
pub proof fn lemma_unseen<S: RuleSolver>(w: Setting, solver: S, silent: bool, traced: bool, s: Seq<Cube>, n: Seq<CubeNodeTrace>)
    ensures
        borne(w, solver, silent, traced, s, s, n, n, Tree::Unseen, false),
{
    reveal(borne);
    lemma_handed_none(s);
    lemma_walked_none(n);
}

/// A leaf, whose cube is missing where its node was refused.
pub proof fn lemma_leaf_tree<S: RuleSolver>(w: Setting, solver: S, silent: bool, traced: bool, s0: Seq<Cube>, s1: Seq<Cube>, n0: Seq<CubeNodeTrace>, n1: Seq<CubeNodeTrace>, x: Step, done: bool) -> (t: Tree)
    requires
        x.kind != CubeNodeKind::Branch,
        decided(w, solver, x),
        traced ==> n1.len() == n0.len() + 1 && n1.take(n0.len() as int) == n0 && shows(n1[n0.len() as int], x),
        (!done && s1 == s0) || (s1.len() == s0.len() + 1 && s1.take(s0.len() as int) == s0 && marks(s1[s0.len() as int], x)),
    ensures
        borne(w, solver, silent, traced, s0, s1, n0, n1, t, done),
        t.root() == Some(x),
{
    reveal(borne);
    if traced {
        lemma_walked_one(n0, n1, x);
    }
    if s1.len() == s0.len() {
        lemma_handed_none(s0);
        Tree::Declined(x)
    } else {
        lemma_handed_one(s0, s1, x);
        Tree::Leaf(x)
    }
}

/// The trees below the first clauses of a branch, and what was left behind.
#[verifier::opaque]
pub open spec fn below_branch<S: RuleSolver>(w: Setting, solver: S, silent: bool, traced: bool, x: Step, kids: Seq<Tree>, s0: Seq<Cube>, s1: Seq<Cube>, n0: Seq<CubeNodeTrace>, n1: Seq<CubeNodeTrace>, done: bool) -> bool {
    &&& kids.len() <= x.parts.len()
    &&& forall|i: int| 0 <= i < kids.len() ==> hangs_below(w, silent, x, i, #[trigger] kids[i]) && grown(w, solver, silent, kids[i]) && (done ==> whole(kids[i]))
    &&& handed(s0, s1, leaves_of(kids, kids.len() as int))
    &&& traced ==> walked(n0, n1, walk_of(kids, kids.len() as int))
}

pub proof fn lemma_below_none<S: RuleSolver>(w: Setting, solver: S, silent: bool, traced: bool, x: Step, s: Seq<Cube>, n: Seq<CubeNodeTrace>)
    ensures
        below_branch(w, solver, silent, traced, x, Seq::empty(), s, s, n, n, true),
{
    reveal(below_branch);
    lemma_handed_none(s);
    lemma_walked_none(n);
}

pub proof fn lemma_below_more<S: RuleSolver>(w: Setting, solver: S, silent: bool, traced: bool, x: Step, kids: Seq<Tree>, t: Tree, s0: Seq<Cube>, s1: Seq<Cube>, s2: Seq<Cube>, n0: Seq<CubeNodeTrace>, n1: Seq<CubeNodeTrace>, n2: Seq<CubeNodeTrace>, done: bool)
    requires
        kids.len() < x.parts.len(),
        below_branch(w, solver, silent, traced, x, kids, s0, s1, n0, n1, true),
        borne(w, solver, silent, traced, s1, s2, n1, n2, t, done),
        hangs_below(w, silent, x, kids.len() as int, t),
    ensures
        below_branch(w, solver, silent, traced, x, kids.push(t), s0, s2, n0, n2, done),
{
    reveal(below_branch);
    reveal(borne);
    lemma_kid_more(kids, t);
    lemma_handed_join(s0, s1, s2, leaves_of(kids, kids.len() as int), leaves(t));
    if traced {
        lemma_walked_join(n0, n1, n2, walk_of(kids, kids.len() as int), walk(t));
    }
    let all = kids.push(t);
    assert forall|i: int| 0 <= i < all.len() implies hangs_below(w, silent, x, i, #[trigger] all[i]) && grown(w, solver, silent, all[i]) && (done ==> whole(all[i])) by {
        if i < kids.len() {
            assert(all[i] == kids[i]);
        }
    }
}

/// A branch with what lies below it.
pub proof fn lemma_branch_tree<S: RuleSolver>(w: Setting, solver: S, silent: bool, traced: bool, x: Step, kids: Seq<Tree>, s0: Seq<Cube>, s1: Seq<Cube>, n0: Seq<CubeNodeTrace>, n1: Seq<CubeNodeTrace>, n2: Seq<CubeNodeTrace>, done: bool)
    requires
        x.kind == CubeNodeKind::Branch,
        x.reason is None,
        decided(w, solver, x),
        traced ==> n1.len() == n0.len() + 1 && n1.take(n0.len() as int) == n0 && shows(n1[n0.len() as int], x),
        below_branch(w, solver, silent, traced, x, kids, s0, s1, n1, n2, done) || below_branch(w, solver, silent, traced, x, kids, s0, s1, n1, n2, true),
        done ==> kids.len() == x.parts.len(),
    ensures
        borne(w, solver, silent, traced, s0, s1, n0, n2, Tree::Branch(x, kids), done),
{
    reveal(borne);
    reveal(below_branch);
    if traced {
        lemma_walked_one(n0, n1, x);
        lemma_walked_join(n0, n1, n2, seq![x], walk_of(kids, kids.len() as int));
    }
    assert(grown(w, solver, silent, Tree::Branch(x, kids)));
}

/// Of the nodes of a whole tree, those that are no branches are its leaves, in order.
pub proof fn lemma_walk_leaves<S: RuleSolver>(w: Setting, solver: S, silent: bool, t: Tree)
    requires
        grown(w, solver, silent, t),
        whole(t),
    ensures
        tips(walk(t)) == leaves(t),
    decreases t, 0int,
{
    let p = |x: Step| x.kind != CubeNodeKind::Branch;
    reveal_with_fuel(Seq::filter, 2);
    match t {
        Tree::Leaf(x) => {
            assert(seq![x].drop_last() =~= Seq::<Step>::empty());
            assert(seq![x].filter(p) =~= seq![x]);
        },
        Tree::Branch(x, kids) => {
            let rest = walk_of(kids, kids.len() as int);
            lemma_walks_leaves(w, solver, silent, kids, kids.len() as int);
            Seq::filter_distributes_over_add(seq![x], rest, p);
            assert(seq![x].drop_last() =~= Seq::<Step>::empty());
            assert(seq![x].filter(p) =~= Seq::<Step>::empty());
            assert(walk(t).filter(p) =~= leaves_of(kids, kids.len() as int));
        },
        _ => {},
    }
}

proof fn lemma_walks_leaves<S: RuleSolver>(w: Setting, solver: S, silent: bool, kids: Seq<Tree>, upto: int)
    requires
        0 <= upto <= kids.len(),
        forall|i: int| 0 <= i < kids.len() ==> whole(#[trigger] kids[i]) && grown(w, solver, silent, kids[i]),
    ensures
        tips(walk_of(kids, upto)) == leaves_of(kids, upto),
    decreases kids, upto,
{
    let p = |x: Step| x.kind != CubeNodeKind::Branch;
    reveal(Seq::filter);
    if upto > 0 {
        lemma_walks_leaves(w, solver, silent, kids, upto - 1);
        lemma_walk_leaves(w, solver, silent, kids[upto - 1]);
        Seq::filter_distributes_over_add(walk_of(kids, upto - 1), walk(kids[upto - 1]), p);
    }
}

/// The nodes that are no branches.
pub open spec fn ends(nodes: Seq<CubeNodeTrace>) -> Seq<CubeNodeTrace> {
    nodes.filter(|n: CubeNodeTrace| n.kind != CubeNodeKind::Branch)
}

/// The steps that are no branches.
pub open spec fn tips(steps: Seq<Step>) -> Seq<Step> {
    steps.filter(|x: Step| x.kind != CubeNodeKind::Branch)
}

/// Nodes that report steps report the same ones where branches are left out of both.
proof fn lemma_shown_filter(nodes: Seq<CubeNodeTrace>, steps: Seq<Step>)
    requires
        nodes.len() == steps.len(),
        forall|k: int| 0 <= k < steps.len() ==> shows(nodes[k], #[trigger] steps[k]),
    ensures
        ends(nodes).len() == tips(steps).len(),
        forall|k: int| 0 <= k < tips(steps).len() ==> shows(ends(nodes)[k], #[trigger] tips(steps)[k]),
    decreases steps.len(),
{
    reveal(Seq::filter);
    if steps.len() > 0 {
        let a = nodes.drop_last();
        let b = steps.drop_last();
        assert forall|k: int| 0 <= k < b.len() implies shows(a[k], #[trigger] b[k]) by {
            assert(b[k] == steps[k]);
        }
        lemma_shown_filter(a, b);
        let last = steps.len() - 1;
        assert(shows(nodes[last], steps[last]));
    }
}

/// Where a complete frontier is reported, there are nodes, and those that are no branches are the
/// cubes: as many, in the same order, with the same decisions, counts and marks.
pub proof fn law_reported_leaves_are_the_cubes<S: RuleSolver>(w: Setting, solver: S, silent: bool, s0: Seq<Cube>, s1: Seq<Cube>, n0: Seq<CubeNodeTrace>, n1: Seq<CubeNodeTrace>)
    requires
        of_tree(w, solver, silent, true, s0, s1, n0, n1, true),
    ensures
        n1.len() > n0.len(),
        ({
            let found = ends(n1.skip(n0.len() as int));
            &&& found.len() == s1.len() - s0.len()
            &&& forall|k: int| 0 <= k < found.len() ==> {
                let c = s1[s0.len() + k];
                &&& (#[trigger] found[k]).decisions@ == c.decisions@
                &&& found[k].sigma_all == c.sigma_all
                &&& (found[k].kind == CubeNodeKind::Refuted) == c.refuted
                &&& (found[k].kind == CubeNodeKind::Sat) == c.sat
            }
        }),
{
    reveal(handed);
    reveal(walked);
    let t = choose|t: Tree| #[trigger]
        grown(w, solver, silent, t) && rooted(w, silent, t) && handed(s0, s1, leaves(t)) && walked(n0, n1, walk(t)) && whole(t);
    let nodes = n1.skip(n0.len() as int);
    lemma_walk_leaves(w, solver, silent, t);
    lemma_shown_filter(nodes, walk(t));
    let found = ends(nodes);
    assert forall|k: int| 0 <= k < found.len() implies {
        let c = s1[s0.len() + k];
        &&& (#[trigger] found[k]).decisions@ == c.decisions@
        &&& found[k].sigma_all == c.sigma_all
        &&& (found[k].kind == CubeNodeKind::Refuted) == c.refuted
        &&& (found[k].kind == CubeNodeKind::Sat) == c.sat
    } by {
        assert(marks(s1[s0.len() + k], leaves(t)[k]));
        assert(shows(found[k], leaves(t)[k]));
    }
}

/// Among the steps, one later than `q` has the decisions of clause `i` there.
pub open spec fn followed(steps: Seq<Step>, q: int, i: int) -> bool {
    exists|k: int| q < k < steps.len() && (#[trigger] steps[k]).decisions == cube::child_dec(steps[q].decisions, steps[q].variables, steps[q].parts[i].0)
}

/// In a whole tree every clause of every branch is followed.
proof fn lemma_all_followed<S: RuleSolver>(w: Setting, solver: S, silent: bool, t: Tree)
    requires
        grown(w, solver, silent, t),
        whole(t),
    ensures
        walk(t).len() > 0,
        t.root() == Some(walk(t)[0]),
        forall|q: int, i: int| 0 <= q < walk(t).len() && 0 <= i < walk(t)[q].parts.len() ==> #[trigger] followed(walk(t), q, i),
    decreases t, 0int,
{
    match t {
        Tree::Leaf(x) => {
            reveal(decided);
        },
        Tree::Branch(x, kids) => {
            let m = kids.len() as int;
            let rest = walk_of(kids, m);
            lemma_all_followed_of(w, solver, silent, x, kids, m);
            let all = walk(t);
            assert forall|q: int, i: int| 0 <= q < all.len() && 0 <= i < all[q].parts.len() implies #[trigger] followed(all, q, i) by {
                if q == 0 {
                    assert(begun(rest, x, i));
                    let k = choose|k: int| 0 <= k < rest.len() && (#[trigger] rest[k]).decisions == cube::child_dec(x.decisions, x.variables, x.parts[i].0);
                    assert(all[k + 1] == rest[k]);
                } else {
                    assert(all[q] == rest[q - 1]);
                    assert(followed(rest, q - 1, i));
                    let k = choose|k: int| q - 1 < k < rest.len() && (#[trigger] rest[k]).decisions == cube::child_dec(rest[q - 1].decisions, rest[q - 1].variables, rest[q - 1].parts[i].0);
                    assert(all[k + 1] == rest[k]);
                }
            }
        },
        _ => {},
    }
}

/// Some step has the decisions of clause `i` of `x`.
spec fn begun(steps: Seq<Step>, x: Step, i: int) -> bool {
    exists|k: int| 0 <= k < steps.len() && (#[trigger] steps[k]).decisions == cube::child_dec(x.decisions, x.variables, x.parts[i].0)
}

proof fn lemma_all_followed_of<S: RuleSolver>(w: Setting, solver: S, silent: bool, x: Step, kids: Seq<Tree>, upto: int)
    requires
        0 <= upto <= kids.len(),
        forall|i: int| 0 <= i < kids.len() ==> whole(#[trigger] kids[i]) && grown(w, solver, silent, kids[i]) && hangs_below(w, silent, x, i, kids[i]),
    ensures
        forall|i: int| 0 <= i < upto ==> #[trigger] begun(walk_of(kids, upto), x, i),
        forall|q: int, i: int| 0 <= q < walk_of(kids, upto).len() && 0 <= i < walk_of(kids, upto)[q].parts.len() ==> #[trigger] followed(walk_of(kids, upto), q, i),
    decreases kids, upto,
{
    if upto > 0 {
        let a = walk_of(kids, upto - 1);
        let b = walk(kids[upto - 1]);
        let all = walk_of(kids, upto);
        lemma_all_followed_of(w, solver, silent, x, kids, upto - 1);
        lemma_all_followed(w, solver, silent, kids[upto - 1]);
        assert(all =~= a + b);
        assert forall|i: int| 0 <= i < upto implies #[trigger] begun(all, x, i) by {
            if i < upto - 1 {
                assert(begun(a, x, i));
                let k = choose|k: int| 0 <= k < a.len() && (#[trigger] a[k]).decisions == cube::child_dec(x.decisions, x.variables, x.parts[i].0);
                assert(all[k] == a[k]);
            } else {
                assert(hangs_below(w, silent, x, i, kids[i]));
                assert(all[a.len() as int] == b[0]);
            }
        }
        assert forall|q: int, i: int| 0 <= q < all.len() && 0 <= i < all[q].parts.len() implies #[trigger] followed(all, q, i) by {
            if q < a.len() {
                assert(all[q] == a[q]);
                assert(followed(a, q, i));
                let k = choose|k: int| q < k < a.len() && (#[trigger] a[k]).decisions == cube::child_dec(a[q].decisions, a[q].variables, a[q].parts[i].0);
                assert(all[k] == a[k]);
            } else {
                let p = q - a.len();
                assert(all[q] == b[p]);
                assert(followed(b, p, i));
                let k = choose|k: int| p < k < b.len() && (#[trigger] b[k]).decisions == cube::child_dec(b[p].decisions, b[p].variables, b[p].parts[i].0);
                assert(all[a.len() + k] == b[k]);
            }
        }
    }
}

/// Where a complete frontier is reported, every clause of a branch node is followed by a node with
/// its decisions.
pub proof fn law_every_clause_is_followed<S: RuleSolver>(w: Setting, solver: S, silent: bool, s0: Seq<Cube>, s1: Seq<Cube>, n0: Seq<CubeNodeTrace>, n1: Seq<CubeNodeTrace>, q: int, i: int)
    requires
        of_tree(w, solver, silent, true, s0, s1, n0, n1, true),
        n0.len() <= q < n1.len(),
        0 <= i < n1[q].clauses@.len(),
    ensures
        exists|k: int| q < k < n1.len() && (#[trigger] n1[k]).decisions@ == cube::child_dec(n1[q].decisions@, n1[q].variables@, cube::bare(n1[q].clauses@)[i]),
{
    reveal(walked);
    let t = choose|t: Tree| #[trigger]
        grown(w, solver, silent, t) && rooted(w, silent, t) && handed(s0, s1, leaves(t)) && walked(n0, n1, walk(t)) && whole(t);
    let steps = walk(t);
    let m = n0.len() as int;
    lemma_all_followed(w, solver, silent, t);
    let x = steps[q - m];
    assert(shows(n1[m + (q - m)], x));
    assert(x.parts.len() == n1[q].clauses@.len());
    assert(followed(steps, q - m, i));
    let k = choose|k: int| q - m < k < steps.len() && (#[trigger] steps[k]).decisions == cube::child_dec(x.decisions, x.variables, x.parts[i].0);
    assert(shows(n1[m + k], steps[k]));
    assert(n1[m + k].decisions@ == cube::child_dec(n1[q].decisions@, n1[q].variables@, cube::bare(n1[q].clauses@)[i]));
}

/// Tracing only adds reports: the cubes of a traced frontier are cubes that the same generation
/// may hand out without a trace.
pub proof fn law_tracing_only_adds_reports<S: RuleSolver>(w: Setting, solver: S, silent: bool, s0: Seq<Cube>, s1: Seq<Cube>, n0: Seq<CubeNodeTrace>, n1: Seq<CubeNodeTrace>, complete: bool)
    requires
        of_tree(w, solver, silent, true, s0, s1, n0, n1, complete),
    ensures
        of_tree(w, solver, silent, false, s0, s1, n0, n0, complete),
{
}

/// The binary rule takes the variable with the highest score, of several the lowest, and branches on
/// false and on true, in this order.
pub proof fn law_binary_rule_tries_false_first<S: RuleSolver>(w: Setting, solver: S, x: Step)
    requires
        decided(w, solver, x),
        x.kind == CubeNodeKind::Branch,
        x.reason is None,
        w.selector == Selector::BinaryOccurrence,
        exists|u: int| 0 <= u < x.doms.len() && #[trigger] selector::score(w.cn, x.doms, u) > 0,
    ensures
        x.variables.len() == 1,
        forall|u: int| 0 <= u < x.doms.len() ==> #[trigger] selector::score(w.cn, x.doms, u) <= selector::score(w.cn, x.doms, x.variables[0] as int),
        forall|u: int| 0 <= u < x.variables[0] ==> #[trigger] selector::score(w.cn, x.doms, u) < selector::score(w.cn, x.doms, x.variables[0] as int),
        x.parts.len() == 2,
        cube::child_dec(x.decisions, x.variables, x.parts[0].0) == x.decisions.push((x.variables[0], false)),
        cube::child_dec(x.decisions, x.variables, x.parts[1].0) == x.decisions.push((x.variables[0], true)),
{
    reveal(decided);
    reveal(selector::selects);
    let (scope, r) = choose|scope: Seq<usize>, r: table::BranchingResult| #[trigger]
        selector::selects(w.selector, w.cn, x.doms, scope, r) && cube::lists_open(x.doms, scope) && selector::consults(w.selector, solver, w.net, w.masks, x.doms, scope, w.measure, r) && x.variables == r.variables@ && match r.clauses {
            None => false,
            Some(c) => Some(x.rule) == Some(c@),
        };
    let u = choose|u: int| 0 <= u < x.doms.len() && #[trigger] selector::score(w.cn, x.doms, u) > 0;
    assert(w.cn.vars.len() == w.cn.n());
    assert(scope.contains(u as usize));
    let i = choose|i: int| 0 <= i < scope.len() && scope[i] == u as usize;
    assert(selector::score(w.cn, x.doms, scope[i] as int) > 0);
    let v = choose|v: usize| #[trigger] selector::first_best(w.cn, x.doms, scope, v) && v < w.cn.n() && r.variables@ == seq![v];
    let at = choose|k: int| 0 <= k < scope.len() && #[trigger] scope[k] == v && forall|q: int| 0 <= q < k ==> selector::score(w.cn, x.doms, (#[trigger] scope[q]) as int) < selector::score(w.cn, x.doms, v as int);
    assert forall|z: int| 0 <= z < x.doms.len() implies #[trigger] selector::score(w.cn, x.doms, z) <= selector::score(w.cn, x.doms, v as int) && (z < v ==> selector::score(w.cn, x.doms, z) < selector::score(w.cn, x.doms, v as int)) by {
        if !x.doms[z].fixed() {
            assert(scope.contains(z as usize));
            let q = choose|q: int| 0 <= q < scope.len() && scope[q] == z as usize;
            assert(selector::score(w.cn, x.doms, scope[q] as int) <= selector::score(w.cn, x.doms, v as int));
            if z < v && q > at {
                assert(scope[at] < scope[q]);
            }
        }
    }
    let c0 = Clause { mask: 1, val: 0 };
    let c1 = Clause { mask: 1, val: 1 };
    bits::lemma_bit_one_shl(0, 0);
    bits::lemma_bit_zero(0);
    assert(1u64 << 0u64 == 1u64) by (bit_vector);
    assert(dnf::clash(c0, c1)) by {
        assert(bits::bit(c0.mask, 0));
    }
    assert(x.rule =~= seq![c0, c1]);
    assert(dnf::pairwise_clash(x.rule));
    assert(x.parts[0].0 == c0 && x.parts[1].0 == c1);
    reveal_with_fuel(cube::clause_decisions, 2);
    assert(cube::child_dec(x.decisions, x.variables, c0) =~= x.decisions.push((v, false)));
    assert(cube::child_dec(x.decisions, x.variables, c1) =~= x.decisions.push((v, true)));
}

} // verus!
