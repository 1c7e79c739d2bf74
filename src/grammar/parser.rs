//! The Earley chart. The set of each input position is worked through
//! entry by entry: each entry is predicted, scanned and completed in this
//! order, and a waiting entry is combined with each finished entry it can
//! move over exactly once, whichever of the two came first. States are told
//! apart by rule, dot, origin and children, so two derivations that reach
//! the same dotted rule stay two states, and each accepting state gives one
//! parse tree. Of several equal rules, only the first starts states, so a
//! repeated rule line adds no repeated trees.

use vstd::prelude::*;

use std::rc::Rc;

use super::{Grammar, GrammarModel, RuleModel, Symbol, Token};
use crate::text::chars_of;

mod parse_tree;

pub use parse_tree::{
    decimal, derives, digit, edge_line, edge_lines, empty_label, kids_dot, kids_yield, leaf, roots,
    stands_for, subtree_dot, tree_dot, tree_yield, vertex_line, write_tree_to_dot, ParseNode, Tree,
};
use parse_tree::build_parse_tree;

verus! {

/// A dotted rule at a chart position: the rule being matched (an index into
/// the grammar's rules), how much of its right-hand side has been matched,
/// the input position where the match began, and the chart entries of the
/// nonterminals matched so far, one per nonterminal before the dot.
pub struct EarleyState {
    rule: usize,
    dot: usize,
    origin: usize,
    children: Vec<usize>,
}

type Content = (usize, usize, usize, Seq<usize>);

impl EarleyState {
    spec fn content(&self) -> Content {
        (self.rule, self.dot, self.origin, self.children@)
    }

    fn new(rule: usize, dot: usize, origin: usize) -> (r: EarleyState)
        ensures
            r.content() == (rule, dot, origin, Seq::<usize>::empty()),
    {
        EarleyState { rule, dot, origin, children: Vec::new() }
    }

    /// A state is finished when the dot is at the end of its rule.
    fn is_finished(&self, g: &Grammar) -> (r: bool)
        requires
            self.rule < g@.rules.len(),
        ensures
            r == (self.dot == g@.rules[self.rule as int].to.len()),
    {
        self.dot == g.rules[self.rule].to.len()
    }

    /// The symbol after the dot.
    fn current_token<'g>(&self, g: &'g Grammar) -> (r: &'g Token)
        requires
            self.rule < g@.rules.len(),
            self.dot < g@.rules[self.rule as int].to.len(),
        ensures
            r@ == g@.rules[self.rule as int].to[self.dot as int],
    {
        &g.rules[self.rule].to[self.dot]
    }

    /// The state moved over one symbol, with `child` appended to its
    /// children when the symbol is a nonterminal.
    fn step(&self, child: Option<usize>) -> (r: EarleyState)
        requires
            self.dot < usize::MAX,
        ensures
            r.dot == self.dot + 1,
            child matches Some(f) ==> r.content() == combined(*self, f as int),
            child is None ==> r.content() == advanced(*self),
    {
        let mut children: Vec<usize> = Vec::new();
        let mut i: usize = 0;
        while i < self.children.len()
            invariant
                i <= self.children@.len(),
                children@ == self.children@.take(i as int),
            decreases self.children@.len() - i,
        {
            children.push(self.children[i]);
            i = i + 1;
            assert(children@ =~= self.children@.take(i as int));
        }
        assert(children@ =~= self.children@);
        if let Some(f) = child {
            children.push(f);
        }
        EarleyState { rule: self.rule, dot: self.dot + 1, origin: self.origin, children }
    }
}

/// The number of nonterminals among the first `p` symbols.
spec fn nt_count(to: Seq<Symbol>, p: int) -> nat
    decreases p,
{
    if p <= 0 {
        0
    } else {
        nt_count(to, p - 1) + if to[p - 1] is N {
            1nat
        } else {
            0nat
        }
    }
}

/// The subtrees that a state has matched: a leaf for each terminal before
/// the dot, and the tree of the matching child entry for each nonterminal.
spec fn prefix_kids(trees: Seq<Tree>, to: Seq<Symbol>, dot: nat, cs: Seq<usize>) -> Seq<Tree> {
    Seq::new(
        dot,
        |p: int|
            match to[p] {
                Symbol::T(c) => leaf(c),
                Symbol::N(_) => trees[cs[nt_count(to, p) as int] as int],
            },
    )
}

/// The tree that a state stands for: its rule's left-hand side over the
/// subtrees matched so far.
spec fn tree_for(rules: Seq<RuleModel>, trees: Seq<Tree>, st: EarleyState) -> Tree {
    Tree::Node(
        Symbol::N(rules[st.rule as int].from),
        prefix_kids(trees, rules[st.rule as int].to, st.dot as nat, st.children@),
    )
}

/// Rule `r` is the first of the rules equal to it. The chart only starts
/// states of such rules, so that repeated rules give no repeated states.
spec fn is_first(rules: Seq<RuleModel>, r: int) -> bool {
    forall|r2: int| 0 <= r2 < r ==> rules[r2] != rules[r]
}

proof fn lemma_first_index(rules: Seq<RuleModel>, r0: int)
    requires
        0 <= r0 < rules.len(),
    ensures
        exists|r: int| 0 <= r <= r0 && rules[r] == rules[r0] && #[trigger] is_first(rules, r),
    decreases r0,
{
    if !is_first(rules, r0) {
        let r2 = choose|r2: int| 0 <= r2 < r0 && rules[r2] == rules[r0];
        lemma_first_index(rules, r2);
    } else {
        assert(is_first(rules, r0));
    }
}

/// The shape of a state stored at chart entry `idx`: its rule exists, its
/// dot lies within the rule, and it has one child, an earlier entry, for
/// each nonterminal before the dot.
spec fn shaped(rules: Seq<RuleModel>, st: EarleyState, idx: int) -> bool {
    &&& st.rule < rules.len()
    &&& is_first(rules, st.rule as int)
    &&& st.dot <= rules[st.rule as int].to.len()
    &&& st.children@.len() == nt_count(rules[st.rule as int].to, st.dot as int)
    &&& forall|m: int| 0 <= m < st.children@.len() ==> #[trigger] st.children@[m] < idx
}

/// Each subtree a state has matched stands for the symbol of its rule at
/// that place.
spec fn kids_sound(rules: Seq<RuleModel>, trees: Seq<Tree>, st: EarleyState) -> bool {
    forall|p: int|
        0 <= p < st.dot ==> stands_for(
            rules,
            #[trigger] tree_for(rules, trees, st).kids()[p],
            rules[st.rule as int].to[p],
        )
}

spec fn state_ok(rules: Seq<RuleModel>, trees: Seq<Tree>, st: EarleyState, idx: int) -> bool {
    &&& shaped(rules, st, idx)
    &&& trees[idx] == tree_for(rules, trees, st)
    &&& kids_sound(rules, trees, st)
}

/// A state in the set of input position `k` has matched the input from its
/// origin up to `k`.
spec fn spans(rules: Seq<RuleModel>, trees: Seq<Tree>, s: Seq<char>, st: EarleyState, k: int) -> bool {
    &&& st.origin <= k
    &&& kids_yield(tree_for(rules, trees, st).kids()) == s.subrange(st.origin as int, k)
}

/// The chart: one set of states per input position, held as lists of
/// entries into one arena of states. Each state's derivation tree is kept
/// alongside as ghost data.
pub struct EarleyTable {
    sets: Vec<Vec<usize>>,
    states: Vec<EarleyState>,
    trees: Ghost<Seq<Tree>>,
    firsts: Vec<bool>,
    rules: Ghost<Seq<RuleModel>>,
    input: Ghost<Seq<char>>,
}

proof fn lemma_nt_count_lt(to: Seq<Symbol>, p: int, d: int)
    requires
        0 <= p < d,
        to[p] is N,
    ensures
        nt_count(to, p) < nt_count(to, d),
    decreases d,
{
    if d > p + 1 {
        lemma_nt_count_lt(to, p, d - 1);
    }
}

/// A state's tree reads only the trees of earlier entries, so it stays the
/// same as the arena grows.
proof fn lemma_tree_for_stable(
    rules: Seq<RuleModel>,
    trees: Seq<Tree>,
    trees2: Seq<Tree>,
    st: EarleyState,
    idx: int,
)
    requires
        shaped(rules, st, idx),
        idx <= trees.len() <= trees2.len(),
        forall|i: int| 0 <= i < trees.len() ==> trees2[i] == trees[i],
    ensures
        tree_for(rules, trees2, st) == tree_for(rules, trees, st),
{
    let to = rules[st.rule as int].to;
    assert forall|p: int| 0 <= p < st.dot && to[p] is N implies nt_count(to, p) < st.children@.len()
        by {
        lemma_nt_count_lt(to, p, st.dot as int);
    }
    assert(prefix_kids(trees2, to, st.dot as nat, st.children@) =~= prefix_kids(
        trees,
        to,
        st.dot as nat,
        st.children@,
    ));
}

fn same_state(a: &EarleyState, b: &EarleyState) -> (r: bool)
    ensures
        r == (a.content() == b.content()),
{
    if a.rule != b.rule || a.dot != b.dot || a.origin != b.origin || a.children.len()
        != b.children.len() {
        return false;
    }
    let mut i: usize = 0;
    while i < a.children.len()
        invariant
            i <= a.children@.len(),
            a.children@.len() == b.children@.len(),
            forall|m: int| 0 <= m < i ==> a.children@[m] == b.children@[m],
        decreases a.children@.len() - i,
    {
        if a.children[i] != b.children[i] {
            return false;
        }
        i = i + 1;
    }
    assert(a.children@ =~= b.children@);
    true
}

spec fn finished(rules: Seq<RuleModel>, st: EarleyState) -> bool {
    st.dot == rules[st.rule as int].to.len()
}

/// The state has not reached the end of its rule, and `sym` comes next.
spec fn expects(rules: Seq<RuleModel>, st: EarleyState, sym: Symbol) -> bool {
    st.dot < rules[st.rule as int].to.len() && rules[st.rule as int].to[st.dot as int] == sym
}

spec fn lhs(rules: Seq<RuleModel>, st: EarleyState) -> Seq<char> {
    rules[st.rule as int].from
}

/// A fresh state for rule `r` at position `k`.
spec fn fresh(r: int, k: int) -> Content {
    (r as usize, 0usize, k as usize, Seq::empty())
}

/// The state moved over one terminal.
spec fn advanced(st: EarleyState) -> Content {
    (st.rule, (st.dot + 1) as usize, st.origin, st.children@)
}

/// The state moved over one nonterminal, matched by the finished entry `f`.
spec fn combined(st: EarleyState, f: int) -> Content {
    (st.rule, (st.dot + 1) as usize, st.origin, st.children@.push(f as usize))
}

proof fn lemma_prefix_kids_step(trees: Seq<Tree>, to: Seq<Symbol>, d: nat, cs: Seq<usize>)
    requires
        d < to.len(),
    ensures
        prefix_kids(trees, to, d + 1, cs) == prefix_kids(trees, to, d, cs).push(
            match to[d as int] {
                Symbol::T(c) => leaf(c),
                Symbol::N(_) => trees[cs[nt_count(to, d as int) as int] as int],
            },
        ),
{
    assert(prefix_kids(trees, to, d + 1, cs) =~= prefix_kids(trees, to, d, cs).push(
        match to[d as int] {
            Symbol::T(c) => leaf(c),
            Symbol::N(_) => trees[cs[nt_count(to, d as int) as int] as int],
        },
    ));
}

/// Appending a child past the ones in use leaves the matched subtrees as
/// they were.
proof fn lemma_prefix_kids_more_children(
    trees: Seq<Tree>,
    to: Seq<Symbol>,
    d: nat,
    cs: Seq<usize>,
    f: usize,
)
    requires
        d <= to.len(),
        cs.len() == nt_count(to, d as int),
    ensures
        prefix_kids(trees, to, d, cs.push(f)) == prefix_kids(trees, to, d, cs),
{
    assert forall|p: int| 0 <= p < d && to[p] is N implies nt_count(to, p) < cs.len() by {
        lemma_nt_count_lt(to, p, d as int);
    }
    assert(prefix_kids(trees, to, d, cs.push(f)) =~= prefix_kids(trees, to, d, cs));
}

proof fn lemma_kids_yield_push(ts: Seq<Tree>, t: Tree)
    ensures
        kids_yield(ts.push(t)) == kids_yield(ts) + tree_yield(t),
{
    assert(ts.push(t).drop_last() =~= ts);
}

/// The tree of a finished state is a derivation tree of its left-hand side.
proof fn lemma_finished_derives(rules: Seq<RuleModel>, trees: Seq<Tree>, st: EarleyState, idx: int)
    requires
        state_ok(rules, trees, st, idx),
        finished(rules, st),
    ensures
        derives(rules, trees[idx]),
        trees[idx].root() == Symbol::N(lhs(rules, st)),
        stands_for(rules, trees[idx], Symbol::N(lhs(rules, st))),
{
    let r = rules[st.rule as int];
    let kids = trees[idx].kids();
    assert(roots(kids) =~= r.to);
    assert(RuleModel { from: r.from, to: roots(kids) } == r);
    assert(rules[st.rule as int] == r);
    assert forall|j: int| 0 <= j < kids.len() implies stands_for(rules, #[trigger] kids[j], kids[j].root()) by {
        assert(stands_for(rules, tree_for(rules, trees, st).kids()[j], r.to[j]));
    }
}

/// A fresh state for rule `r` at position `k` may join the set of `k`.
proof fn lemma_fresh_ok(t: &EarleyTable, r: int, k: int, st: EarleyState)
    requires
        t.wf(),
        0 <= r < t.rules@.len(),
        is_first(t.rules@, r),
        0 <= k <= t.input@.len(),
        k <= usize::MAX,
        r <= usize::MAX,
        st.content() == fresh(r, k),
    ensures
        shaped(t.rules@, st, t.states@.len() as int),
        kids_sound(t.rules@, t.trees@, st),
        spans(t.rules@, t.trees@, t.input@, st, k),
{
    assert(st.children@.len() == 0);
    assert(tree_for(t.rules@, t.trees@, st).kids() =~= Seq::<Tree>::empty());
    assert(t.input@.subrange(k, k) =~= Seq::<char>::empty());
    assert(kids_yield(Seq::<Tree>::empty()) == Seq::<char>::empty());
}

proof fn lemma_has_grows(old: &EarleyTable, new: &EarleyTable, kk: int, k: int, c: Content)
    requires
        old.wf(),
        new.grown(old, kk),
        0 <= k < old.sets@.len(),
        old.has(k, c),
    ensures
        new.has(k, c),
{
    let j = choose|j: int| 0 <= j < old.sets@[k]@.len() && #[trigger] old.st(k, j).content() == c;
    assert(0 <= old.entry(k, j) < old.states@.len());
    assert(new.sets@[k]@[j] == old.sets@[k]@[j]);
    assert(new.st(k, j) == old.st(k, j));
}

proof fn lemma_placed_grows(old: &EarleyTable, new: &EarleyTable, kk: int, st: EarleyState, idx: int)
    requires
        new.grown(old, kk),
        shaped(old.rules@, st, idx),
        idx <= old.trees@.len(),
        idx <= old.states@.len(),
        old.placed(st),
    ensures
        new.placed(st),
{
    let rules = old.rules@;
    let to = rules[st.rule as int].to;
    lemma_tree_for_stable(rules, old.trees@, new.trees@, st, idx);
    let kids = tree_for(rules, old.trees@, st).kids();
    assert forall|p: int| 0 <= p < st.dot && to[p] is N implies {
        let c = st.children@[#[trigger] nt_count(to, p) as int] as int;
        &&& new.in_set(st.origin + kids_yield(kids.take(p + 1)).len(), c)
        &&& new.states@[c].origin == st.origin + kids_yield(kids.take(p)).len()
        &&& finished(rules, new.states@[c])
    } by {
        lemma_nt_count_lt(to, p, st.dot as int);
        let c = st.children@[nt_count(to, p) as int] as int;
        let e = st.origin + kids_yield(kids.take(p + 1)).len();
        assert(old.in_set(e, c));
        let jc = choose|jc: int| 0 <= jc < old.sets@[e]@.len() && #[trigger] old.sets@[e]@[jc] == c;
        assert(new.sets@[e]@[jc] == old.sets@[e]@[jc]);
        assert(new.states@[c] == old.states@[c]);
    }
}

proof fn lemma_no_predictions(t: &EarleyTable, k: int, p: int, n: int)
    requires
        forall|a: Seq<char>| !expects(t.rules@, t.st(k, p), Symbol::N(a)),
    ensures
        t.predictions(k, p, n) == Set::<Content>::empty(),
    decreases n,
{
    if n > 0 {
        lemma_no_predictions(t, k, p, n - 1);
    }
}

proof fn lemma_no_waiting_moves(t: &EarleyTable, k: int, p: int, n: int)
    requires
        forall|a: Seq<char>| !expects(t.rules@, t.st(k, p), Symbol::N(a)),
    ensures
        t.waiting_moves(k, p, n) == Set::<Content>::empty(),
    decreases n,
{
    if n > 0 {
        lemma_no_waiting_moves(t, k, p, n - 1);
    }
}

proof fn lemma_grown_trans(a: &EarleyTable, b: &EarleyTable, c: &EarleyTable, k: int)
    requires
        b.grown(a, k),
        c.grown(b, k),
    ensures
        c.grown(a, k),
{
    assert forall|x: int, j: int|
        0 <= x < c.sets@.len() && 0 <= j < a.sets@[x]@.len() implies #[trigger] c.sets@[x]@[j]
        == a.sets@[x]@[j] by {
        assert(b.sets@[x]@[j] == a.sets@[x]@[j]);
    }
    assert forall|i: int| 0 <= i < a.states@.len() implies #[trigger] c.states@[i] == a.states@[i] by {
        assert(b.states@[i] == a.states@[i]);
    }
    assert forall|i: int| 0 <= i < a.trees@.len() implies #[trigger] c.trees@[i] == a.trees@[i] by {
        assert(b.trees@[i] == a.trees@[i]);
    }
    assert forall|x: int| 0 <= x < c.sets@.len() implies a.sets@[x]@.len() <= #[trigger] c.sets@[x]@.len() by {
        assert(a.sets@[x]@.len() <= b.sets@[x]@.len());
    }
    assert forall|x: int| 0 <= x < c.sets@.len() && x != k && x != k + 1 implies #[trigger] c.sets@[x]@ == a.sets@[x]@ by {
        assert(b.sets@[x]@ == a.sets@[x]@);
    }
}

/// A state moved over a nonterminal of the set of position `o`, matched by
/// the finished state at entry `j` of the set of position `k`, may join the
/// set of `k`.
proof fn lemma_combined_ok(t: &EarleyTable, k: int, j: int, o: int, jw: int, st: EarleyState)
    requires
        t.wf(),
        0 <= k < t.sets@.len(),
        0 <= j < t.sets@[k]@.len(),
        finished(t.rules@, t.st(k, j)),
        o == t.st(k, j).origin,
        0 <= jw < t.sets@[o]@.len(),
        expects(t.rules@, t.st(o, jw), Symbol::N(lhs(t.rules@, t.st(k, j)))),
        st.content() == combined(t.st(o, jw), t.entry(k, j)),
        st.dot == t.st(o, jw).dot + 1,
    ensures
        shaped(t.rules@, st, t.states@.len() as int),
        kids_sound(t.rules@, t.trees@, st),
        spans(t.rules@, t.trees@, t.input@, st, k),
        t.placed(st),
{
    let rules = t.rules@;
    let f = t.entry(k, j);
    let fs = t.st(k, j);
    assert(0 <= f < t.states@.len());
    assert(state_ok(rules, t.trees@, t.states@[f], f));
    assert(spans(rules, t.trees@, t.input@, fs, k));
    assert(0 <= t.entry(o, jw) < t.states@.len());
    let w = t.entry(o, jw);
    let ws = t.st(o, jw);
    assert(state_ok(rules, t.trees@, t.states@[w], w));
    assert(spans(rules, t.trees@, t.input@, ws, o));
    lemma_finished_derives(rules, t.trees@, fs, f);
    let to = rules[ws.rule as int].to;
    let d = ws.dot as nat;
    assert(nt_count(to, (d + 1) as int) == nt_count(to, d as int) + 1);
    assert(st.children@.len() == nt_count(to, (d + 1) as int));
    assert forall|m: int| 0 <= m < st.children@.len() implies #[trigger] st.children@[m]
        < t.states@.len() by {
        if m < ws.children@.len() {
            assert(st.children@[m] == ws.children@[m]);
        }
    }
    lemma_prefix_kids_step(t.trees@, to, d, st.children@);
    lemma_prefix_kids_more_children(t.trees@, to, d, ws.children@, f as usize);
    assert(st.children@ == ws.children@.push(f as usize));
    assert(st.children@[nt_count(to, d as int) as int] == f);
    let kids = tree_for(rules, t.trees@, st).kids();
    let wkids = tree_for(rules, t.trees@, ws).kids();
    assert(kids == wkids.push(t.trees@[f]));
    assert forall|p: int| 0 <= p < st.dot implies stands_for(
        rules,
        #[trigger] tree_for(rules, t.trees@, st).kids()[p],
        rules[st.rule as int].to[p],
    ) by {
        if p < d {
            assert(kids[p] == wkids[p]);
        }
    }
    lemma_kids_yield_push(wkids, t.trees@[f]);
    assert(t.input@.subrange(ws.origin as int, k) =~= t.input@.subrange(ws.origin as int, o)
        + t.input@.subrange(o, k));
    assert(t.placed(ws));
    assert forall|p: int| 0 <= p < st.dot && to[p] is N implies {
        let c = st.children@[#[trigger] nt_count(to, p) as int] as int;
        &&& t.in_set(st.origin + kids_yield(kids.take(p + 1)).len(), c)
        &&& t.states@[c].origin == st.origin + kids_yield(kids.take(p)).len()
        &&& finished(rules, t.states@[c])
    } by {
        if p < d {
            lemma_nt_count_lt(to, p, d as int);
            assert(st.children@[nt_count(to, p) as int] == ws.children@[nt_count(to, p) as int]);
            assert(kids.take(p + 1) =~= wkids.take(p + 1));
            assert(kids.take(p) =~= wkids.take(p));
        } else {
            assert(kids.take(p + 1) =~= kids);
            assert(kids.take(p) =~= wkids);
            assert(t.sets@[k]@[j] == f);
        }
    }
}

/// A state moved over the terminal at position `k` may join the set of
/// `k + 1`.
proof fn lemma_advanced_ok(t: &EarleyTable, k: int, j: int, st: EarleyState)
    requires
        t.wf(),
        0 <= k < t.input@.len(),
        0 <= j < t.sets@[k]@.len(),
        expects(t.rules@, t.st(k, j), Symbol::T(t.input@[k])),
        st.content() == advanced(t.st(k, j)),
        st.dot == t.st(k, j).dot + 1,
    ensures
        shaped(t.rules@, st, t.states@.len() as int),
        kids_sound(t.rules@, t.trees@, st),
        spans(t.rules@, t.trees@, t.input@, st, k + 1),
        t.placed(st),
{
    let rules = t.rules@;
    assert(0 <= t.entry(k, j) < t.states@.len());
    let w = t.entry(k, j);
    let ws = t.st(k, j);
    assert(state_ok(rules, t.trees@, t.states@[w], w));
    assert(spans(rules, t.trees@, t.input@, ws, k));
    let to = rules[ws.rule as int].to;
    let d = ws.dot as nat;
    let c = t.input@[k];
    assert(nt_count(to, (d + 1) as int) == nt_count(to, d as int));
    assert(st.children@ == ws.children@);
    assert forall|m: int| 0 <= m < st.children@.len() implies #[trigger] st.children@[m]
        < t.states@.len() by {
        assert(st.children@[m] == ws.children@[m]);
    }
    lemma_prefix_kids_step(t.trees@, to, d, st.children@);
    let kids = tree_for(rules, t.trees@, st).kids();
    let wkids = tree_for(rules, t.trees@, ws).kids();
    assert(kids == wkids.push(leaf(c)));
    assert forall|p: int| 0 <= p < st.dot implies stands_for(
        rules,
        #[trigger] tree_for(rules, t.trees@, st).kids()[p],
        rules[st.rule as int].to[p],
    ) by {
        if p < d {
            assert(kids[p] == wkids[p]);
        }
    }
    lemma_kids_yield_push(wkids, leaf(c));
    assert(t.input@.subrange(ws.origin as int, k + 1) =~= t.input@.subrange(ws.origin as int, k)
        + seq![c]);
    assert(t.placed(ws));
    assert forall|p: int| 0 <= p < st.dot && to[p] is N implies {
        let c = st.children@[#[trigger] nt_count(to, p) as int] as int;
        &&& t.in_set(st.origin + kids_yield(kids.take(p + 1)).len(), c)
        &&& t.states@[c].origin == st.origin + kids_yield(kids.take(p)).len()
        &&& finished(rules, t.states@[c])
    } by {
        assert(p < d);
        assert(kids.take(p + 1) =~= wkids.take(p + 1));
        assert(kids.take(p) =~= wkids.take(p));
    }
}

/// What has been established of the entries of the set of `k` stays true
/// while the chart grows at position `kk >= k`.
proof fn lemma_facts_grow(old: &EarleyTable, new: &EarleyTable, kk: int, k: int, q1: int, q2: int)
    requires
        old.wf(),
        new.grown(old, kk),
        0 <= k <= kk,
        k < old.sets@.len(),
        0 <= q1 < old.sets@[k]@.len(),
        0 <= q2 < old.sets@[k]@.len(),
    ensures
        old.predicted(k, q1) ==> new.predicted(k, q1),
        old.scanned(k, q1) ==> new.scanned(k, q1),
        old.completed_below(k, q1) ==> new.completed_below(k, q1),
        old.paired(k, q1, q2) ==> new.paired(k, q1, q2),
{
    assert(0 <= old.entry(k, q1) < old.states@.len());
    assert(0 <= old.entry(k, q2) < old.states@.len());
    assert(new.sets@[k]@[q1] == old.sets@[k]@[q1]);
    assert(new.sets@[k]@[q2] == old.sets@[k]@[q2]);
    assert(new.st(k, q1) == old.st(k, q1));
    assert(new.st(k, q2) == old.st(k, q2));
    let rules = old.rules@;
    if old.predicted(k, q1) {
        assert forall|r: int|
            0 <= r < new.rules@.len() && is_first(new.rules@, r) && expects(
                new.rules@,
                new.st(k, q1),
                Symbol::N(new.rules@[r].from),
            ) implies #[trigger] new.has(k, fresh(r, k)) by {
            assert(old.has(k, fresh(r, k)));
            lemma_has_grows(old, new, kk, k, fresh(r, k));
        }
    }
    if old.scanned(k, q1) && k < old.input@.len() && expects(
        rules,
        old.st(k, q1),
        Symbol::T(old.input@[k]),
    ) {
        lemma_has_grows(old, new, kk, k + 1, advanced(old.st(k, q1)));
    }
    if old.completed_below(k, q1) {
        let f = old.st(k, q1);
        let o = f.origin as int;
        if finished(rules, f) && o < k {
            assert(spans(rules, old.trees@, old.input@, f, k));
            assert(new.sets@[o]@ == old.sets@[o]@);
            assert forall|jw: int|
                0 <= jw < new.sets@[o]@.len() && expects(
                    rules,
                    new.st(o, jw),
                    Symbol::N(lhs(rules, f)),
                ) implies #[trigger] new.has(k, combined(new.st(o, jw), new.entry(k, q1))) by {
                assert(0 <= old.entry(o, jw) < old.states@.len());
                assert(new.st(o, jw) == old.st(o, jw));
                assert(old.has(k, combined(old.st(o, jw), old.entry(k, q1))));
                lemma_has_grows(old, new, kk, k, combined(old.st(o, jw), old.entry(k, q1)));
            }
        }
    }
    if old.paired(k, q1, q2) {
        let w = old.st(k, q1);
        let f = old.st(k, q2);
        if finished(rules, f) && f.origin == k && expects(rules, w, Symbol::N(lhs(rules, f))) {
            lemma_has_grows(old, new, kk, k, combined(w, old.entry(k, q2)));
        }
    }
}

proof fn lemma_closed_grows(old: &EarleyTable, new: &EarleyTable, kk: int, k: int, p: int)
    requires
        old.wf(),
        new.grown(old, kk),
        0 <= k <= kk,
        k < old.sets@.len(),
        0 <= p <= old.sets@[k]@.len(),
        old.closed_upto(k, p),
    ensures
        new.closed_upto(k, p),
{
    assert forall|q: int| 0 <= q < p implies #[trigger] new.predicted(k, q) by {
        assert(old.predicted(k, q));
        lemma_facts_grow(old, new, kk, k, q, q);
    }
    assert forall|q: int| 0 <= q < p implies #[trigger] new.scanned(k, q) by {
        assert(old.scanned(k, q));
        lemma_facts_grow(old, new, kk, k, q, q);
    }
    assert forall|q: int| 0 <= q < p implies #[trigger] new.completed_below(k, q) by {
        assert(old.completed_below(k, q));
        lemma_facts_grow(old, new, kk, k, q, q);
    }
    assert forall|q1: int, q2: int| 0 <= q1 < p && 0 <= q2 < p implies #[trigger] new.paired(
        k,
        q1,
        q2,
    ) by {
        assert(old.paired(k, q1, q2));
        lemma_facts_grow(old, new, kk, k, q1, q2);
    }
}

/// One round on entry `p` of the set of position `k` (prediction, scan
/// and completion, in this order) extends the processed prefix by one.
proof fn lemma_round_closed(
    t0: &EarleyTable,
    t1: &EarleyTable,
    t2: &EarleyTable,
    t3: &EarleyTable,
    k: int,
    p: int,
)
    requires
        t0.wf(),
        t1.wf(),
        t2.wf(),
        0 <= k < t0.sets@.len(),
        0 <= p < t0.sets@[k]@.len(),
        t0.closed_upto(k, p),
        t1.grown(t0, k),
        t2.grown(t1, k),
        t3.grown(t2, k),
        t1.predicted(k, p),
        k < t0.input@.len() ==> t2.scanned(k, p),
        t3.completed_below(k, p),
        forall|q: int| 0 <= q <= p ==> #[trigger] t3.paired(k, q, p) && t3.paired(k, p, q),
    ensures
        t3.grown(t0, k),
        t3.closed_upto(k, p + 1),
{
    lemma_grown_trans(t0, t1, t2, k);
    lemma_grown_trans(t0, t2, t3, k);
    lemma_grown_trans(t1, t2, t3, k);
    lemma_closed_grows(t0, t3, k, k, p);
    lemma_facts_grow(t1, t3, k, k, p, p);
    lemma_facts_grow(t2, t3, k, k, p, p);
    assert(t3.scanned(k, p));
    assert forall|q: int| 0 <= q < p + 1 implies #[trigger] t3.predicted(k, q) by {
        if q < p {
            assert(t3.predicted(k, q));
        }
    }
    assert forall|q: int| 0 <= q < p + 1 implies #[trigger] t3.scanned(k, q) by {
        if q < p {
            assert(t3.scanned(k, q));
        }
    }
    assert forall|q: int| 0 <= q < p + 1 implies #[trigger] t3.completed_below(k, q) by {
        if q < p {
            assert(t3.completed_below(k, q));
        }
    }
    assert forall|q1: int, q2: int| 0 <= q1 < p + 1 && 0 <= q2 < p + 1 implies #[trigger] t3.paired(
        k,
        q1,
        q2,
    ) by {
        if q1 < p && q2 < p {
            assert(t3.paired(k, q1, q2));
        } else if q1 == p {
            assert(0 <= q2 <= p);
            assert(t3.paired(k, q2, p));
            assert(t3.paired(k, p, q2));
        } else {
            assert(0 <= q1 <= p);
            assert(t3.paired(k, q1, p));
            assert(t3.paired(k, p, q1));
        }
    }
    assert(t3.closed_upto(k, p + 1));
}

impl EarleyTable {
    /// The rules that the chart's states refer to.
    pub closed spec fn rules_view(&self) -> Seq<RuleModel> {
        self.rules@
    }

    /// The number of states in the chart.
    pub closed spec fn size(&self) -> nat {
        self.states@.len()
    }

    /// The derivation tree that the state at entry `i` stands for.
    pub closed spec fn tree_at(&self, i: int) -> Tree {
        self.trees@[i]
    }

    spec fn entry(&self, k: int, j: int) -> int {
        self.sets@[k]@[j] as int
    }

    spec fn st(&self, k: int, j: int) -> EarleyState {
        self.states@[self.entry(k, j)]
    }

    /// Whether entry `c` of the arena is listed in the set of position `e`.
    spec fn in_set(&self, e: int, c: int) -> bool {
        &&& 0 <= e < self.sets@.len()
        &&& exists|jc: int| 0 <= jc < self.sets@[e]@.len() && #[trigger] self.sets@[e]@[jc] == c
    }

    /// Each child of `st` is a finished state listed in the set of the
    /// position where its match ends, and began where the previous
    /// subtrees of `st` end.
    spec fn placed(&self, st: EarleyState) -> bool {
        let rules = self.rules@;
        let to = rules[st.rule as int].to;
        let kids = tree_for(rules, self.trees@, st).kids();
        forall|p: int|
            0 <= p < st.dot && to[p] is N ==> {
                let c = st.children@[#[trigger] nt_count(to, p) as int] as int;
                &&& self.in_set(st.origin + kids_yield(kids.take(p + 1)).len(), c)
                &&& self.states@[c].origin == st.origin + kids_yield(kids.take(p)).len()
                &&& finished(rules, self.states@[c])
            }
    }

    /// The fresh states that entry `p` of the set of position `k` calls for,
    /// among those of the first `n` rules: one for each such rule of the
    /// nonterminal that the entry expects, unless an equal rule comes earlier.
    spec fn predictions(&self, k: int, p: int, n: int) -> Set<Content>
        decreases n,
    {
        if n <= 0 {
            Set::empty()
        } else {
            let prev = self.predictions(k, p, n - 1);
            if is_first(self.rules@, n - 1) && expects(
                self.rules@,
                self.st(k, p),
                Symbol::N(self.rules@[n - 1].from),
            ) {
                prev.insert(fresh(n - 1, k))
            } else {
                prev
            }
        }
    }

    /// The states that entry `p` of the set of position `k`, if it waits for
    /// a nonterminal, moves to over the finished entries among the first `n`
    /// of that set that began at `k` and match that nonterminal.
    spec fn waiting_moves(&self, k: int, p: int, n: int) -> Set<Content>
        decreases n,
    {
        if n <= 0 {
            Set::empty()
        } else {
            let prev = self.waiting_moves(k, p, n - 1);
            let f = self.st(k, n - 1);
            if finished(self.rules@, f) && f.origin == k && expects(
                self.rules@,
                self.st(k, p),
                Symbol::N(lhs(self.rules@, f)),
            ) {
                prev.insert(combined(self.st(k, p), self.entry(k, n - 1)))
            } else {
                prev
            }
        }
    }

    /// The states that the first `n` entries of the set where the finished
    /// entry `p` of the set of position `k` began move to over it, if they
    /// wait for its nonterminal.
    spec fn finished_moves(&self, k: int, p: int, n: int) -> Set<Content>
        decreases n,
    {
        if n <= 0 {
            Set::empty()
        } else {
            let prev = self.finished_moves(k, p, n - 1);
            let w = self.st(self.st(k, p).origin as int, n - 1);
            if expects(self.rules@, w, Symbol::N(lhs(self.rules@, self.st(k, p)))) {
                prev.insert(combined(w, self.entry(k, p)))
            } else {
                prev
            }
        }
    }

    /// What completing entry `p` of the set of position `k` adds to that set:
    /// if the entry waits, its moves over the earlier finished entries of the
    /// set that began at `k`; if it is finished, the moves over it of the
    /// waiting entries where it began (the earlier ones only, if it began at
    /// `k`).
    spec fn completions(&self, k: int, p: int) -> Set<Content> {
        let x = self.st(k, p);
        if finished(self.rules@, x) {
            self.finished_moves(
                k,
                p,
                if x.origin < k {
                    self.sets@[x.origin as int]@.len() as int
                } else {
                    p
                },
            )
        } else {
            self.waiting_moves(k, p, p)
        }
    }

    /// The contents of the states in the set of position `k`.
    spec fn contents(&self, k: int) -> Set<Content> {
        Set::new(|c: Content| self.has(k, c))
    }

    /// Whether the set of position `k` holds a state with content `c`.
    spec fn has(&self, k: int, c: Content) -> bool {
        exists|j: int| 0 <= j < self.sets@[k]@.len() && #[trigger] self.st(k, j).content() == c
    }

    pub closed spec fn wf(&self) -> bool {
        let rules = self.rules@;
        let s = self.input@;
        &&& rules.len() <= usize::MAX
        &&& self.firsts@.len() == rules.len()
        &&& forall|r: int| 0 <= r < rules.len() ==> #[trigger] self.firsts@[r] == is_first(rules, r)
        &&& forall|r: int| 0 <= r < rules.len() ==> #[trigger] rules[r].to.len() <= usize::MAX
        &&& s.len() < usize::MAX
        &&& self.sets@.len() == s.len() + 1
        &&& self.trees@.len() == self.states@.len()
        &&& forall|i: int|
            0 <= i < self.states@.len() ==> state_ok(rules, self.trees@, #[trigger] self.states@[i], i)
        &&& forall|k: int, j: int|
            0 <= k < self.sets@.len() && 0 <= j < self.sets@[k]@.len() ==> {
                &&& 0 <= #[trigger] self.entry(k, j) < self.states@.len()
                &&& spans(rules, self.trees@, s, self.st(k, j), k)
                &&& self.placed(self.st(k, j))
            }
        &&& forall|k: int, j1: int, j2: int|
            0 <= k < self.sets@.len() && 0 <= j1 < self.sets@[k]@.len() && 0 <= j2
                < self.sets@[k]@.len() && j1 != j2 ==> #[trigger] self.st(k, j1).content()
                != #[trigger] self.st(k, j2).content()
    }

    /// Every rule for the nonterminal that entry `q` of set `k` expects,
    /// unless an equal rule comes earlier, has a fresh state in that set.
    spec fn predicted(&self, k: int, q: int) -> bool {
        forall|r: int|
            0 <= r < self.rules@.len() && is_first(self.rules@, r) && expects(
                self.rules@,
                self.st(k, q),
                Symbol::N(self.rules@[r].from),
            ) ==> #[trigger] self.has(k, fresh(r, k))
    }

    /// If entry `q` of set `k` expects the next input character, the set of
    /// `k + 1` holds it moved over that character.
    spec fn scanned(&self, k: int, q: int) -> bool {
        (k < self.input@.len() && expects(self.rules@, self.st(k, q), Symbol::T(self.input@[k])))
            ==> self.has(k + 1, advanced(self.st(k, q)))
    }

    /// If entry `q` of set `k` is finished and began before `k`, each state
    /// that waited for its nonterminal where it began has moved over it.
    spec fn completed_below(&self, k: int, q: int) -> bool {
        let f = self.st(k, q);
        let o = f.origin as int;
        (finished(self.rules@, f) && o < k) ==> forall|jw: int|
            0 <= jw < self.sets@[o]@.len() && expects(
                self.rules@,
                self.st(o, jw),
                Symbol::N(lhs(self.rules@, f)),
            ) ==> #[trigger] self.has(k, combined(self.st(o, jw), self.entry(k, q)))
    }

    /// If entry `q2` of set `k` is finished, began at `k`, and entry `q1`
    /// waits for its nonterminal, entry `q1` has moved over it.
    spec fn paired(&self, k: int, q1: int, q2: int) -> bool {
        let w = self.st(k, q1);
        let f = self.st(k, q2);
        (finished(self.rules@, f) && f.origin == k && expects(
            self.rules@,
            w,
            Symbol::N(lhs(self.rules@, f)),
        )) ==> self.has(k, combined(w, self.entry(k, q2)))
    }

    /// The first `p` entries of set `k` have been processed.
    spec fn closed_upto(&self, k: int, p: int) -> bool {
        &&& forall|q: int| 0 <= q < p ==> #[trigger] self.predicted(k, q)
        &&& forall|q: int| 0 <= q < p ==> #[trigger] self.scanned(k, q)
        &&& forall|q: int| 0 <= q < p ==> #[trigger] self.completed_below(k, q)
        &&& forall|q1: int, q2: int| 0 <= q1 < p && 0 <= q2 < p ==> #[trigger] self.paired(k, q1, q2)
    }

    /// `self` has grown from `old` by adding states to the sets of `k` and
    /// `k + 1` only; nothing stored before has changed.
    spec fn grown(&self, old: &EarleyTable, k: int) -> bool {
        &&& self.rules@ == old.rules@
        &&& self.input@ == old.input@
        &&& self.firsts@ == old.firsts@
        &&& self.sets@.len() == old.sets@.len()
        &&& old.states@.len() <= self.states@.len()
        &&& old.trees@.len() <= self.trees@.len()
        &&& forall|i: int| 0 <= i < old.states@.len() ==> #[trigger] self.states@[i] == old.states@[i]
        &&& forall|i: int| 0 <= i < old.trees@.len() ==> #[trigger] self.trees@[i] == old.trees@[i]
        &&& forall|x: int|
            0 <= x < self.sets@.len() ==> old.sets@[x]@.len() <= #[trigger] self.sets@[x]@.len()
        &&& forall|x: int, j: int|
            0 <= x < self.sets@.len() && 0 <= j < old.sets@[x]@.len() ==> #[trigger] self.sets@[x]@[j]
                == old.sets@[x]@[j]
        &&& forall|x: int|
            0 <= x < self.sets@.len() && x != k && x != k + 1 ==> #[trigger] self.sets@[x]@
                == old.sets@[x]@
    }

    fn new(
        size: usize,
        firsts: Vec<bool>,
        Ghost(rules): Ghost<Seq<RuleModel>>,
        Ghost(input): Ghost<Seq<char>>,
    ) -> (t: EarleyTable)
        ensures
            t.firsts@ == firsts@,
            t.rules@ == rules,
            t.input@ == input,
            t.sets@.len() == size,
            forall|k: int| 0 <= k < size ==> (#[trigger] t.sets@[k])@.len() == 0,
            t.states@.len() == 0,
            t.trees@.len() == 0,
    {
        let mut sets: Vec<Vec<usize>> = Vec::new();
        let mut i: usize = 0;
        while i < size
            invariant
                i <= size,
                sets@.len() == i,
                forall|k: int| 0 <= k < i ==> (#[trigger] sets@[k])@.len() == 0,
            decreases size - i,
        {
            sets.push(Vec::new());
            i = i + 1;
        }
        EarleyTable {
            sets,
            states: Vec::new(),
            trees: Ghost(Seq::empty()),
            firsts,
            rules: Ghost(rules),
            input: Ghost(input),
        }
    }

    /// Adds a state to the set of position `k`, unless that set already
    /// holds one with the same rule, dot, origin and children.
    fn add(&mut self, k: usize, st: EarleyState)
        requires
            old(self).wf(),
            k < old(self).sets@.len(),
            shaped(old(self).rules@, st, old(self).states@.len() as int),
            kids_sound(old(self).rules@, old(self).trees@, st),
            spans(old(self).rules@, old(self).trees@, old(self).input@, st, k as int),
            old(self).placed(st),
        ensures
            final(self).wf(),
            final(self).grown(old(self), k as int),
            forall|x: int| 0 <= x < final(self).sets@.len() && x != k ==> #[trigger] final(self).sets@[x]@ == old(self).sets@[x]@,
            final(self).has(k as int, st.content()),
            final(self).contents(k as int) == old(self).contents(k as int).insert(st.content()),
            old(self).has(k as int, st.content()) ==> final(self).sets@ == old(self).sets@
                && final(self).states@ == old(self).states@,
            !old(self).has(k as int, st.content()) ==> final(self).states@ == old(self).states@.push(st)
                && final(self).sets@[k as int]@ == old(self).sets@[k as int]@.push(
                old(self).states@.len() as usize,
            ),
    {
        let n = self.sets[k].len();
        let mut j: usize = 0;
        while j < n
            invariant
                self.wf(),
                k < self.sets@.len(),
                n == self.sets@[k as int]@.len(),
                j <= n,
                forall|i: int| 0 <= i < j ==> #[trigger] self.st(k as int, i).content() != st.content(),
            decreases n - j,
        {
            assert(0 <= self.entry(k as int, j as int) < self.states@.len());
            let idx = self.sets[k][j];
            if same_state(&self.states[idx], &st) {
                assert(self.st(k as int, j as int).content() == st.content());
                assert(self.contents(k as int).contains(st.content()));
                assert(self.contents(k as int).insert(st.content()) =~= self.contents(k as int));
                return;
            }
            j = j + 1;
        }
        let ghost pre = *self;
        assert(!pre.has(k as int, st.content())) by {
            if pre.has(k as int, st.content()) {
                let j2 = choose|j2: int| 0 <= j2 < pre.sets@[k as int]@.len() && #[trigger] pre.st(k as int, j2).content() == st.content();
                assert(pre.st(k as int, j2).content() != st.content());
            }
        }
        let ghost old_trees = self.trees@;
        let ghost old_states = self.states@;
        let ghost old_sets = self.sets@;
        let idx = self.states.len();
        let ghost t = tree_for(self.rules@, self.trees@, st);
        proof {
            self.trees@ = self.trees@.push(t);
            lemma_tree_for_stable(self.rules@, old_trees, self.trees@, st, idx as int);
        }
        self.states.push(st);
        self.sets[k].push(idx);
        proof {
            let rules = self.rules@;
            assert(self.grown(&pre, k as int));
            lemma_placed_grows(&pre, self, k as int, st, idx as int);
            assert forall|i: int| 0 <= i < self.states@.len() implies state_ok(
                rules,
                self.trees@,
                #[trigger] self.states@[i],
                i,
            ) by {
                if i < old_states.len() {
                    assert(self.states@[i] == old_states[i]);
                    lemma_tree_for_stable(rules, old_trees, self.trees@, old_states[i], i);
                }
            }
            assert forall|x: int, y: int|
                0 <= x < self.sets@.len() && 0 <= y < self.sets@[x]@.len() implies {
                &&& 0 <= #[trigger] self.entry(x, y) < self.states@.len()
                &&& spans(rules, self.trees@, self.input@, self.st(x, y), x)
                &&& self.placed(self.st(x, y))
            } by {
                if x != k || y < n {
                    assert(self.sets@[x]@[y] == old_sets[x]@[y]);
                    assert(0 <= pre.entry(x, y) < pre.states@.len());
                    let e = old_sets[x]@[y] as int;
                    assert(state_ok(rules, old_trees, old_states[e], e));
                    lemma_tree_for_stable(rules, old_trees, self.trees@, old_states[e], e);
                    assert(pre.placed(pre.st(x, y)));
                    lemma_placed_grows(&pre, self, k as int, old_states[e], e);
                }
            }
            assert(self.st(k as int, n as int) == st);
            assert forall|x: int, j1: int, j2: int|
                0 <= x < self.sets@.len() && 0 <= j1 < self.sets@[x]@.len() && 0 <= j2
                    < self.sets@[x]@.len() && j1 != j2 implies #[trigger] self.st(x, j1).content()
                != #[trigger] self.st(x, j2).content() by {
                if x != k || (j1 < n && j2 < n) {
                    assert(self.sets@[x]@[j1] == old_sets[x]@[j1]);
                    assert(self.sets@[x]@[j2] == old_sets[x]@[j2]);
                    assert(0 <= pre.entry(x, j1) < pre.states@.len());
                    assert(0 <= pre.entry(x, j2) < pre.states@.len());
                    assert(self.st(x, j1) == pre.st(x, j1));
                    assert(self.st(x, j2) == pre.st(x, j2));
                    assert(pre.st(x, j1).content() != pre.st(x, j2).content());
                } else if j1 == n {
                    assert(self.sets@[x]@[j2] == old_sets[x]@[j2]);
                    assert(0 <= pre.entry(x, j2) < pre.states@.len());
                    assert(self.st(x, j2) == pre.st(x, j2));
                    assert(pre.st(x, j2).content() != st.content());
                } else {
                    assert(self.sets@[x]@[j1] == old_sets[x]@[j1]);
                    assert(0 <= pre.entry(x, j1) < pre.states@.len());
                    assert(self.st(x, j1) == pre.st(x, j1));
                    assert(pre.st(x, j1).content() != st.content());
                }
            }
            let kk = k as int;
            assert forall|c: Content| self.has(kk, c) <==> pre.has(kk, c) || c == st.content() by {
                if self.has(kk, c) {
                    let j2 = choose|j2: int| 0 <= j2 < self.sets@[kk]@.len() && #[trigger] self.st(kk, j2).content() == c;
                    if j2 < n {
                        assert(self.sets@[kk]@[j2] == old_sets[kk]@[j2]);
                        assert(0 <= pre.entry(kk, j2) < pre.states@.len());
                        assert(self.st(kk, j2) == pre.st(kk, j2));
                    }
                }
                if pre.has(kk, c) {
                    let j2 = choose|j2: int| 0 <= j2 < pre.sets@[kk]@.len() && #[trigger] pre.st(kk, j2).content() == c;
                    assert(self.sets@[kk]@[j2] == old_sets[kk]@[j2]);
                    assert(0 <= pre.entry(kk, j2) < pre.states@.len());
                    assert(self.st(kk, j2) == pre.st(kk, j2));
                }
            }
            assert(self.contents(kk) =~= pre.contents(kk).insert(st.content()));
            assert(self.sets@[kk]@ =~= old_sets[kk]@.push(idx));
        }
    }
}

impl Grammar {
    /// Entry `p` of the set of position `k`, if it expects a nonterminal,
    /// adds to that set a fresh state for each rule of that nonterminal.
    fn prediction(&self, table: &mut EarleyTable, k: usize, p: usize)
        requires
            old(table).wf(),
            old(table).rules@ == self@.rules,
            k < old(table).sets@.len(),
            p < old(table).sets@[k as int]@.len(),
        ensures
            final(table).wf(),
            final(table).grown(old(table), k as int),
            forall|x: int| 0 <= x < final(table).sets@.len() && x != k ==> #[trigger] final(table).sets@[x]@ == old(table).sets@[x]@,
            final(table).predicted(k as int, p as int),
            final(table).contents(k as int) == old(table).contents(k as int).union(
                old(table).predictions(k as int, p as int, old(table).rules@.len() as int),
            ),
            (forall|a: Seq<char>| !expects(old(table).rules@, old(table).st(k as int, p as int), Symbol::N(a)))
                ==> final(table).sets@ == old(table).sets@ && final(table).states@ == old(table).states@,
    {
        let ghost pre = *table;
        let ghost rules = table.rules@;
        assert(0 <= table.entry(k as int, p as int) < table.states@.len());
        let x = table.sets[k][p];
        assert(state_ok(rules, table.trees@, table.states@[x as int], x as int));
        if table.states[x].is_finished(self) {
            proof {
                lemma_no_predictions(table, k as int, p as int, rules.len() as int);
                assert(table.contents(k as int).union(Set::empty()) =~= table.contents(k as int));
            }
            return;
        }
        let current = table.states[x].current_token(self);
        let nt = match current {
            Token::T(_) => {
                proof {
                    lemma_no_predictions(table, k as int, p as int, rules.len() as int);
                    assert(table.contents(k as int).union(Set::empty()) =~= table.contents(k as int));
                }
                return;
            },
            Token::NT(n) => n,
        };
        assert(pre.contents(k as int).union(pre.predictions(k as int, p as int, 0)) =~= table.contents(k as int));
        let mut i: usize = 0;
        while i < self.rules.len()
            invariant
                table.wf(),
                table.grown(&pre, k as int),
                forall|x: int| 0 <= x < table.sets@.len() && x != k ==> #[trigger] table.sets@[x]@ == pre.sets@[x]@,
                rules == self@.rules,
                table.rules@ == rules,
                k < table.sets@.len(),
                k <= table.input@.len(),
                p < pre.sets@[k as int]@.len(),
                table.st(k as int, p as int) == pre.st(k as int, p as int),
                expects(rules, pre.st(k as int, p as int), Symbol::N(nt@)),
                i <= rules.len(),
                forall|r: int| 0 <= r < i && rules[r].from == nt@ && is_first(rules, r) ==> #[trigger] table.has(k as int, fresh(r, k as int)),
                table.contents(k as int) == pre.contents(k as int).union(pre.predictions(k as int, p as int, i as int)),
                forall|a: Seq<char>| expects(rules, pre.st(k as int, p as int), Symbol::N(a)) ==> a == nt@,
            decreases self.rules@.len() - i,
        {
            assert(rules[i as int] == self.rules@[i as int]@);
            if self.rules[i].from.name == nt.name && table.firsts[i] {
                let st = EarleyState::new(i, 0, k);
                proof {
                    lemma_fresh_ok(table, i as int, k as int, st);
                }
                let ghost before = *table;
                table.add(k, st);
                proof {
                    assert(pre.predictions(k as int, p as int, i + 1) == pre.predictions(k as int, p as int, i as int).insert(fresh(i as int, k as int)));
                    assert(table.contents(k as int) =~= pre.contents(k as int).union(pre.predictions(k as int, p as int, i + 1)));
                    assert forall|r: int| 0 <= r < i && rules[r].from == nt@ && is_first(rules, r) implies #[trigger] table.has(k as int, fresh(r, k as int)) by {
                        lemma_has_grows(&before, table, k as int, k as int, fresh(r, k as int));
                    }
                    lemma_grown_trans(&pre, &before, table, k as int);
                }
            } else {
                assert(pre.predictions(k as int, p as int, i + 1) == pre.predictions(k as int, p as int, i as int));
            }
            i = i + 1;
        }
    }
}

impl Grammar {
    /// Entry `p` of the set of position `k`, if it expects the terminal
    /// `c` found at position `k`, adds itself moved over `c` to the set of
    /// `k + 1`.
    fn scan(&self, table: &mut EarleyTable, k: usize, p: usize, c: char)
        requires
            old(table).wf(),
            old(table).rules@ == self@.rules,
            k < old(table).input@.len(),
            c == old(table).input@[k as int],
            p < old(table).sets@[k as int]@.len(),
        ensures
            final(table).wf(),
            final(table).grown(old(table), k as int),
            forall|x: int| 0 <= x < final(table).sets@.len() && x != k + 1 ==> #[trigger] final(table).sets@[x]@ == old(table).sets@[x]@,
            final(table).scanned(k as int, p as int),
            final(table).contents(k + 1) == if expects(
                old(table).rules@,
                old(table).st(k as int, p as int),
                Symbol::T(c),
            ) {
                old(table).contents(k + 1).insert(advanced(old(table).st(k as int, p as int)))
            } else {
                old(table).contents(k + 1)
            },
            !(expects(old(table).rules@, old(table).st(k as int, p as int), Symbol::T(c))
                && !old(table).has(k + 1, advanced(old(table).st(k as int, p as int))))
                ==> final(table).sets@ == old(table).sets@ && final(table).states@ == old(table).states@,
    {
        let ghost pre = *table;
        let ghost rules = table.rules@;
        assert(0 <= table.entry(k as int, p as int) < table.states@.len());
        let x = table.sets[k][p];
        assert(state_ok(rules, table.trees@, table.states@[x as int], x as int));
        if table.states[x].is_finished(self) {
            return;
        }
        let current = table.states[x].current_token(self);
        match current {
            Token::T(t) => {
                if t.content == c {
                    proof {
                        assert(rules[table.states@[x as int].rule as int].to.len() <= usize::MAX);
                        assert(k + 1 < table.sets@.len());
                    }
                    let st = table.states[x].step(None);
                    proof {
                        lemma_advanced_ok(table, k as int, p as int, st);
                    }
                    table.add(k + 1, st);
                }
            },
            Token::NT(_) => {},
        }
    }

    /// Entry `p` of the set of position `k` is paired with the entries it
    /// completes or is completed by: if it waits for a nonterminal, with each
    /// earlier finished entry of this set for that nonterminal that began at
    /// `k`; if it is finished, with each state that waited for its
    /// nonterminal where it began (among the earlier entries, if it began at
    /// `k`). Each pair adds the waiting state moved over the finished one.
    fn complete(&self, table: &mut EarleyTable, k: usize, p: usize)
        requires
            old(table).wf(),
            old(table).rules@ == self@.rules,
            k < old(table).sets@.len(),
            p < old(table).sets@[k as int]@.len(),
        ensures
            final(table).wf(),
            final(table).grown(old(table), k as int),
            forall|x: int| 0 <= x < final(table).sets@.len() && x != k ==> #[trigger] final(table).sets@[x]@ == old(table).sets@[x]@,
            final(table).completed_below(k as int, p as int),
            forall|q: int| 0 <= q <= p ==> #[trigger] final(table).paired(k as int, q, p as int) && final(table).paired(k as int, p as int, q),
            final(table).contents(k as int) == old(table).contents(k as int).union(
                old(table).completions(k as int, p as int),
            ),
    {
        let ghost pre = *table;
        let ghost rules = table.rules@;
        let ghost ki = k as int;
        let ghost pi = p as int;
        assert(0 <= table.entry(ki, pi) < table.states@.len());
        let x = table.sets[k][p];
        assert(state_ok(rules, table.trees@, table.states@[x as int], x as int));
        assert(spans(rules, table.trees@, table.input@, table.st(ki, pi), ki));
        let origin = table.states[x].origin;
        if !table.states[x].is_finished(self) {
            let current = table.states[x].current_token(self);
            if let Token::NT(nt) = current {
                assert(pre.contents(ki).union(pre.waiting_moves(ki, pi, 0)) =~= pre.contents(ki));
                let mut q: usize = 0;
                while q < p
                    invariant
                        table.wf(),
                        table.grown(&pre, ki),
                        forall|y: int| 0 <= y < table.sets@.len() && y != k ==> #[trigger] table.sets@[y]@ == pre.sets@[y]@,
                        rules == self@.rules,
                        table.rules@ == rules,
                        k < table.sets@.len(),
                        ki == k as int,
                        pi == p as int,
                        p < pre.sets@[ki]@.len(),
                        q <= p,
                        x == table.entry(ki, pi),
                        table.st(ki, pi) == pre.st(ki, pi),
                        expects(rules, pre.st(ki, pi), Symbol::N(nt@)),
                        forall|q2: int| 0 <= q2 < q ==> #[trigger] table.paired(ki, pi, q2),
                        table.contents(ki) == pre.contents(ki).union(pre.waiting_moves(ki, pi, q as int)),
                        pre.wf(),
                    decreases p - q,
                {
                    assert(table.sets@[ki]@[q as int] == pre.sets@[ki]@[q as int]);
                    assert(0 <= table.entry(ki, q as int) < table.states@.len());
                    let f = table.sets[k][q];
                    let fs = &table.states[f];
                    assert(state_ok(rules, table.trees@, table.states@[f as int], f as int));
                    let is_match = fs.is_finished(self) && fs.origin == k && self.rules[fs.rule].from.name
                        == nt.name;
                    assert(rules[fs.rule as int] == self.rules@[fs.rule as int]@);
                    let ghost before = *table;
                    assert(0 <= pre.entry(ki, q as int) < pre.states@.len());
                    assert(table.st(ki, q as int) == pre.st(ki, q as int));
                    assert(table.entry(ki, q as int) == pre.entry(ki, q as int));
                    if is_match {
                        proof {
                            assert(rules[table.states@[x as int].rule as int].to.len() <= usize::MAX);
                        }
                        let st = table.states[x].step(Some(f));
                        proof {
                            lemma_combined_ok(table, ki, q as int, ki, pi, st);
                        }
                        table.add(k, st);
                        proof {
                            lemma_grown_trans(&pre, &before, table, ki);
                            assert(pre.waiting_moves(ki, pi, q + 1) == pre.waiting_moves(ki, pi, q as int).insert(st.content()));
                            assert(table.contents(ki) =~= pre.contents(ki).union(pre.waiting_moves(ki, pi, q + 1)));
                        }
                    } else {
                        assert(pre.waiting_moves(ki, pi, q + 1) == pre.waiting_moves(ki, pi, q as int));
                    }
                    proof {
                        assert forall|q2: int| 0 <= q2 <= q implies #[trigger] table.paired(ki, pi, q2) by {
                            if q2 < q {
                                assert(before.paired(ki, pi, q2));
                                assert(table.sets@[ki]@[q2] == before.sets@[ki]@[q2]);
                                assert(0 <= before.entry(ki, q2) < before.states@.len());
                                assert(table.st(ki, q2) == before.st(ki, q2));
                                assert(table.st(ki, pi) == before.st(ki, pi));
                                if before.has(ki, combined(before.st(ki, pi), before.entry(ki, q2))) {
                                    lemma_has_grows(&before, table, ki, ki, combined(before.st(ki, pi), before.entry(ki, q2)));
                                }
                            } else if !is_match {
                                assert(!(finished(rules, table.st(ki, q2)) && table.st(ki, q2).origin == ki && expects(rules, table.st(ki, pi), Symbol::N(lhs(rules, table.st(ki, q2))))));
                            }
                        }
                    }
                    q = q + 1;
                }
                assert forall|q2: int| 0 <= q2 <= p implies #[trigger] table.paired(ki, q2, pi) && table.paired(ki, pi, q2) by {
                    assert(!finished(rules, table.st(ki, pi)));
                    if q2 == p {
                        assert(!expects(rules, table.st(ki, pi), Symbol::N(lhs(rules, table.st(ki, pi)))) || !finished(rules, table.st(ki, pi)));
                    }
                }
            } else {
                assert forall|q2: int| 0 <= q2 <= p implies #[trigger] table.paired(ki, q2, pi) && table.paired(ki, pi, q2) by {
                    assert(!finished(rules, table.st(ki, pi)));
                }
                proof {
                    lemma_no_waiting_moves(table, ki, pi, pi);
                    assert(table.contents(ki).union(Set::empty()) =~= table.contents(ki));
                }
            }
            return;
        }
        assert(finished(rules, table.st(ki, pi)));
        let a = &self.rules[table.states[x].rule].from.name;
        assert(rules[table.states@[x as int].rule as int] == self.rules@[table.states@[x as int].rule as int]@);
        let ghost oi = origin as int;
        let bound = if origin < k { table.sets[origin].len() } else { p };
        assert(pre.contents(ki).union(pre.finished_moves(ki, pi, 0)) =~= pre.contents(ki));
        let mut q: usize = 0;
        while q < bound
            invariant
                table.wf(),
                table.grown(&pre, ki),
                forall|y: int| 0 <= y < table.sets@.len() && y != k ==> #[trigger] table.sets@[y]@ == pre.sets@[y]@,
                rules == self@.rules,
                table.rules@ == rules,
                k < table.sets@.len(),
                ki == k as int,
                pi == p as int,
                oi == origin,
                origin <= k,
                origin < k ==> bound == table.sets@[oi]@.len(),
                origin == k ==> bound == p,
                p < pre.sets@[ki]@.len(),
                q <= bound,
                x == table.entry(ki, pi),
                table.st(ki, pi) == pre.st(ki, pi),
                origin == pre.st(ki, pi).origin,
                finished(rules, pre.st(ki, pi)),
                a@ == lhs(rules, pre.st(ki, pi)),
                table.contents(ki) == pre.contents(ki).union(pre.finished_moves(ki, pi, q as int)),
                pre.wf(),
                forall|q2: int| 0 <= q2 < q ==> expects(rules, #[trigger] table.st(oi, q2), Symbol::N(a@)) ==> table.has(ki, combined(table.st(oi, q2), x as int)),
            decreases bound - q,
        {
            assert(table.sets@[oi]@[q as int] == pre.sets@[oi]@[q as int]);
            assert(0 <= table.entry(oi, q as int) < table.states@.len());
            let w = table.sets[origin][q];
            let ws = &table.states[w];
            assert(state_ok(rules, table.trees@, table.states@[w as int], w as int));
            let mut is_match = false;
            if !ws.is_finished(self) {
                if let Token::NT(n) = ws.current_token(self) {
                    is_match = n.name == *a;
                }
            }
            let ghost before = *table;
            assert(0 <= pre.entry(oi, q as int) < pre.states@.len());
            assert(table.st(oi, q as int) == pre.st(oi, q as int));
            if is_match {
                proof {
                    assert(rules[table.states@[w as int].rule as int].to.len() <= usize::MAX);
                }
                let st = table.states[w].step(Some(x));
                proof {
                    lemma_combined_ok(table, ki, pi, oi, q as int, st);
                }
                table.add(k, st);
                proof {
                    lemma_grown_trans(&pre, &before, table, ki);
                    assert(pre.finished_moves(ki, pi, q + 1) == pre.finished_moves(ki, pi, q as int).insert(st.content()));
                    assert(table.contents(ki) =~= pre.contents(ki).union(pre.finished_moves(ki, pi, q + 1)));
                }
            } else {
                assert(pre.finished_moves(ki, pi, q + 1) == pre.finished_moves(ki, pi, q as int));
            }
            proof {
                assert forall|q2: int| 0 <= q2 <= q && expects(rules, #[trigger] table.st(oi, q2), Symbol::N(a@)) implies table.has(ki, combined(table.st(oi, q2), x as int)) by {
                    assert(table.sets@[oi]@[q2] == before.sets@[oi]@[q2]);
                    assert(0 <= before.entry(oi, q2) < before.states@.len());
                    assert(table.st(oi, q2) == before.st(oi, q2));
                    if q2 < q {
                        if before.has(ki, combined(before.st(oi, q2), x as int)) {
                            lemma_has_grows(&before, table, ki, ki, combined(before.st(oi, q2), x as int));
                        }
                    }
                }
            }
            q = q + 1;
        }
        assert forall|q2: int| 0 <= q2 <= p implies #[trigger] table.paired(ki, q2, pi) && table.paired(ki, pi, q2) by {
            if q2 < p && origin == k {
                assert(table.st(oi, q2) == table.st(ki, q2));
            }
        }
    }
}

/// Whether `t` is a parse of `s` under `g`: a derivation tree of the start
/// nonterminal whose leaves spell `s`.
pub open spec fn is_parse(g: GrammarModel, s: Seq<char>, t: Tree) -> bool {
    &&& t.root() == Symbol::N(g.start)
    &&& derives(g.rules, t)
    &&& tree_yield(t) == s
}

/// The trees of a list of parse nodes.
pub open spec fn trees_of(r: Seq<Rc<ParseNode>>) -> Seq<Tree> {
    r.map_values(|n: Rc<ParseNode>| n.tree())
}

/// `ts` lists the parses of `s` under `g`, each exactly once.
pub open spec fn lists_parses(g: GrammarModel, s: Seq<char>, ts: Seq<Tree>) -> bool {
    &&& forall|i: int| 0 <= i < ts.len() ==> is_parse(g, s, #[trigger] ts[i])
    &&& forall|t: Tree| is_parse(g, s, t) ==> ts.contains(t)
    &&& ts.no_duplicates()
}

impl EarleyTable {
    /// Entry `j` of the set of position `k` is a finished state of a rule of
    /// `start` that began at position 0.
    spec fn accepting(&self, k: int, j: int, start: Seq<char>) -> bool {
        &&& finished(self.rules@, self.st(k, j))
        &&& self.st(k, j).origin == 0
        &&& lhs(self.rules@, self.st(k, j)) == start
    }
}

impl EarleyTable {
    /// Every set has been processed to the end.
    spec fn closed(&self) -> bool {
        forall|k: int| 0 <= k < self.sets@.len() ==> #[trigger] self.closed_upto(k, self.sets@[k]@.len() as int)
    }
}

/// The tree of a state found by its content.
proof fn lemma_tree_of_content(t: &EarleyTable, k: int, j: int, st: EarleyState)
    requires
        t.wf(),
        0 <= k < t.sets@.len(),
        0 <= j < t.sets@[k]@.len(),
        t.st(k, j).content() == st.content(),
    ensures
        t.trees@[t.entry(k, j)] == tree_for(t.rules@, t.trees@, st),
{
    assert(0 <= t.entry(k, j) < t.states@.len());
    assert(state_ok(t.rules@, t.trees@, t.states@[t.entry(k, j)], t.entry(k, j)));
}

/// The chart holds, for a state at entry `jw` of the set of `i`, the state
/// moved over any trees `ts` that stand for the next symbols of its rule and
/// spell the input from `i` on.
proof fn lemma_extend(t: &EarleyTable, i: int, jw: int, ts: Seq<Tree>)
    requires
        t.wf(),
        t.closed(),
        0 <= i < t.sets@.len(),
        0 <= jw < t.sets@[i]@.len(),
        t.st(i, jw).dot + ts.len() <= t.rules@[t.st(i, jw).rule as int].to.len(),
        forall|m: int|
            0 <= m < ts.len() ==> stands_for(
                t.rules@,
                #[trigger] ts[m],
                t.rules@[t.st(i, jw).rule as int].to[t.st(i, jw).dot + m],
            ),
        i + kids_yield(ts).len() <= t.input@.len(),
        kids_yield(ts) == t.input@.subrange(i, i + kids_yield(ts).len()),
    ensures
        exists|j: int|
            0 <= j < t.sets@[i + kids_yield(ts).len()]@.len() && {
                let x = #[trigger] t.st(i + kids_yield(ts).len(), j);
                &&& x.rule == t.st(i, jw).rule
                &&& x.dot == t.st(i, jw).dot + ts.len()
                &&& x.origin == t.st(i, jw).origin
                &&& t.trees@[t.entry(i + kids_yield(ts).len(), j)].kids() == t.trees@[t.entry(
                    i,
                    jw,
                )].kids() + ts
            },
    decreases ts,
{
    let rules = t.rules@;
    let s = t.input@;
    let w = t.st(i, jw);
    assert(0 <= t.entry(i, jw) < t.states@.len());
    assert(state_ok(rules, t.trees@, t.states@[t.entry(i, jw)], t.entry(i, jw)));
    if ts.len() == 0 {
        assert(kids_yield(ts) == Seq::<char>::empty());
        assert(t.trees@[t.entry(i, jw)].kids() + ts =~= t.trees@[t.entry(i, jw)].kids());
        assert(t.st(i, jw) == w);
    } else {
        let ts0 = ts.drop_last();
        let last = ts.last();
        assert(ts0 =~= ts.subrange(0, ts.len() - 1));
        assert(kids_yield(ts) == kids_yield(ts0) + tree_yield(last));
        let y0 = kids_yield(ts0).len() as int;
        let e0 = i + y0;
        let e = i + kids_yield(ts).len();
        assert(kids_yield(ts0) =~= s.subrange(i, e0)) by {
            assert(kids_yield(ts0) =~= kids_yield(ts).subrange(0, y0));
        }
        assert forall|m: int| 0 <= m < ts0.len() implies stands_for(
            rules,
            #[trigger] ts0[m],
            rules[w.rule as int].to[w.dot + m],
        ) by {
            assert(ts0[m] == ts[m]);
        }
        lemma_extend(t, i, jw, ts0);
        let j0 = choose|j: int|
            0 <= j < t.sets@[e0]@.len() && {
                let x = #[trigger] t.st(e0, j);
                &&& x.rule == w.rule
                &&& x.dot == w.dot + ts0.len()
                &&& x.origin == w.origin
                &&& t.trees@[t.entry(e0, j)].kids() == t.trees@[t.entry(i, jw)].kids() + ts0
            };
        let w0 = t.st(e0, j0);
        assert(0 <= t.entry(e0, j0) < t.states@.len());
        assert(state_ok(rules, t.trees@, t.states@[t.entry(e0, j0)], t.entry(e0, j0)));
        let to = rules[w.rule as int].to;
        let d0 = w0.dot as nat;
        let sym = to[d0 as int];
        assert(stands_for(rules, ts[ts.len() - 1], to[w.dot + ts.len() - 1]));
        assert(stands_for(rules, last, sym));
        assert(expects(rules, w0, sym));
        let wkids = t.trees@[t.entry(e0, j0)].kids();
        assert(t.trees@[t.entry(i, jw)].kids() + ts =~= wkids.push(last));
        assert(t.closed_upto(e0, t.sets@[e0]@.len() as int));
        match sym {
            Symbol::T(c) => {
                assert(last.kids().len() == 0);
                assert(last == Tree::Node(last.root(), last.kids()));
                assert(last.kids() =~= Seq::<Tree>::empty());
                assert(last == leaf(c));
                assert(tree_yield(last) == seq![c]);
                assert(e == e0 + 1);
                assert(s[e0] == kids_yield(ts)[y0]);
                assert(t.scanned(e0, j0));
                let st = choose|j: int| 0 <= j < t.sets@[e]@.len() && #[trigger] t.st(e, j).content() == advanced(w0);
                let x = t.st(e, st);
                lemma_tree_of_content(t, e, st, x);
                lemma_prefix_kids_step(t.trees@, to, d0, x.children@);
                assert(x.rule == w.rule);
                assert(x.dot == w.dot + ts.len());
                assert(x.origin == w.origin);
                assert(t.trees@[t.entry(e, st)].kids() == wkids.push(last));
            },
            Symbol::N(b) => {
                let sub = last.kids();
                assert(derives(rules, last));
                assert(last.root() == Symbol::N(b));
                let rm = RuleModel { from: b, to: roots(sub) };
                assert(rules.contains(rm));
                let r1 = choose|r: int| 0 <= r < rules.len() && rules[r] == rm;
                lemma_first_index(rules, r1);
                let rb = choose|r: int| 0 <= r <= r1 && rules[r] == rules[r1] && #[trigger] is_first(rules, r);
                assert(t.predicted(e0, j0));
                assert(t.has(e0, fresh(rb, e0)));
                let jp = choose|j: int| 0 <= j < t.sets@[e0]@.len() && #[trigger] t.st(e0, j).content() == fresh(rb, e0);
                let pst = t.st(e0, jp);
                lemma_tree_of_content(t, e0, jp, pst);
                assert(t.trees@[t.entry(e0, jp)].kids() =~= Seq::<Tree>::empty());
                assert(tree_yield(last) == kids_yield(sub));
                assert(kids_yield(sub) =~= s.subrange(e0, e)) by {
                    assert(kids_yield(sub) =~= kids_yield(ts).subrange(y0, kids_yield(ts).len() as int));
                }
                assert forall|m: int| 0 <= m < sub.len() implies stands_for(
                    rules,
                    #[trigger] sub[m],
                    rules[pst.rule as int].to[pst.dot + m],
                ) by {
                    assert(stands_for(rules, sub[m], sub[m].root()));
                    assert(roots(sub)[m] == sub[m].root());
                }
                assert(decreases_to!(ts => last));
                lemma_extend(t, e0, jp, sub);
                let jf = choose|j: int|
                    0 <= j < t.sets@[e]@.len() && {
                        let x = #[trigger] t.st(e, j);
                        &&& x.rule == pst.rule
                        &&& x.dot == pst.dot + sub.len()
                        &&& x.origin == pst.origin
                        &&& t.trees@[t.entry(e, j)].kids() == t.trees@[t.entry(e0, jp)].kids() + sub
                    };
                let fst = t.st(e, jf);
                let f = t.entry(e, jf);
                assert(0 <= f < t.states@.len());
                assert(state_ok(rules, t.trees@, t.states@[f], f));
                assert(t.trees@[f].kids() =~= sub);
                assert(t.trees@[f] == tree_for(rules, t.trees@, fst));
                assert(last == Tree::Node(last.root(), last.kids()));
                assert(t.trees@[f] == last);
                assert(roots(sub).len() == sub.len());
                assert(finished(rules, fst));
                assert(t.closed_upto(e, t.sets@[e]@.len() as int));
                if e0 < e {
                    assert(t.completed_below(e, jf));
                    assert(t.has(e, combined(t.st(e0, j0), f)));
                } else {
                    assert(t.paired(e, j0, jf));
                    assert(t.has(e, combined(t.st(e, j0), f)));
                }
                let jc = choose|j: int| 0 <= j < t.sets@[e]@.len() && #[trigger] t.st(e, j).content() == combined(w0, f);
                let x = t.st(e, jc);
                lemma_tree_of_content(t, e, jc, x);
                lemma_prefix_kids_step(t.trees@, to, d0, x.children@);
                lemma_prefix_kids_more_children(t.trees@, to, d0, w0.children@, f as usize);
                assert(x.children@ == w0.children@.push(f as usize));
                assert(x.rule == w.rule);
                assert(x.dot == w.dot + ts.len());
                assert(x.origin == w.origin);
                assert(t.trees@[t.entry(e, jc)].kids() == wkids.push(last));
            },
        }
    }
}

proof fn lemma_nt_count_onto(to: Seq<Symbol>, d: int, m: int)
    requires
        0 <= m < nt_count(to, d),
    ensures
        exists|p: int| 0 <= p < d && to[p] is N && #[trigger] nt_count(to, p) == m,
    decreases d,
{
    if m < nt_count(to, d - 1) {
        lemma_nt_count_onto(to, d - 1, m);
    } else {
        assert(to[d - 1] is N && nt_count(to, d - 1) == m);
    }
}

/// Two finished entries of one set that began at the same position and
/// stand for the same tree are the same entry.
proof fn lemma_unique_tree(t: &EarleyTable, k: int, j1: int, j2: int)
    requires
        t.wf(),
        0 <= k < t.sets@.len(),
        0 <= j1 < t.sets@[k]@.len(),
        0 <= j2 < t.sets@[k]@.len(),
        finished(t.rules@, t.st(k, j1)),
        finished(t.rules@, t.st(k, j2)),
        t.st(k, j1).origin == t.st(k, j2).origin,
        t.trees@[t.entry(k, j1)] == t.trees@[t.entry(k, j2)],
    ensures
        j1 == j2,
    decreases t.entry(k, j1),
{
    let rules = t.rules@;
    let e1 = t.entry(k, j1);
    let e2 = t.entry(k, j2);
    let x1 = t.st(k, j1);
    let x2 = t.st(k, j2);
    assert(0 <= e1 < t.states@.len());
    assert(0 <= e2 < t.states@.len());
    assert(state_ok(rules, t.trees@, t.states@[e1], e1));
    assert(state_ok(rules, t.trees@, t.states@[e2], e2));
    let kids = t.trees@[e1].kids();
    let to1 = rules[x1.rule as int].to;
    let to2 = rules[x2.rule as int].to;
    assert(roots(kids) =~= to1) by {
        assert forall|p: int| 0 <= p < kids.len() implies roots(kids)[p] == to1[p] by {
            assert(stands_for(rules, tree_for(rules, t.trees@, x1).kids()[p], to1[p]));
        }
    }
    assert(roots(kids) =~= to2) by {
        assert forall|p: int| 0 <= p < kids.len() implies roots(kids)[p] == to2[p] by {
            assert(stands_for(rules, tree_for(rules, t.trees@, x2).kids()[p], to2[p]));
        }
    }
    assert(rules[x1.rule as int] == rules[x2.rule as int]);
    assert(x1.rule == x2.rule) by {
        assert(is_first(rules, x1.rule as int) && is_first(rules, x2.rule as int));
    }
    let to = to1;
    assert(t.placed(x1));
    assert(t.placed(x2));
    assert forall|m: int| 0 <= m < x1.children@.len() implies x1.children@[m] == x2.children@[m] by {
        lemma_nt_count_onto(to, x1.dot as int, m);
        let p = choose|p: int| 0 <= p < x1.dot && to[p] is N && #[trigger] nt_count(to, p) == m;
        let c1 = x1.children@[m] as int;
        let c2 = x2.children@[m] as int;
        let e = x1.origin + kids_yield(kids.take(p + 1)).len();
        assert(t.in_set(e, c1));
        assert(t.in_set(e, c2));
        let jc1 = choose|jc: int| 0 <= jc < t.sets@[e]@.len() && #[trigger] t.sets@[e]@[jc] == c1;
        let jc2 = choose|jc: int| 0 <= jc < t.sets@[e]@.len() && #[trigger] t.sets@[e]@[jc] == c2;
        assert(kids[p] == t.trees@[c1]);
        assert(kids[p] == t.trees@[c2]);
        assert(c1 < e1);
        lemma_unique_tree(t, e, jc1, jc2);
    }
    assert(x1.children@ =~= x2.children@);
    assert(x1.content() == x2.content());
}

/// Every parse of the input is the tree of an accepting entry of the last
/// set.
proof fn lemma_complete(t: &EarleyTable, g: GrammarModel, tr: Tree)
    requires
        t.wf(),
        t.closed(),
        t.rules@ == g.rules,
        forall|r: int| 0 <= r < g.rules.len() && g.rules[r].from == g.start && is_first(g.rules, r) ==> #[trigger] t.has(0, fresh(r, 0)),
        is_parse(g, t.input@, tr),
    ensures
        exists|j: int|
            0 <= j < t.sets@[t.input@.len() as int]@.len() && #[trigger] t.accepting(t.input@.len() as int, j, g.start)
                && t.trees@[t.entry(t.input@.len() as int, j)] == tr,
{
    let rules = g.rules;
    let n = t.input@.len() as int;
    let sub = tr.kids();
    let rm = RuleModel { from: g.start, to: roots(sub) };
    assert(rules.contains(rm));
    let r1 = choose|r: int| 0 <= r < rules.len() && rules[r] == rm;
    lemma_first_index(rules, r1);
    let r0 = choose|r: int| 0 <= r <= r1 && rules[r] == rules[r1] && #[trigger] is_first(rules, r);
    assert(t.has(0, fresh(r0, 0)));
    let jp = choose|j: int| 0 <= j < t.sets@[0]@.len() && #[trigger] t.st(0, j).content() == fresh(r0, 0);
    let pst = t.st(0, jp);
    lemma_tree_of_content(t, 0, jp, pst);
    assert(t.trees@[t.entry(0, jp)].kids() =~= Seq::<Tree>::empty());
    assert(tree_yield(tr) == kids_yield(sub));
    assert(t.input@.subrange(0, n) =~= t.input@);
    assert forall|m: int| 0 <= m < sub.len() implies stands_for(
        rules,
        #[trigger] sub[m],
        rules[pst.rule as int].to[pst.dot + m],
    ) by {
        assert(stands_for(rules, sub[m], sub[m].root()));
        assert(roots(sub)[m] == sub[m].root());
    }
    lemma_extend(t, 0, jp, sub);
    let jf = choose|j: int|
        0 <= j < t.sets@[n]@.len() && {
            let x = #[trigger] t.st(n, j);
            &&& x.rule == pst.rule
            &&& x.dot == pst.dot + sub.len()
            &&& x.origin == pst.origin
            &&& t.trees@[t.entry(n, j)].kids() == t.trees@[t.entry(0, jp)].kids() + sub
        };
    let f = t.entry(n, jf);
    assert(0 <= f < t.states@.len());
    assert(state_ok(rules, t.trees@, t.states@[f], f));
    assert(t.trees@[f].kids() =~= sub);
    assert(tr == Tree::Node(tr.root(), tr.kids()));
    assert(t.trees@[f] == tr);
    assert(roots(sub).len() == sub.len());
    assert(t.accepting(n, jf, g.start));
}

impl Grammar {
    /// For each rule, whether no earlier rule is equal to it.
    fn first_rules(&self) -> (r: Vec<bool>)
        ensures
            r@.len() == self@.rules.len(),
            forall|i: int| 0 <= i < r@.len() ==> #[trigger] r@[i] == is_first(self@.rules, i),
    {
        let ghost rules = self@.rules;
        let mut r: Vec<bool> = Vec::new();
        let mut i: usize = 0;
        while i < self.rules.len()
            invariant
                rules == self@.rules,
                i <= rules.len(),
                r@.len() == i,
                forall|m: int| 0 <= m < i ==> #[trigger] r@[m] == is_first(rules, m),
            decreases rules.len() - i,
        {
            let mut first = true;
            let mut j: usize = 0;
            while j < i
                invariant
                    rules == self@.rules,
                    i < rules.len(),
                    j <= i,
                    first == (forall|m: int| 0 <= m < j ==> rules[m] != rules[i as int]),
                decreases i - j,
            {
                assert(rules[j as int] == self.rules@[j as int]@);
                assert(rules[i as int] == self.rules@[i as int]@);
                if self.rules[j].same(&self.rules[i]) {
                    first = false;
                }
                j = j + 1;
            }
            r.push(first);
            i = i + 1;
        }
        r
    }

    /// Every parse tree of `s`: one tree for each distinct derivation of `s`
    /// from the start nonterminal, none when `s` is not in the language.
    pub fn parse(&self, s: &str) -> (r: Vec<Rc<ParseNode>>)
        requires
            s@.len() < usize::MAX,
        ensures
            lists_parses(self@, s@, trees_of(r@)),
    {
        let input = chars_of(s);
        let n = input.len();
        let ghost rules = self@.rules;
        let n_rules = self.rules.len();
        assert(rules.len() == n_rules);
        assert forall|r: int| 0 <= r < rules.len() implies #[trigger] rules[r].to.len() <= usize::MAX by {
            broadcast use vstd::std_specs::vec::axiom_spec_len;
            assert(rules[r].to.len() == self.rules@[r].to@.len());
            assert(self.rules@[r].to.len() == self.rules@[r].to@.len());
        }
        let firsts = self.first_rules();
        let mut table = EarleyTable::new(n + 1, firsts, Ghost(rules), Ghost(input@));
        assert(table.wf());
        let mut r: usize = 0;
        while r < self.rules.len()
            invariant
                table.wf(),
                table.rules@ == rules,
                rules == self@.rules,
                table.input@ == input@,
                table.sets@.len() == n + 1,
                r <= rules.len(),
                forall|r2: int| 0 <= r2 < r && rules[r2].from == self@.start && is_first(rules, r2) ==> #[trigger] table.has(0, fresh(r2, 0)),
            decreases rules.len() - r,
        {
            assert(rules[r as int] == self.rules@[r as int]@);
            if self.rules[r].from.name == self.start.name && table.firsts[r] {
                let st = EarleyState::new(r, 0, 0);
                proof {
                    lemma_fresh_ok(&table, r as int, 0, st);
                }
                let ghost before = table;
                table.add(0, st);
                proof {
                    assert forall|r2: int| 0 <= r2 < r && rules[r2].from == self@.start && is_first(rules, r2) implies #[trigger] table.has(0, fresh(r2, 0)) by {
                        lemma_has_grows(&before, &table, 0, 0, fresh(r2, 0));
                    }
                }
            }
            r = r + 1;
        }
        let mut k: usize = 0;
        while k <= n
            invariant
                table.wf(),
                table.rules@ == rules,
                rules == self@.rules,
                table.input@ == input@,
                n == input@.len(),
                n < usize::MAX,
                table.sets@.len() == n + 1,
                k <= n + 1,
                forall|r2: int| 0 <= r2 < rules.len() && rules[r2].from == self@.start && is_first(rules, r2) ==> #[trigger] table.has(0, fresh(r2, 0)),
                forall|k2: int| 0 <= k2 < k ==> #[trigger] table.closed_upto(k2, table.sets@[k2]@.len() as int),
            decreases n + 1 - k,
        {
            let mut p: usize = 0;
            while p < table.sets[k].len()
                invariant
                    table.wf(),
                    table.rules@ == rules,
                    rules == self@.rules,
                    table.input@ == input@,
                    n == input@.len(),
                    n < usize::MAX,
                    table.sets@.len() == n + 1,
                    k <= n,
                    p <= table.sets@[k as int]@.len(),
                    forall|r2: int| 0 <= r2 < rules.len() && rules[r2].from == self@.start && is_first(rules, r2) ==> #[trigger] table.has(0, fresh(r2, 0)),
                    forall|k2: int| 0 <= k2 < k ==> #[trigger] table.closed_upto(k2, table.sets@[k2]@.len() as int),
                    table.closed_upto(k as int, p as int),
                decreases usize::MAX - p,
            {
                let ghost t0 = table;
                self.prediction(&mut table, k, p);
                let ghost t1 = table;
                if k < n {
                    self.scan(&mut table, k, p, input[k]);
                }
                let ghost t2 = table;
                self.complete(&mut table, k, p);
                proof {
                    lemma_round_closed(&t0, &t1, &t2, &table, k as int, p as int);
                    assert forall|r2: int| 0 <= r2 < rules.len() && rules[r2].from == self@.start && is_first(rules, r2) implies #[trigger] table.has(0, fresh(r2, 0)) by {
                        lemma_has_grows(&t0, &table, k as int, 0, fresh(r2, 0));
                    }
                    assert forall|k2: int| 0 <= k2 < k implies #[trigger] table.closed_upto(k2, table.sets@[k2]@.len() as int) by {
                        assert(table.sets@[k2]@ == t0.sets@[k2]@);
                        assert(t0.closed_upto(k2, t0.sets@[k2]@.len() as int));
                        lemma_closed_grows(&t0, &table, k as int, k2, t0.sets@[k2]@.len() as int);
                    }
                }
                p = p + 1;
            }
            k = k + 1;
        }
        assert(table.closed());
        let mut result: Vec<Rc<ParseNode>> = Vec::new();
        let ghost mut src: Seq<int> = Seq::empty();
        let mut j: usize = 0;
        while j < table.sets[n].len()
            invariant
                table.wf(),
                table.rules@ == rules,
                rules == self@.rules,
                table.input@ == input@,
                input@ == s@,
                n == input@.len(),
                table.sets@.len() == n + 1,
                table.closed(),
                forall|r2: int| 0 <= r2 < rules.len() && rules[r2].from == self@.start && is_first(rules, r2) ==> #[trigger] table.has(0, fresh(r2, 0)),
                j <= table.sets@[n as int]@.len(),
                src.len() == result@.len(),
                forall|i: int| 0 <= i < src.len() ==> 0 <= #[trigger] src[i] < j && table.accepting(n as int, src[i], self@.start)
                    && result@[i].tree() == table.trees@[table.entry(n as int, src[i])],
                forall|i1: int, i2: int| 0 <= i1 < i2 < result@.len() ==> (#[trigger] result@[i1]).tree() != (#[trigger] result@[i2]).tree(),
                forall|i: int| 0 <= i < result@.len() ==> is_parse(self@, s@, (#[trigger] result@[i]).tree()),
                forall|j2: int| 0 <= j2 < j && table.accepting(n as int, j2, self@.start) ==> exists|i: int| 0 <= i < result@.len() && #[trigger] result@[i].tree() == table.trees@[table.entry(n as int, j2)],
            decreases table.sets@[n as int]@.len() - j,
        {
            assert(0 <= table.entry(n as int, j as int) < table.states@.len());
            let idx = table.sets[n][j];
            let st = &table.states[idx];
            assert(state_ok(rules, table.trees@, table.states@[idx as int], idx as int));
            assert(rules[st.rule as int] == self.rules@[st.rule as int]@);
            if st.is_finished(self) && st.origin == 0 && self.rules[st.rule].from.name == self.start.name {
                let tree = build_parse_tree(&table, idx, self);
                proof {
                    lemma_finished_derives(rules, table.trees@, *st, idx as int);
                    assert(spans(rules, table.trees@, input@, table.st(n as int, j as int), n as int));
                    assert(input@.subrange(0, n as int) =~= input@);
                }
                let ghost prev = result@;
                let ghost prev_src = src;
                result.push(tree);
                proof {
                    src = src.push(j as int);
                    assert(table.accepting(n as int, j as int, self@.start));
                    assert forall|i: int| 0 <= i < src.len() implies 0 <= #[trigger] src[i] < j + 1 && table.accepting(n as int, src[i], self@.start)
                        && result@[i].tree() == table.trees@[table.entry(n as int, src[i])] by {
                        if i < prev_src.len() {
                            assert(src[i] == prev_src[i]);
                            assert(result@[i] == prev[i]);
                        }
                    }
                    assert forall|i1: int, i2: int| 0 <= i1 < i2 < result@.len() implies (#[trigger] result@[i1]).tree() != (#[trigger] result@[i2]).tree() by {
                        if i2 < prev.len() {
                            assert(result@[i1] == prev[i1]);
                            assert(result@[i2] == prev[i2]);
                        } else {
                            assert(result@[i1] == prev[i1]);
                            assert(src[i1] == prev_src[i1]);
                            if result@[i1].tree() == result@[i2].tree() {
                                assert(table.st(n as int, src[i1]).origin == 0);
                                lemma_unique_tree(&table, n as int, src[i1], j as int);
                            }
                        }
                    }
                    assert forall|j2: int| 0 <= j2 < j + 1 && table.accepting(n as int, j2, self@.start) implies exists|i: int| 0 <= i < result@.len() && #[trigger] result@[i].tree() == table.trees@[table.entry(n as int, j2)] by {
                        if j2 < j {
                            let i = choose|i: int| 0 <= i < prev.len() && #[trigger] prev[i].tree() == table.trees@[table.entry(n as int, j2)];
                            assert(result@[i] == prev[i]);
                        } else {
                            assert(result@[prev.len() as int] == tree);
                        }
                    }
                }
            }
            j = j + 1;
        }
        assert forall|t: Tree| is_parse(self@, s@, t) implies exists|i: int| 0 <= i < result@.len() && (#[trigger] result@[i]).tree() == t by {
            lemma_complete(&table, self@, t);
            let j2 = choose|j2: int| 0 <= j2 < table.sets@[n as int]@.len() && #[trigger] table.accepting(n as int, j2, self@.start)
                && table.trees@[table.entry(n as int, j2)] == t;
            assert(table.accepting(n as int, j2, self@.start));
        }
        proof {
            let ts = trees_of(result@);
            assert forall|t: Tree| is_parse(self@, s@, t) implies ts.contains(t) by {
                let i = choose|i: int| 0 <= i < result@.len() && (#[trigger] result@[i]).tree() == t;
                assert(ts[i] == t);
            }
            assert forall|i1: int, i2: int| 0 <= i1 < ts.len() && 0 <= i2 < ts.len() && i1 != i2 implies ts[i1] != ts[i2] by {
                if i1 < i2 {
                    assert(result@[i1].tree() != result@[i2].tree());
                } else {
                    assert(result@[i2].tree() != result@[i1].tree());
                }
            }
            assert forall|i: int| 0 <= i < ts.len() implies is_parse(self@, s@, #[trigger] ts[i]) by {
                assert(is_parse(self@, s@, result@[i].tree()));
            }
        }
        result
    }
}

} // verus!
