//! Properties of the parser's results that hold for every grammar and input.

use vstd::prelude::*;

use crate::grammar::{derives, is_parse, lists_parses, tree_yield, GrammarModel, RuleModel, Symbol, Tree};

verus! {

/// The parses of `s` under `g`.
pub open spec fn parse_set(g: GrammarModel, s: Seq<char>) -> Set<Tree> {
    Set::new(|t: Tree| is_parse(g, s, t))
}

/// Every tree that `parse` returns spells the input: its terminal leaves,
/// read left to right, are exactly `s`.
pub proof fn lemma_parses_spell_input(g: GrammarModel, s: Seq<char>, ts: Seq<Tree>)
    requires
        lists_parses(g, s, ts),
    ensures
        forall|i: int| 0 <= i < ts.len() ==> tree_yield(#[trigger] ts[i]) == s,
{
    assert forall|i: int| 0 <= i < ts.len() implies tree_yield(#[trigger] ts[i]) == s by {
        assert(is_parse(g, s, ts[i]));
    }
}

/// `parse` returns as many trees as `s` has distinct derivations from the
/// start nonterminal; in particular there are finitely many of them.
pub proof fn lemma_parse_count(g: GrammarModel, s: Seq<char>, ts: Seq<Tree>)
    requires
        lists_parses(g, s, ts),
    ensures
        parse_set(g, s) == ts.to_set(),
        parse_set(g, s).finite(),
        ts.len() == parse_set(g, s).len(),
{
    broadcast use vstd::seq_lib::seq_to_set_is_finite;

    assert forall|t: Tree| parse_set(g, s).contains(t) <==> ts.to_set().contains(t) by {
        if ts.contains(t) {
            let i = choose|i: int| 0 <= i < ts.len() && ts[i] == t;
            assert(is_parse(g, s, ts[i]));
        }
    }
    assert(parse_set(g, s) =~= ts.to_set());
    ts.unique_seq_to_set();
}

/// A string outside the language, prefixes and extensions of valid strings
/// included, gets no tree; a string of the language gets at least one.
pub proof fn lemma_rejects_outside_language(g: GrammarModel, s: Seq<char>, ts: Seq<Tree>)
    requires
        lists_parses(g, s, ts),
    ensures
        (forall|t: Tree| !is_parse(g, s, t)) ==> ts.len() == 0,
        (exists|t: Tree| is_parse(g, s, t)) ==> ts.len() >= 1,
{
    if ts.len() > 0 {
        assert(is_parse(g, s, ts[0]));
    }
    if exists|t: Tree| is_parse(g, s, t) {
        let t = choose|t: Tree| is_parse(g, s, t);
        assert(ts.contains(t));
    }
}

/// A nonterminal with an empty production matches the empty string: the
/// node of that nonterminal without children is a derivation tree exactly
/// when the grammar has the empty production, and it spells nothing.
pub proof fn lemma_empty_production(rules: Seq<RuleModel>, a: Seq<char>)
    ensures
        derives(rules, Tree::Node(Symbol::N(a), Seq::empty())) <==> rules.contains(
            RuleModel { from: a, to: Seq::empty() },
        ),
        tree_yield(Tree::Node(Symbol::N(a), Seq::empty())) == Seq::<char>::empty(),
{
    let t = Tree::Node(Symbol::N(a), Seq::<Tree>::empty());
    assert(crate::grammar::roots(t.kids()) =~= Seq::<Symbol>::empty());
    assert(crate::grammar::kids_yield(Seq::<Tree>::empty()) == Seq::<char>::empty());
}

/// In a derivation tree, every nonterminal node without children matched the
/// empty string through an empty production of its nonterminal.
pub proof fn lemma_childless_nodes(rules: Seq<RuleModel>, t: Tree)
    requires
        derives(rules, t),
        t.kids().len() == 0,
    ensures
        t.root() matches Symbol::N(a) && rules.contains(RuleModel { from: a, to: Seq::empty() }),
        tree_yield(t) == Seq::<char>::empty(),
{
    if let Symbol::N(a) = t.root() {
        assert(crate::grammar::roots(t.kids()) =~= Seq::<Symbol>::empty());
        assert(crate::grammar::kids_yield(t.kids()) == Seq::<char>::empty());
    }
}

/// Each subtree of a derivation tree stands for its own root: a terminal
/// as a bare leaf, a nonterminal as a derivation tree, so the laws above on
/// childless nodes apply at every position of a result.
pub proof fn lemma_subtrees_derive(rules: Seq<RuleModel>, t: Tree, j: int)
    requires
        derives(rules, t),
        0 <= j < t.kids().len(),
    ensures
        t.kids()[j].root() is N ==> derives(rules, t.kids()[j]),
        t.kids()[j].root() is T ==> t.kids()[j].kids().len() == 0,
{
    assert(crate::grammar::stands_for(rules, t.kids()[j], t.kids()[j].root()));
}

/// Two runs of `parse` on the same grammar and input return the same trees,
/// and as many, whatever the order.
pub proof fn lemma_parse_count_repeatable(
    g: GrammarModel,
    s: Seq<char>,
    ts1: Seq<Tree>,
    ts2: Seq<Tree>,
)
    requires
        lists_parses(g, s, ts1),
        lists_parses(g, s, ts2),
    ensures
        ts1.to_set() == ts2.to_set(),
        ts1.len() == ts2.len(),
{
    lemma_parse_count(g, s, ts1);
    lemma_parse_count(g, s, ts2);
}

} // verus!
