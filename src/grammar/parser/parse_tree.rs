use std::rc::Rc;

use vstd::prelude::*;

use crate::grammar::{label_of, Grammar, NonTerminal, RuleModel, Symbol, Token};

use super::{nt_count, prefix_kids, state_ok, EarleyTable};
use crate::text::push_char;

verus! {

broadcast use vstd::std_specs::vec::axiom_vec_index_decreases;

/// A derivation tree: a symbol and its ordered subtrees. A terminal is a
/// leaf; a nonterminal's subtrees follow one rule of the grammar, and are
/// none for an empty production.
pub enum Tree {
    Node(Symbol, Seq<Tree>),
}

impl Tree {
    /// The symbol at the root.
    pub open spec fn root(self) -> Symbol {
        match self {
            Tree::Node(s, _) => s,
        }
    }

    /// The subtrees of the root, in order.
    pub open spec fn kids(self) -> Seq<Tree> {
        match self {
            Tree::Node(_, k) => k,
        }
    }
}

/// The leaf of a terminal.
pub open spec fn leaf(c: char) -> Tree {
    Tree::Node(Symbol::T(c), Seq::empty())
}

/// The root symbols of a sequence of trees.
pub open spec fn roots(ts: Seq<Tree>) -> Seq<Symbol> {
    ts.map_values(|t: Tree| t.root())
}

/// The terminals at the leaves of a tree, left to right.
pub open spec fn tree_yield(t: Tree) -> Seq<char>
    decreases t,
{
    match t {
        Tree::Node(Symbol::T(c), _) => seq![c],
        Tree::Node(Symbol::N(_), kids) => kids_yield(kids),
    }
}

/// The terminals at the leaves of a sequence of trees, left to right.
pub open spec fn kids_yield(ts: Seq<Tree>) -> Seq<char>
    decreases ts,
{
    if ts.len() == 0 {
        Seq::empty()
    } else {
        kids_yield(ts.drop_last()) + tree_yield(ts.last())
    }
}

/// Whether `t` stands for `sym` in a derivation: a terminal as a bare leaf,
/// a nonterminal as a derivation tree of it.
pub open spec fn stands_for(rules: Seq<RuleModel>, t: Tree, sym: Symbol) -> bool
    decreases t, 1nat,
{
    t.root() == sym && match sym {
        Symbol::T(_) => t.kids().len() == 0,
        Symbol::N(_) => derives(rules, t),
    }
}

/// Whether `t` is a derivation tree under `rules`: its root is a nonterminal
/// that one of the rules rewrites into the roots of its subtrees, and each
/// subtree stands for its root in turn.
pub open spec fn derives(rules: Seq<RuleModel>, t: Tree) -> bool
    decreases t, 0nat,
{
    match t {
        Tree::Node(Symbol::N(a), kids) => rules.contains(RuleModel { from: a, to: roots(kids) })
            && forall|j: int| 0 <= j < kids.len() ==> stands_for(rules, #[trigger] kids[j], kids[j].root()),
        Tree::Node(Symbol::T(_), _) => false,
    }
}

/// A node of a parse tree: a token and its ordered children. A terminal is
/// a leaf; a nonterminal without children matched the empty string.
pub struct ParseNode {
    pub token: Token,
    pub children: Vec<Rc<ParseNode>>,
}

impl ParseNode {
    /// The derivation tree that the node and its descendants form.
    pub open spec fn tree(&self) -> Tree
        decreases self,
    {
        Tree::Node(
            self.token@,
            Seq::new(
                self.children@.len(),
                |i: int|
                    if 0 <= i < self.children@.len() {
                        self.children@[i].tree()
                    } else {
                        leaf(' ')
                    },
            ),
        )
    }
}

/// The parse tree of the chart entry `idx`: the node of its rule's
/// left-hand side, with a leaf for each terminal of the rule and the tree of
/// the matching child entry for each nonterminal, in the rule's order.
pub(crate) fn build_parse_tree(table: &EarleyTable, idx: usize, g: &Grammar) -> (r: Rc<ParseNode>)
    requires
        table.wf(),
        table.rules_view() == g@.rules,
        idx < table.size(),
    ensures
        r.tree() == table.tree_at(idx as int),
    decreases idx,
{
    let ghost rules = table.rules@;
    let ghost trees = table.trees@;
    assert(state_ok(rules, trees, table.states@[idx as int], idx as int));
    let st = &table.states[idx];
    let rule = &g.rules[st.rule];
    assert(rules[st.rule as int] == g.rules@[st.rule as int]@);
    let ghost to = rules[st.rule as int].to;
    let ghost kids = prefix_kids(trees, to, st.dot as nat, st.children@);
    let mut node_children: Vec<Rc<ParseNode>> = Vec::new();
    let mut c: usize = 0;
    let mut i: usize = 0;
    while i < st.dot
        invariant
            table.wf(),
            table.rules@ == g@.rules,
            rules == table.rules@,
            trees == table.trees@,
            idx < table.states@.len(),
            state_ok(rules, trees, *st, idx as int),
            *st == table.states@[idx as int],
            *rule == g.rules@[st.rule as int],
            to == rule@.to,
            kids == prefix_kids(trees, to, st.dot as nat, st.children@),
            i <= st.dot,
            c == nt_count(to, i as int),
            node_children@.len() == i,
            forall|m: int| 0 <= m < i ==> (#[trigger] node_children@[m]).tree() == kids[m],
        decreases st.dot - i,
    {
        assert(to[i as int] == rule.to@[i as int]@);
        match &rule.to[i] {
            Token::T(t) => {
                let leaf_node = Rc::new(ParseNode { token: Token::T(*t), children: Vec::new() });
                assert(leaf_node.tree().kids() =~= Seq::<Tree>::empty());
                node_children.push(leaf_node);
            },
            Token::NT(_) => {
                proof {
                    super::lemma_nt_count_lt(to, i as int, st.dot as int);
                }
                let n_children = st.children.len();
                assert(c < n_children);
                let child = st.children[c];
                let sub = build_parse_tree(table, child, g);
                node_children.push(sub);
                c = c + 1;
            },
        }
        i = i + 1;
    }
    let node = Rc::new(
        ParseNode {
            token: Token::NT(NonTerminal { name: rule.from.name.clone() }),
            children: node_children,
        },
    );
    assert(node.tree().kids() =~= kids);
    node
}

/// The label of the vertex that stands for an empty match.
pub open spec fn empty_label() -> Seq<char> {
    seq!['\u{3bb}']
}

/// The decimal digits of `n`.
pub open spec fn decimal(n: nat) -> Seq<char>
    decreases n,
{
    if n < 10 {
        seq![digit(n)]
    } else {
        decimal(n / 10).push(digit(n % 10))
    }
}

/// The decimal digit for `d < 10`.
pub open spec fn digit(d: nat) -> char {
    if d == 0 {
        '0'
    } else if d == 1 {
        '1'
    } else if d == 2 {
        '2'
    } else if d == 3 {
        '3'
    } else if d == 4 {
        '4'
    } else if d == 5 {
        '5'
    } else if d == 6 {
        '6'
    } else if d == 7 {
        '7'
    } else if d == 8 {
        '8'
    } else {
        '9'
    }
}

fn digit_char(d: usize) -> (c: char)
    ensures
        c == digit(d as nat),
{
    if d == 0 {
        '0'
    } else if d == 1 {
        '1'
    } else if d == 2 {
        '2'
    } else if d == 3 {
        '3'
    } else if d == 4 {
        '4'
    } else if d == 5 {
        '5'
    } else if d == 6 {
        '6'
    } else if d == 7 {
        '7'
    } else if d == 8 {
        '8'
    } else {
        '9'
    }
}

/// The line that declares vertex `id` with a label.
pub open spec fn vertex_line(id: nat, label: Seq<char>) -> Seq<char> {
    decimal(id) + " [label=\""@ + label + "\"]\n"@
}

/// The line of an edge from vertex `from` to vertex `to`.
pub open spec fn edge_line(from: nat, to: nat) -> Seq<char> {
    decimal(from) + " -> "@ + decimal(to) + "\n"@
}

/// The edge lines from `parent` to each of `ids`, in order.
pub open spec fn edge_lines(parent: nat, ids: Seq<nat>) -> Seq<char>
    decreases ids.len(),
{
    if ids.len() == 0 {
        Seq::empty()
    } else {
        edge_lines(parent, ids.drop_last()) + edge_line(parent, ids.last())
    }
}

/// The graph text of the tree `t` with its vertices numbered from `id` on
/// in post-order, and the next free number. The root's number is the last
/// one used. A nonterminal without children gets one child vertex labelled
/// with the empty-match sign.
pub open spec fn subtree_dot(t: Tree, id: nat) -> (Seq<char>, nat)
    decreases t, 1nat, 0nat,
{
    match t {
        Tree::Node(sym, kids) => if kids.len() == 0 {
            if sym is N {
                (
                    vertex_line(id, empty_label()) + vertex_line(id + 1, label_of(sym)) + edge_line(
                        id + 1,
                        id,
                    ),
                    id + 2,
                )
            } else {
                (vertex_line(id, label_of(sym)), id + 1)
            }
        } else {
            let (text, ids, next) = kids_dot(t, kids.len(), id);
            (text + vertex_line(next, label_of(sym)) + edge_lines(next, ids), next + 1)
        },
    }
}

/// The graph text of the first `n` subtrees of `t`, numbered from `id` on,
/// with the numbers of their roots and the next free number.
pub open spec fn kids_dot(t: Tree, n: nat, id: nat) -> (Seq<char>, Seq<nat>, nat)
    decreases t, 0nat, n,
{
    if n == 0 || n > t.kids().len() {
        (Seq::empty(), Seq::empty(), id)
    } else {
        let (text, ids, next) = kids_dot(t, (n - 1) as nat, id);
        let (kt, knext) = subtree_dot(t.kids()[n - 1], next);
        (text + kt, ids.push((knext - 1) as nat), knext)
    }
}

/// The graph text of a whole tree.
pub open spec fn tree_dot(t: Tree) -> Seq<char> {
    "digraph G{\n"@ + subtree_dot(t, 0).0 + "}"@
}

proof fn lemma_subtree_dot_grows(t: Tree, id: nat)
    ensures
        subtree_dot(t, id).1 > id,
    decreases t,
{
    if t.kids().len() > 0 {
        lemma_kids_dot_grows(t, t.kids().len(), id);
    }
}

proof fn lemma_kids_dot_grows(t: Tree, n: nat, id: nat)
    requires
        n <= t.kids().len(),
    ensures
        kids_dot(t, n, id).2 >= id,
        forall|m: nat| m <= n ==> (#[trigger] kids_dot(t, m, id)).2 <= kids_dot(t, n, id).2,
    decreases t, n,
{
    if n > 0 {
        lemma_kids_dot_grows(t, (n - 1) as nat, id);
        lemma_subtree_dot_grows(t.kids()[n - 1], kids_dot(t, (n - 1) as nat, id).2);
    }
}

fn push_decimal(s: &mut String, n: usize)
    ensures
        final(s)@ == old(s)@ + decimal(n as nat),
    decreases n,
{
    if n >= 10 {
        push_decimal(s, n / 10);
    }
    push_char(s, digit_char(n % 10));
    assert(old(s)@ + decimal(n as nat) =~= final(s)@);
}

fn push_vertex(s: &mut String, id: usize, token: Option<&Token>)
    ensures
        final(s)@ == old(s)@ + vertex_line(
            id as nat,
            match token {
                Some(t) => label_of(t@),
                None => empty_label(),
            },
        ),
{
    push_decimal(s, id);
    s.append(" [label=\"");
    match token {
        Some(t) => t.push_label(s),
        None => push_char(s, '\u{3bb}'),
    }
    s.append("\"]\n");
    assert(final(s)@ =~= old(s)@ + vertex_line(
        id as nat,
        match token {
            Some(t) => label_of(t@),
            None => empty_label(),
        },
    ));
}

fn push_edge(s: &mut String, from: usize, to: usize)
    ensures
        final(s)@ == old(s)@ + edge_line(from as nat, to as nat),
{
    push_decimal(s, from);
    s.append(" -> ");
    push_decimal(s, to);
    s.append("\n");
    assert(final(s)@ =~= old(s)@ + edge_line(from as nat, to as nat));
}

/// Writes the graph text of the subtree at `node`, numbering its vertices
/// from `*current_id` on, and returns the number of its root.
fn write_subtree_to_dot(to: &mut String, node: &ParseNode, current_id: &mut usize) -> (r: usize)
    requires
        subtree_dot(node.tree(), *old(current_id) as nat).1 <= usize::MAX,
    ensures
        final(to)@ == old(to)@ + subtree_dot(node.tree(), *old(current_id) as nat).0,
        *final(current_id) == subtree_dot(node.tree(), *old(current_id) as nat).1,
        r + 1 == *final(current_id),
    decreases node,
{
    let ghost t = node.tree();
    let ghost id0 = *current_id as nat;
    let mut children_ids: Vec<usize> = Vec::new();
    if node.children.len() == 0 {
        if let Token::NT(_) = node.token {
            push_vertex(to, *current_id, None);
            children_ids.push(*current_id);
            *current_id = *current_id + 1;
        }
    } else {
        let mut i: usize = 0;
        proof {
            lemma_kids_dot_grows(t, t.kids().len(), id0);
        }
        while i < node.children.len()
            invariant
                t == node.tree(),
                t.kids().len() == node.children@.len(),
                i <= node.children@.len(),
                subtree_dot(t, id0).1 <= usize::MAX,
                subtree_dot(t, id0).1 == kids_dot(t, t.kids().len(), id0).2 + 1,
                forall|m: nat| m <= t.kids().len() ==> (#[trigger] kids_dot(t, m, id0)).2 <= kids_dot(t, t.kids().len(), id0).2,
                to@ == old(to)@ + kids_dot(t, i as nat, id0).0,
                *current_id == kids_dot(t, i as nat, id0).2,
                children_ids@.map_values(|c: usize| c as nat) == kids_dot(t, i as nat, id0).1,
            decreases node.children@.len() - i,
        {
            let ghost before = to@;
            let ghost next = *current_id as nat;
            proof {
                lemma_kids_dot_grows(t, (i + 1) as nat, id0);
                assert(t.kids()[i as int] == node.children@[i as int].tree());
            }
            let cid = write_subtree_to_dot(to, &node.children[i], current_id);
            let ghost prev_ids = children_ids@;
            children_ids.push(cid);
            assert(children_ids@.map_values(|c: usize| c as nat) =~= prev_ids.map_values(|c: usize| c as nat).push(cid as nat));
            i = i + 1;
        }
    }
    let our_id = *current_id;
    *current_id = *current_id + 1;
    push_vertex(to, our_id, Some(&node.token));
    let ghost mid = to@;
    let mut j: usize = 0;
    while j < children_ids.len()
        invariant
            j <= children_ids@.len(),
            to@ == mid + edge_lines(our_id as nat, children_ids@.map_values(|c: usize| c as nat).take(j as int)),
        decreases children_ids@.len() - j,
    {
        let ghost ids = children_ids@.map_values(|c: usize| c as nat);
        push_edge(to, our_id, children_ids[j]);
        assert(ids.take(j + 1).drop_last() =~= ids.take(j as int));
        j = j + 1;
    }
    assert(children_ids@.map_values(|c: usize| c as nat).take(children_ids@.len() as int) =~= children_ids@.map_values(|c: usize| c as nat));
    proof {
        if node.children@.len() == 0 {
            if node.token is NT {
                assert(children_ids@.map_values(|c: usize| c as nat) =~= seq![id0]);
                assert(edge_lines(our_id as nat, seq![id0]) == edge_line(our_id as nat, id0)) by {
                    assert(seq![id0].drop_last() =~= Seq::<nat>::empty());
                    assert(edge_lines(our_id as nat, Seq::<nat>::empty()) == Seq::<char>::empty());
                    assert(Seq::<char>::empty() + edge_line(our_id as nat, id0) =~= edge_line(our_id as nat, id0));
                }
            } else {
                assert(children_ids@.map_values(|c: usize| c as nat) =~= Seq::<nat>::empty());
            }
        }
    }
    our_id
}

/// Writes the graph text of the tree at `root` after what `to` holds: a
/// directed graph with one labelled vertex per node and one edge from each
/// node to each of its children.
pub fn write_tree_to_dot(to: &mut String, root: &ParseNode)
    requires
        subtree_dot(root.tree(), 0).1 <= usize::MAX,
    ensures
        final(to)@ == old(to)@ + tree_dot(root.tree()),
{
    to.append("digraph G{\n");
    let mut curr_id: usize = 0;
    write_subtree_to_dot(to, root, &mut curr_id);
    to.append("}");
    assert(final(to)@ =~= old(to)@ + tree_dot(root.tree()));
}

} // verus!
