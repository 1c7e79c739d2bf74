use vstd::prelude::*;

mod parser;

pub use parser::{
    decimal, derives, digit, edge_line, edge_lines, empty_label, is_parse, kids_dot, kids_yield, leaf,
    lists_parses, roots, stands_for, subtree_dot, tree_dot, tree_yield, trees_of, vertex_line,
    write_tree_to_dot, ParseNode, Tree,
};

use crate::text::{chars_of, lines_of, push_char, split_lines, split_words, string_of, views_of, words_of};

verus! {

/// A named grammar symbol that expands through the grammar's rules.
/// Two nonterminals are the same symbol exactly when their names agree.
pub struct NonTerminal {
    pub name: String,
}

/// An input symbol that matches itself.
#[derive(Clone, Copy, Debug, PartialEq, Eq, Structural)]
pub struct Terminal {
    pub content: char,
}

/// A grammar symbol: a nonterminal or a terminal.
pub enum Token {
    NT(NonTerminal),
    T(Terminal),
}

/// The mathematical view of a token: a nonterminal is its name, a terminal
/// its character.
pub enum Symbol {
    N(Seq<char>),
    T(char),
}

/// A production rule `from -> to`; an empty `to` is an empty production.
pub struct Rule {
    pub from: NonTerminal,
    pub to: Vec<Token>,
}

/// The mathematical view of a rule.
pub struct RuleModel {
    pub from: Seq<char>,
    pub to: Seq<Symbol>,
}

/// A context-free grammar: its rules, in the order of the text, its start
/// nonterminal, and the tables of the nonterminals and terminals it uses,
/// each symbol once.
pub struct Grammar {
    nonterminals: Vec<NonTerminal>,
    terminals: Vec<Terminal>,
    rules: Vec<Rule>,
    start: NonTerminal,
}

/// The mathematical view of a grammar.
pub struct GrammarModel {
    pub rules: Seq<RuleModel>,
    pub start: Seq<char>,
}

/// Why a grammar text was refused.
#[derive(Debug, PartialEq, Eq, Structural)]
pub enum ParseError {
    /// The rule line with this index (counted from the line after the start
    /// line, from zero) is not of the form `LHS -> TOKENS`.
    InvalidRule { line_num: usize },
    /// The text is empty.
    MissingStart,
    /// The first line is not a bare nonterminal.
    InvalidStart,
}

impl View for NonTerminal {
    type V = Seq<char>;

    open spec fn view(&self) -> Seq<char> {
        self.name@
    }
}

impl NonTerminal {
    /// The nonterminal's name.
    pub fn name(&self) -> (r: &str)
        ensures
            r@ == self@,
    {
        self.name.as_str()
    }
}

impl View for Token {
    type V = Symbol;

    open spec fn view(&self) -> Symbol {
        match self {
            Token::NT(n) => Symbol::N(n.name@),
            Token::T(t) => Symbol::T(t.content),
        }
    }
}

/// The symbols of a list of tokens.
pub open spec fn symbols_of(v: Seq<Token>) -> Seq<Symbol> {
    v.map_values(|t: Token| t@)
}

impl View for Rule {
    type V = RuleModel;

    open spec fn view(&self) -> RuleModel {
        RuleModel { from: self.from.name@, to: symbols_of(self.to@) }
    }
}

/// The views of a list of rules.
pub open spec fn rules_of(v: Seq<Rule>) -> Seq<RuleModel> {
    v.map_values(|r: Rule| r@)
}

impl View for Grammar {
    type V = GrammarModel;

    closed spec fn view(&self) -> GrammarModel {
        GrammarModel { rules: rules_of(self.rules@), start: self.start.name@ }
    }
}

/// The letters that spell nonterminal names.
/// The names of a list of nonterminals.
pub open spec fn names_of(v: Seq<NonTerminal>) -> Seq<Seq<char>> {
    v.map_values(|n: NonTerminal| n@)
}

/// The characters of a list of terminals.
pub open spec fn contents_of(v: Seq<Terminal>) -> Seq<char> {
    v.map_values(|t: Terminal| t.content)
}

/// One of the rules has `a` on its left or its right.
pub open spec fn rules_mention_nonterminal(rules: Seq<RuleModel>, a: Seq<char>) -> bool
    decreases rules.len(),
{
    rules.len() > 0 && (rules_mention_nonterminal(rules.drop_last(), a) || rules.last().from == a
        || rules.last().to.contains(Symbol::N(a)))
}

/// One of the rules has `c` on its right.
pub open spec fn rules_mention_terminal(rules: Seq<RuleModel>, c: char) -> bool
    decreases rules.len(),
{
    rules.len() > 0 && (rules_mention_terminal(rules.drop_last(), c) || rules.last().to.contains(
        Symbol::T(c),
    ))
}

/// The grammar uses the nonterminal `a`: it is the start, or a rule's
/// left-hand side, or stands on the right of a rule.
pub open spec fn uses_nonterminal(g: GrammarModel, a: Seq<char>) -> bool {
    a == g.start || rules_mention_nonterminal(g.rules, a)
}

/// The grammar uses the terminal `c` on the right of a rule.
pub open spec fn uses_terminal(g: GrammarModel, c: char) -> bool {
    rules_mention_terminal(g.rules, c)
}

/// `nts` and `ts` list the nonterminals and terminals that `g` uses, each
/// exactly once.
pub open spec fn symbol_tables(g: GrammarModel, nts: Seq<Seq<char>>, ts: Seq<char>) -> bool {
    &&& nts.no_duplicates()
    &&& ts.no_duplicates()
    &&& forall|a: Seq<char>| #[trigger] nts.contains(a) <==> uses_nonterminal(g, a)
    &&& forall|c: char| #[trigger] ts.contains(c) <==> uses_terminal(g, c)
}

pub open spec fn is_upper(c: char) -> bool {
    'A' as u32 <= c as u32 <= 'Z' as u32
}

/// The characters that stand for themselves in a rule.
pub open spec fn is_terminal_char(c: char) -> bool {
    let u = c as u32;
    ('a' as u32 <= u <= 'z' as u32) || ('0' as u32 <= u <= '9' as u32) || c == '+' || c == '-'
        || c == '*' || c == '/' || c == '(' || c == ')'
}

/// A word that names a nonterminal: one or more upper-case letters.
pub open spec fn is_nonterminal_word(w: Seq<char>) -> bool {
    w.len() > 0 && forall|i: int| 0 <= i < w.len() ==> is_upper(#[trigger] w[i])
}

/// A word that may stand on the right of a rule's arrow.
pub open spec fn is_token_word(w: Seq<char>) -> bool {
    is_nonterminal_word(w) || (w.len() == 1 && is_terminal_char(w[0]))
}

/// The symbol that a token word stands for.
pub open spec fn symbol_of_word(w: Seq<char>) -> Symbol {
    if is_nonterminal_word(w) {
        Symbol::N(w)
    } else {
        Symbol::T(w[0])
    }
}

/// The rule that the words of a line state: a nonterminal, the arrow `->`,
/// then nonterminals and terminal characters.
pub open spec fn rule_of_words(ws: Seq<Seq<char>>) -> Option<RuleModel> {
    if ws.len() >= 2 && is_nonterminal_word(ws[0]) && ws[1] == seq!['-', '>'] && forall|j: int|
        2 <= j < ws.len() ==> is_token_word(#[trigger] ws[j]) {
        Some(RuleModel { from: ws[0], to: ws.skip(2).map_values(|w: Seq<char>| symbol_of_word(w)) })
    } else {
        None
    }
}

/// The rules stated by the lines from `i` on, added to `acc` in order, one
/// for each line, repeats included; blank lines are passed over; the first malformed line is
/// reported with its index counted from the line after the start line.
pub open spec fn rules_from(lines: Seq<Seq<char>>, i: nat, acc: Seq<RuleModel>) -> Result<
    Seq<RuleModel>,
    ParseError,
>
    decreases lines.len() - i,
{
    if i >= lines.len() {
        Ok(acc)
    } else {
        let ws = words_of(lines[i as int]);
        if ws.len() == 0 {
            rules_from(lines, i + 1, acc)
        } else {
            match rule_of_words(ws) {
                None => Err(ParseError::InvalidRule { line_num: (i - 1) as usize }),
                Some(r) => rules_from(lines, i + 1, acc.push(r)),
            }
        }
    }
}

/// The grammar that a text states: its first line holds the start
/// nonterminal alone, each further non-blank line one rule.
pub open spec fn grammar_of(text: Seq<char>) -> Result<GrammarModel, ParseError> {
    if text.len() == 0 {
        Err(ParseError::MissingStart)
    } else {
        let first = words_of(lines_of(text)[0]);
        if !(first.len() == 1 && is_nonterminal_word(first[0])) {
            Err(ParseError::InvalidStart)
        } else {
            match rules_from(lines_of(text), 1, Seq::empty()) {
                Ok(rs) => Ok(GrammarModel { rules: rs, start: first[0] }),
                Err(e) => Err(e),
            }
        }
    }
}

proof fn lemma_lines_nonempty(s: Seq<char>)
    ensures
        lines_of(s).len() >= 1,
    decreases s.len(),
{
    if s.len() > 0 {
        lemma_lines_nonempty(s.drop_last());
    }
}

fn upper(c: char) -> (r: bool)
    ensures
        r == is_upper(c),
{
    'A' <= c && c <= 'Z'
}

fn terminal_char(c: char) -> (r: bool)
    ensures
        r == is_terminal_char(c),
{
    ('a' <= c && c <= 'z') || ('0' <= c && c <= '9') || c == '+' || c == '-' || c == '*' || c
        == '/' || c == '(' || c == ')'
}

fn nonterminal_word(w: &Vec<char>) -> (r: bool)
    ensures
        r == is_nonterminal_word(w@),
{
    if w.len() == 0 {
        return false;
    }
    let mut i: usize = 0;
    while i < w.len()
        invariant
            i <= w@.len(),
            forall|j: int| 0 <= j < i ==> is_upper(#[trigger] w@[j]),
        decreases w@.len() - i,
    {
        if !upper(w[i]) {
            return false;
        }
        i = i + 1;
    }
    true
}

fn token_of_word(w: &Vec<char>) -> (r: Token)
    requires
        is_token_word(w@),
    ensures
        r@ == symbol_of_word(w@),
{
    if nonterminal_word(w) {
        Token::NT(NonTerminal { name: string_of(w) })
    } else {
        Token::T(Terminal { content: w[0] })
    }
}

fn rule_of_line(ws: &Vec<Vec<char>>) -> (r: Option<Rule>)
    ensures
        match r {
            Some(x) => rule_of_words(views_of(ws@)) == Some(x@),
            None => rule_of_words(views_of(ws@)) is None,
        },
{
    let ghost wv = views_of(ws@);
    if ws.len() < 2 {
        return None;
    }
    assert(wv[0] == ws@[0]@ && wv[1] == ws@[1]@);
    if !nonterminal_word(&ws[0]) {
        return None;
    }
    if !(ws[1].len() == 2 && ws[1][0] == '-' && ws[1][1] == '>') {
        assert(wv[1] != seq!['-', '>']) by {
            if wv[1] == seq!['-', '>'] {
                assert(wv[1].len() == 2 && wv[1][0] == '-' && wv[1][1] == '>');
            }
        }
        return None;
    }
    assert(wv[1] =~= seq!['-', '>']);
    let mut to: Vec<Token> = Vec::new();
    let mut j: usize = 2;
    while j < ws.len()
        invariant
            2 <= j <= ws@.len(),
            wv == views_of(ws@),
            forall|k: int| 2 <= k < j ==> is_token_word(#[trigger] wv[k]),
            symbols_of(to@) =~= wv.subrange(2, j as int).map_values(
                |w: Seq<char>| symbol_of_word(w),
            ),
        decreases ws@.len() - j,
    {
        let w = &ws[j];
        assert(wv[j as int] == w@);
        let ok = nonterminal_word(w) || (w.len() == 1 && terminal_char(w[0]));
        if !ok {
            return None;
        }
        let t = token_of_word(w);
        let ghost prev = to@;
        to.push(t);
        assert(symbols_of(to@) =~= symbols_of(prev).push(t@));
        assert(wv.subrange(2, j + 1) =~= wv.subrange(2, j as int).push(w@));
        j = j + 1;
        assert(symbols_of(to@) =~= wv.subrange(2, j as int).map_values(
            |w: Seq<char>| symbol_of_word(w),
        ));
    }
    assert(wv.skip(2) =~= wv.subrange(2, ws@.len() as int));
    Some(Rule { from: NonTerminal { name: string_of(&ws[0]) }, to })
}

/// The text of a symbol: a nonterminal's name, a terminal's character.
pub open spec fn label_of(sym: Symbol) -> Seq<char> {
    match sym {
        Symbol::N(a) => a,
        Symbol::T(c) => seq![c],
    }
}

/// The text of a rule: its left-hand side, an arrow, then each symbol of its
/// right-hand side followed by a space.
pub open spec fn rule_text(r: RuleModel) -> Seq<char> {
    r.from + " -> "@ + symbols_text(r.to)
}

/// The texts of the symbols, each followed by a space.
pub open spec fn symbols_text(syms: Seq<Symbol>) -> Seq<char>
    decreases syms.len(),
{
    if syms.len() == 0 {
        Seq::empty()
    } else {
        symbols_text(syms.drop_last()) + label_of(syms.last()) + " "@
    }
}

/// The names, each followed by a comma and a space.
pub open spec fn names_text(nts: Seq<Seq<char>>) -> Seq<char>
    decreases nts.len(),
{
    if nts.len() == 0 {
        Seq::empty()
    } else {
        names_text(nts.drop_last()) + nts.last() + ", "@
    }
}

/// The characters, each followed by a comma and a space.
pub open spec fn chars_text(ts: Seq<char>) -> Seq<char>
    decreases ts.len(),
{
    if ts.len() == 0 {
        Seq::empty()
    } else {
        chars_text(ts.drop_last()) + seq![ts.last()] + ", "@
    }
}

/// The rule texts, each on a line of its own.
pub open spec fn rules_text(rules: Seq<RuleModel>) -> Seq<char>
    decreases rules.len(),
{
    if rules.len() == 0 {
        Seq::empty()
    } else {
        rules_text(rules.drop_last()) + rule_text(rules.last()) + "\n"@
    }
}

/// The text of a grammar: its tables, its rules and its start.
pub open spec fn grammar_text(
    nts: Seq<Seq<char>>,
    ts: Seq<char>,
    rules: Seq<RuleModel>,
    start: Seq<char>,
) -> Seq<char> {
    "Nonterminals: "@ + names_text(nts) + "\nTerminals: "@ + chars_text(ts) + "\nRules: \n"@
        + rules_text(rules) + "Start: "@ + start
}

impl Token {
    /// Appends the token's text.
    pub fn push_label(&self, s: &mut String)
        ensures
            final(s)@ == old(s)@ + label_of(self@),
    {
        match self {
            Token::NT(n) => {
                s.append(n.name.as_str());
            },
            Token::T(t) => {
                push_char(s, t.content);
                assert(final(s)@ =~= old(s)@ + label_of(self@));
            },
        }
    }

    /// The token's text: a nonterminal's name, a terminal's character.
    pub fn label(&self) -> (r: String)
        ensures
            r@ == label_of(self@),
    {
        let mut s = String::new();
        self.push_label(&mut s);
        assert(s@ =~= label_of(self@));
        s
    }

    /// Whether two tokens are the same symbol.
    pub fn same(&self, other: &Token) -> (r: bool)
        ensures
            r == (self@ == other@),
    {
        match (self, other) {
            (Token::NT(a), Token::NT(b)) => a.name == b.name,
            (Token::T(a), Token::T(b)) => a.content == b.content,
            _ => false,
        }
    }

}

impl Rule {
    /// The rule's text, as `S -> a B `.
    pub fn text(&self) -> (r: String)
        ensures
            r@ == rule_text(self@),
    {
        let mut s = String::new();
        s.append(self.from.name.as_str());
        s.append(" -> ");
        let ghost head = s@;
        let mut i: usize = 0;
        while i < self.to.len()
            invariant
                i <= self.to@.len(),
                head == self.from.name@ + " -> "@,
                s@ == head + symbols_text(symbols_of(self.to@).take(i as int)),
            decreases self.to@.len() - i,
        {
            self.to[i].push_label(&mut s);
            s.append(" ");
            assert(symbols_of(self.to@).take(i + 1).drop_last() =~= symbols_of(self.to@).take(i as int));
            i = i + 1;
            assert(s@ =~= head + symbols_text(symbols_of(self.to@).take(i as int)));
        }
        assert(symbols_of(self.to@).take(self.to@.len() as int) =~= symbols_of(self.to@));
        s
    }

    /// Whether two rules rewrite the same nonterminal into the same symbols.
    pub fn same(&self, other: &Rule) -> (r: bool)
        ensures
            r == (self@ == other@),
    {
        if self.from.name != other.from.name {
            assert(self@.from != other@.from);
            return false;
        }
        if self.to.len() != other.to.len() {
            assert(self@.to.len() != other@.to.len());
            return false;
        }
        let mut i: usize = 0;
        while i < self.to.len()
            invariant
                i <= self.to@.len(),
                self.to@.len() == other.to@.len(),
                forall|k: int| 0 <= k < i ==> self.to@[k]@ == #[trigger] other.to@[k]@,
            decreases self.to@.len() - i,
        {
            if !self.to[i].same(&other.to[i]) {
                assert(symbols_of(self.to@)[i as int] != symbols_of(other.to@)[i as int]);
                return false;
            }
            i = i + 1;
        }
        assert(symbols_of(self.to@) =~= symbols_of(other.to@));
        true
    }
}

proof fn lemma_push_contains<A>(s: Seq<A>, x: A)
    ensures
        forall|a: A| #[trigger] s.push(x).contains(a) <==> s.contains(a) || a == x,
        s.no_duplicates() && !s.contains(x) ==> s.push(x).no_duplicates(),
{
    assert forall|a: A| #[trigger] s.push(x).contains(a) <==> s.contains(a) || a == x by {
        if s.contains(a) {
            let m = choose|m: int| 0 <= m < s.len() && s[m] == a;
            assert(s.push(x)[m] == a);
        }
        if a == x {
            assert(s.push(x)[s.len() as int] == a);
        }
        if s.push(x).contains(a) {
            let m = choose|m: int| 0 <= m < s.len() + 1 && s.push(x)[m] == a;
            if m < s.len() {
                assert(s[m] == a);
            }
        }
    }
    if s.no_duplicates() && !s.contains(x) {
        assert forall|i: int, j: int| 0 <= i < s.len() + 1 && 0 <= j < s.len() + 1 && i != j implies s.push(x)[i] != s.push(x)[j] by {
            if i == s.len() {
                assert(s[j] == s.push(x)[j]);
            } else if j == s.len() {
                assert(s[i] == s.push(x)[i]);
            }
        }
    }
}

fn note_nonterminal(nts: &mut Vec<NonTerminal>, name: &String)
    requires
        names_of(old(nts)@).no_duplicates(),
    ensures
        names_of(final(nts)@).no_duplicates(),
        forall|a: Seq<char>| #[trigger] names_of(final(nts)@).contains(a) <==> names_of(old(nts)@).contains(a) || a == name@,
{
    let mut i: usize = 0;
    while i < nts.len()
        invariant
            i <= nts@.len(),
            forall|m: int| 0 <= m < i ==> nts@[m]@ != name@,
            nts@ == old(nts)@,
            names_of(old(nts)@).no_duplicates(),
        decreases nts@.len() - i,
    {
        if nts[i].name == *name {
            assert(names_of(nts@)[i as int] == name@);
            return;
        }
        i = i + 1;
    }
    let ghost prev = nts@;
    nts.push(NonTerminal { name: name.clone() });
    assert(names_of(nts@) =~= names_of(prev).push(name@));
    assert(!names_of(prev).contains(name@)) by {
        if names_of(prev).contains(name@) {
            let m = choose|m: int| 0 <= m < prev.len() && names_of(prev)[m] == name@;
            assert(prev[m]@ == name@);
        }
    }
    proof {
        lemma_push_contains(names_of(prev), name@);
    }
}

fn note_terminal(ts: &mut Vec<Terminal>, c: char)
    requires
        contents_of(old(ts)@).no_duplicates(),
    ensures
        contents_of(final(ts)@).no_duplicates(),
        forall|x: char| #[trigger] contents_of(final(ts)@).contains(x) <==> contents_of(old(ts)@).contains(x) || x == c,
{
    let mut i: usize = 0;
    while i < ts.len()
        invariant
            i <= ts@.len(),
            forall|m: int| 0 <= m < i ==> ts@[m].content != c,
            ts@ == old(ts)@,
            contents_of(old(ts)@).no_duplicates(),
        decreases ts@.len() - i,
    {
        if ts[i].content == c {
            assert(contents_of(ts@)[i as int] == c);
            return;
        }
        i = i + 1;
    }
    let ghost prev = ts@;
    ts.push(Terminal { content: c });
    assert(contents_of(ts@) =~= contents_of(prev).push(c));
    assert(!contents_of(prev).contains(c)) by {
        if contents_of(prev).contains(c) {
            let m = choose|m: int| 0 <= m < prev.len() && contents_of(prev)[m] == c;
            assert(prev[m].content == c);
        }
    }
    proof {
        lemma_push_contains(contents_of(prev), c);
    }
}

/// Adds to the tables the symbols of a rule.
fn note_rule(nts: &mut Vec<NonTerminal>, ts: &mut Vec<Terminal>, r: &Rule)
    requires
        names_of(old(nts)@).no_duplicates(),
        contents_of(old(ts)@).no_duplicates(),
    ensures
        names_of(final(nts)@).no_duplicates(),
        contents_of(final(ts)@).no_duplicates(),
        forall|a: Seq<char>| #[trigger] names_of(final(nts)@).contains(a) <==> names_of(old(nts)@).contains(a) || a == r@.from
            || r@.to.contains(Symbol::N(a)),
        forall|x: char| #[trigger] contents_of(final(ts)@).contains(x) <==> contents_of(old(ts)@).contains(x)
            || r@.to.contains(Symbol::T(x)),
{
    let ghost nts0 = names_of(nts@);
    let ghost ts0 = contents_of(ts@);
    note_nonterminal(nts, &r.from.name);
    let ghost to = r@.to;
    let mut i: usize = 0;
    while i < r.to.len()
        invariant
            to == r@.to,
            i <= to.len(),
            names_of(nts@).no_duplicates(),
            contents_of(ts@).no_duplicates(),
            forall|a: Seq<char>| #[trigger] names_of(nts@).contains(a) <==> nts0.contains(a) || a == r@.from
                || to.take(i as int).contains(Symbol::N(a)),
            forall|x: char| #[trigger] contents_of(ts@).contains(x) <==> ts0.contains(x) || to.take(i as int).contains(Symbol::T(x)),
        decreases to.len() - i,
    {
        assert(to[i as int] == r.to@[i as int]@);
        assert(to.take(i + 1) =~= to.take(i as int).push(to[i as int]));
        proof {
            lemma_push_contains(to.take(i as int), to[i as int]);
        }
        let ghost pn = names_of(nts@);
        let ghost pt = contents_of(ts@);
        match &r.to[i] {
            Token::NT(n) => {
                note_nonterminal(nts, &n.name);
                assert(to[i as int] == Symbol::N(n.name@));
                assert(contents_of(ts@) == pt);
                assert forall|a: Seq<char>| names_of(nts@).contains(a) <==> nts0.contains(a) || a == r@.from
                    || to.take(i + 1).contains(Symbol::N(a)) by {
                    assert(to.take(i + 1).contains(Symbol::N(a)) <==> to.take(i as int).contains(Symbol::N(a)) || a == n.name@);
                    assert(names_of(nts@).contains(a) <==> pn.contains(a) || a == n.name@);
                    assert(pn.contains(a) <==> nts0.contains(a) || a == r@.from || to.take(i as int).contains(Symbol::N(a)));
                }
                assert forall|x: char| contents_of(ts@).contains(x) <==> ts0.contains(x) || to.take(i + 1).contains(Symbol::T(x)) by {
                    assert(to.take(i + 1).contains(Symbol::T(x)) <==> to.take(i as int).contains(Symbol::T(x)));
                    assert(pt.contains(x) <==> ts0.contains(x) || to.take(i as int).contains(Symbol::T(x)));
                }
            },
            Token::T(t) => {
                note_terminal(ts, t.content);
                assert(to[i as int] == Symbol::T(t.content));
                assert(names_of(nts@) == pn);
                assert forall|a: Seq<char>| names_of(nts@).contains(a) <==> nts0.contains(a) || a == r@.from
                    || to.take(i + 1).contains(Symbol::N(a)) by {
                    assert(to.take(i + 1).contains(Symbol::N(a)) <==> to.take(i as int).contains(Symbol::N(a)));
                }
                assert forall|x: char| contents_of(ts@).contains(x) <==> ts0.contains(x) || to.take(i + 1).contains(Symbol::T(x)) by {
                    assert(to.take(i + 1).contains(Symbol::T(x)) <==> to.take(i as int).contains(Symbol::T(x)) || x == t.content);
                }
            },
        }
        i = i + 1;
    }
    assert(to.take(to.len() as int) =~= to);
}

impl Grammar {
    /// The tables list the symbols that the grammar uses, each once.
    #[verifier::type_invariant]
    spec fn inv(&self) -> bool {
        symbol_tables(self@, self.nonterminal_names(), self.terminal_chars())
    }

    /// The names in the nonterminal table.
    pub closed spec fn nonterminal_names(&self) -> Seq<Seq<char>> {
        names_of(self.nonterminals@)
    }

    /// The characters in the terminal table.
    pub closed spec fn terminal_chars(&self) -> Seq<char> {
        contents_of(self.terminals@)
    }

    /// The grammar's text: the nonterminal and terminal tables, the rules,
    /// one per line, and the start nonterminal.
    pub fn text(&self) -> (r: String)
        ensures
            r@ == grammar_text(self.nonterminal_names(), self.terminal_chars(), self@.rules, self@.start),
    {
        let mut s = String::new();
        s.append("Nonterminals: ");
        let ghost h0 = s@;
        let ghost nts = self.nonterminal_names();
        let mut i: usize = 0;
        while i < self.nonterminals.len()
            invariant
                nts == names_of(self.nonterminals@),
                i <= nts.len(),
                s@ == h0 + names_text(nts.take(i as int)),
            decreases nts.len() - i,
        {
            s.append(self.nonterminals[i].name.as_str());
            s.append(", ");
            assert(nts.take(i + 1).drop_last() =~= nts.take(i as int));
            assert(nts[i as int] == self.nonterminals@[i as int]@);
            i = i + 1;
            assert(s@ =~= h0 + names_text(nts.take(i as int)));
        }
        assert(nts.take(nts.len() as int) =~= nts);
        s.append("\nTerminals: ");
        let ghost h1 = s@;
        let ghost ts = self.terminal_chars();
        let mut j: usize = 0;
        while j < self.terminals.len()
            invariant
                ts == contents_of(self.terminals@),
                j <= ts.len(),
                s@ == h1 + chars_text(ts.take(j as int)),
            decreases ts.len() - j,
        {
            push_char(&mut s, self.terminals[j].content);
            s.append(", ");
            assert(ts.take(j + 1).drop_last() =~= ts.take(j as int));
            assert(ts[j as int] == self.terminals@[j as int].content);
            j = j + 1;
            assert(s@ =~= h1 + chars_text(ts.take(j as int)));
        }
        assert(ts.take(ts.len() as int) =~= ts);
        s.append("\nRules: \n");
        let ghost h2 = s@;
        let ghost rs = self@.rules;
        let mut m: usize = 0;
        while m < self.rules.len()
            invariant
                rs == rules_of(self.rules@),
                m <= rs.len(),
                s@ == h2 + rules_text(rs.take(m as int)),
            decreases rs.len() - m,
        {
            let line = self.rules[m].text();
            s.append(line.as_str());
            s.append("\n");
            assert(rs.take(m + 1).drop_last() =~= rs.take(m as int));
            assert(rs[m as int] == self.rules@[m as int]@);
            m = m + 1;
            assert(s@ =~= h2 + rules_text(rs.take(m as int)));
        }
        assert(rs.take(rs.len() as int) =~= rs);
        s.append("Start: ");
        s.append(self.start.name.as_str());
        assert(s@ =~= grammar_text(nts, ts, rs, self@.start));
        s
    }

    /// The table of the nonterminals that the grammar uses.
    pub fn nonterminals(&self) -> (r: &Vec<NonTerminal>)
        ensures
            names_of(r@) == self.nonterminal_names(),
    {
        &self.nonterminals
    }

    /// The table of the terminals that the grammar uses.
    pub fn terminals(&self) -> (r: &Vec<Terminal>)
        ensures
            contents_of(r@) == self.terminal_chars(),
    {
        &self.terminals
    }

    /// Reads a grammar text: the start nonterminal on the first line, then
    /// one rule `LHS -> TOKENS` on each further non-blank line. Leading and
    /// trailing blanks of a line do not count.
    pub fn from_rules(grammar: &str) -> (r: Result<Grammar, ParseError>)
        ensures
            r is Ok <==> grammar_of(grammar@) is Ok,
            r matches Ok(g) ==> grammar_of(grammar@) == Ok::<GrammarModel, ParseError>(g@),
            r matches Ok(g) ==> symbol_tables(g@, g.nonterminal_names(), g.terminal_chars()),
            r matches Err(e) ==> grammar_of(grammar@) == Err::<GrammarModel, ParseError>(e),
    {
        let cs = chars_of(grammar);
        if cs.len() == 0 {
            return Err(ParseError::MissingStart);
        }
        let lines = split_lines(&cs);
        let ghost ls = lines_of(grammar@);
        proof {
            lemma_lines_nonempty(grammar@);
        }
        assert(views_of(lines@)[0] == lines@[0]@);
        let first = split_words(&lines[0]);
        if first.len() != 1 {
            return Err(ParseError::InvalidStart);
        }
        assert(views_of(first@)[0] == first@[0]@);
        if !nonterminal_word(&first[0]) {
            return Err(ParseError::InvalidStart);
        }
        let start = NonTerminal { name: string_of(&first[0]) };
        let mut rules: Vec<Rule> = Vec::new();
        let mut nonterminals: Vec<NonTerminal> = Vec::new();
        let mut terminals: Vec<Terminal> = Vec::new();
        note_nonterminal(&mut nonterminals, &start.name);
        assert(contents_of(terminals@) =~= Seq::<char>::empty());
        assert forall|a: Seq<char>| !rules_mention_nonterminal(Seq::<RuleModel>::empty(), a) by {}
        assert forall|x: char| !rules_mention_terminal(Seq::<RuleModel>::empty(), x) by {}
        assert(names_of(Seq::<NonTerminal>::empty()) =~= Seq::<Seq<char>>::empty());
        let mut i: usize = 1;
        assert(rules_of(rules@) =~= Seq::empty());
        assert(words_of(ls[0]) == views_of(first@));
        assert(grammar@.len() > 0);
        assert(grammar_of(grammar@) == match rules_from(ls, 1, Seq::empty()) {
            Ok(rs) => Ok(GrammarModel { rules: rs, start: start@ }),
            Err(e) => Err::<GrammarModel, ParseError>(e),
        });
        while i < lines.len()
            invariant
                1 <= i <= lines@.len(),
                ls == views_of(lines@),
                rules_from(ls, 1, Seq::empty()) == rules_from(ls, i as nat, rules_of(rules@)),
                grammar_of(grammar@) == match rules_from(ls, 1, Seq::empty()) {
                    Ok(rs) => Ok(GrammarModel { rules: rs, start: start@ }),
                    Err(e) => Err::<GrammarModel, ParseError>(e),
                },
                symbol_tables(
                    GrammarModel { rules: rules_of(rules@), start: start@ },
                    names_of(nonterminals@),
                    contents_of(terminals@),
                ),
            decreases lines@.len() - i,
        {
            let ws = split_words(&lines[i]);
            assert(ls[i as int] == lines@[i as int]@);
            assert(views_of(ws@) == words_of(ls[i as int]));
            if ws.len() > 0 {
                match rule_of_line(&ws) {
                    None => {
                        assert(rules_from(ls, i as nat, rules_of(rules@)) == Err::<
                            Seq<RuleModel>,
                            ParseError,
                        >(ParseError::InvalidRule { line_num: (i - 1) as usize }));
                        return Err(ParseError::InvalidRule { line_num: i - 1 });
                    },
                    Some(r) => {
                        let ghost prev = rules@;
                        let ghost g0 = GrammarModel { rules: rules_of(prev), start: start@ };
                        note_rule(&mut nonterminals, &mut terminals, &r);
                        let ghost rm = r@;
                        rules.push(r);
                        assert(rules_of(rules@) =~= rules_of(prev).push(rm));
                        let ghost g1 = GrammarModel { rules: rules_of(rules@), start: start@ };
                        let ghost last = prev.len() as int;
                        assert(g1.rules[last] == rm);
                        assert(g1.rules.drop_last() =~= g0.rules);
                        assert forall|a: Seq<char>| uses_nonterminal(g1, a) <==> uses_nonterminal(g0, a)
                            || a == rm.from || rm.to.contains(Symbol::N(a)) by {
                            assert(rules_mention_nonterminal(g1.rules, a) == (rules_mention_nonterminal(g0.rules, a) || rm.from == a || rm.to.contains(Symbol::N(a))));
                        }
                        assert forall|x: char| uses_terminal(g1, x) <==> uses_terminal(g0, x)
                            || rm.to.contains(Symbol::T(x)) by {
                            assert(rules_mention_terminal(g1.rules, x) == (rules_mention_terminal(g0.rules, x) || rm.to.contains(Symbol::T(x))));
                        }
                    },
                }
            }
            i = i + 1;
        }
        Ok(Grammar { nonterminals, terminals, rules, start })
    }

    /// The rules, in the order of the text.
    pub fn rules(&self) -> (r: &Vec<Rule>)
        ensures
            rules_of(r@) == self@.rules,
    {
        &self.rules
    }

    /// The start nonterminal.
    pub fn start(&self) -> (r: &NonTerminal)
        ensures
            r@ == self@.start,
    {
        &self.start
    }
}

} // verus!
