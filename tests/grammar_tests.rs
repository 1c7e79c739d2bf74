use earley_parser::grammar::{write_tree_to_dot, Grammar, ParseError, ParseNode, Token};

fn leaves(root: &ParseNode) -> String {
    match &root.token {
        Token::T(t) => t.content.to_string(),
        Token::NT(_) => root.children.iter().map(|c| leaves(c)).collect(),
    }
}

fn expression_grammar() -> Grammar {
    Grammar::from_rules(
        "EXP
        EXP -> EXP + EXP
        EXP -> EXP * EXP
        EXP -> EXP - EXP
        EXP -> EXP / EXP
        EXP -> ( EXP )
        EXP -> n",
    )
    .unwrap()
}

#[test]
fn empty_text_has_no_start() {
    assert!(matches!(Grammar::from_rules(""), Err(ParseError::MissingStart)));
}

#[test]
fn start_line_must_be_one_nonterminal() {
    assert!(matches!(Grammar::from_rules("s"), Err(ParseError::InvalidStart)));
    assert!(matches!(Grammar::from_rules("S T"), Err(ParseError::InvalidStart)));
    assert!(matches!(Grammar::from_rules("\nS -> a"), Err(ParseError::InvalidStart)));
    assert!(matches!(Grammar::from_rules("S1"), Err(ParseError::InvalidStart)));
}

#[test]
fn malformed_rule_lines_report_their_index() {
    assert_eq!(
        Grammar::from_rules("S\nS -> ab").err(),
        Some(ParseError::InvalidRule { line_num: 0 })
    );
    assert_eq!(
        Grammar::from_rules("S\nS -> a\nS => b").err(),
        Some(ParseError::InvalidRule { line_num: 1 })
    );
    assert_eq!(
        Grammar::from_rules("S\nS->a").err(),
        Some(ParseError::InvalidRule { line_num: 0 })
    );
    assert_eq!(
        Grammar::from_rules("S\nS -> a\n\nS -> B xy").err(),
        Some(ParseError::InvalidRule { line_num: 2 })
    );
    assert_eq!(
        Grammar::from_rules("S\ns -> a").err(),
        Some(ParseError::InvalidRule { line_num: 0 })
    );
}

#[test]
fn rules_are_read_in_order_with_repeats() {
    let g = Grammar::from_rules("  S  \n   S   ->   a  B \n\nB -> \nS -> a B\n").unwrap();
    assert_eq!(g.start().name, "S");
    let rules = g.rules();
    assert_eq!(rules.len(), 3);
    assert_eq!(rules[0].from.name, "S");
    assert_eq!(rules[0].to.len(), 2);
    assert!(matches!(&rules[0].to[0], Token::T(t) if t.content == 'a'));
    assert!(matches!(&rules[0].to[1], Token::NT(n) if n.name == "B"));
    assert_eq!(rules[1].from.name, "B");
    assert_eq!(rules[1].to.len(), 0);
    assert_eq!(rules[2].text(), "S -> a B ");
}

#[test]
fn repeated_rules_give_no_repeated_trees() {
    let g = Grammar::from_rules("S\nS -> a\nS -> a").unwrap();
    assert_eq!(g.rules().len(), 2);
    assert_eq!(g.parse("a").len(), 1);
}

#[test]
fn symbol_tables_list_each_symbol_once() {
    let g = Grammar::from_rules("S\nS -> A b A\nA -> a\nA -> b").unwrap();
    let names: Vec<&str> = g.nonterminals().iter().map(|n| n.name.as_str()).collect();
    assert_eq!(names, vec!["S", "A"]);
    let chars: Vec<char> = g.terminals().iter().map(|t| t.content).collect();
    assert_eq!(chars, vec!['b', 'a']);
}

#[test]
fn start_only_grammar() {
    let g = Grammar::from_rules("S").unwrap();
    assert_eq!(g.start().name, "S");
    assert_eq!(g.rules().len(), 0);
    assert_eq!(g.nonterminals().len(), 1);
    assert_eq!(g.nonterminals()[0].name, "S");
    assert_eq!(g.terminals().len(), 0);
}

#[test]
fn grammar_text_lists_tables_rules_and_start() {
    let g = Grammar::from_rules("S\nS -> ( S )\nS ->").unwrap();
    assert_eq!(
        g.text(),
        "Nonterminals: S, \nTerminals: (, ), \nRules: \nS -> ( S ) \nS -> \nStart: S"
    );
}

#[test]
fn empty_production_matches_empty_input() {
    let g = Grammar::from_rules("S\nS -> ").unwrap();
    let trees = g.parse("");
    assert_eq!(trees.len(), 1);
    assert!(matches!(&trees[0].token, Token::NT(n) if n.name == "S"));
    assert_eq!(trees[0].children.len(), 0);
    assert_eq!(g.parse("a").len(), 0);
}

#[test]
fn empty_production_inside_a_rule() {
    let g = Grammar::from_rules("S\nS -> a E b\nE -> ").unwrap();
    let trees = g.parse("ab");
    assert_eq!(trees.len(), 1);
    let root = &trees[0];
    assert_eq!(root.children.len(), 3);
    assert!(matches!(&root.children[1].token, Token::NT(n) if n.name == "E"));
    assert_eq!(root.children[1].children.len(), 0);
    assert_eq!(leaves(root), "ab");
}

#[test]
fn prefixes_and_extensions_are_rejected() {
    let g = expression_grammar();
    assert_eq!(g.parse("n+n").len(), 1);
    assert_eq!(g.parse("n+").len(), 0);
    assert_eq!(g.parse("n+nn").len(), 0);
    assert_eq!(g.parse("").len(), 0);
    assert_eq!(g.parse("x").len(), 0);
}

#[test]
fn expression_scenario_counts() {
    let g = expression_grammar();
    let trees = g.parse("(n+n+(n*n)-n/n)");
    assert_eq!(trees.len(), 14);
    for t in trees.iter() {
        assert_eq!(leaves(t), "(n+n+(n*n)-n/n)");
    }
    assert_eq!(g.parse("((n)+n-)").len(), 0);
    assert_eq!(g.parse("n+n+n").len(), 2);
}

#[test]
fn repeated_parses_give_the_same_count() {
    let g = Grammar::from_rules("S\nS -> S S\nS -> a").unwrap();
    let first = g.parse("aaaaa");
    let second = g.parse("aaaaa");
    assert_eq!(first.len(), 14);
    assert_eq!(first.len(), second.len());
}

#[test]
fn returned_trees_are_distinct() {
    let g = Grammar::from_rules("S\nS -> S S\nS -> a").unwrap();
    let trees = g.parse("aaaa");
    assert_eq!(trees.len(), 5);
    let mut texts: Vec<String> = trees
        .iter()
        .map(|t| {
            let mut s = String::new();
            write_tree_to_dot(&mut s, t);
            s
        })
        .collect();
    texts.sort();
    texts.dedup();
    assert_eq!(texts.len(), 5);
}

#[test]
fn palindrome_scenarios() {
    let g = Grammar::from_rules("S\nS -> a S a\nS -> b S b\nS ->\nS -> a\nS -> b").unwrap();
    assert_eq!(g.parse("abba").len(), 1);
    assert_eq!(g.parse("aabab").len(), 0);
    assert_eq!(g.parse("aabaa").len(), 1);
    assert_eq!(g.parse("").len(), 1);
}

#[test]
fn catalan_growth() {
    let g = Grammar::from_rules("S\nS -> S S\nS -> a").unwrap();
    assert_eq!(g.parse("a").len(), 1);
    assert_eq!(g.parse("aaa").len(), 2);
    assert_eq!(g.parse("aaaaaa").len(), 42);
    assert_eq!(g.parse("aaaaaaa").len(), 132);
}

#[test]
fn dot_text_of_a_small_tree() {
    let g = Grammar::from_rules("S\nS -> a").unwrap();
    let trees = g.parse("a");
    let mut out = String::new();
    write_tree_to_dot(&mut out, &trees[0]);
    assert_eq!(out, "digraph G{\n0 [label=\"a\"]\n1 [label=\"S\"]\n1 -> 0\n}");
}

#[test]
fn dot_text_marks_empty_matches() {
    let g = Grammar::from_rules("S\nS -> ").unwrap();
    let trees = g.parse("");
    let mut out = String::from("x");
    write_tree_to_dot(&mut out, &trees[0]);
    assert_eq!(out, "xdigraph G{\n0 [label=\"\u{3bb}\"]\n1 [label=\"S\"]\n1 -> 0\n}");
}

#[test]
fn dot_text_numbers_past_nine() {
    let g = Grammar::from_rules("S\nS -> A A A A A\nA -> x y").unwrap();
    let trees = g.parse("xyxyxyxyxy");
    assert_eq!(trees.len(), 1);
    let mut out = String::new();
    write_tree_to_dot(&mut out, &trees[0]);
    assert!(out.contains("14 [label=\"A\"]\n"));
    assert!(out.contains("15 [label=\"S\"]\n15 -> 2\n15 -> 5\n15 -> 8\n15 -> 11\n15 -> 14\n}"));
    assert!(out.starts_with("digraph G{\n0 [label=\"x\"]\n1 [label=\"y\"]\n2 [label=\"A\"]\n2 -> 0\n2 -> 1\n"));
}

#[test]
fn rule_and_token_texts() {
    let g = Grammar::from_rules("EXP\nEXP -> ( EXP ) n\nEXP ->").unwrap();
    let rules = g.rules();
    assert_eq!(rules[0].text(), "EXP -> ( EXP ) n ");
    assert_eq!(rules[1].text(), "EXP -> ");
    assert_eq!(rules[0].to[1].label(), "EXP");
    assert_eq!(rules[0].to[0].label(), "(");
    assert_eq!(g.start().name(), "EXP");
}
