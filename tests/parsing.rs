use syntax::bnf::{BNFProxy, NonTerminal, Rule, Symbol, Terminal, BNF};
use syntax::decl::{build, read_rule, DeclToken};
use syntax::parser::{parse, ParseTree};
use syntax::string_pool::StringPool;
use syntax::token::{Lexer, Token, TokenKind};

fn nt(pool: &mut StringPool, name: &str) -> Symbol {
    Symbol::NonTerminal(NonTerminal::new(pool.get(name)))
}

fn t(pool: &mut StringPool, name: &str) -> Symbol {
    Symbol::Terminal(Terminal::new(pool.get(name)))
}

fn rule(pool: &mut StringPool, name: &str, head: &str, body: Vec<Symbol>) -> Rule {
    Rule {
        name: pool.get(name),
        head: NonTerminal::new(pool.get(head)),
        body,
    }
}

/// Start -> Expr; add: Expr -> Expr '+' Expr; number: Expr -> num.
fn sum_grammar(pool: &mut StringPool) -> BNF {
    let r0 = {
        let b = vec![nt(pool, "Expr")];
        rule(pool, "only", "Start", b)
    };
    let r1 = {
        let b = vec![nt(pool, "Expr"), t(pool, "+"), nt(pool, "Expr")];
        rule(pool, "add", "Expr", b)
    };
    let r2 = {
        let b = vec![t(pool, "num")];
        rule(pool, "number", "Expr", b)
    };
    BNF {
        start: NonTerminal::new(pool.get("Start")),
        rules: vec![r0, r1, r2],
    }
}

/// Start -> Expr; add: Expr -> Operand '+' Operand; number: Operand -> num.
fn operand_grammar(pool: &mut StringPool) -> BNF {
    let r0 = {
        let b = vec![nt(pool, "Expr")];
        rule(pool, "only", "Start", b)
    };
    let r1 = {
        let b = vec![nt(pool, "Operand"), t(pool, "+"), nt(pool, "Operand")];
        rule(pool, "add", "Expr", b)
    };
    let r2 = {
        let b = vec![t(pool, "num")];
        rule(pool, "number", "Operand", b)
    };
    BNF {
        start: NonTerminal::new(pool.get("Start")),
        rules: vec![r0, r1, r2],
    }
}

fn rule_name(pool: &StringPool, bnf: &BNF, tree: &ParseTree) -> String {
    pool.resolve(bnf.rules[tree.rule].name).clone()
}

#[test]
fn test_bnf() {
    let mut pool = StringPool::new();
    // only: Start => Exper; add/sub: Exper => Exper op Exper; number: Exper => Number,
    // where `Number` is a nonterminal that no rule produces.
    let r0 = {
        let b = vec![nt(&mut pool, "Exper")];
        rule(&mut pool, "only", "Start", b)
    };
    let r1 = {
        let b = vec![nt(&mut pool, "Exper"), t(&mut pool, "'+'"), nt(&mut pool, "Exper")];
        rule(&mut pool, "add", "Exper", b)
    };
    let r2 = {
        let b = vec![nt(&mut pool, "Exper"), t(&mut pool, "'-'"), nt(&mut pool, "Exper")];
        rule(&mut pool, "sub", "Exper", b)
    };
    let r3 = {
        let b = vec![nt(&mut pool, "Number")];
        rule(&mut pool, "number", "Exper", b)
    };
    let bnf = BNF {
        start: NonTerminal::new(pool.get("Start")),
        rules: vec![r0, r1, r2, r3],
    };
    let tokens = Token::tokenlize("a + b", &mut pool);
    let bnf_proxy = BNFProxy::new(&bnf);
    assert_eq!(tokens.len(), 3);
    // a nonterminal without rules fails like any unparseable input
    assert!(parse(&tokens, &bnf_proxy, &pool).is_none());
}

#[test]
fn lex_identifiers_and_punctuation() {
    let mut pool = StringPool::new();
    let tokens = Token::tokenlize("a + b", &mut pool);
    let a = pool.get("a");
    let plus = pool.get("+");
    let b = pool.get("b");
    assert_eq!(tokens, vec![Token::Ident(a), Token::Punct(plus), Token::Ident(b)]);
}

#[test]
fn lex_numeral() {
    let mut pool = StringPool::new();
    let tokens = Token::tokenlize("12.5", &mut pool);
    assert_eq!(tokens.len(), 1);
    assert_eq!(tokens[0].kind(), TokenKind::Number);
    assert_eq!(tokens[0], Token::Number(vec!['1', '2', '.', '5']));
    assert_eq!(tokens[0].handle(), None);
    let text = tokens[0].text(&pool);
    assert_eq!(text, "12.5");
    assert_eq!(text.parse::<f64>().unwrap(), 12.5);
}

#[test]
fn lex_numeral_with_second_point() {
    let mut pool = StringPool::new();
    let tokens = Token::tokenlize("12.5.6", &mut pool);
    assert_eq!(tokens[0].kind(), TokenKind::Number);
    assert_eq!(tokens[0].text(&pool), "12.5");
    assert_eq!(tokens[0].text(&pool).parse::<f64>().unwrap(), 12.5);
    // the rest starts a punctuation run
    assert_eq!(tokens.len(), 2);
    assert_eq!(tokens[1].kind(), TokenKind::Punct);
    assert_eq!(tokens[1].text(&pool), ".6");
}

#[test]
fn lex_runs_and_whitespace() {
    let mut pool = StringPool::new();
    let tokens = Token::tokenlize("  x_1+y\t>= 7 ", &mut pool);
    let texts: Vec<String> = tokens.iter().map(|t| t.text(&pool)).collect();
    assert_eq!(texts, vec!["x_1", "+y", ">=", "7"]);
    let kinds: Vec<TokenKind> = tokens.iter().map(|t| t.kind()).collect();
    assert_eq!(
        kinds,
        vec![TokenKind::Ident, TokenKind::Punct, TokenKind::Punct, TokenKind::Number]
    );
    assert!(Token::tokenlize("   ", &mut pool).is_empty());
    assert!(Token::tokenlize("", &mut pool).is_empty());
}

#[test]
fn lex_is_deterministic() {
    let mut pool_a = StringPool::new();
    let mut pool_b = StringPool::new();
    pool_b.get("zzz");
    let t1 = Token::tokenlize("foo + 3 bar", &mut pool_a);
    let t2 = Token::tokenlize("foo + 3 bar", &mut pool_b);
    assert_eq!(t1.len(), t2.len());
    for (a, b) in t1.iter().zip(t2.iter()) {
        assert_eq!(a.kind(), b.kind());
        assert_eq!(a.text(&pool_a), b.text(&pool_b));
    }
    let t3 = Token::tokenlize("foo + 3 bar", &mut pool_a);
    assert_eq!(t1, t3);
}

#[test]
fn intern_same_text_same_handle() {
    let mut pool = StringPool::new();
    let a = pool.get("alpha");
    let b = pool.get("beta");
    let a2 = pool.get("alpha");
    assert_eq!(a, a2);
    assert_ne!(a, b);
    assert_eq!(pool.iter().len(), 2);
    assert_eq!(pool.resolve(b).as_str(), "beta");
    assert!(pool.str_eq("gamma", "gamma"));
    assert!(!pool.str_eq("gamma", "delta"));
    assert_eq!(pool.lookup("alpha"), Some(a));
    assert_eq!(pool.lookup("omega"), None);
    assert_eq!(pool.iter().len(), 4);
}

#[test]
fn parse_sum_of_two_numbers() {
    let mut pool = StringPool::new();
    let bnf = operand_grammar(&mut pool);
    let proxy = BNFProxy::new(&bnf);
    let tokens = Token::tokenlize("1 + 2", &mut pool);
    let (rest, tree) = parse(&tokens, &proxy, &pool).unwrap();
    assert_eq!(rest, 0);
    assert_eq!(rule_name(&pool, &bnf, &tree), "only");
    assert_eq!(tree.sub_trees.len(), 1);
    let add = &tree.sub_trees[0];
    assert_eq!(rule_name(&pool, &bnf, add), "add");
    assert_eq!(add.sub_trees.len(), 2);
    for sub in add.sub_trees.iter() {
        assert_eq!(rule_name(&pool, &bnf, sub), "number");
        assert!(sub.sub_trees.is_empty());
    }
}

#[test]
fn parse_left_recursive_sum() {
    let mut pool = StringPool::new();
    let bnf = sum_grammar(&mut pool);
    let proxy = BNFProxy::new(&bnf);
    let tokens = Token::tokenlize("1 + 2", &mut pool);
    // the inner `Expr` passes over `add`, already being tried there, and takes `number`
    let (rest, tree) = parse(&tokens, &proxy, &pool).unwrap();
    assert_eq!(rest, 0);
    assert_eq!(rule_name(&pool, &bnf, &tree), "only");
    assert_eq!(tree.sub_trees.len(), 1);
    let add = &tree.sub_trees[0];
    assert_eq!(rule_name(&pool, &bnf, add), "add");
    assert_eq!(add.sub_trees.len(), 2);
    for sub in add.sub_trees.iter() {
        assert_eq!(rule_name(&pool, &bnf, sub), "number");
        assert!(sub.sub_trees.is_empty());
    }
}

#[test]
fn parse_rejects_leading_operator() {
    let mut pool = StringPool::new();
    let bnf = sum_grammar(&mut pool);
    let proxy = BNFProxy::new(&bnf);
    let tokens = Token::tokenlize("+ 1", &mut pool);
    assert!(parse(&tokens, &proxy, &pool).is_none());
    let bnf2 = operand_grammar(&mut pool);
    let proxy2 = BNFProxy::new(&bnf2);
    assert!(parse(&tokens, &proxy2, &pool).is_none());
}

#[test]
fn parse_reports_unconsumed_tokens() {
    let mut pool = StringPool::new();
    let bnf = sum_grammar(&mut pool);
    let proxy = BNFProxy::new(&bnf);
    let tokens = Token::tokenlize("1 + 2 garbage", &mut pool);
    let (rest, tree) = parse(&tokens, &proxy, &pool).unwrap();
    assert_eq!(rest, 1);
    assert_eq!(rule_name(&pool, &bnf, &tree), "only");
    assert_eq!(rule_name(&pool, &bnf, &tree.sub_trees[0]), "add");
    let bnf2 = operand_grammar(&mut pool);
    let proxy2 = BNFProxy::new(&bnf2);
    let (rest2, _) = parse(&tokens, &proxy2, &pool).unwrap();
    assert_eq!(rest2, 1);
}

#[test]
fn parse_backtracks_to_second_alternative() {
    let mut pool = StringPool::new();
    // first: A -> P 'z'; second: A -> P 'w'; P -> 'x' 'y'
    let r0 = {
        let b = vec![nt(&mut pool, "A")];
        rule(&mut pool, "only", "Start", b)
    };
    let r1 = {
        let b = vec![nt(&mut pool, "P"), t(&mut pool, "z")];
        rule(&mut pool, "first", "A", b)
    };
    let r2 = {
        let b = vec![nt(&mut pool, "P"), t(&mut pool, "w")];
        rule(&mut pool, "second", "A", b)
    };
    let r3 = {
        let b = vec![t(&mut pool, "x"), t(&mut pool, "y")];
        rule(&mut pool, "pair", "P", b)
    };
    let bnf = BNF {
        start: NonTerminal::new(pool.get("Start")),
        rules: vec![r0, r1, r2, r3],
    };
    let proxy = BNFProxy::new(&bnf);
    let tokens = Token::tokenlize("x y w", &mut pool);
    let (rest, tree) = parse(&tokens, &proxy, &pool).unwrap();
    assert_eq!(rest, 0);
    let a = &tree.sub_trees[0];
    assert_eq!(rule_name(&pool, &bnf, a), "second");
    assert_eq!(a.sub_trees.len(), 1);
    assert_eq!(rule_name(&pool, &bnf, &a.sub_trees[0]), "pair");
}

#[test]
fn index_groups_rules_by_head() {
    let mut pool = StringPool::new();
    let bnf = sum_grammar(&mut pool);
    let proxy = BNFProxy::new(&bnf);
    let expr = NonTerminal::new(pool.get("Expr"));
    assert_eq!(proxy.rules(&expr), Some(&vec![1usize, 2]));
    let start = NonTerminal::new(pool.get("Start"));
    assert_eq!(proxy.rules(&start), Some(&vec![0usize]));
    let other = NonTerminal::new(pool.get("Other"));
    assert_eq!(proxy.rules(&other), None);
    assert!(proxy.has_nonterm(&pool, "Expr"));
    assert!(!proxy.has_nonterm(&pool, "Other"));
    assert!(!proxy.has_nonterm(&pool, "never interned"));
    assert_eq!(proxy.rules_iter().len(), 2);
    assert_eq!(*proxy.start(), start);
}

#[test]
fn index_keeps_last_rule_of_a_repeated_name() {
    let mut pool = StringPool::new();
    let r0 = {
        let b = vec![t(&mut pool, "a")];
        rule(&mut pool, "same", "S", b)
    };
    let r1 = {
        let b = vec![t(&mut pool, "b")];
        rule(&mut pool, "other", "S", b)
    };
    let r2 = {
        let b = vec![t(&mut pool, "c")];
        rule(&mut pool, "same", "S", b)
    };
    let bnf = BNF {
        start: NonTerminal::new(pool.get("S")),
        rules: vec![r0, r1, r2],
    };
    let proxy = BNFProxy::new(&bnf);
    let s = NonTerminal::new(pool.get("S"));
    assert_eq!(proxy.rules(&s), Some(&vec![1usize, 2]));
    let tokens = Token::tokenlize("a", &mut pool);
    assert!(parse(&tokens, &proxy, &pool).is_none());
    let tokens = Token::tokenlize("c", &mut pool);
    let (rest, tree) = parse(&tokens, &proxy, &pool).unwrap();
    assert_eq!((rest, tree.rule), (0, 2));
}

#[test]
fn terminal_matches_tokens() {
    let mut pool = StringPool::new();
    let tokens = Token::tokenlize("x 4 +", &mut pool);
    let x = Terminal::new(pool.get("x"));
    let plus = Terminal::new(pool.get("+"));
    assert!(x.match_token(&tokens[0], &pool));
    assert!(!x.match_token(&tokens[1], &pool));
    assert!(!x.match_token(&tokens[2], &pool));
    assert!(plus.match_token(&tokens[2], &pool));
    // a numeral matches only the terminal `num`
    assert!(!plus.match_token(&tokens[1], &pool));
    let num = Terminal::new(pool.get("num"));
    assert!(num.match_token(&tokens[1], &pool));
    assert!(!num.match_token(&tokens[0], &pool));
}

fn decl_tokens(src: &[&str]) -> Vec<DeclToken> {
    src.iter()
        .map(|s| {
            if *s == ":" || *s == "=" || *s == ">" || *s == ";" || *s == "," {
                DeclToken::Punct(s.chars().next().unwrap())
            } else if s.starts_with('\'') {
                DeclToken::Literal(s.to_string())
            } else if *s == "()" {
                DeclToken::Other
            } else {
                DeclToken::Ident(s.to_string())
            }
        })
        .collect()
}

#[test]
fn build_reads_declarations() {
    let mut pool = StringPool::new();
    let tokens = decl_tokens(&[
        "only", ":", "Start", "=", ">", "Exper", ";", "add", ":", "Exper", "=", ">", "Exper", "'+'",
        "()", "Exper", ";", "number", ":", "Exper", "=", ">", "Number", ";",
    ]);
    let bnf = build(&tokens, &mut pool);
    assert_eq!(pool.resolve(bnf.start.name).as_str(), "Start");
    assert_eq!(bnf.rules.len(), 3);
    let add = &bnf.rules[1];
    assert_eq!(pool.resolve(add.name).as_str(), "add");
    assert_eq!(pool.resolve(add.head.name).as_str(), "Exper");
    assert_eq!(add.body.len(), 3);
    assert!(matches!(add.body[0], Symbol::NonTerminal(_)));
    match add.body[1] {
        Symbol::Terminal(t) => assert_eq!(pool.resolve(t.name).as_str(), "'+'"),
        Symbol::NonTerminal(_) => panic!("expected a terminal"),
    }
    assert_eq!(bnf.rules[0].head, NonTerminal::new(pool.get("Start")));
    assert_eq!(bnf.rules[2].body.len(), 1);
}

#[test]
fn build_stops_at_a_malformed_declaration() {
    let mut pool = StringPool::new();
    let tokens = decl_tokens(&["a", ":", "S", "=", ">", "x", ";", "b", "S", "=", ">", "y", ";"]);
    let bnf = build(&tokens, &mut pool);
    assert_eq!(bnf.rules.len(), 1);
    let (end, rule) = read_rule(&tokens, 0, &mut pool).unwrap();
    assert_eq!(end, 7);
    assert_eq!(pool.resolve(rule.name).as_str(), "a");
    assert!(read_rule(&tokens, 7, &mut pool).is_none());
    // a last declaration may end without `;`
    let tokens = decl_tokens(&["a", ":", "S", "=", ">", "x", "y"]);
    let bnf = build(&tokens, &mut pool);
    assert_eq!(bnf.rules.len(), 1);
    assert_eq!(bnf.rules[0].body.len(), 2);
    assert!(build(&Vec::new(), &mut pool).rules.is_empty());
}

#[test]
fn lex_unicode_classes() {
    let mut pool = StringPool::new();
    // U+00A0 is white space; 'é' is alphanumeric but does not start an identifier
    let tokens = Token::tokenlize("a\u{A0}bé é1", &mut pool);
    let texts: Vec<String> = tokens.iter().map(|t| t.text(&pool)).collect();
    assert_eq!(texts, vec!["a", "bé", "é1"]);
    assert_eq!(tokens[2].kind(), TokenKind::Punct);
}

#[test]
fn lexer_steps_token_by_token() {
    let mut pool = StringPool::new();
    let mut lexer = Lexer::new("  ab 3.25");
    lexer.skip_whitespaces();
    assert_eq!(lexer.pos, 2);
    let first = lexer.next_token(&mut pool).unwrap();
    assert_eq!(first, Token::Ident(pool.get("ab")));
    assert_eq!(lexer.pos, 4);
    let second = lexer.next_token(&mut pool).unwrap();
    assert_eq!(second, Token::Number(vec!['3', '.', '2', '5']));
    assert_eq!(lexer.next_token(&mut pool), None);
    assert_eq!(lexer.pos, 9);
}

#[test]
fn numerals_leave_the_pool_unchanged() {
    let mut pool = StringPool::new();
    let tokens = Token::tokenlize("12 x 3.5 x", &mut pool);
    assert_eq!(tokens.len(), 4);
    // only the identifier's text was interned
    assert_eq!(pool.iter().len(), 1);
    assert_eq!(pool.iter()[0].as_str(), "x");
    assert_eq!(pool.lookup("12"), None);
    let mut lexer = Lexer::new("42");
    assert_eq!(lexer.next_token(&mut pool), Some(Token::Number(vec!['4', '2'])));
    assert_eq!(pool.iter().len(), 1);
}

#[test]
fn white_space_matches_std() {
    for code in 0u32..=0x10FFFF {
        if let Some(c) = char::from_u32(code) {
            let text = c.to_string();
            let mut pool = StringPool::new();
            let tokens = Token::tokenlize(&text, &mut pool);
            assert_eq!(tokens.is_empty(), c.is_whitespace(), "{:?}", c);
        }
    }
}

#[test]
fn index_lists_each_head_once() {
    let mut pool = StringPool::new();
    let bnf = sum_grammar(&mut pool);
    let proxy = BNFProxy::new(&bnf);
    let entries = proxy.rules_iter();
    for a in 0..entries.len() {
        for b in 0..entries.len() {
            if a != b {
                assert_ne!(entries[a].head, entries[b].head);
            }
        }
    }
    let heads: Vec<String> = entries.iter().map(|e| pool.resolve(e.head.name).clone()).collect();
    assert_eq!(heads, vec!["Start", "Expr"]);
}
