//! Reading grammar declarations. A declaration is written
//! `name : Head => Sym Sym ... ;`, where a bare name refers to a nonterminal
//! and a literal is a terminal. Every name passes through the interning pool;
//! the start symbol is always the nonterminal `Start`.

use crate::bnf::{BNF, NonTerminal, Rule, Symbol, Terminal};
use crate::string_pool::StringPool;
use vstd::prelude::*;

verus! {

/// One token of a declaration list.
#[derive(Debug, Clone)]
pub enum DeclToken {
    Ident(String),
    Literal(String),
    Punct(char),
    /// Any other token; it stands for nothing in a declaration.
    Other,
}

/// A symbol of a rule body as text: whether it is a terminal, and its name.
pub type SymbolText = (bool, Seq<char>);

/// A rule as text: its name, its head and its body.
pub type RuleText = (Seq<char>, Seq<char>, Seq<SymbolText>);

pub open spec fn is_punct(t: DeclToken, c: char) -> bool {
    t matches DeclToken::Punct(d) && d == c
}

/// `name : Head = >` stands at `pos`.
pub open spec fn header_at(ts: Seq<DeclToken>, pos: int) -> bool {
    &&& 0 <= pos
    &&& pos + 5 <= ts.len()
    &&& ts[pos] is Ident
    &&& is_punct(ts[pos + 1], ':')
    &&& ts[pos + 2] is Ident
    &&& is_punct(ts[pos + 3], '=')
    &&& is_punct(ts[pos + 4], '>')
}

pub open spec fn ident_text(t: DeclToken) -> Seq<char> {
    match t {
        DeclToken::Ident(s) => s@,
        _ => Seq::empty(),
    }
}

/// The body symbols from `i` on, up to the first `;` or the end, and the
/// position after that `;` (or the end). Tokens that are neither names,
/// literals nor `;` are passed over.
pub open spec fn body_from(ts: Seq<DeclToken>, i: int) -> (Seq<SymbolText>, int)
    decreases ts.len() - i,
{
    if i < 0 || i >= ts.len() {
        (Seq::empty(), i)
    } else {
        match ts[i] {
            DeclToken::Ident(s) => {
                let rest = body_from(ts, i + 1);
                (seq![(false, s@)] + rest.0, rest.1)
            },
            DeclToken::Literal(s) => {
                let rest = body_from(ts, i + 1);
                (seq![(true, s@)] + rest.0, rest.1)
            },
            DeclToken::Punct(c) => {
                if c == ';' {
                    (Seq::empty(), i + 1)
                } else {
                    body_from(ts, i + 1)
                }
            },
            DeclToken::Other => body_from(ts, i + 1),
        }
    }
}

pub proof fn lemma_body_from_end(ts: Seq<DeclToken>, i: int)
    requires
        0 <= i <= ts.len(),
    ensures
        i <= body_from(ts, i).1 <= ts.len(),
    decreases ts.len() - i,
{
    if i < ts.len() {
        lemma_body_from_end(ts, i + 1);
    }
}

/// The declarations from `pos` on, read until one fails to start there.
pub open spec fn decls_from(ts: Seq<DeclToken>, pos: int) -> Seq<RuleText>
    decreases ts.len() - pos,
{
    if header_at(ts, pos) {
        let body = body_from(ts, pos + 5);
        proof {
            lemma_body_from_end(ts, pos + 5);
        }
        seq![(ident_text(ts[pos]), ident_text(ts[pos + 2]), body.0)] + decls_from(ts, body.1)
    } else {
        Seq::empty()
    }
}

pub open spec fn symbol_text(p: Seq<Seq<char>>, s: Symbol) -> SymbolText {
    match s {
        Symbol::NonTerminal(n) => (false, p[n.name.id as int]),
        Symbol::Terminal(t) => (true, p[t.name.id as int]),
    }
}

pub open spec fn symbol_in(p: Seq<Seq<char>>, s: Symbol) -> bool {
    match s {
        Symbol::NonTerminal(n) => n.name.id < p.len(),
        Symbol::Terminal(t) => t.name.id < p.len(),
    }
}

pub open spec fn body_text(p: Seq<Seq<char>>, b: Seq<Symbol>) -> Seq<SymbolText> {
    b.map_values(|s: Symbol| symbol_text(p, s))
}

/// The rule `r` read through the pool `p`.
pub open spec fn rule_text(p: Seq<Seq<char>>, r: Rule) -> RuleText {
    (p[r.name.id as int], p[r.head.name.id as int], body_text(p, r.body@))
}

/// Every handle of `r` names a text of `p`.
pub open spec fn rule_in(p: Seq<Seq<char>>, r: Rule) -> bool {
    &&& r.name.id < p.len()
    &&& r.head.name.id < p.len()
    &&& forall|k: int| 0 <= k < r.body@.len() ==> symbol_in(p, #[trigger] r.body@[k])
}

proof fn lemma_body_grow(p: Seq<Seq<char>>, q: Seq<Seq<char>>, b: Seq<Symbol>)
    requires
        p.is_prefix_of(q),
        forall|k: int| 0 <= k < b.len() ==> symbol_in(p, #[trigger] b[k]),
    ensures
        forall|k: int| 0 <= k < b.len() ==> symbol_in(q, #[trigger] b[k]),
        body_text(q, b) == body_text(p, b),
{
    assert(body_text(q, b) =~= body_text(p, b));
}

proof fn lemma_rules_grow(p: Seq<Seq<char>>, q: Seq<Seq<char>>, rs: Seq<Rule>)
    requires
        p.is_prefix_of(q),
        forall|k: int| 0 <= k < rs.len() ==> rule_in(p, #[trigger] rs[k]),
    ensures
        forall|k: int| 0 <= k < rs.len() ==> rule_in(q, #[trigger] rs[k]),
        rs.map_values(|r: Rule| rule_text(q, r)) == rs.map_values(|r: Rule| rule_text(p, r)),
{
    assert forall|k: int| 0 <= k < rs.len() implies rule_in(q, #[trigger] rs[k]) && rule_text(q, rs[k])
        == rule_text(p, rs[k]) by {
        lemma_body_grow(p, q, rs[k].body@);
    }
    assert(rs.map_values(|r: Rule| rule_text(q, r)) =~= rs.map_values(|r: Rule| rule_text(p, r)));
}

fn is_punct_token(t: &DeclToken, c: char) -> (r: bool)
    ensures
        r == is_punct(*t, c),
{
    match t {
        DeclToken::Punct(d) => *d == c,
        _ => false,
    }
}

/// Reads the declaration that starts at `pos`: the position after it and the
/// rule, its names interned in `pool`; `None` when none starts there.
pub fn read_rule(tokens: &Vec<DeclToken>, pos: usize, pool: &mut StringPool) -> (r: Option<(usize, Rule)>)
    requires
        old(pool).wf(),
    ensures
        final(pool).wf(),
        old(pool)@.is_prefix_of(final(pool)@),
        match r {
            None => !header_at(tokens@, pos as int),
            Some(res) => {
                &&& header_at(tokens@, pos as int)
                &&& res.0 == body_from(tokens@, pos + 5).1
                &&& rule_in(final(pool)@, res.1)
                &&& rule_text(final(pool)@, res.1) == (
                    ident_text(tokens@[pos as int]),
                    ident_text(tokens@[pos + 2]),
                    body_from(tokens@, pos + 5).0,
                )
            },
        },
{
    let ghost ts = tokens@;
    if pos >= tokens.len() || tokens.len() - pos < 5 {
        return None;
    }
    let name_text = match &tokens[pos] {
        DeclToken::Ident(s) => s,
        _ => {
            return None;
        },
    };
    let head_text = match &tokens[pos + 2] {
        DeclToken::Ident(s) => s,
        _ => {
            return None;
        },
    };
    if !is_punct_token(&tokens[pos + 1], ':') || !is_punct_token(&tokens[pos + 3], '=')
        || !is_punct_token(&tokens[pos + 4], '>') {
        return None;
    }
    let head = NonTerminal::new(pool.get(head_text.as_str()));
    let ghost pool_head = pool@;
    let mut body: Vec<Symbol> = Vec::new();
    let mut i: usize = pos + 5;
    assert(body_text(pool@, body@) =~= Seq::<SymbolText>::empty());
    loop
        invariant_except_break
            body_from(ts, pos + 5) == (body_text(pool@, body@) + body_from(ts, i as int).0, body_from(ts, i as int).1),
        invariant
            pos + 5 <= i,
            ts == tokens@,
            pool.wf(),
            old(pool)@.is_prefix_of(pool_head),
            pool_head.is_prefix_of(pool@),
            head.name.id < pool_head.len(),
            pool_head[head.name.id as int] == head_text@,
            forall|k: int| 0 <= k < body@.len() ==> symbol_in(pool@, #[trigger] body@[k]),
        ensures
            pool.wf(),
            old(pool)@.is_prefix_of(pool@),
            pool_head.is_prefix_of(pool@),
            forall|k: int| 0 <= k < body@.len() ==> symbol_in(pool@, #[trigger] body@[k]),
            body_from(ts, pos + 5) == (body_text(pool@, body@), i as int),
        decreases tokens@.len() - i,
    {
        if i >= tokens.len() {
            assert(body_text(pool@, body@) + Seq::<SymbolText>::empty() =~= body_text(pool@, body@));
            break;
        }
        let ghost pool_step = pool@;
        let ghost b0 = body@;
        match &tokens[i] {
            DeclToken::Ident(s) => {
                let h = pool.get(s.as_str());
                body.push(Symbol::NonTerminal(NonTerminal::new(h)));
                proof {
                    lemma_body_grow(pool_step, pool@, b0);
                    assert(body_text(pool@, body@) =~= body_text(pool@, b0).push((false, s@)));
                    assert(body_from(ts, i as int).0 =~= seq![(false, s@)] + body_from(ts, i + 1).0);
                    assert(body_text(pool@, body@) + body_from(ts, i + 1).0 =~= body_text(pool_step, b0)
                        + body_from(ts, i as int).0);
                }
                i = i + 1;
            },
            DeclToken::Literal(s) => {
                let h = pool.get(s.as_str());
                body.push(Symbol::Terminal(Terminal::new(h)));
                proof {
                    lemma_body_grow(pool_step, pool@, b0);
                    assert(body_text(pool@, body@) =~= body_text(pool@, b0).push((true, s@)));
                    assert(body_from(ts, i as int).0 =~= seq![(true, s@)] + body_from(ts, i + 1).0);
                    assert(body_text(pool@, body@) + body_from(ts, i + 1).0 =~= body_text(pool_step, b0)
                        + body_from(ts, i as int).0);
                }
                i = i + 1;
            },
            DeclToken::Punct(c) => {
                if *c == ';' {
                    i = i + 1;
                    assert(body_text(pool@, body@) + Seq::<SymbolText>::empty() =~= body_text(pool@, body@));
                    break;
                }
                i = i + 1;
            },
            DeclToken::Other => {
                i = i + 1;
            },
        }
    }
    let ghost pool_body = pool@;
    let name = pool.get(name_text.as_str());
    proof {
        lemma_body_grow(pool_body, pool@, body@);
    }
    Some((i, Rule { name, head, body }))
}

/// Builds a grammar from a list of declarations: every declaration read from
/// the front until one fails to start, with the start symbol `Start`.
pub fn build(tokens: &Vec<DeclToken>, pool: &mut StringPool) -> (r: BNF)
    requires
        old(pool).wf(),
    ensures
        final(pool).wf(),
        old(pool)@.is_prefix_of(final(pool)@),
        r.start.name.id < final(pool)@.len(),
        final(pool)@[r.start.name.id as int] == seq!['S', 't', 'a', 'r', 't'],
        forall|k: int| 0 <= k < r.rules@.len() ==> rule_in(final(pool)@, #[trigger] r.rules@[k]),
        r.rules@.map_values(|x: Rule| rule_text(final(pool)@, x)) == decls_from(tokens@, 0),
{
    let ghost ts = tokens@;
    let mut rules: Vec<Rule> = Vec::new();
    let mut pos: usize = 0;
    assert(rules@.map_values(|x: Rule| rule_text(pool@, x)) =~= Seq::<RuleText>::empty());
    loop
        invariant_except_break
            decls_from(ts, 0) == rules@.map_values(|x: Rule| rule_text(pool@, x)) + decls_from(ts, pos as int),
        invariant
            ts == tokens@,
            pool.wf(),
            old(pool)@.is_prefix_of(pool@),
            forall|k: int| 0 <= k < rules@.len() ==> rule_in(pool@, #[trigger] rules@[k]),
        ensures
            pool.wf(),
            old(pool)@.is_prefix_of(pool@),
            forall|k: int| 0 <= k < rules@.len() ==> rule_in(pool@, #[trigger] rules@[k]),
            decls_from(ts, 0) == rules@.map_values(|x: Rule| rule_text(pool@, x)),
        decreases tokens@.len() - pos,
    {
        let ghost pool_step = pool@;
        let ghost r0 = rules@;
        match read_rule(tokens, pos, pool) {
            None => {
                proof {
                    lemma_rules_grow(pool_step, pool@, r0);
                }
                assert(decls_from(ts, pos as int) =~= Seq::<RuleText>::empty());
                assert(rules@.map_values(|x: Rule| rule_text(pool@, x)) + Seq::<RuleText>::empty()
                    =~= rules@.map_values(|x: Rule| rule_text(pool@, x)));
                break;
            },
            Some((end, rule)) => {
                rules.push(rule);
                proof {
                    lemma_rules_grow(pool_step, pool@, r0);
                    assert(rules@.map_values(|x: Rule| rule_text(pool@, x)) =~= r0.map_values(
                        |x: Rule| rule_text(pool@, x),
                    ).push(rule_text(pool@, rule)));
                    assert(rules@.map_values(|x: Rule| rule_text(pool@, x)) + decls_from(ts, end as int)
                        =~= r0.map_values(|x: Rule| rule_text(pool_step, x)) + decls_from(ts, pos as int));
                    assert forall|k: int| 0 <= k < rules@.len() implies rule_in(pool@, #[trigger] rules@[k]) by {
                        if k < r0.len() {
                            assert(rules@[k] == r0[k]);
                        }
                    }
                    lemma_body_from_end(ts, pos + 5);
                }
                pos = end;
            },
        }
    }
    let ghost pool_rules = pool@;
    let start = pool.get("Start");
    proof {
        reveal_strlit("Start");
        lemma_rules_grow(pool_rules, pool@, rules@);
    }
    BNF { start: NonTerminal::new(start), rules }
}

} // verus!
