//! Recursive-descent parsing with backtracking over the candidate rules of
//! each nonterminal, tried in declaration order; the first success wins.
//!
//! A rule that is already being tried at the current position is not tried
//! again there: when a nonterminal is entered again at the same position, its
//! candidates in progress are passed over and the others are tried in order.
//! This keeps left-recursive grammars from recursing without end, and is what
//! makes every parse terminate.

use crate::bnf::{
    BNFProxy, NonTerminal, Rule, Symbol, candidates, lemma_candidates_in_range,
};
use crate::string_pool::StringPool;
use crate::token::Token;
use vstd::prelude::*;

verus! {

/// A parse tree as a mathematical value: the index of the rule applied, and
/// one sub-tree for each nonterminal of that rule's body, in body order.
pub struct TreeModel {
    pub rule: nat,
    pub subs: Seq<TreeModel>,
}

/// A parse tree: the index of the matched rule in the grammar's rules, and one
/// sub-tree per nonterminal of its body, in body order.
#[derive(Debug)]
pub struct ParseTree {
    pub rule: usize,
    pub sub_trees: Vec<ParseTree>,
}

pub open spec fn tree_model(t: ParseTree) -> TreeModel
    decreases t,
{
    TreeModel {
        rule: t.rule as nat,
        subs: Seq::new(
            t.sub_trees@.len(),
            |i: int|
                if 0 <= i < t.sub_trees@.len() {
                    tree_model(t.sub_trees@[i])
                } else {
                    TreeModel { rule: 0, subs: Seq::empty() }
                },
        ),
    }
}

pub open spec fn tree_models(ts: Seq<ParseTree>) -> Seq<TreeModel> {
    Seq::new(ts.len(), |i: int| tree_model(ts[i]))
}

/// How many of the first `n` rules are not in `active`.
pub open spec fn unguarded(active: Seq<usize>, n: int) -> nat
    decreases n,
{
    if n <= 0 {
        0
    } else {
        unguarded(active, n - 1) + if active.contains((n - 1) as usize) {
            0nat
        } else {
            1nat
        }
    }
}

pub proof fn lemma_unguarded_push(active: Seq<usize>, ri: usize, n: int)
    requires
        !active.contains(ri),
        0 <= n <= usize::MAX + 1,
    ensures
        unguarded(active.push(ri), n) <= unguarded(active, n),
        ri < n ==> unguarded(active.push(ri), n) < unguarded(active, n),
    decreases n,
{
    if n > 0 {
        lemma_unguarded_push(active, ri, n - 1);
        let a2 = active.push(ri);
        let x = (n - 1) as usize;
        assert(a2.contains(x) == (active.contains(x) || x == ri)) by {
            if a2.contains(x) {
                let j = choose|j: int| 0 <= j < a2.len() && a2[j] == x;
                if j < active.len() {
                    assert(active[j] == a2[j]);
                }
            }
            if active.contains(x) {
                let j = choose|j: int| 0 <= j < active.len() && active[j] == x;
                assert(a2[j] == active[j]);
            }
            if x == ri {
                assert(a2[active.len() as int] == ri);
            }
        }
    }
}

/// Derives `h` at token position `pos`, `active` being the rules already
/// being tried at `pos`: the end position and the tree of the first candidate
/// rule that succeeds.
pub open spec fn derive(
    g: Seq<Rule>,
    ts: Seq<Token>,
    names: Seq<Seq<char>>,
    h: NonTerminal,
    pos: int,
    active: Seq<usize>,
) -> Option<(int, TreeModel)>
    decreases ts.len() - pos, unguarded(active, g.len() as int), 2int, 0int,
{
    try_rules(g, ts, names, candidates(g, h), 0, pos, active)
}

/// Tries the rules `cs[k..]` in order at `pos`, passing over those in
/// `active`: the first success.
pub open spec fn try_rules(
    g: Seq<Rule>,
    ts: Seq<Token>,
    names: Seq<Seq<char>>,
    cs: Seq<usize>,
    k: int,
    pos: int,
    active: Seq<usize>,
) -> Option<(int, TreeModel)>
    decreases ts.len() - pos, unguarded(active, g.len() as int), 1int, cs.len() - k,
{
    if k < 0 || k >= cs.len() {
        None
    } else if active.contains(cs[k]) || cs[k] >= g.len() || g.len() > usize::MAX {
        try_rules(g, ts, names, cs, k + 1, pos, active)
    } else {
        proof {
            lemma_unguarded_push(active, cs[k], g.len() as int);
        }
        match walk(g, ts, names, cs[k] as int, 0, pos, active.push(cs[k]), Seq::empty()) {
            Some(res) => Some(res),
            None => try_rules(g, ts, names, cs, k + 1, pos, active),
        }
    }
}

/// Matches the body of rule `ri` from its `k`-th symbol on, at `pos`, with the
/// sub-trees `subs` built so far: the end position and the rule's tree.
pub open spec fn walk(
    g: Seq<Rule>,
    ts: Seq<Token>,
    names: Seq<Seq<char>>,
    ri: int,
    k: int,
    pos: int,
    active: Seq<usize>,
    subs: Seq<TreeModel>,
) -> Option<(int, TreeModel)>
    decreases ts.len() - pos, unguarded(active, g.len() as int), 3int, g[ri].body@.len() - k,
{
    let body = g[ri].body@;
    if k < 0 || k >= body.len() {
        Some((pos, TreeModel { rule: ri as nat, subs }))
    } else {
        match body[k] {
            Symbol::Terminal(t) => {
                if 0 <= pos < ts.len() && t.matches(ts[pos], names) {
                    walk(g, ts, names, ri, k + 1, pos + 1, Seq::empty(), subs)
                } else {
                    None
                }
            },
            Symbol::NonTerminal(b) => {
                match derive(g, ts, names, b, pos, active) {
                    Some(res) => {
                        if res.0 == pos {
                            walk(g, ts, names, ri, k + 1, pos, active, subs.push(res.1))
                        } else if pos < res.0 <= ts.len() {
                            walk(g, ts, names, ri, k + 1, res.0, Seq::empty(), subs.push(res.1))
                        } else {
                            None
                        }
                    },
                    None => None,
                }
            },
        }
    }
}

/// The outcome of parsing `ts` from the start symbol `start`: the position
/// where the derivation ends, and its tree.
pub open spec fn parse_spec(g: Seq<Rule>, ts: Seq<Token>, names: Seq<Seq<char>>, start: NonTerminal) -> Option<(int, TreeModel)> {
    derive(g, ts, names, start, 0, Seq::empty())
}

/// Backtracking: when each candidate rule of `h` before the `k`-th is either
/// already being tried at `pos` or fails there, and the `k`-th is not being
/// tried and succeeds, deriving `h` gives that rule's result. What a failed
/// candidate matched before it failed leaves no trace in the outcome. Every
/// nonterminal that `parse` meets, the start symbol first, is derived so:
/// `parse` returns exactly `parse_spec`, which is `derive` of the start symbol.
pub proof fn lemma_first_success(
    g: Seq<Rule>,
    ts: Seq<Token>,
    names: Seq<Seq<char>>,
    h: NonTerminal,
    pos: int,
    active: Seq<usize>,
    k: int,
)
    requires
        g.len() <= usize::MAX,
        0 <= k < candidates(g, h).len(),
        forall|j: int|
            0 <= j < k ==> active.contains(#[trigger] candidates(g, h)[j]) || walk(
                g,
                ts,
                names,
                candidates(g, h)[j] as int,
                0,
                pos,
                active.push(candidates(g, h)[j]),
                Seq::empty(),
            ) is None,
        !active.contains(candidates(g, h)[k]),
        walk(g, ts, names, candidates(g, h)[k] as int, 0, pos, active.push(candidates(g, h)[k]), Seq::empty())
            is Some,
    ensures
        derive(g, ts, names, h, pos, active) == walk(
            g,
            ts,
            names,
            candidates(g, h)[k] as int,
            0,
            pos,
            active.push(candidates(g, h)[k]),
            Seq::empty(),
        ),
{
    lemma_candidates_in_range(g, h, g.len() as int);
    lemma_try_rules_skip(g, ts, names, candidates(g, h), 0, k, pos, active);
}

proof fn lemma_try_rules_skip(
    g: Seq<Rule>,
    ts: Seq<Token>,
    names: Seq<Seq<char>>,
    cs: Seq<usize>,
    j: int,
    k: int,
    pos: int,
    active: Seq<usize>,
)
    requires
        g.len() <= usize::MAX,
        0 <= j <= k < cs.len(),
        forall|i: int| 0 <= i < cs.len() ==> #[trigger] cs[i] < g.len(),
        forall|i: int|
            j <= i < k ==> active.contains(#[trigger] cs[i]) || walk(
                g,
                ts,
                names,
                cs[i] as int,
                0,
                pos,
                active.push(cs[i]),
                Seq::empty(),
            ) is None,
        !active.contains(cs[k]),
        walk(g, ts, names, cs[k] as int, 0, pos, active.push(cs[k]), Seq::empty()) is Some,
    ensures
        try_rules(g, ts, names, cs, j, pos, active) == walk(
            g,
            ts,
            names,
            cs[k] as int,
            0,
            pos,
            active.push(cs[k]),
            Seq::empty(),
        ),
    decreases k - j,
{
    assert(cs[j] < g.len());
    if j < k {
        lemma_try_rules_skip(g, ts, names, cs, j + 1, k, pos, active);
    }
}

/// The nonterminals among the first `k` symbols of `b`, in order.
pub open spec fn nonterminals_upto(b: Seq<Symbol>, k: int) -> Seq<NonTerminal>
    decreases k,
{
    if k <= 0 {
        Seq::empty()
    } else {
        let prev = nonterminals_upto(b, k - 1);
        match b[k - 1] {
            Symbol::NonTerminal(n) => prev.push(n),
            Symbol::Terminal(_) => prev,
        }
    }
}

/// The nonterminals of the body `b`, in order.
pub open spec fn nonterminals(b: Seq<Symbol>) -> Seq<NonTerminal> {
    nonterminals_upto(b, b.len() as int)
}

/// `m` is a tree for `h`: its rule produces `h`, and it has one sub-tree for
/// each nonterminal of that rule's body, in body order, each a tree for that
/// nonterminal.
pub open spec fn fits(g: Seq<Rule>, m: TreeModel, h: NonTerminal) -> bool
    decreases m,
{
    &&& m.rule < g.len()
    &&& g[m.rule as int].head == h
    &&& m.subs.len() == nonterminals(g[m.rule as int].body@).len()
    &&& forall|i: int|
        0 <= i < m.subs.len() ==> fits(g, #[trigger] m.subs[i], nonterminals(g[m.rule as int].body@)[i])
}

/// Re-walks the tree `m` against the tokens from `pos`: where its derivation
/// ends, when each terminal of it matches the token at its position.
pub open spec fn consumes(g: Seq<Rule>, ts: Seq<Token>, names: Seq<Seq<char>>, m: TreeModel, pos: int) -> Option<int>
    decreases m, g[m.rule as int].body@.len() + 1,
{
    consumes_body(g, ts, names, m, 0, 0, pos)
}

/// Re-walks the body of `m`'s rule from its `k`-th symbol on, the `j`-th
/// sub-tree of `m` standing for the next nonterminal.
pub open spec fn consumes_body(
    g: Seq<Rule>,
    ts: Seq<Token>,
    names: Seq<Seq<char>>,
    m: TreeModel,
    k: int,
    j: int,
    pos: int,
) -> Option<int>
    decreases m, g[m.rule as int].body@.len() - k,
{
    let body = g[m.rule as int].body@;
    if k < 0 || k >= body.len() {
        Some(pos)
    } else {
        match body[k] {
            Symbol::Terminal(t) => {
                if 0 <= pos < ts.len() && t.matches(ts[pos], names) {
                    consumes_body(g, ts, names, m, k + 1, j, pos + 1)
                } else {
                    None
                }
            },
            Symbol::NonTerminal(_) => {
                if 0 <= j < m.subs.len() {
                    match consumes(g, ts, names, m.subs[j], pos) {
                        Some(e) => consumes_body(g, ts, names, m, k + 1, j + 1, e),
                        None => None,
                    }
                } else {
                    None
                }
            },
        }
    }
}

/// A successful parse is a derivation of the start symbol: its tree is a
/// tree for the start symbol (see `fits`), and re-walking that tree against
/// the tokens matches every terminal and ends where the parse ended, within
/// the input.
pub proof fn lemma_parse_sound(g: Seq<Rule>, ts: Seq<Token>, names: Seq<Seq<char>>, start: NonTerminal)
    requires
        g.len() <= usize::MAX,
    ensures
        parse_spec(g, ts, names, start) matches Some(res) ==> {
            &&& 0 <= res.0 <= ts.len()
            &&& fits(g, res.1, start)
            &&& consumes(g, ts, names, res.1, 0) == Some(res.0)
        },
{
    lemma_derive_fits(g, ts, names, start, 0, Seq::empty());
    lemma_derive_consumes(g, ts, names, start, 0, Seq::empty());
}

proof fn lemma_derive_consumes(
    g: Seq<Rule>,
    ts: Seq<Token>,
    names: Seq<Seq<char>>,
    h: NonTerminal,
    pos: int,
    active: Seq<usize>,
)
    requires
        0 <= pos <= ts.len(),
        g.len() <= usize::MAX,
    ensures
        derive(g, ts, names, h, pos, active) matches Some(res) ==> consumes(g, ts, names, res.1, pos) == Some(
            res.0,
        ),
    decreases ts.len() - pos, unguarded(active, g.len() as int), 2int, 0int,
{
    lemma_candidates_in_range(g, h, g.len() as int);
    lemma_try_consumes(g, ts, names, candidates(g, h), 0, pos, active);
}

proof fn lemma_try_consumes(
    g: Seq<Rule>,
    ts: Seq<Token>,
    names: Seq<Seq<char>>,
    cs: Seq<usize>,
    k: int,
    pos: int,
    active: Seq<usize>,
)
    requires
        0 <= pos <= ts.len(),
        g.len() <= usize::MAX,
        forall|j: int| 0 <= j < cs.len() ==> #[trigger] cs[j] < g.len(),
    ensures
        try_rules(g, ts, names, cs, k, pos, active) matches Some(res) ==> consumes(g, ts, names, res.1, pos)
            == Some(res.0),
    decreases ts.len() - pos, unguarded(active, g.len() as int), 1int, cs.len() - k,
{
    if 0 <= k < cs.len() {
        assert(cs[k] < g.len());
        if !active.contains(cs[k]) {
            lemma_unguarded_push(active, cs[k], g.len() as int);
            lemma_walk_consumes(g, ts, names, cs[k] as int, 0, pos, active.push(cs[k]), Seq::empty());
        }
        lemma_try_consumes(g, ts, names, cs, k + 1, pos, active);
    }
}

proof fn lemma_walk_consumes(
    g: Seq<Rule>,
    ts: Seq<Token>,
    names: Seq<Seq<char>>,
    ri: int,
    k: int,
    pos: int,
    active: Seq<usize>,
    subs: Seq<TreeModel>,
)
    requires
        0 <= ri < g.len() <= usize::MAX,
        0 <= pos <= ts.len(),
        0 <= k,
    ensures
        walk(g, ts, names, ri, k, pos, active, subs) matches Some(res) ==> {
            &&& res.1.rule == ri
            &&& subs.is_prefix_of(res.1.subs)
            &&& consumes_body(g, ts, names, res.1, k, subs.len() as int, pos) == Some(res.0)
        },
    decreases ts.len() - pos, unguarded(active, g.len() as int), 3int, g[ri].body@.len() - k,
{
    let body = g[ri].body@;
    if k >= body.len() {
        assert(subs.is_prefix_of(subs)) by {
            assert(subs.subrange(0, subs.len() as int) =~= subs);
        }
    } else {
        match body[k] {
            Symbol::Terminal(t) => {
                if 0 <= pos < ts.len() && t.matches(ts[pos], names) {
                    lemma_walk_consumes(g, ts, names, ri, k + 1, pos + 1, Seq::empty(), subs);
                }
            },
            Symbol::NonTerminal(b) => {
                lemma_derive_consumes(g, ts, names, b, pos, active);
                lemma_derive_fits(g, ts, names, b, pos, active);
                if let Some(res) = derive(g, ts, names, b, pos, active) {
                    let subs2 = subs.push(res.1);
                    if res.0 == pos {
                        lemma_walk_consumes(g, ts, names, ri, k + 1, pos, active, subs2);
                    } else if pos < res.0 <= ts.len() {
                        lemma_walk_consumes(g, ts, names, ri, k + 1, res.0, Seq::empty(), subs2);
                    }
                    if let Some(fin) = walk(g, ts, names, ri, k, pos, active, subs) {
                        let m = fin.1;
                        assert(subs2.is_prefix_of(m.subs));
                        assert(m.subs[subs.len() as int] == subs2[subs.len() as int]);
                        assert(subs.is_prefix_of(m.subs)) by {
                            assert forall|i: int| 0 <= i < subs.len() implies m.subs[i] == subs[i] by {
                                assert(subs2[i] == subs[i]);
                            }
                            assert(m.subs.subrange(0, subs.len() as int) =~= subs);
                        }
                    }
                }
            },
        }
    }
}

proof fn lemma_derive_fits(
    g: Seq<Rule>,
    ts: Seq<Token>,
    names: Seq<Seq<char>>,
    h: NonTerminal,
    pos: int,
    active: Seq<usize>,
)
    requires
        0 <= pos <= ts.len(),
        g.len() <= usize::MAX,
    ensures
        derive(g, ts, names, h, pos, active) matches Some(res) ==> pos <= res.0 <= ts.len() && fits(
            g,
            res.1,
            h,
        ),
    decreases ts.len() - pos, unguarded(active, g.len() as int), 2int, 0int,
{
    lemma_candidates_in_range(g, h, g.len() as int);
    lemma_try_fits(g, ts, names, h, candidates(g, h), 0, pos, active);
}

proof fn lemma_try_fits(
    g: Seq<Rule>,
    ts: Seq<Token>,
    names: Seq<Seq<char>>,
    h: NonTerminal,
    cs: Seq<usize>,
    k: int,
    pos: int,
    active: Seq<usize>,
)
    requires
        0 <= pos <= ts.len(),
        g.len() <= usize::MAX,
        forall|j: int| 0 <= j < cs.len() ==> #[trigger] cs[j] < g.len() && g[cs[j] as int].head == h,
    ensures
        try_rules(g, ts, names, cs, k, pos, active) matches Some(res) ==> pos <= res.0 <= ts.len() && fits(
            g,
            res.1,
            h,
        ),
    decreases ts.len() - pos, unguarded(active, g.len() as int), 1int, cs.len() - k,
{
    if 0 <= k < cs.len() {
        assert(cs[k] < g.len());
        if !active.contains(cs[k]) {
            assert(nonterminals_upto(g[cs[k] as int].body@, 0) =~= Seq::<NonTerminal>::empty());
            lemma_unguarded_push(active, cs[k], g.len() as int);
            lemma_walk_fits(g, ts, names, cs[k] as int, 0, pos, active.push(cs[k]), Seq::empty());
        }
        lemma_try_fits(g, ts, names, h, cs, k + 1, pos, active);
    }
}

proof fn lemma_walk_fits(
    g: Seq<Rule>,
    ts: Seq<Token>,
    names: Seq<Seq<char>>,
    ri: int,
    k: int,
    pos: int,
    active: Seq<usize>,
    subs: Seq<TreeModel>,
)
    requires
        0 <= ri < g.len() <= usize::MAX,
        0 <= pos <= ts.len(),
        0 <= k <= g[ri].body@.len(),
        subs.len() == nonterminals_upto(g[ri].body@, k).len(),
        forall|i: int|
            0 <= i < subs.len() ==> fits(g, #[trigger] subs[i], nonterminals_upto(g[ri].body@, k)[i]),
    ensures
        walk(g, ts, names, ri, k, pos, active, subs) matches Some(res) ==> pos <= res.0 <= ts.len()
            && fits(g, res.1, g[ri].head),
    decreases ts.len() - pos, unguarded(active, g.len() as int), 3int, g[ri].body@.len() - k,
{
    let body = g[ri].body@;
    if k < body.len() {
        let nts = nonterminals_upto(body, k);
        match body[k] {
            Symbol::Terminal(t) => {
                if 0 <= pos < ts.len() && t.matches(ts[pos], names) {
                    assert(nonterminals_upto(body, k + 1) == nts);
                    lemma_walk_fits(g, ts, names, ri, k + 1, pos + 1, Seq::empty(), subs);
                }
            },
            Symbol::NonTerminal(b) => {
                lemma_derive_fits(g, ts, names, b, pos, active);
                if let Some(res) = derive(g, ts, names, b, pos, active) {
                    let subs2 = subs.push(res.1);
                    assert(nonterminals_upto(body, k + 1) == nts.push(b));
                    assert forall|i: int| 0 <= i < subs2.len() implies fits(
                        g,
                        #[trigger] subs2[i],
                        nonterminals_upto(body, k + 1)[i],
                    ) by {
                        if i < subs.len() {
                            assert(subs2[i] == subs[i]);
                        }
                    }
                    if res.0 == pos {
                        lemma_walk_fits(g, ts, names, ri, k + 1, pos, active, subs2);
                    } else if pos < res.0 <= ts.len() {
                        lemma_walk_fits(g, ts, names, ri, k + 1, res.0, Seq::empty(), subs2);
                    }
                }
            },
        }
    }
}

fn contains_rule(v: &Vec<usize>, ri: usize) -> (r: bool)
    ensures
        r == v@.contains(ri),
{
    let mut i: usize = 0;
    while i < v.len()
        invariant
            i <= v@.len(),
            forall|j: int| 0 <= j < i ==> v@[j] != ri,
        decreases v@.len() - i,
    {
        if v[i] == ri {
            assert(v@[i as int] == ri);
            return true;
        }
        i = i + 1;
    }
    false
}

/// Derives `head` at `pos`: the end position and the tree, as `derive` gives them.
fn parse_head(
    head: NonTerminal,
    tokens: &Vec<Token>,
    pos: usize,
    active: &mut Vec<usize>,
    bnf: &BNFProxy,
    pool: &StringPool,
) -> (r: Option<(usize, ParseTree)>)
    requires
        bnf.wf(),
        pool.wf(),
        pos <= tokens@.len(),
    ensures
        final(active)@ == old(active)@,
        match r {
            None => derive(bnf.grammar().rules@, tokens@, pool@, head, pos as int, old(active)@) is None,
            Some(res) => {
                &&& derive(bnf.grammar().rules@, tokens@, pool@, head, pos as int, old(active)@) == Some(
                    (res.0 as int, tree_model(res.1)),
                )
                &&& pos <= res.0 <= tokens@.len()
            },
        },
    decreases tokens@.len() - pos, unguarded(active@, bnf.grammar().rules@.len() as int), 2int, 0int,
{
    let ghost g = bnf.grammar().rules@;
    let ghost ts = tokens@;
    let ghost names = pool@;
    let ghost a0 = active@;
    match bnf.rules(&head) {
        None => {
            assert(derive(g, ts, names, head, pos as int, a0) is None);
            None
        },
        Some(cands) => {
            let n_rules = bnf.bnf().rules.len();
            proof {
                assert(g.len() == n_rules);
                lemma_candidates_in_range(g, head, g.len() as int);
            }
            let mut k: usize = 0;
            while k < cands.len()
                invariant
                    bnf.wf(),
                    pool.wf(),
                    pos <= tokens@.len(),
                    g == bnf.grammar().rules@,
                    g.len() <= usize::MAX,
                    ts == tokens@,
                    names == pool@,
                    active@ == a0,
                    a0 == old(active)@,
                    cands@ == candidates(g, head),
                    k <= cands@.len(),
                    forall|j: int| 0 <= j < cands@.len() ==> #[trigger] cands@[j] < g.len(),
                    derive(g, ts, names, head, pos as int, a0) == try_rules(
                        g,
                        ts,
                        names,
                        cands@,
                        k as int,
                        pos as int,
                        a0,
                    ),
                decreases cands@.len() - k,
            {
                let ri = cands[k];
                assert(ri < g.len());
                if !contains_rule(active, ri) {
                    proof {
                        lemma_unguarded_push(a0, ri, g.len() as int);
                    }
                    active.push(ri);
                    let res = parse_rule(ri, tokens, pos, active, bnf, pool);
                    active.pop();
                    assert(active@ =~= a0);
                    match res {
                        Some(found) => {
                            return Some(found);
                        },
                        None => {},
                    }
                }
                k = k + 1;
            }
            None
        },
    }
}

/// Matches the body of rule `ri` at `pos`: the end position and the rule's
/// tree, as `walk` gives them.
fn parse_rule(
    ri: usize,
    tokens: &Vec<Token>,
    pos: usize,
    active: &mut Vec<usize>,
    bnf: &BNFProxy,
    pool: &StringPool,
) -> (r: Option<(usize, ParseTree)>)
    requires
        bnf.wf(),
        pool.wf(),
        pos <= tokens@.len(),
        ri < bnf.grammar().rules@.len(),
    ensures
        final(active)@ == old(active)@,
        match r {
            None => walk(
                bnf.grammar().rules@,
                tokens@,
                pool@,
                ri as int,
                0,
                pos as int,
                old(active)@,
                Seq::empty(),
            ) is None,
            Some(res) => {
                &&& walk(
                    bnf.grammar().rules@,
                    tokens@,
                    pool@,
                    ri as int,
                    0,
                    pos as int,
                    old(active)@,
                    Seq::empty(),
                ) == Some((res.0 as int, tree_model(res.1)))
                &&& pos <= res.0 <= tokens@.len()
            },
        },
    decreases tokens@.len() - pos, unguarded(active@, bnf.grammar().rules@.len() as int), 3int, 0int,
{
    let ghost g = bnf.grammar().rules@;
    let ghost ts = tokens@;
    let ghost names = pool@;
    let ghost a0 = active@;
    let rule = &bnf.bnf().rules[ri];
    let mut cur: usize = pos;
    let mut at_start = true;
    let mut fresh: Vec<usize> = Vec::new();
    let mut subs: Vec<ParseTree> = Vec::new();
    let mut k: usize = 0;
    assert(tree_models(subs@) =~= Seq::<TreeModel>::empty());
    while k < rule.body.len()
        invariant
            bnf.wf(),
            pool.wf(),
            g == bnf.grammar().rules@,
            ts == tokens@,
            names == pool@,
            *rule == g[ri as int],
            active@ == a0,
            a0 == old(active)@,
            fresh@ == Seq::<usize>::empty(),
            k <= rule.body@.len(),
            at_start ==> cur == pos,
            !at_start ==> pos < cur,
            cur <= tokens@.len(),
            walk(g, ts, names, ri as int, 0, pos as int, a0, Seq::empty()) == walk(
                g,
                ts,
                names,
                ri as int,
                k as int,
                cur as int,
                if at_start {
                    a0
                } else {
                    Seq::empty()
                },
                tree_models(subs@),
            ),
        decreases rule.body@.len() - k,
    {
        match rule.body[k] {
            Symbol::Terminal(t) => {
                if cur < tokens.len() && t.match_token(&tokens[cur], pool) {
                    cur = cur + 1;
                    at_start = false;
                } else {
                    return None;
                }
            },
            Symbol::NonTerminal(b) => {
                let res = if at_start {
                    parse_head(b, tokens, cur, active, bnf, pool)
                } else {
                    parse_head(b, tokens, cur, &mut fresh, bnf, pool)
                };
                match res {
                    None => {
                        return None;
                    },
                    Some((end, t)) => {
                        let ghost m = tree_model(t);
                        let ghost subs0 = subs@;
                        subs.push(t);
                        assert(tree_models(subs@) =~= tree_models(subs0).push(m));
                        if end != cur {
                            at_start = false;
                            cur = end;
                        }
                    },
                }
            },
        }
        k = k + 1;
    }
    let tree = ParseTree { rule: ri, sub_trees: subs };
    assert(tree_model(tree).subs =~= tree_models(tree.sub_trees@));
    Some((cur, tree))
}

/// Parses `tokens` from the grammar's start symbol. On success, the number of
/// tokens left unconsumed and the tree; the caller decides whether a
/// remainder is acceptable.
pub fn parse(tokens: &Vec<Token>, bnf: &BNFProxy, pool: &StringPool) -> (r: Option<(usize, ParseTree)>)
    requires
        bnf.wf(),
        pool.wf(),
    ensures
        match r {
            None => parse_spec(
                bnf.grammar().rules@,
                tokens@,
                pool@,
                bnf.grammar().start,
            ) is None,
            Some(res) => {
                &&& res.0 <= tokens@.len()
                &&& parse_spec(bnf.grammar().rules@, tokens@, pool@, bnf.grammar().start)
                    == Some(((tokens@.len() - res.0) as int, tree_model(res.1)))
            },
        },
{
    let mut active: Vec<usize> = Vec::new();
    let start = *bnf.start();
    match parse_head(start, tokens, 0, &mut active, bnf, pool) {
        None => None,
        Some((end, tree)) => Some((tokens.len() - end, tree)),
    }
}

} // verus!
