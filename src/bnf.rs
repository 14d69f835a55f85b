//! The grammar model (terminals, nonterminals, rules, grammars) and the
//! read-only index from each nonterminal to the rules that produce it.

use crate::string_pool::{Handle, StringPool, find_text};
use crate::token::Token;
use vstd::prelude::*;

verus! {

/// A grammar category, named by an interned handle.
#[derive(Debug, Clone, Copy, PartialEq, Eq, Hash, Structural)]
pub struct NonTerminal {
    pub name: Handle,
}

impl NonTerminal {
    pub fn new(name: Handle) -> (r: Self)
        ensures
            r.name == name,
    {
        NonTerminal { name }
    }
}

/// A symbol matched directly against a token.
#[derive(Debug, Clone, Copy, PartialEq, Eq, Hash, Structural)]
pub struct Terminal {
    pub name: Handle,
}

/// The text of the terminal that every numeral matches.
pub open spec fn num_text() -> Seq<char> {
    seq!['n', 'u', 'm']
}

impl Terminal {
    pub fn new(name: Handle) -> (r: Self)
        ensures
            r.name == name,
    {
        Terminal { name }
    }

    /// Whether this terminal matches `token`, names being read through the
    /// pool `p`: an identifier or a punctuation run by its handle, a numeral
    /// when this terminal's name is `num`.
    pub open spec fn matches(self, token: Token, p: Seq<Seq<char>>) -> bool {
        match token {
            Token::Ident(h) => h == self.name,
            Token::Punct(h) => h == self.name,
            Token::Number(_) => self.name.id < p.len() && p[self.name.id as int] == num_text(),
        }
    }

    pub fn match_token(&self, token: &Token, pool: &StringPool) -> (r: bool)
        requires
            pool.wf(),
        ensures
            r == self.matches(*token, pool@),
    {
        match token {
            Token::Ident(h) => *h == self.name,
            Token::Punct(h) => *h == self.name,
            Token::Number(_) => {
                let num = pool.lookup("num");
                proof {
                    reveal_strlit("num");
                    assert("num"@ =~= num_text());
                }
                match num {
                    Some(h) => {
                        proof {
                            if self.name.id < pool@.len() && pool@[self.name.id as int] == num_text() {
                                assert(pool@[self.name.id as int] == pool@[h.id as int]);
                            }
                        }
                        h == self.name
                    },
                    None => {
                        proof {
                            if self.name.id < pool@.len() && pool@[self.name.id as int] == num_text() {
                                assert(pool@.contains(num_text()));
                            }
                        }
                        false
                    },
                }
            },
        }
    }
}

#[derive(Debug, Clone, Copy, PartialEq, Eq, Hash, Structural)]
pub enum Symbol {
    NonTerminal(NonTerminal),
    Terminal(Terminal),
}

/// A named production from a head nonterminal to a sequence of symbols.
#[derive(Debug, Clone, PartialEq, Eq)]
pub struct Rule {
    pub name: Handle,
    pub head: NonTerminal,
    pub body: Vec<Symbol>,
}

/// A grammar: its start symbol and its rules, in declaration order.
#[derive(Debug, Clone, PartialEq, Eq)]
pub struct BNF {
    pub start: NonTerminal,
    pub rules: Vec<Rule>,
}

/// A later rule with the same head and the same name replaces rule `i`.
pub open spec fn superseded(rules: Seq<Rule>, i: int) -> bool {
    exists|j: int|
        i < j < rules.len() && #[trigger] rules[j].head == rules[i].head && rules[j].name
            == rules[i].name
}

/// The rules among the first `n` that produce `h` and are not replaced, in
/// declaration order, by index.
pub open spec fn candidates_upto(rules: Seq<Rule>, h: NonTerminal, n: int) -> Seq<usize>
    decreases n,
{
    if n <= 0 {
        Seq::empty()
    } else {
        let prev = candidates_upto(rules, h, n - 1);
        if rules[n - 1].head == h && !superseded(rules, n - 1) {
            prev.push((n - 1) as usize)
        } else {
            prev
        }
    }
}

/// The rules that the parser tries for `h`, in the order it tries them.
pub open spec fn candidates(rules: Seq<Rule>, h: NonTerminal) -> Seq<usize> {
    candidates_upto(rules, h, rules.len() as int)
}

/// Some rule among `rules` produces `h`.
pub open spec fn has_head(rules: Seq<Rule>, h: NonTerminal) -> bool {
    exists|i: int| 0 <= i < rules.len() && #[trigger] rules[i].head == h
}

/// Every candidate is the index of a rule that produces `h`.
pub proof fn lemma_candidates_in_range(rules: Seq<Rule>, h: NonTerminal, n: int)
    requires
        n <= rules.len() <= usize::MAX,
    ensures
        forall|j: int|
            0 <= j < candidates_upto(rules, h, n).len() ==> #[trigger] candidates_upto(rules, h, n)[j]
                < n && rules[candidates_upto(rules, h, n)[j] as int].head == h,
    decreases n,
{
    if n > 0 {
        lemma_candidates_in_range(rules, h, n - 1);
        let prev = candidates_upto(rules, h, n - 1);
        assert forall|j: int| 0 <= j < candidates_upto(rules, h, n).len() implies #[trigger] candidates_upto(rules, h, n)[j] < n
            && rules[candidates_upto(rules, h, n)[j] as int].head == h by {
            if j < prev.len() {
                assert(prev[j] < n - 1);
                assert(candidates_upto(rules, h, n)[j] == prev[j]);
            } else {
                assert(rules[n - 1].head == h && !superseded(rules, n - 1));
                assert(candidates_upto(rules, h, n) == prev.push((n - 1) as usize));
            }
        }
    }
}

proof fn lemma_candidates_upto_none(rules: Seq<Rule>, h: NonTerminal, n: int)
    requires
        n <= rules.len(),
        forall|i: int| 0 <= i < n ==> #[trigger] rules[i].head != h,
    ensures
        candidates_upto(rules, h, n) == Seq::<usize>::empty(),
    decreases n,
{
    if n > 0 {
        lemma_candidates_upto_none(rules, h, n - 1);
    }
}

/// Some entry of the index `idx` is for `h`.
pub open spec fn indexed(idx: Seq<HeadRules>, h: NonTerminal) -> bool {
    exists|k: int| 0 <= k < idx.len() && (#[trigger] idx[k]).head == h
}

/// No two entries of the index `idx` are for the same head.
pub open spec fn heads_distinct(idx: Seq<HeadRules>) -> bool {
    forall|a: int, b: int|
        0 <= a < idx.len() && 0 <= b < idx.len() && (#[trigger] idx[a]).head == (#[trigger] idx[b]).head
            ==> a == b
}

/// The rules that a grammar index holds for one head.
pub struct HeadRules {
    pub head: NonTerminal,
    pub rules: Vec<usize>,
}

/// A read-only index of a grammar: for each head, the rules that produce it.
pub struct BNFProxy<'b> {
    bnf: &'b BNF,
    non_term2rules: Vec<HeadRules>,
}

impl<'b> BNFProxy<'b> {
    /// The grammar this index was built from.
    pub closed spec fn grammar(&self) -> BNF {
        *self.bnf
    }

    pub closed spec fn wf(&self) -> bool {
        let rules = self.bnf.rules@;
        let idx = self.non_term2rules@;
        &&& forall|k: int|
            0 <= k < idx.len() ==> (#[trigger] idx[k]).rules@ == candidates(rules, idx[k].head)
        &&& forall|k: int| 0 <= k < idx.len() ==> has_head(rules, (#[trigger] idx[k]).head)
        &&& forall|i: int| 0 <= i < rules.len() ==> indexed(idx, #[trigger] rules[i].head)
        &&& heads_distinct(idx)
    }

    pub fn new(bnf: &'b BNF) -> (r: Self)
        ensures
            r.wf(),
            r.grammar() == *bnf,
    {
        let n = bnf.rules.len();
        let ghost rules = bnf.rules@;
        // which rules are not replaced by a later one
        let mut alive: Vec<bool> = Vec::new();
        let mut i: usize = 0;
        while i < n
            invariant
                n == rules.len(),
                rules == bnf.rules@,
                i <= n,
                alive@.len() == i,
                forall|k: int| 0 <= k < i ==> alive@[k] == !superseded(rules, k),
            decreases n - i,
        {
            let mut later = false;
            let mut j: usize = i + 1;
            while j < n
                invariant
                    n == rules.len(),
                    rules == bnf.rules@,
                    i < j <= n,
                    later == exists|m: int|
                        i < m < j && #[trigger] rules[m].head == rules[i as int].head
                            && rules[m].name == rules[i as int].name,
                decreases n - j,
            {
                if bnf.rules[j].head == bnf.rules[i].head && bnf.rules[j].name == bnf.rules[i].name {
                    later = true;
                }
                j = j + 1;
            }
            alive.push(!later);
            i = i + 1;
        }
        let mut index: Vec<HeadRules> = Vec::new();
        i = 0;
        while i < n
            invariant
                n == rules.len(),
                rules == bnf.rules@,
                i <= n,
                alive@.len() == n,
                forall|k: int| 0 <= k < n ==> alive@[k] == !superseded(rules, k),
                forall|k: int|
                    0 <= k < index@.len() ==> (#[trigger] index@[k]).rules@ == candidates(
                        rules,
                        index@[k].head,
                    ),
                forall|k: int| 0 <= k < index@.len() ==> has_head(rules, (#[trigger] index@[k]).head),
                forall|m: int| 0 <= m < i ==> indexed(index@, #[trigger] rules[m].head),
                heads_distinct(index@),
            decreases n - i,
        {
            let head = bnf.rules[i].head;
            let ghost index0 = index@;
            let mut known = false;
            let mut k: usize = 0;
            while k < index.len()
                invariant
                    k <= index@.len(),
                    known == exists|q: int| 0 <= q < k && (#[trigger] index@[q]).head == head,
                decreases index@.len() - k,
            {
                if index[k].head == head {
                    known = true;
                }
                k = k + 1;
            }
            if !known {
                let mut cands: Vec<usize> = Vec::new();
                let mut m: usize = 0;
                while m < n
                    invariant
                        n == rules.len(),
                        rules == bnf.rules@,
                        m <= n,
                        alive@.len() == n,
                        forall|q: int| 0 <= q < n ==> alive@[q] == !superseded(rules, q),
                        cands@ == candidates_upto(rules, head, m as int),
                    decreases n - m,
                {
                    if bnf.rules[m].head == head && alive[m] {
                        cands.push(m);
                    }
                    m = m + 1;
                }
                assert(has_head(rules, head)) by {
                    assert(rules[i as int].head == head);
                }
                let ghost before = index@;
                index.push(HeadRules { head, rules: cands });
                assert forall|a: int, b: int|
                    0 <= a < index@.len() && 0 <= b < index@.len() && (#[trigger] index@[a]).head
                        == (#[trigger] index@[b]).head implies a == b by {
                    if a < before.len() && b < before.len() {
                        assert(index@[a] == before[a] && index@[b] == before[b]);
                    } else if a < before.len() {
                        assert(index@[a] == before[a]);
                    } else if b < before.len() {
                        assert(index@[b] == before[b]);
                    }
                }
                assert(index@[index@.len() - 1].head == rules[i as int].head);
            }
            proof {
                assert forall|m: int| 0 <= m <= i implies indexed(index@, #[trigger] rules[m].head) by {
                    if m < i {
                        let k = choose|k: int|
                            0 <= k < index0.len() && (#[trigger] index0[k]).head == rules[m].head;
                        assert(index@[k] == index0[k]);
                    } else if known {
                        let k = choose|k: int| 0 <= k < index@.len() && (#[trigger] index@[k]).head == head;
                        assert(index@[k].head == rules[m].head);
                    } else {
                        assert(index@[index@.len() - 1].head == rules[m].head);
                    }
                }
            }
            i = i + 1;
        }
        BNFProxy { bnf, non_term2rules: index }
    }

    /// The rules that produce `head`, by index into the grammar's rules, in the
    /// order the parser tries them; `None` when no rule produces it.
    pub fn rules(&self, head: &NonTerminal) -> (r: Option<&Vec<usize>>)
        requires
            self.wf(),
        ensures
            match r {
                Some(v) => v@ == candidates(self.grammar().rules@, *head) && has_head(
                    self.grammar().rules@,
                    *head,
                ),
                None => !has_head(self.grammar().rules@, *head) && candidates(
                    self.grammar().rules@,
                    *head,
                ) == Seq::<usize>::empty(),
            },
    {
        let mut k: usize = 0;
        while k < self.non_term2rules.len()
            invariant
                self.wf(),
                k <= self.non_term2rules@.len(),
                forall|q: int| 0 <= q < k ==> (#[trigger] self.non_term2rules@[q]).head != *head,
            decreases self.non_term2rules@.len() - k,
        {
            if self.non_term2rules[k].head == *head {
                return Some(&self.non_term2rules[k].rules);
            }
            k = k + 1;
        }
        proof {
            let rules = self.bnf.rules@;
            assert forall|i: int| 0 <= i < rules.len() implies #[trigger] rules[i].head != *head by {
                let q = choose|q: int|
                    0 <= q < self.non_term2rules@.len() && (#[trigger] self.non_term2rules@[q]).head
                        == rules[i].head;
            }
            lemma_candidates_upto_none(rules, *head, rules.len() as int);
        }
        None
    }

    /// Whether some rule produces the nonterminal whose name is `name`.
    pub fn has_nonterm(&self, pool: &StringPool, name: &str) -> (r: bool)
        requires
            self.wf(),
            pool.wf(),
        ensures
            r == exists|i: int|
                0 <= i < self.grammar().rules@.len() && find_text(pool@, name@) == Some(
                    (#[trigger] self.grammar().rules@[i]).head.name.id as int,
                ),
    {
        match pool.lookup(name) {
            None => false,
            Some(h) => {
                let found = self.rules(&NonTerminal { name: h });
                proof {
                    let rules = self.bnf.rules@;
                    if found is None {
                        assert forall|i: int| 0 <= i < rules.len() implies find_text(pool@, name@) != Some(
                            (#[trigger] rules[i]).head.name.id as int,
                        ) by {
                            assert(rules[i].head != NonTerminal { name: h });
                        }
                    } else {
                        let i = choose|i: int| 0 <= i < rules.len() && #[trigger] rules[i].head == NonTerminal { name: h };
                        assert(find_text(pool@, name@) == Some(rules[i].head.name.id as int));
                    }
                }
                found.is_some()
            },
        }
    }

    /// Every head of the grammar with the rules that produce it.
    pub fn rules_iter(&self) -> (r: &Vec<HeadRules>)
        requires
            self.wf(),
        ensures
            forall|k: int|
                0 <= k < r@.len() ==> (#[trigger] r@[k]).rules@ == candidates(
                    self.grammar().rules@,
                    r@[k].head,
                ) && has_head(self.grammar().rules@, r@[k].head),
            forall|i: int|
                0 <= i < self.grammar().rules@.len() ==> indexed(r@, #[trigger] self.grammar().rules@[i].head),
            heads_distinct(r@),
    {
        &self.non_term2rules
    }

    pub fn start(&self) -> (r: &NonTerminal)
        ensures
            *r == self.grammar().start,
    {
        &self.bnf.start
    }

    /// The grammar this index was built from.
    pub fn bnf(&self) -> (r: &'b BNF)
        ensures
            *r == self.grammar(),
    {
        self.bnf
    }
}

} // verus!
