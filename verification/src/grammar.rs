//! Symbols, productions, and the grammar aggregate.
//!
//! A grammar owns an insertion-ordered table of distinct symbols and a list
//! of productions over symbol-table indices.  Index 0 always holds the
//! synthetic augmenting symbol `@`, and production 0 is always the
//! augmenting production whose body is the single index 1 (the start
//! symbol, which the first user rule's head must occupy).

use vstd::prelude::*;

verus! {

/// One grammar symbol: the epsilon placeholder `$`, the end-of-input
/// marker `#`, a terminal, or a non-terminal (an upper-case ASCII letter).
#[derive(Clone, Copy, Debug, PartialEq, Eq, Structural)]
pub enum Symbol {
    VoidSymbol,
    EndSymbol,
    Terminate(char),
    NonTerminate(char),
}

/// Classification of a character: upper-case ASCII letters are
/// non-terminals, `$` is the epsilon placeholder, `#` is end-of-input,
/// and everything else is a terminal.
pub open spec fn spec_symbol_of(c: char) -> Symbol {
    if 65 <= c as u32 && c as u32 <= 90 {
        Symbol::NonTerminate(c)
    } else if c == '$' {
        Symbol::VoidSymbol
    } else if c == '#' {
        Symbol::EndSymbol
    } else {
        Symbol::Terminate(c)
    }
}

impl Symbol {
    /// The literal character a symbol stands for.
    pub open spec fn spec_char(self) -> char {
        match self {
            Symbol::VoidSymbol => '$',
            Symbol::EndSymbol => '#',
            Symbol::Terminate(c) => c,
            Symbol::NonTerminate(c) => c,
        }
    }

    pub fn from(c: char) -> (s: Symbol)
        ensures
            s == spec_symbol_of(c),
    {
        let n = c as u32;
        if 65 <= n && n <= 90 {
            Symbol::NonTerminate(c)
        } else if c == '$' {
            Symbol::VoidSymbol
        } else if c == '#' {
            Symbol::EndSymbol
        } else {
            Symbol::Terminate(c)
        }
    }

    pub fn to_char(&self) -> (c: char)
        ensures
            c == self.spec_char(),
    {
        match self {
            Symbol::VoidSymbol => '$',
            Symbol::EndSymbol => '#',
            Symbol::Terminate(c) => *c,
            Symbol::NonTerminate(c) => *c,
        }
    }
}

/// One production: the symbol-table index of its head non-terminal and the
/// ordered body of symbol-table indices (a single index of the `$` symbol
/// denotes an epsilon production).
pub struct Production {
    pub head: usize,
    pub tail: Vec<usize>,
}

impl Production {
    pub fn new(head: usize, tail: Vec<usize>) -> (p: Production)
        ensures
            p.head == head,
            p.tail == tail,
    {
        Production { head, tail }
    }
}

/// The grammar: an insertion-ordered table of distinct symbols and the
/// list of productions, both append-only after construction.
pub struct Grammar {
    pub symbol_table: Vec<Symbol>,
    pub productions: Vec<Production>,
}

/// One textual production rule: a head character and the body characters.
#[derive(Debug)]
pub struct Rule {
    pub head: char,
    pub body: Vec<char>,
}

impl Grammar {
    /// The characters of the symbol table, in insertion order.
    pub open spec fn chars(self) -> Seq<char> {
        self.symbol_table@.map_values(|s: Symbol| s.spec_char())
    }

    pub open spec fn nsym(self) -> int {
        self.symbol_table@.len() as int
    }

    pub open spec fn nprod(self) -> int {
        self.productions@.len() as int
    }

    pub open spec fn head_of(self, p: int) -> int {
        self.productions@[p].head as int
    }

    pub open spec fn tail_of(self, p: int) -> Seq<usize> {
        self.productions@[p].tail@
    }

    pub open spec fn prod_wf(self, p: int) -> bool {
        0 <= self.head_of(p) < self.nsym() && forall|k: int|
            0 <= k < self.tail_of(p).len() ==> self.tail_of(p)[k] < self.nsym()
    }

    /// No two symbol-table entries share a literal character.
    pub open spec fn distinct_chars(self) -> bool {
        forall|i: int, j: int| 0 <= i < j < self.nsym() ==> self.chars()[i] != self.chars()[j]
    }

    /// Every table entry is the classification of its own character.
    pub open spec fn canonical(self) -> bool {
        forall|i: int|
            0 <= i < self.nsym() ==> self.symbol_table@[i] == spec_symbol_of(#[trigger] self.chars()[i])
    }

    pub open spec fn wf(self) -> bool {
        &&& self.distinct_chars()
        &&& self.canonical()
        &&& forall|p: int| 0 <= p < self.nprod() ==> self.prod_wf(p)
    }

    /// The grammar is augmented: symbol 0 is the synthetic `@`, and
    /// production 0 is `@ -> S` where `S` is the symbol at index 1.
    pub open spec fn augmented(self) -> bool {
        &&& self.nsym() >= 2
        &&& self.nprod() >= 1
        &&& self.chars()[0] == '@'
        &&& self.head_of(0) == 0
        &&& self.tail_of(0) == seq![1usize]
    }

    pub open spec fn is_nonterminal(self, s: int) -> bool {
        self.symbol_table@[s] is NonTerminate
    }

    pub fn new() -> (g: Grammar)
        ensures
            g.nsym() == 0,
            g.nprod() == 0,
    {
        Grammar { symbol_table: Vec::new(), productions: Vec::new() }
    }

    /// The symbol index referenced at a given dot position of a production's body.
    pub fn get_symbol_index(&self, production: usize, dot_pos: usize) -> (r: usize)
        requires
            production < self.nprod(),
            dot_pos < self.tail_of(production as int).len(),
        ensures
            r == self.tail_of(production as int)[dot_pos as int],
    {
        self.productions[production].tail[dot_pos]
    }

    pub fn get_char_from_index(&self, index: usize) -> (c: char)
        requires
            index < self.nsym(),
        ensures
            c == self.chars()[index as int],
    {
        self.symbol_table[index].to_char()
    }

    pub fn symbol_is_exist(&self, c: char) -> (r: bool)
        ensures
            r == self.chars().contains(c),
    {
        let n = self.symbol_table.len();
        let mut i: usize = 0;
        while i < n
            invariant
                i <= n,
                n == self.nsym(),
                forall|k: int| 0 <= k < i ==> self.chars()[k] != c,
            decreases n - i,
        {
            if c == self.symbol_table[i].to_char() {
                assert(self.chars()[i as int] == c);
                return true;
            }
            i = i + 1;
        }
        assert(!self.chars().contains(c)) by {
            if self.chars().contains(c) {
                let k = choose|k: int| 0 <= k < self.chars().len() && self.chars()[k] == c;
                assert(self.chars()[k] != c);
            }
        }
        false
    }

    /// The index of the first symbol whose character is `c`, if one exists.
    pub fn find_symbol(&self, c: char) -> (r: Option<usize>)
        ensures
            match r {
                Some(i) => i < self.nsym() && self.chars()[i as int] == c && forall|k: int|
                    0 <= k < i ==> self.chars()[k] != c,
                None => !self.chars().contains(c),
            },
            r == match spec_sym_index(*self, c) {
                Some(i) => Some(i as usize),
                None => None::<usize>,
            },
    {
        let n = self.symbol_table.len();
        let mut i: usize = 0;
        while i < n
            invariant
                i <= n,
                n == self.nsym(),
                forall|k: int| 0 <= k < i ==> self.chars()[k] != c,
            decreases n - i,
        {
            if c == self.symbol_table[i].to_char() {
                proof {
                    lemma_first_index_unique(self.chars(), c, i as int);
                }
                return Some(i);
            }
            i = i + 1;
        }
        assert(!self.chars().contains(c)) by {
            if self.chars().contains(c) {
                let k = choose|k: int| 0 <= k < self.chars().len() && self.chars()[k] == c;
                assert(self.chars()[k] != c);
            }
        }
        proof {
            if spec_sym_index(*self, c) is Some {
                let j = choose|j: int| first_index_of(self.chars(), c, j);
                assert(self.chars()[j] == c);
                assert(self.chars().contains(c));
            }
        }
        None
    }

    /// The index of the first symbol whose character is `c`; index 0 (the
    /// augmenting symbol's own slot) doubles as the sentinel for a failed
    /// lookup, which callers must treat as "not found".
    pub fn get_char_index(&self, c: char) -> (r: usize)
        ensures
            self.chars().contains(c) ==> r < self.nsym() && self.chars()[r as int] == c
                && forall|k: int| 0 <= k < r ==> self.chars()[k] != c,
            !self.chars().contains(c) ==> r == 0,
            r as int == spec_lookup_index(*self, c),
    {
        match self.find_symbol(c) {
            Some(i) => {
                proof {
                    assert(self.chars()[i as int] == c);
                }
                i
            },
            None => 0,
        }
    }
}

/// `i` is the first position of `c` in the character sequence.
pub open spec fn first_index_of(tab: Seq<char>, c: char, i: int) -> bool {
    &&& 0 <= i < tab.len()
    &&& tab[i] == c
    &&& forall|k: int| 0 <= k < i ==> tab[k] != c
}

/// The first position of `c` holds at most one index.
pub proof fn lemma_first_index_unique(tab: Seq<char>, c: char, i: int)
    requires
        first_index_of(tab, c, i),
    ensures
        spec_sym_index_exists(tab, c),
        (choose|j: int| first_index_of(tab, c, j)) == i,
{
    assert(spec_sym_index_exists(tab, c));
    let j = choose|j: int| first_index_of(tab, c, j);
    if j < i {
        assert(tab[j] != c);
    }
    if i < j {
        assert(tab[i] != c);
    }
}

pub open spec fn spec_sym_index_exists(tab: Seq<char>, c: char) -> bool {
    exists|i: int| first_index_of(tab, c, i)
}

/// The index of the first symbol whose character is `c`, as `find_symbol`
/// computes it.
pub open spec fn spec_sym_index(g: Grammar, c: char) -> Option<int> {
    if spec_sym_index_exists(g.chars(), c) {
        Some(choose|i: int| first_index_of(g.chars(), c, i))
    } else {
        None
    }
}

/// The index `get_char_index` returns: the first position of `c`, with
/// index 0 as the sentinel for a failed lookup.
pub open spec fn spec_lookup_index(g: Grammar, c: char) -> int {
    match spec_sym_index(g, c) {
        Some(i) => i,
        None => 0,
    }
}

/// The character sequence after registering one more character: unchanged
/// when the character is already present, extended by it otherwise.
pub open spec fn add_char(tab: Seq<char>, c: char) -> Seq<char> {
    if tab.contains(c) {
        tab
    } else {
        tab.push(c)
    }
}

/// The character sequence after registering the first `k` characters of a
/// rule body, in order.
pub open spec fn add_body_chars(tab: Seq<char>, body: Seq<char>, k: int) -> Seq<char>
    decreases k,
{
    if k <= 0 {
        tab
    } else {
        add_char(add_body_chars(tab, body, k - 1), body[k - 1])
    }
}

/// The character sequence after registering the first `i` rules: for each
/// rule, its head character and then its body characters, in order.
pub open spec fn chars_after_rules(rules: Seq<Rule>, i: int) -> Seq<char>
    decreases i,
{
    if i <= 0 {
        seq!['@']
    } else {
        add_body_chars(
            add_char(chars_after_rules(rules, i - 1), rules[i - 1].head),
            rules[i - 1].body@,
            rules[i - 1].body@.len() as int,
        )
    }
}

/// The full symbol-table character sequence a rule list gives rise to:
/// `@`, then the rules' characters in first-occurrence order, then `#`.
pub open spec fn grammar_chars(rules: Seq<Rule>) -> Seq<char> {
    add_char(chars_after_rules(rules, rules.len() as int), '#')
}

/// The production built for a rule refers, index by index, to the rule's
/// own characters inside the finished symbol table.
pub open spec fn production_matches_rule(g: Grammar, p: int, r: Rule) -> bool {
    &&& g.prod_wf(p)
    &&& g.chars()[g.head_of(p)] == r.head
    &&& g.tail_of(p).len() == r.body@.len()
    &&& forall|k: int| 0 <= k < r.body@.len() ==> g.chars()[#[trigger] g.tail_of(p)[k] as int] == r.body@[k]
}

/// Pushing a symbol onto the table appends its character to `chars()`.
proof fn lemma_chars_push(tab: Seq<Symbol>, s: Symbol)
    ensures
        tab.push(s).map_values(|x: Symbol| x.spec_char())
            == tab.map_values(|x: Symbol| x.spec_char()).push(s.spec_char()),
{
    assert(tab.push(s).map_values(|x: Symbol| x.spec_char())
        =~= tab.map_values(|x: Symbol| x.spec_char()).push(s.spec_char()));
}

/// Builds a grammar from an ordered list of production rules: registers
/// the augmenting symbol `@` and the augmenting production `@ -> S` (body
/// hard-wired to symbol index 1, so the first rule's head must be the
/// start symbol), then every rule's symbols and production in input order,
/// and finally the end-of-input symbol `#`.
pub fn build_grammar(rules: &Vec<Rule>) -> (g: Grammar)
    ensures
        g.wf(),
        g.augmented(),
        g.chars() == grammar_chars(rules@),
        g.nprod() == rules@.len() + 1,
        forall|j: int| 0 <= j < rules@.len() ==> production_matches_rule(g, j + 1, #[trigger] rules@[j]),
{
    let mut g = Grammar::new();
    g.symbol_table.push(Symbol::from('@'));
    proof {
        lemma_chars_push(Seq::<Symbol>::empty(), spec_symbol_of('@'));
        assert(g.chars() =~= seq!['@']);
    }
    let mut tail0: Vec<usize> = Vec::new();
    tail0.push(1);
    proof {
        assert(tail0@ =~= seq![1usize]);
    }
    g.productions.push(Production::new(0, tail0));
    let nrules = rules.len();
    let mut i: usize = 0;
    while i < nrules
        invariant
            i <= nrules,
            nrules == rules@.len(),
            g.chars() == chars_after_rules(rules@, i as int),
            g.nsym() >= 1,
            g.chars()[0] == '@',
            g.distinct_chars(),
            g.canonical(),
            g.nprod() == i + 1,
            g.head_of(0) == 0,
            g.tail_of(0) == seq![1usize],
            forall|j: int| 1 <= j <= i ==> (#[trigger] g.productions@[j]).head < g.nsym(),
            forall|j: int, m: int|
                1 <= j <= i && 0 <= m < g.productions@[j].tail@.len()
                    ==> (#[trigger] g.productions@[j].tail@[m]) < g.nsym(),
            forall|j: int|
                0 <= j < i ==> g.productions@[j + 1].tail@.len() == (#[trigger] rules@[j]).body@.len(),
            forall|j: int|
                0 <= j < i ==> g.chars()[(#[trigger] g.productions@[j + 1]).head as int] == rules@[j].head,
            forall|j: int, m: int|
                0 <= j < i && 0 <= m < rules@[j].body@.len()
                    ==> g.chars()[(#[trigger] g.productions@[j + 1].tail@[m]) as int] == rules@[j].body@[m],
        decreases nrules - i,
    {
        let ghost chars0 = g.chars();
        let ghost g_entry = g;
        let head_char = rules[i].head;
        if !g.symbol_is_exist(head_char) {
            proof {
                lemma_chars_push(g.symbol_table@, spec_symbol_of(head_char));
            }
            g.symbol_table.push(Symbol::from(head_char));
        }
        proof {
            assert(g.chars() == add_char(chars0, head_char));
            if !chars0.contains(head_char) {
                assert(g.chars()[g.chars().len() - 1] == head_char);
            }
            assert(g.chars().contains(head_char));
        }
        let ghost chars1 = g.chars();
        let head = g.get_char_index(head_char);
        assert(g.chars()[head as int] == head_char);
        let mut tail: Vec<usize> = Vec::new();
        let nbody = rules[i].body.len();
        let mut k: usize = 0;
        while k < nbody
            invariant
                k <= nbody,
                nbody == rules@[i as int].body@.len(),
                i < nrules,
                nrules == rules@.len(),
                g.chars() == add_body_chars(chars1, rules@[i as int].body@, k as int),
                g.productions@ == g_entry.productions@,
                chars1.len() <= g.nsym(),
                forall|m: int| 0 <= m < chars1.len() ==> g.chars()[m] == chars1[m],
                head < chars1.len(),
                chars1[head as int] == rules@[i as int].head,
                g.chars()[0] == '@',
                g.nsym() >= 1,
                g.distinct_chars(),
                g.canonical(),
                g.nprod() == i + 1,
                g.head_of(0) == 0,
                g.tail_of(0) == seq![1usize],
                forall|j: int| 1 <= j <= i ==> (#[trigger] g.productions@[j]).head < g.nsym(),
                forall|j: int, m: int|
                    1 <= j <= i && 0 <= m < g.productions@[j].tail@.len()
                        ==> (#[trigger] g.productions@[j].tail@[m]) < g.nsym(),
                forall|j: int|
                    0 <= j < i ==> g.productions@[j + 1].tail@.len() == (#[trigger] rules@[j]).body@.len(),
                forall|j: int|
                    0 <= j < i ==> g.chars()[(#[trigger] g.productions@[j + 1]).head as int] == rules@[j].head,
                forall|j: int, m: int|
                    0 <= j < i && 0 <= m < rules@[j].body@.len()
                        ==> g.chars()[(#[trigger] g.productions@[j + 1].tail@[m]) as int] == rules@[j].body@[m],
                tail@.len() == k,
                forall|m: int| 0 <= m < k ==> tail@[m] < g.nsym()
                    && g.chars()[#[trigger] tail@[m] as int] == rules@[i as int].body@[m],
            decreases nbody - k,
        {
            let ghost charsk = g.chars();
            let c = rules[i].body[k];
            if !g.symbol_is_exist(c) {
                proof {
                    lemma_chars_push(g.symbol_table@, spec_symbol_of(c));
                }
                g.symbol_table.push(Symbol::from(c));
            }
            proof {
                assert(g.chars() == add_char(charsk, c));
                if !charsk.contains(c) {
                    assert(g.chars()[g.chars().len() - 1] == c);
                }
                assert(g.chars().contains(c));
            }
            let idx = g.get_char_index(c);
            assert(g.chars()[idx as int] == c);
            tail.push(idx);
            k = k + 1;
        }
        g.productions.push(Production::new(head, tail));
        proof {
            assert(g.chars()[head as int] == head_char);
            assert(g.productions@[i + 1].head == head);
            assert(g.productions@[i + 1].tail@ == tail@);
            assert((head as int) < g.nsym());
            assert(chars0.len() == g_entry.nsym());
            assert(chars1 == add_char(chars0, rules@[i as int].head));
            assert(chars0.len() <= chars1.len());
            assert(chars1.len() <= g.nsym());
            assert forall|j: int| 1 <= j <= i + 1 implies (#[trigger] g.productions@[j]).head
                < g.nsym() by {
                if j <= i {
                    assert(g_entry.productions@[j].head < g_entry.nsym());
                    assert(g.productions@[j] == g_entry.productions@[j]);
                }
            }
            assert forall|j: int, m: int|
                1 <= j <= i + 1 && 0 <= m < g.productions@[j].tail@.len() implies (
            #[trigger] g.productions@[j].tail@[m]) < g.nsym() by {
                if j <= i {
                    assert(g.productions@[j] == g_entry.productions@[j]);
                    assert(g_entry.productions@[j].tail@[m] < g_entry.nsym());
                } else {
                    assert(g.productions@[j].tail@ == tail@);
                    assert(tail@[m] < g.nsym());
                }
            }
        }
        i = i + 1;
    }
    let ghost chars_rules = g.chars();
    if !g.symbol_is_exist('#') {
        proof {
            lemma_chars_push(g.symbol_table@, spec_symbol_of('#'));
        }
        g.symbol_table.push(Symbol::from('#'));
    }
    proof {
        assert(g.chars() == add_char(chars_rules, '#'));
        assert(g.chars() == grammar_chars(rules@));
        if !chars_rules.contains('#') {
            assert(g.chars()[g.chars().len() - 1] == '#');
        }
        assert(g.chars().contains('#'));
        let k = choose|k: int| 0 <= k < g.chars().len() && g.chars()[k] == '#';
        assert(k != 0);
        assert(g.nsym() >= 2);
        assert(g.prod_wf(0));
        assert forall|p: int| 1 <= p < g.nprod() implies g.prod_wf(p) by {
            assert(g.productions@[p].head < g.nsym());
            assert forall|m: int| 0 <= m < g.tail_of(p).len() implies g.tail_of(p)[m] < g.nsym() by {
                assert(g.productions@[p].tail@[m] < g.nsym());
            }
        }
        assert forall|j: int| 0 <= j < rules@.len() implies production_matches_rule(
            g,
            j + 1,
            #[trigger] rules@[j],
        ) by {
            assert(g.prod_wf(j + 1));
            assert(g.chars()[g.productions@[j + 1].head as int] == rules@[j].head);
            assert forall|m: int| 0 <= m < rules@[j].body@.len() implies g.chars()[#[trigger] g.tail_of(
                j + 1,
            )[m] as int] == rules@[j].body@[m] by {
                assert(g.chars()[g.productions@[j + 1].tail@[m] as int] == rules@[j].body@[m]);
            }
        }
    }
    g
}

} // verus!
