//! LR(0) items and item sets.
//!
//! An item is a production index plus a dot position; an item set is one
//! automaton state.  The module computes a set's epsilon-closure (stated
//! as the least closed superset), the move/goto kernels reached by
//! advancing past each symbol, and the state's row of the parsing table,
//! detecting states at which the grammar is not LR(0).

use vstd::prelude::*;
use crate::grammar::Grammar;
use crate::grammar::Symbol;

verus! {

/// An LR(0) item: a production index and the number of body symbols
/// already matched (the dot position).
#[derive(Clone, Copy, Debug, PartialEq, Eq, Structural)]
pub struct Item {
    pub production: usize,
    pub dot_pos: usize,
}

/// One cell of the parsing table.
#[derive(Clone, Copy, Debug, PartialEq, Eq, Structural)]
pub enum TableItem {
    Goto(usize),
    ActionShift(usize),
    ActionReduction(usize),
    Accept,
    Error,
}

/// The item references a production of the grammar and its dot lies
/// within the production's body (inclusive of the end).
pub open spec fn item_wf(g: Grammar, it: Item) -> bool {
    &&& it.production < g.nprod()
    &&& it.dot_pos <= g.tail_of(it.production as int).len()
}

/// The dot has consumed the whole body, or rests on the epsilon
/// placeholder: an epsilon production is complete at any dot position.
pub open spec fn spec_is_end(g: Grammar, it: Item) -> bool {
    ||| it.dot_pos == g.tail_of(it.production as int).len()
    ||| g.symbol_table@[g.tail_of(it.production as int)[it.dot_pos as int] as int] is VoidSymbol
}

/// The symbol-table index under the dot (meaningful only when the dot
/// lies strictly inside the body).
pub open spec fn spec_cursym(g: Grammar, it: Item) -> int {
    g.tail_of(it.production as int)[it.dot_pos as int] as int
}

impl Item {
    pub fn new(production: usize) -> (it: Item)
        ensures
            it == (Item { production, dot_pos: 0 }),
    {
        Item { production, dot_pos: 0 }
    }

    pub fn is_eq(&self, other: &Item) -> (r: bool)
        ensures
            r == (*self == *other),
    {
        self.production == other.production && self.dot_pos == other.dot_pos
    }

    /// The given item advanced one dot position.
    pub fn from(other: &Item) -> (it: Item)
        requires
            other.dot_pos < usize::MAX,
        ensures
            it == (Item { production: other.production, dot_pos: (other.dot_pos + 1) as usize }),
    {
        Item { production: other.production, dot_pos: other.dot_pos + 1 }
    }

    pub fn is_end(&self, gm: &Grammar) -> (r: bool)
        requires
            gm.wf(),
            item_wf(*gm, *self),
        ensures
            r == spec_is_end(*gm, *self),
    {
        if self.dot_pos == gm.productions[self.production].tail.len() {
            return true;
        }
        proof {
            assert(gm.prod_wf(self.production as int));
        }
        let si = gm.get_symbol_index(self.production, self.dot_pos);
        matches!(gm.symbol_table[si], Symbol::VoidSymbol)
    }

    pub fn get_current_symbol(&self, gm: &Grammar) -> (r: usize)
        requires
            self.production < gm.nprod(),
            self.dot_pos < gm.tail_of(self.production as int).len(),
        ensures
            r == spec_cursym(*gm, *self),
    {
        gm.productions[self.production].tail[self.dot_pos]
    }
}

/// An epsilon production (body a single Void symbol) is at end at every
/// dot position an item of it can carry.
pub proof fn lemma_epsilon_item_always_at_end(g: Grammar, p: usize, d: usize)
    requires
        p < g.nprod(),
        g.tail_of(p as int).len() == 1,
        g.symbol_table@[g.tail_of(p as int)[0] as int] is VoidSymbol,
        d <= 1,
    ensures
        spec_is_end(g, Item { production: p, dot_pos: d }),
{
}

/// One automaton state: a collection of distinct items, together with the
/// state's transition list (symbol index to destination state index,
/// distinct keys) and its compiled row of the parsing table, both
/// populated after construction.
pub struct ItemSet {
    pub item_vec: Vec<Item>,
    pub transforms: Vec<(usize, usize)>,
    pub analysis_table: Vec<TableItem>,
}

impl ItemSet {
    /// The state's items, as a set.
    pub open spec fn iset(self) -> Set<Item> {
        self.item_vec@.to_set()
    }

    pub open spec fn items_wf(self, g: Grammar) -> bool {
        forall|k: int| 0 <= k < self.item_vec@.len() ==> item_wf(g, #[trigger] self.item_vec@[k])
    }

    pub open spec fn trans_keys_distinct(self) -> bool {
        forall|a: int, b: int|
            0 <= a < b < self.transforms@.len() ==> (#[trigger] self.transforms@[a]).0 != (
            #[trigger] self.transforms@[b]).0
    }

    /// Some transition is recorded for symbol `s`.
    pub open spec fn spec_has_trans(self, s: int) -> bool {
        exists|k: int| 0 <= k < self.transforms@.len() && (#[trigger] self.transforms@[k]).0 == s
    }
}

/// Two states hold the same items: equal sizes and mutual containment of
/// the first in the second (set equality, given that both are free of
/// duplicates).
pub open spec fn spec_same_items(a: ItemSet, b: ItemSet) -> bool {
    &&& a.item_vec@.len() == b.item_vec@.len()
    &&& forall|k: int| 0 <= k < a.item_vec@.len() ==> b.item_vec@.contains(#[trigger] a.item_vec@[k])
}

/// On duplicate-free states the size-and-containment test of `is_eq` is
/// exactly set equality of the items.
pub proof fn lemma_same_items_is_set_eq(a: ItemSet, b: ItemSet)
    requires
        a.item_vec@.no_duplicates(),
        b.item_vec@.no_duplicates(),
    ensures
        spec_same_items(a, b) <==> a.iset() == b.iset(),
{
    broadcast use vstd::seq_lib::seq_to_set_is_finite;

    a.item_vec@.unique_seq_to_set();
    b.item_vec@.unique_seq_to_set();
    if spec_same_items(a, b) {
        assert forall|x: Item| a.iset().contains(x) implies b.iset().contains(x) by {
            let k = choose|k: int| 0 <= k < a.item_vec@.len() && a.item_vec@[k] == x;
            assert(b.item_vec@.contains(a.item_vec@[k]));
        }
        assert(a.iset().subset_of(b.iset()));
        if a.iset() != b.iset() {
            assert(exists|x: Item| b.iset().contains(x) && !a.iset().contains(x)) by {
                if forall|x: Item| b.iset().contains(x) ==> a.iset().contains(x) {
                    assert(a.iset() =~= b.iset());
                }
            }
            let x = choose|x: Item| b.iset().contains(x) && !a.iset().contains(x);
            a.iset().lemma_subset_not_in_lt(b.iset(), x);
        }
    }
    if a.iset() == b.iset() {
        assert forall|k: int| 0 <= k < a.item_vec@.len() implies b.item_vec@.contains(
            #[trigger] a.item_vec@[k],
        ) by {
            assert(a.item_vec@.contains(a.item_vec@[k]));
            assert(b.iset().contains(a.item_vec@[k]));
        }
    }
}

/// A duplicate-free collection of dot-0 items holds at most one item per
/// production.
pub proof fn lemma_count_start_items(items: Seq<Item>, nprod: int)
    requires
        nprod >= 0,
        items.no_duplicates(),
        forall|k: int|
            0 <= k < items.len() ==> (#[trigger] items[k]).dot_pos == 0 && (
            items[k].production as int) < nprod,
    ensures
        items.len() <= nprod,
{
    broadcast use vstd::seq_lib::seq_to_set_is_finite;

    let prods = items.map_values(|it: Item| it.production as int);
    assert forall|a: int, b: int|
        0 <= a < prods.len() && 0 <= b < prods.len() && a != b implies prods[a] != prods[b] by {
        assert(items[a] != items[b]);
        if items[a].production == items[b].production {
            assert(items[a] == items[b]);
        }
    }
    assert(prods.no_duplicates());
    prods.unique_seq_to_set();
    assert forall|x: int|
        prods.to_set().contains(x) implies vstd::set_lib::set_int_range(0, nprod).contains(
        x,
    ) by {
        let k = choose|k: int| 0 <= k < prods.len() && prods[k] == x;
        assert(0 <= (items[k].production as int) && (items[k].production as int) < nprod);
    }
    assert(prods.to_set().subset_of(vstd::set_lib::set_int_range(0, nprod)));
    vstd::set_lib::lemma_int_range(0, nprod);
    vstd::set_lib::lemma_len_subset(prods.to_set(), vstd::set_lib::set_int_range(0, nprod));
}

/// The set demands, for every member whose dot rests on a non-terminal,
/// the dot-0 item of every production of that non-terminal.
pub open spec fn closed(g: Grammar, s: Set<Item>) -> bool {
    forall|m: Item, j: int|
        #![trigger s.contains(m), g.head_of(j)]
        s.contains(m) && item_wf(g, m) && !spec_is_end(g, m) && g.is_nonterminal(spec_cursym(g, m))
            && 0 <= j < g.nprod() && g.head_of(j) == spec_cursym(g, m) ==> s.contains(
            Item { production: j as usize, dot_pos: 0 },
        )
}

/// `s` is the epsilon-closure of `base`: it contains `base`, is closed,
/// and is contained in every closed superset of `base`.
pub open spec fn is_closure_of(g: Grammar, base: Set<Item>, s: Set<Item>) -> bool {
    &&& base.subset_of(s)
    &&& closed(g, s)
    &&& forall|t: Set<Item>| closed(g, t) && base.subset_of(t) ==> #[trigger] s.subset_of(t)
}

/// The closure of a set is determined: any two sets that both satisfy the
/// closure characterization of one base coincide.
pub proof fn lemma_closure_unique(g: Grammar, base: Set<Item>, c1: Set<Item>, c2: Set<Item>)
    requires
        is_closure_of(g, base, c1),
        is_closure_of(g, base, c2),
    ensures
        c1 == c2,
{
    assert(c1.subset_of(c2));
    assert(c2.subset_of(c1));
    assert(c1 =~= c2);
}

/// Closing an already-closed set yields the identical set: closure is a
/// fixpoint on closed sets.
pub proof fn lemma_closure_of_closed_is_identity(g: Grammar, s: Set<Item>, c: Set<Item>)
    requires
        closed(g, s),
        is_closure_of(g, s, c),
    ensures
        c == s,
{
    assert(s.subset_of(s));
    assert(c.subset_of(s));
    assert(c =~= s);
}

/// The items of `items` (first `n` of them) whose dot rests on symbol
/// `x`, each advanced one position: the kernel of the successor state
/// reached on `x`.
pub open spec fn kernel_upto(g: Grammar, items: Seq<Item>, n: int, x: int) -> Set<Item> {
    Set::new(
        |it: Item|
            {
                &&& it.dot_pos >= 1
                &&& exists|k: int|
                    0 <= k < n && #[trigger] items[k] == (Item {
                        production: it.production,
                        dot_pos: (it.dot_pos - 1) as usize,
                    }) && item_wf(g, items[k]) && !spec_is_end(g, items[k]) && spec_cursym(
                        g,
                        items[k],
                    ) == x
            },
    )
}

/// The kernel over a whole item set.
pub open spec fn kernel(g: Grammar, s: Set<Item>, x: int) -> Set<Item> {
    Set::new(
        |it: Item|
            {
                let pred = Item { production: it.production, dot_pos: (it.dot_pos - 1) as usize };
                &&& it.dot_pos >= 1
                &&& s.contains(pred)
                &&& item_wf(g, pred)
                &&& !spec_is_end(g, pred)
                &&& spec_cursym(g, pred) == x
            },
    )
}

/// Over a full sequence, the indexed kernel and the set kernel coincide.
pub proof fn lemma_kernel_upto_full(g: Grammar, items: Seq<Item>, x: int)
    ensures
        kernel_upto(g, items, items.len() as int, x) == kernel(g, items.to_set(), x),
{
    assert forall|it: Item|
        kernel_upto(g, items, items.len() as int, x).contains(it) == kernel(
            g,
            items.to_set(),
            x,
        ).contains(it) by {
        let pred = Item { production: it.production, dot_pos: (it.dot_pos - 1) as usize };
        if it.dot_pos >= 1 && items.contains(pred) && item_wf(g, pred) && !spec_is_end(g, pred)
            && spec_cursym(g, pred) == x {
            let k = choose|k: int| 0 <= k < items.len() && items[k] == pred;
            assert(kernel_upto(g, items, items.len() as int, x).contains(it));
        }
    }
    assert(kernel_upto(g, items, items.len() as int, x) =~= kernel(g, items.to_set(), x));
}

impl ItemSet {
    pub fn new() -> (s: ItemSet)
        ensures
            s.item_vec@ == Seq::<Item>::empty(),
            s.transforms@ == Seq::<(usize, usize)>::empty(),
            s.analysis_table@ == Seq::<TableItem>::empty(),
    {
        ItemSet { item_vec: Vec::new(), transforms: Vec::new(), analysis_table: Vec::new() }
    }

    pub fn is_item_in(&self, item: &Item) -> (r: bool)
        ensures
            r == self.item_vec@.contains(*item),
    {
        let n = self.item_vec.len();
        let mut i: usize = 0;
        while i < n
            invariant
                i <= n,
                n == self.item_vec@.len(),
                forall|k: int| 0 <= k < i ==> self.item_vec@[k] != *item,
            decreases n - i,
        {
            if self.item_vec[i].is_eq(item) {
                return true;
            }
            i = i + 1;
        }
        assert(!self.item_vec@.contains(*item)) by {
            if self.item_vec@.contains(*item) {
                let k = choose|k: int|
                    0 <= k < self.item_vec@.len() && self.item_vec@[k] == *item;
                assert(self.item_vec@[k] != *item);
            }
        }
        false
    }

    /// Size-and-containment equality test; on duplicate-free states this
    /// decides set equality of the items (`lemma_same_items_is_set_eq`).
    pub fn is_eq(&self, other: &ItemSet) -> (r: bool)
        ensures
            r == spec_same_items(*self, *other),
    {
        let n = self.item_vec.len();
        if n != other.item_vec.len() {
            return false;
        }
        let mut i: usize = 0;
        while i < n
            invariant
                i <= n,
                n == self.item_vec@.len(),
                forall|k: int| 0 <= k < i ==> other.item_vec@.contains(#[trigger] self.item_vec@[k]),
            decreases n - i,
        {
            if !other.is_item_in(&self.item_vec[i]) {
                return false;
            }
            i = i + 1;
        }
        true
    }

    pub fn add_item(&mut self, item: Item)
        ensures
            final(self).item_vec@ == old(self).item_vec@.push(item),
            final(self).transforms == old(self).transforms,
            final(self).analysis_table == old(self).analysis_table,
    {
        self.item_vec.push(item);
    }

    /// Expands the set to its epsilon-closure: for every item whose dot
    /// rests on a not-yet-expanded non-terminal, adds the dot-0 item of
    /// each production of that non-terminal, until no item demands more.
    /// The result is the least closed superset of the input.
    #[verifier::loop_isolation(false)]
    pub fn make_closure(&mut self, gm: &Grammar)
        requires
            gm.wf(),
            old(self).items_wf(*gm),
        ensures
            final(self).transforms == old(self).transforms,
            final(self).analysis_table == old(self).analysis_table,
            old(self).item_vec@.len() <= final(self).item_vec@.len(),
            final(self).item_vec@.take(old(self).item_vec@.len() as int) == old(self).item_vec@,
            final(self).items_wf(*gm),
            is_closure_of(*gm, old(self).iset(), final(self).iset()),
            forall|k: int|
                old(self).item_vec@.len() <= k < final(self).item_vec@.len() ==> (
                #[trigger] final(self).item_vec@[k]).dot_pos == 0,
            old(self).item_vec@.no_duplicates() ==> final(self).item_vec@.no_duplicates(),
            final(self).item_vec@.len() <= old(self).item_vec@.len() + gm.nprod(),
    {
        let ghost orig = self.item_vec@;
        let ghost dedup = orig.no_duplicates();
        let nsym = gm.symbol_table.len();
        let nprod = gm.productions.len();
        let mut already: Vec<bool> = vec![false; nsym];
        let mut index: usize = 0;
        while index < self.item_vec.len()
            invariant
                gm.wf(),
                nsym == gm.nsym(),
                nprod == gm.nprod(),
                self.transforms == old(self).transforms,
                self.analysis_table == old(self).analysis_table,
                index <= self.item_vec@.len(),
                orig.len() <= self.item_vec@.len(),
                self.item_vec@.take(orig.len() as int) == orig,
                forall|k: int|
                    0 <= k < self.item_vec@.len() ==> item_wf(*gm, #[trigger] self.item_vec@[k]),
                already@.len() == nsym,
                forall|s: int, j: int|
                    #![trigger already@[s], gm.head_of(j)]
                    0 <= s < nsym && already@[s] && 0 <= j < nprod && gm.head_of(j) == s
                        ==> self.item_vec@.contains(Item { production: j as usize, dot_pos: 0 }),
                forall|k: int|
                    0 <= k < index && !spec_is_end(*gm, #[trigger] self.item_vec@[k])
                        && gm.is_nonterminal(spec_cursym(*gm, self.item_vec@[k])) ==> 0 <= spec_cursym(
                        *gm,
                        self.item_vec@[k],
                    ) < nsym && already@[spec_cursym(*gm, self.item_vec@[k])],
                forall|k: int|
                    orig.len() <= k < self.item_vec@.len() ==> (
                    #[trigger] self.item_vec@[k]).dot_pos == 0,
                forall|t: Set<Item>|
                    #![trigger closed(*gm, t)]
                    closed(*gm, t) && orig.to_set().subset_of(t)
                        ==> self.item_vec@.to_set().subset_of(t),
                dedup ==> self.item_vec@.no_duplicates(),
                forall|k1: int, k2: int|
                    orig.len() <= k1 < k2 < self.item_vec@.len() ==> (
                    #[trigger] self.item_vec@[k1]) != (#[trigger] self.item_vec@[k2]),
            decreases usize::MAX - index,
        {
            let it = self.item_vec[index];
            proof {
                assert(item_wf(*gm, it));
            }
            if !it.is_end(gm) {
                proof {
                    assert(gm.prod_wf(it.production as int));
                }
                let tsi = it.get_current_symbol(gm);
                let is_nt = matches!(gm.symbol_table[tsi], Symbol::NonTerminate(_));
                if is_nt && !already[tsi] {
                    already[tsi] = true;
                    let ghost pre = self.item_vec@;
                    let mut j: usize = 0;
                    while j < nprod
                        invariant
                            gm.wf(),
                            nsym == gm.nsym(),
                            nprod == gm.nprod(),
                            j <= nprod,
                            index < pre.len(),
                            it == pre[index as int],
                            item_wf(*gm, it),
                            !spec_is_end(*gm, it),
                            tsi as int == spec_cursym(*gm, it),
                            tsi < nsym,
                            gm.is_nonterminal(tsi as int),
                            self.transforms == old(self).transforms,
                            self.analysis_table == old(self).analysis_table,
                            orig.len() <= pre.len() <= self.item_vec@.len(),
                            pre.take(orig.len() as int) == orig,
                            self.item_vec@.take(pre.len() as int) == pre,
                            self.item_vec@.take(orig.len() as int) == orig,
                            forall|k: int|
                                0 <= k < self.item_vec@.len() ==> item_wf(
                                    *gm,
                                    #[trigger] self.item_vec@[k],
                                ),
                            already@.len() == nsym,
                            already@[tsi as int],
                            forall|s: int, jx: int|
                                #![trigger already@[s], gm.head_of(jx)]
                                0 <= s < nsym && s != tsi && already@[s] && 0 <= jx < nprod
                                    && gm.head_of(jx) == s ==> self.item_vec@.contains(
                                    Item { production: jx as usize, dot_pos: 0 },
                                ),
                            forall|jx: int|
                                0 <= jx < j && gm.head_of(jx) == tsi as int
                                    ==> self.item_vec@.contains(
                                    Item { production: jx as usize, dot_pos: 0 },
                                ),
                            forall|k: int|
                                0 <= k < index && !spec_is_end(*gm, #[trigger] self.item_vec@[k])
                                    && gm.is_nonterminal(spec_cursym(*gm, self.item_vec@[k]))
                                    ==> 0 <= spec_cursym(*gm, self.item_vec@[k]) < nsym
                                    && already@[spec_cursym(*gm, self.item_vec@[k])],
                            forall|k: int|
                                orig.len() <= k < self.item_vec@.len() ==> (
                                #[trigger] self.item_vec@[k]).dot_pos == 0,
                            forall|k: int|
                                pre.len() <= k < self.item_vec@.len() ==> gm.head_of(
                                    (#[trigger] self.item_vec@[k]).production as int,
                                ) == tsi as int && self.item_vec@[k].production < j,
                            forall|t: Set<Item>|
                                #![trigger closed(*gm, t)]
                                closed(*gm, t) && orig.to_set().subset_of(t)
                                    ==> self.item_vec@.to_set().subset_of(t),
                            dedup ==> self.item_vec@.no_duplicates(),
                            forall|k1: int, k2: int|
                                orig.len() <= k1 < k2 < self.item_vec@.len() ==> (
                                #[trigger] self.item_vec@[k1]) != (#[trigger] self.item_vec@[k2]),
                        decreases nprod - j,
                    {
                        if gm.productions[j].head == tsi {
                            let ghost cur = self.item_vec@;
                            let nit = Item::new(j);
                            // the set model holds no duplicate items, so an
                            // item already present is not added again
                            if !self.is_item_in(&nit) {
                            self.item_vec.push(nit);
                            proof {
                                assert(self.item_vec@.take(pre.len() as int) =~= cur.take(
                                    pre.len() as int,
                                ));
                                assert(self.item_vec@.take(orig.len() as int) =~= cur.take(
                                    orig.len() as int,
                                ));
                                assert forall|x: Item| cur.contains(x) implies #[trigger] self.item_vec@.contains(
                                    x,
                                ) by {
                                    let k = choose|k: int| 0 <= k < cur.len() && cur[k] == x;
                                    assert(self.item_vec@[k] == x);
                                }
                                assert(self.item_vec@[cur.len() as int] == nit);
                                assert(self.item_vec@.contains(nit));
                                assert forall|k1: int, k2: int|
                                    orig.len() <= k1 < k2 < self.item_vec@.len() implies (
                                #[trigger] self.item_vec@[k1]) != (
                                #[trigger] self.item_vec@[k2]) by {
                                    if k2 < cur.len() {
                                        assert(self.item_vec@[k1] == cur[k1]);
                                        assert(self.item_vec@[k2] == cur[k2]);
                                    } else {
                                        assert(self.item_vec@[k2] == nit);
                                        assert(self.item_vec@[k1] == cur[k1]);
                                        if cur[k1] == nit {
                                            assert(cur.contains(nit));
                                        }
                                    }
                                }
                                if dedup {
                                    assert forall|a: int, b: int|
                                        0 <= a < self.item_vec@.len() && 0 <= b
                                            < self.item_vec@.len() && a != b implies self.item_vec@[a]
                                        != self.item_vec@[b] by {
                                        if a < cur.len() && b < cur.len() {
                                            assert(self.item_vec@[a] == cur[a]);
                                            assert(self.item_vec@[b] == cur[b]);
                                        } else if a < cur.len() && b == cur.len() {
                                            if cur[a] == nit {
                                                assert(cur.contains(nit));
                                            }
                                        } else if b < cur.len() && a == cur.len() {
                                            if cur[b] == nit {
                                                assert(cur.contains(nit));
                                            }
                                        }
                                    }
                                    assert(self.item_vec@.no_duplicates());
                                }
                                assert forall|t: Set<Item>|
                                    #![trigger closed(*gm, t)]
                                    closed(*gm, t) && orig.to_set().subset_of(t)
                                        implies self.item_vec@.to_set().subset_of(t) by {
                                    assert(cur.to_set().subset_of(t));
                                    assert(cur.contains(it));
                                    assert(t.contains(it));
                                    assert(gm.head_of(j as int) == spec_cursym(*gm, it));
                                    assert(t.contains(nit));
                                    assert forall|x: Item|
                                        self.item_vec@.to_set().contains(x) implies t.contains(
                                        x,
                                    ) by {
                                        let k = choose|k: int|
                                            0 <= k < self.item_vec@.len()
                                                && self.item_vec@[k] == x;
                                        if k < cur.len() {
                                            assert(cur.contains(x));
                                        } else {
                                            assert(x == nit);
                                        }
                                    }
                                }
                            }
                            }
                        }
                        j = j + 1;
                    }
                }
            }
            index = index + 1;
        }
        proof {
            assert forall|x: Item| orig.to_set().contains(x) implies self.item_vec@.to_set()
                .contains(x) by {
                let k = choose|k: int| 0 <= k < orig.len() && orig[k] == x;
                assert(self.item_vec@.take(orig.len() as int)[k] == orig[k]);
                assert(self.item_vec@[k] == x);
            }
            assert(orig.to_set().subset_of(self.item_vec@.to_set()));
            assert forall|m: Item, j: int|
                #![trigger self.item_vec@.to_set().contains(m), gm.head_of(j)]
                self.item_vec@.to_set().contains(m) && item_wf(*gm, m) && !spec_is_end(*gm, m)
                    && gm.is_nonterminal(spec_cursym(*gm, m)) && 0 <= j < gm.nprod()
                    && gm.head_of(j) == spec_cursym(*gm, m) implies self.item_vec@.to_set()
                .contains(Item { production: j as usize, dot_pos: 0 }) by {
                let k = choose|k: int| 0 <= k < self.item_vec@.len() && self.item_vec@[k] == m;
                assert(already@[spec_cursym(*gm, self.item_vec@[k])]);
                assert(self.item_vec@.contains(Item { production: j as usize, dot_pos: 0 }));
            }
            assert(closed(*gm, self.item_vec@.to_set()));
            assert forall|t: Set<Item>|
                closed(*gm, t) && orig.to_set().subset_of(t) implies #[trigger] self.item_vec@.to_set().subset_of(t) by {}
            assert(is_closure_of(*gm, orig.to_set(), self.item_vec@.to_set()));
            let news = self.item_vec@.skip(orig.len() as int);
            assert forall|a: int, b: int|
                0 <= a < news.len() && 0 <= b < news.len() && a != b implies news[a] != news[b] by {
                assert(news[a] == self.item_vec@[a + orig.len()]);
                assert(news[b] == self.item_vec@[b + orig.len()]);
            }
            assert(news.no_duplicates());
            assert forall|k: int|
                0 <= k < news.len() implies (#[trigger] news[k]).dot_pos == 0 && (
            news[k].production as int) < gm.nprod() by {
                assert(news[k] == self.item_vec@[k + orig.len()]);
                assert(item_wf(*gm, self.item_vec@[k + orig.len()]));
            }
            lemma_count_start_items(news, gm.nprod());
        }
    }
}

/// Pushing an item onto a sequence inserts it into the sequence's set.
pub proof fn lemma_push_to_set(s: Seq<Item>, x: Item)
    ensures
        s.push(x).to_set() == s.to_set().insert(x),
{
    assert forall|y: Item| s.push(x).to_set().contains(y) == s.to_set().insert(x).contains(y) by {
        if s.push(x).contains(y) {
            let k = choose|k: int| 0 <= k < s.push(x).len() && s.push(x)[k] == y;
            if k < s.len() {
                assert(s.contains(y));
            }
        }
        if s.contains(y) {
            let k = choose|k: int| 0 <= k < s.len() && s[k] == y;
            assert(s.push(x)[k] == y);
        }
        if y == x {
            assert(s.push(x)[s.len() as int] == y);
        }
    }
    assert(s.push(x).to_set() =~= s.to_set().insert(x));
}

/// Extending the scanned prefix by one item grows the kernel by that
/// item's advance exactly when the item's dot rests on `x`.
pub proof fn lemma_kernel_upto_step(g: Grammar, items: Seq<Item>, i: int, x: int)
    requires
        0 <= i < items.len(),
    ensures
        item_wf(g, items[i]) && !spec_is_end(g, items[i]) && spec_cursym(g, items[i]) == x
            && items[i].dot_pos + 1 <= usize::MAX ==> kernel_upto(g, items, i + 1, x)
            == kernel_upto(g, items, i, x).insert(
            Item { production: items[i].production, dot_pos: (items[i].dot_pos + 1) as usize },
        ),
        !(item_wf(g, items[i]) && !spec_is_end(g, items[i]) && spec_cursym(g, items[i]) == x)
            ==> kernel_upto(g, items, i + 1, x) == kernel_upto(g, items, i, x),
{
    if item_wf(g, items[i]) && !spec_is_end(g, items[i]) && spec_cursym(g, items[i]) == x
        && items[i].dot_pos + 1 <= usize::MAX {
        let adv = Item {
            production: items[i].production,
            dot_pos: (items[i].dot_pos + 1) as usize,
        };
        assert forall|it: Item|
            kernel_upto(g, items, i + 1, x).contains(it) == kernel_upto(g, items, i, x).insert(
                adv,
            ).contains(it) by {
            if kernel_upto(g, items, i + 1, x).contains(it) {
                let k = choose|k: int|
                    0 <= k < i + 1 && #[trigger] items[k] == (Item {
                        production: it.production,
                        dot_pos: (it.dot_pos - 1) as usize,
                    }) && item_wf(g, items[k]) && !spec_is_end(g, items[k]) && spec_cursym(
                        g,
                        items[k],
                    ) == x;
                if k < i {
                    assert(kernel_upto(g, items, i, x).contains(it));
                } else {
                    assert(it == adv);
                }
            }
            if kernel_upto(g, items, i, x).contains(it) {
                let k = choose|k: int|
                    0 <= k < i && #[trigger] items[k] == (Item {
                        production: it.production,
                        dot_pos: (it.dot_pos - 1) as usize,
                    }) && item_wf(g, items[k]) && !spec_is_end(g, items[k]) && spec_cursym(
                        g,
                        items[k],
                    ) == x;
                assert(kernel_upto(g, items, i + 1, x).contains(it));
            }
            if it == adv {
                assert(items[i] == (Item {
                    production: adv.production,
                    dot_pos: (adv.dot_pos - 1) as usize,
                }));
                assert(kernel_upto(g, items, i + 1, x).contains(it));
            }
        }
        assert(kernel_upto(g, items, i + 1, x) =~= kernel_upto(g, items, i, x).insert(adv));
    } else if !(item_wf(g, items[i]) && !spec_is_end(g, items[i]) && spec_cursym(g, items[i])
        == x) {
        assert forall|it: Item|
            kernel_upto(g, items, i + 1, x).contains(it) == kernel_upto(g, items, i, x).contains(
                it,
            ) by {
            if kernel_upto(g, items, i + 1, x).contains(it) {
                let k = choose|k: int|
                    0 <= k < i + 1 && #[trigger] items[k] == (Item {
                        production: it.production,
                        dot_pos: (it.dot_pos - 1) as usize,
                    }) && item_wf(g, items[k]) && !spec_is_end(g, items[k]) && spec_cursym(
                        g,
                        items[k],
                    ) == x;
                assert(k < i);
                assert(kernel_upto(g, items, i, x).contains(it));
            }
            if kernel_upto(g, items, i, x).contains(it) {
                let k = choose|k: int|
                    0 <= k < i && #[trigger] items[k] == (Item {
                        production: it.production,
                        dot_pos: (it.dot_pos - 1) as usize,
                    }) && item_wf(g, items[k]) && !spec_is_end(g, items[k]) && spec_cursym(
                        g,
                        items[k],
                    ) == x;
                assert(kernel_upto(g, items, i + 1, x).contains(it));
            }
        }
        assert(kernel_upto(g, items, i + 1, x) =~= kernel_upto(g, items, i, x));
    }
}

/// Everything a move-map entry promises about one key and its state: the
/// state holds exactly the closed kernel of `base` on the key, with no
/// transitions or table row yet.
pub open spec fn move_entry_ok(g: Grammar, base: ItemSet, key: usize, e: ItemSet) -> bool {
    &&& (key as int) < g.nsym()
    &&& e.items_wf(g)
    &&& e.transforms@.len() == 0
    &&& e.analysis_table@.len() == 0
    &&& e.item_vec@.len() >= 1
    &&& is_closure_of(g, kernel(g, base.iset(), key as int), e.iset())
    &&& (base.item_vec@.no_duplicates() ==> e.item_vec@.no_duplicates())
}

impl ItemSet {
    /// Partitions the non-end items by the symbol under their dot; for
    /// each such symbol, the successor state: the matching items advanced
    /// one position, then epsilon-closed.
    #[verifier::loop_isolation(false)]
    #[verifier::rlimit(100)]
    pub fn get_move_map(&self, gm: &Grammar) -> (mm: Vec<(usize, ItemSet)>)
        requires
            gm.wf(),
            self.items_wf(*gm),
        ensures
            forall|a: int, b: int|
                0 <= a < b < mm@.len() ==> (#[trigger] mm@[a]).0 != (#[trigger] mm@[b]).0,
            forall|k: int|
                0 <= k < self.item_vec@.len() && item_wf(*gm, #[trigger] self.item_vec@[k])
                    && !spec_is_end(*gm, self.item_vec@[k]) ==> exists|a: int|
                    0 <= a < mm@.len() && (#[trigger] mm@[a]).0 as int == spec_cursym(
                        *gm,
                        self.item_vec@[k],
                    ),
            forall|a: int|
                0 <= a < mm@.len() ==> move_entry_ok(*gm, *self, (#[trigger] mm@[a]).0, mm@[a].1),
    {
        let n = self.item_vec.len();
        let ghost items = self.item_vec@;
        let ghost dedup = items.no_duplicates();
        let mut mm: Vec<(usize, ItemSet)> = Vec::new();
        let mut i: usize = 0;
        while i < n
            invariant
                i <= n,
                forall|a: int, b: int|
                    0 <= a < b < mm@.len() ==> (#[trigger] mm@[a]).0 != (#[trigger] mm@[b]).0,
                forall|k: int|
                    0 <= k < i && item_wf(*gm, #[trigger] items[k]) && !spec_is_end(
                        *gm,
                        items[k],
                    ) ==> exists|a: int|
                        0 <= a < mm@.len() && (#[trigger] mm@[a]).0 as int == spec_cursym(
                            *gm,
                            items[k],
                        ),
                forall|a: int|
                    0 <= a < mm@.len() ==> {
                        let e = (#[trigger] mm@[a]).1;
                        &&& (mm@[a].0 as int) < gm.nsym()
                        &&& e.items_wf(*gm)
                        &&& e.transforms@.len() == 0
                        &&& e.analysis_table@.len() == 0
                        &&& e.item_vec@.len() >= 1
                        &&& e.iset() == kernel_upto(*gm, items, i as int, mm@[a].0 as int)
                        &&& forall|m: int|
                            0 <= m < e.item_vec@.len() ==> (#[trigger] e.item_vec@[m]).dot_pos
                                >= 1
                        &&& (dedup ==> e.item_vec@.no_duplicates())
                    },
            decreases n - i,
        {
            let item = self.item_vec[i];
            proof {
                assert(item_wf(*gm, item));
            }
            if !item.is_end(gm) {
                proof {
                    assert(gm.prod_wf(item.production as int));
                }
                let gsc = item.get_current_symbol(gm);
                let tail_len = gm.productions[item.production].tail.len();
                let adv = Item::from(&item);
                let mlen = mm.len();
                let mut pos: usize = mlen;
                let mut a: usize = 0;
                while a < mlen
                    invariant
                        a <= mlen,
                        pos <= mlen,
                        mlen == mm@.len(),
                        pos == mlen ==> forall|b: int| 0 <= b < a ==> (#[trigger] mm@[b]).0 != gsc,
                        pos < mlen ==> mm@[pos as int].0 == gsc,
                    decreases mlen - a,
                {
                    if pos == mlen && mm[a].0 == gsc {
                        pos = a;
                    }
                    a = a + 1;
                }
                let ghost mm_old = mm@;
                if pos == mlen {
                    let mut tis = ItemSet::new();
                    tis.add_item(adv);
                    mm.push((gsc, tis));
                    proof {
                        assert(mm@[mlen as int].1.item_vec@ == Seq::<Item>::empty().push(adv));
                        lemma_push_to_set(Seq::<Item>::empty(), adv);
                        assert(Seq::<Item>::empty().to_set() =~= Set::<Item>::empty());
                        assert(kernel_upto(*gm, items, i as int, gsc as int) =~= Set::<
                            Item,
                        >::empty()) by {
                            if exists|it: Item|
                                kernel_upto(*gm, items, i as int, gsc as int).contains(it) {
                                let it = choose|it: Item|
                                    kernel_upto(*gm, items, i as int, gsc as int).contains(it);
                                let k = choose|k: int|
                                    0 <= k < i && #[trigger] items[k] == (Item {
                                        production: it.production,
                                        dot_pos: (it.dot_pos - 1) as usize,
                                    }) && item_wf(*gm, items[k]) && !spec_is_end(*gm, items[k])
                                        && spec_cursym(*gm, items[k]) == gsc as int;
                                assert(exists|b: int|
                                    0 <= b < mm_old.len() && (#[trigger] mm_old[b]).0 as int
                                        == spec_cursym(*gm, items[k]));
                            }
                        }
                    }
                } else {
                    let (key, mut st) = mm.remove(pos);
                    st.add_item(adv);
                    mm.insert(pos, (key, st));
                    proof {
                        assert(mm@ =~= mm_old.update(pos as int, mm@[pos as int]));
                        assert(mm@[pos as int].0 == gsc);
                        assert(mm@[pos as int].1.item_vec@ == mm_old[pos as int].1.item_vec@.push(
                            adv,
                        ));
                        lemma_push_to_set(mm_old[pos as int].1.item_vec@, adv);
                        if dedup {
                            let e = mm_old[pos as int].1;
                            assert(!e.item_vec@.contains(adv)) by {
                                if e.item_vec@.contains(adv) {
                                    assert(e.iset().contains(adv));
                                    let k = choose|k: int|
                                        0 <= k < i && #[trigger] items[k] == (Item {
                                            production: adv.production,
                                            dot_pos: (adv.dot_pos - 1) as usize,
                                        }) && item_wf(*gm, items[k]) && !spec_is_end(
                                            *gm,
                                            items[k],
                                        ) && spec_cursym(*gm, items[k]) == gsc as int;
                                    assert(items[k] == item);
                                    assert(items[k] == items[i as int]);
                                }
                            }
                            let enew = mm@[pos as int].1;
                            assert forall|x: int, y: int|
                                0 <= x < enew.item_vec@.len() && 0 <= y < enew.item_vec@.len()
                                    && x != y implies enew.item_vec@[x] != enew.item_vec@[y] by {
                                if x < e.item_vec@.len() && y < e.item_vec@.len() {
                                    assert(enew.item_vec@[x] == e.item_vec@[x]);
                                    assert(enew.item_vec@[y] == e.item_vec@[y]);
                                } else if x < e.item_vec@.len() {
                                    if e.item_vec@[x] == adv {
                                        assert(e.item_vec@.contains(adv));
                                    }
                                } else if y < e.item_vec@.len() {
                                    if e.item_vec@[y] == adv {
                                        assert(e.item_vec@.contains(adv));
                                    }
                                }
                            }
                            assert(enew.item_vec@.no_duplicates());
                        }
                    }
                }
                proof {
                    assert(items[i as int].dot_pos + 1 <= usize::MAX) by {
                        assert(items[i as int].dot_pos < tail_len);
                    }
                    assert(adv == (Item {
                        production: items[i as int].production,
                        dot_pos: (items[i as int].dot_pos + 1) as usize,
                    }));
                    assert forall|a2: int| 0 <= a2 < mm@.len() implies {
                        let e = (#[trigger] mm@[a2]).1;
                        e.iset() == kernel_upto(*gm, items, i + 1, mm@[a2].0 as int)
                    } by {
                        lemma_kernel_upto_step(*gm, items, i as int, mm@[a2].0 as int);
                        if a2 < mm_old.len() {
                            assert(mm@[a2].0 == mm_old[a2].0);
                        }
                        if mm@[a2].0 == gsc {
                            assert(a2 == pos || (pos == mlen && a2 == mlen));
                        } else {
                            assert(spec_cursym(*gm, items[i as int]) != mm@[a2].0 as int);
                            assert(mm@[a2].1 == mm_old[a2].1);
                        }
                    }
                    assert forall|k: int|
                        0 <= k < i + 1 && item_wf(*gm, #[trigger] items[k]) && !spec_is_end(
                            *gm,
                            items[k],
                        ) implies exists|a2: int|
                        0 <= a2 < mm@.len() && (#[trigger] mm@[a2]).0 as int == spec_cursym(
                            *gm,
                            items[k],
                        ) by {
                        if k == i {
                            let a2 = if pos == mlen { mlen as int } else { pos as int };
                            assert(0 <= a2 < mm@.len() && mm@[a2].0 as int == spec_cursym(
                                *gm,
                                items[k],
                            ));
                        } else {
                            let a2 = choose|a2: int|
                                0 <= a2 < mm_old.len() && (#[trigger] mm_old[a2]).0 as int
                                    == spec_cursym(*gm, items[k]);
                            assert(mm@[a2].0 == mm_old[a2].0);
                        }
                    }
                }
            } else {
                proof {
                    assert forall|a2: int| 0 <= a2 < mm@.len() implies {
                        let e = (#[trigger] mm@[a2]).1;
                        e.iset() == kernel_upto(*gm, items, i + 1, mm@[a2].0 as int)
                    } by {
                        assert(items[i as int].dot_pos <= gm.tail_of(
                            items[i as int].production as int,
                        ).len());
                        lemma_kernel_upto_step(*gm, items, i as int, mm@[a2].0 as int);
                    }
                }
            }
            i = i + 1;
        }
        // close every kernel
        let ghost mm_pre = mm@;
        proof {
            assert forall|a: int| 0 <= a < mm@.len() implies {
                let e = (#[trigger] mm@[a]).1;
                e.iset() == kernel(*gm, self.iset(), mm@[a].0 as int)
            } by {
                lemma_kernel_upto_full(*gm, items, mm@[a].0 as int);
            }
        }
        let mlen = mm.len();
        let mut a: usize = 0;
        while a < mlen
            invariant
                a <= mlen,
                mlen == mm@.len(),
                mm_pre.len() == mlen,
                forall|b: int| 0 <= b < mlen ==> (#[trigger] mm@[b]).0 == mm_pre[b].0,
                forall|b: int| a <= b < mlen ==> (#[trigger] mm@[b]).1 == mm_pre[b].1,
                forall|b: int|
                    0 <= b < a ==> move_entry_ok(
                        *gm,
                        *self,
                        (#[trigger] mm@[b]).0,
                        mm@[b].1,
                    ),
            decreases mlen - a,
        {
            let ghost mm_it = mm@;
            let (key, mut st) = mm.remove(a);
            let ghost e0 = st;
            proof {
                assert(key == mm_pre[a as int].0);
                assert(e0 == mm_pre[a as int].1);
                assert(e0.iset() == kernel(*gm, self.iset(), key as int));
            }
            st.make_closure(gm);
            mm.insert(a, (key, st));
            proof {
                assert(mm@ =~= mm_it.update(a as int, (key, st)));
                assert(move_entry_ok(*gm, *self, mm@[a as int].0, mm@[a as int].1));
            }
            a = a + 1;
        }
        proof {
            assert forall|k: int|
                0 <= k < items.len() && item_wf(*gm, #[trigger] items[k]) && !spec_is_end(
                    *gm,
                    items[k],
                ) implies exists|a2: int|
                0 <= a2 < mm@.len() && (#[trigger] mm@[a2]).0 as int == spec_cursym(
                    *gm,
                    items[k],
                ) by {
                let a2 = choose|a2: int|
                    0 <= a2 < mm_pre.len() && (#[trigger] mm_pre[a2]).0 as int == spec_cursym(
                        *gm,
                        items[k],
                    );
                assert(0 <= a2 < mm@.len() && mm@[a2].0 as int == spec_cursym(*gm, items[k]));
            }
        }
        mm
    }
}

/// How many of the first `n` items are complete (dot at end) and belong
/// to a production other than the augmenting one: the candidates for a
/// reduction in this state.
pub open spec fn count_end_nonaug(g: Grammar, items: Seq<Item>, n: int) -> int
    decreases n,
{
    if n <= 0 {
        0
    } else {
        count_end_nonaug(g, items, n - 1) + if spec_is_end(g, items[n - 1]) && g.head_of(
            items[n - 1].production as int,
        ) != 0 {
            1int
        } else {
            0int
        }
    }
}

/// The state admits no unique action: either two reduction candidates
/// (reduce-reduce), or one reduction candidate beside other items
/// (shift-reduce).
pub open spec fn spec_conflict(g: Grammar, st: ItemSet) -> bool {
    let c = count_end_nonaug(g, st.item_vec@, st.item_vec@.len() as int);
    c > 1 || (c == 1 && c < st.item_vec@.len())
}

/// The table entry the decision procedure assigns to symbol `s` of a
/// state: a state without transitions resolves by reduction (or accepts
/// on end-of-input from the augmenting item); a state with transitions
/// shifts on terminals and jumps on non-terminals where a transition is
/// recorded, and errors everywhere else.
pub open spec fn decision_ok(g: Grammar, st: ItemSet, s: int, e: TableItem) -> bool {
    if st.transforms@.len() == 0 {
        if g.is_nonterminal(s) {
            e == TableItem::Error
        } else if st.item_vec@[0].production != 0 {
            e == TableItem::ActionReduction(st.item_vec@[0].production)
        } else if g.symbol_table@[s] is EndSymbol {
            e == TableItem::Accept
        } else {
            e == TableItem::Error
        }
    } else {
        &&& (!st.spec_has_trans(s) ==> e == TableItem::Error)
        &&& forall|k: int|
            0 <= k < st.transforms@.len() && (#[trigger] st.transforms@[k]).0 as int == s ==> e
                == (if g.is_nonterminal(s) {
                TableItem::Goto(st.transforms@[k].1)
            } else {
                TableItem::ActionShift(st.transforms@[k].1)
            })
    }
}

impl ItemSet {
    /// Whether the state conflicts: more than one complete non-augmenting
    /// item, or one beside other items.
    #[verifier::loop_isolation(false)]
    pub fn is_exist_co(&self, gm: &Grammar) -> (r: bool)
        requires
            gm.wf(),
            self.items_wf(*gm),
        ensures
            r == spec_conflict(*gm, *self),
    {
        let n = self.item_vec.len();
        let mut count_r: usize = 0;
        let mut i: usize = 0;
        while i < n
            invariant
                i <= n,
                count_r <= i,
                count_r as int == count_end_nonaug(*gm, self.item_vec@, i as int),
            decreases n - i,
        {
            let it = self.item_vec[i];
            proof {
                assert(item_wf(*gm, it));
            }
            if it.is_end(gm) && gm.productions[it.production].head != 0 {
                count_r = count_r + 1;
            }
            i = i + 1;
        }
        count_r > 1 || count_r == 1 && count_r < n
    }

    /// The destination recorded for symbol `s`, if any.
    #[verifier::loop_isolation(false)]
    pub fn lookup_transform(&self, s: usize) -> (r: Option<usize>)
        ensures
            match r {
                Some(d) => exists|k: int|
                    0 <= k < self.transforms@.len() && #[trigger] self.transforms@[k] == (s, d),
                None => !self.spec_has_trans(s as int),
            },
    {
        let n = self.transforms.len();
        let mut i: usize = 0;
        while i < n
            invariant
                i <= n,
                forall|k: int| 0 <= k < i ==> (#[trigger] self.transforms@[k]).0 != s,
            decreases n - i,
        {
            let (key, dest) = self.transforms[i];
            if key == s {
                proof {
                    assert(self.transforms@[i as int] == (s, dest));
                }
                return Some(dest);
            }
            i = i + 1;
        }
        proof {
            if self.spec_has_trans(s as int) {
                let k = choose|k: int|
                    0 <= k < self.transforms@.len() && (#[trigger] self.transforms@[k]).0
                        == s as int;
                assert(self.transforms@[k].0 != s);
            }
        }
        None
    }

    /// Compiles this state's row of the parsing table, one cell per
    /// symbol except the augmenting one (cell 0 stays an error
    /// placeholder).  Returns false, leaving the row untouched, exactly
    /// when the state conflicts, i.e. the grammar is not LR(0) here.
    #[verifier::loop_isolation(false)]
    pub fn make_decision(&mut self, gm: &Grammar) -> (r: bool)
        requires
            gm.wf(),
            gm.augmented(),
            old(self).items_wf(*gm),
            old(self).item_vec@.len() >= 1,
            old(self).trans_keys_distinct(),
        ensures
            r == !spec_conflict(*gm, *old(self)),
            final(self).item_vec == old(self).item_vec,
            final(self).transforms == old(self).transforms,
            !r ==> final(self).analysis_table == old(self).analysis_table,
            r ==> final(self).analysis_table@.len() == gm.nsym(),
            r ==> final(self).analysis_table@[0] == TableItem::Error,
            r ==> forall|s: int|
                1 <= s < gm.nsym() ==> decision_ok(
                    *gm,
                    *old(self),
                    s,
                    #[trigger] final(self).analysis_table@[s],
                ),
    {
        if self.is_exist_co(gm) {
            return false;
        }
        let nsym = gm.symbol_table.len();
        let ntrans = self.transforms.len();
        let item0_prod = self.item_vec[0].production;
        let mut table: Vec<TableItem> = Vec::new();
        let mut s_index: usize = 0;
        while s_index < nsym
            invariant
                s_index <= nsym,
                table@.len() == s_index,
                s_index >= 1 ==> table@[0] == TableItem::Error,
                forall|s: int| 1 <= s < s_index ==> decision_ok(*gm, *self, s, #[trigger] table@[s]),
            decreases nsym - s_index,
        {
            let ch = gm.symbol_table[s_index].to_char();
            let is_nt = matches!(gm.symbol_table[s_index], Symbol::NonTerminate(_));
            proof {
                assert(gm.chars()[s_index as int] == gm.symbol_table@[s_index as int].spec_char());
                if s_index >= 1 && ch == '@' {
                    assert(gm.chars()[0] == '@');
                    assert(false);
                }
            }
            if ch == '@' {
                table.push(TableItem::Error);
            } else if ntrans == 0 {
                if is_nt {
                    table.push(TableItem::Error);
                } else if item0_prod != 0 {
                    table.push(TableItem::ActionReduction(item0_prod));
                } else if ch == '#' {
                    table.push(TableItem::Accept);
                } else {
                    table.push(TableItem::Error);
                }
                proof {
                    assert(gm.symbol_table@[s_index as int] == crate::grammar::spec_symbol_of(
                        gm.chars()[s_index as int],
                    ));
                }
            } else {
                match self.lookup_transform(s_index) {
                    Some(dest) => {
                        proof {
                            let k = choose|k: int|
                                0 <= k < self.transforms@.len() && #[trigger] self.transforms@[k]
                                    == (s_index, dest);
                            assert forall|k2: int|
                                0 <= k2 < self.transforms@.len() && (
                                #[trigger] self.transforms@[k2]).0 as int == s_index as int
                                    implies self.transforms@[k2].1 == dest by {
                                if k2 != k {
                                    assert(self.transforms@[k2].0 != self.transforms@[k].0);
                                }
                            }
                        }
                        if is_nt {
                            table.push(TableItem::Goto(dest));
                        } else {
                            table.push(TableItem::ActionShift(dest));
                        }
                    },
                    None => {
                        table.push(TableItem::Error);
                    },
                }
            }
            s_index = s_index + 1;
        }
        self.analysis_table = table;
        true
    }
}

} // verus!
