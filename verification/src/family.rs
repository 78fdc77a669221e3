//! The automaton: the canonical collection of LR(0) item sets, the
//! compiled parsing table, and the shift-reduce recognizer.
//!
//! States live in an append-only arena addressed by index; transition
//! maps and table cells refer to states by index only.

use vstd::prelude::*;
use crate::grammar::Grammar;
use crate::item::Item;
use crate::item::ItemSet;
use crate::item::TableItem;
use crate::item::item_wf;
use crate::item::spec_is_end;
use crate::item::spec_cursym;
use crate::item::is_closure_of;
use crate::item::kernel;
use crate::item::spec_same_items;
use crate::item::lemma_same_items_is_set_eq;
use crate::item::move_entry_ok;
use crate::item::lemma_push_to_set;
use crate::item::decision_ok;
use crate::item::spec_conflict;

verus! {

broadcast use vstd::std_specs::vec::axiom_spec_len;

/// The grammar together with the ordered family of automaton states.
/// State 0 is always the initial state, seeded from the augmenting item.
pub struct ItemSetFamily {
    pub family: Vec<ItemSet>,
    pub gm: Grammar,
}

impl ItemSetFamily {
    /// Structural well-formedness of the state family: every state holds
    /// distinct, well-formed items (at least one), and its transition
    /// list has distinct symbol keys and in-range destinations.
    pub open spec fn states_wf(self) -> bool {
        forall|i: int|
            0 <= i < self.family@.len() ==> {
                let st = #[trigger] self.family@[i];
                &&& st.items_wf(self.gm)
                &&& st.item_vec@.len() >= 1
                &&& st.item_vec@.no_duplicates()
                &&& st.trans_keys_distinct()
                &&& forall|k: int|
                    0 <= k < st.transforms@.len() ==> ((#[trigger] st.transforms@[k]).0 as int)
                        < self.gm.nsym() && (st.transforms@[k].1 as int) < self.family@.len()
            }
    }

    /// No two states hold the same item set: structurally equal candidate
    /// states collapse to one index during construction.
    pub open spec fn states_distinct(self) -> bool {
        forall|i: int, j: int|
            0 <= i < j < self.family@.len() ==> (#[trigger] self.family@[i]).iset() != (
            #[trigger] self.family@[j]).iset()
    }

    /// State `j` is the destination of some recorded transition.
    pub open spec fn state_reached(self, j: int) -> bool {
        exists|i: int, k: int|
            0 <= i < self.family@.len() && 0 <= k < self.family@[i].transforms@.len() && (
            #[trigger] self.family@[i].transforms@[k]).1 == j
    }

    /// Every state but the initial one is some transition's destination:
    /// the family holds no state the construction did not discover.
    pub open spec fn states_connected(self) -> bool {
        forall|j: int| 1 <= j < self.family@.len() ==> #[trigger] self.state_reached(j)
    }

    /// Every recorded transition leads to the state holding the closed
    /// kernel of its source on its symbol.
    pub open spec fn transitions_ok(self) -> bool {
        forall|i: int, k: int|
            0 <= i < self.family@.len() && 0 <= k < (
            #[trigger] self.family@[i]).transforms@.len() ==> is_closure_of(
                self.gm,
                kernel(self.gm, self.family@[i].iset(), (#[trigger] self.family@[i].transforms@[k]).0 as int),
                self.family@[self.family@[i].transforms@[k].1 as int].iset(),
            )
    }

    /// Every state whose dot rests on some symbol has a transition on it.
    pub open spec fn transitions_complete(self) -> bool {
        forall|i: int, k: int|
            0 <= i < self.family@.len() && 0 <= k < (
            #[trigger] self.family@[i]).item_vec@.len() && !spec_is_end(
                self.gm,
                #[trigger] self.family@[i].item_vec@[k],
            ) ==> self.family@[i].spec_has_trans(spec_cursym(self.gm, self.family@[i].item_vec@[k]))
    }

    /// Every state's table row is compiled: one cell per symbol, each the
    /// decision procedure's verdict, with the augmenting symbol's cell an
    /// error placeholder.
    pub open spec fn table_compiled(self) -> bool {
        forall|i: int|
            0 <= i < self.family@.len() ==> {
                let st = #[trigger] self.family@[i];
                &&& st.analysis_table@.len() == self.gm.nsym()
                &&& st.analysis_table@[0] == TableItem::Error
                &&& forall|s: int|
                    1 <= s < self.gm.nsym() ==> decision_ok(
                        self.gm,
                        st,
                        s,
                        #[trigger] st.analysis_table@[s],
                    )
            }
    }

    pub fn new(gm: Grammar) -> (f: ItemSetFamily)
        ensures
            f.gm == gm,
            f.family@.len() == 0,
    {
        ItemSetFamily { family: Vec::new(), gm }
    }

    /// The index of the first state holding the same items as the given
    /// set, if one exists.
    #[verifier::loop_isolation(false)]
    pub fn find_state(&self, item_set: &ItemSet) -> (r: Option<usize>)
        ensures
            match r {
                Some(i) => i < self.family@.len() && spec_same_items(
                    self.family@[i as int],
                    *item_set,
                ) && forall|k: int|
                    0 <= k < i ==> !spec_same_items(#[trigger] self.family@[k], *item_set),
                None => forall|i: int|
                    0 <= i < self.family@.len() ==> !spec_same_items(
                        #[trigger] self.family@[i],
                        *item_set,
                    ),
            },
    {
        let n = self.family.len();
        let mut i: usize = 0;
        while i < n
            invariant
                i <= n,
                forall|k: int|
                    0 <= k < i ==> !spec_same_items(#[trigger] self.family@[k], *item_set),
            decreases n - i,
        {
            if self.family[i].is_eq(item_set) {
                return Some(i);
            }
            i = i + 1;
        }
        None
    }

    /// The index of the first state holding the same items as the given
    /// set, or -1 if none does.
    pub fn is_exist(&self, item_set: &ItemSet) -> (r: isize)
        requires
            self.family@.len() <= isize::MAX,
        ensures
            -1 <= r < self.family@.len(),
            r == -1 ==> forall|i: int|
                0 <= i < self.family@.len() ==> !spec_same_items(
                    #[trigger] self.family@[i],
                    *item_set,
                ),
            r >= 0 ==> spec_same_items(self.family@[r as int], *item_set) && forall|k: int|
                0 <= k < r ==> !spec_same_items(#[trigger] self.family@[k], *item_set),
    {
        match self.find_state(item_set) {
            Some(i) => i as isize,
            None => -1,
        }
    }

    /// Builds the canonical collection: seeds state 0 with the closed
    /// augmenting item, then processes states in order, computing each
    /// state's move map and recording, per symbol, a transition to the
    /// set-equal existing state or to the newly appended candidate.
    #[verifier::loop_isolation(false)]
    #[verifier::rlimit(100)]
    pub fn build_dfa(&mut self)
        requires
            old(self).gm.wf(),
            old(self).gm.augmented(),
            old(self).family@.len() == 0,
        ensures
            final(self).gm == old(self).gm,
            final(self).family@.len() >= 1,
            final(self).states_wf(),
            final(self).states_distinct(),
            is_closure_of(
                final(self).gm,
                Set::<Item>::empty().insert(Item { production: 0, dot_pos: 0 }),
                final(self).family@[0].iset(),
            ),
            final(self).transitions_ok(),
            final(self).transitions_complete(),
            final(self).states_connected(),
    {
        let ghost g = self.gm;
        let origin = Item::new(0);
        let mut item_set = ItemSet::new();
        item_set.add_item(origin);
        proof {
            assert(item_set.item_vec@ == Seq::<Item>::empty().push(origin));
            assert(item_wf(g, origin));
            assert(item_set.items_wf(g));
            assert(item_set.item_vec@.no_duplicates());
            lemma_push_to_set(Seq::<Item>::empty(), origin);
            assert(Seq::<Item>::empty().to_set() =~= Set::<Item>::empty());
            assert(item_set.iset() == Set::<Item>::empty().insert(origin));
        }
        item_set.make_closure(&self.gm);
        self.family.push(item_set);
        let mut index: usize = 0;
        while index < self.family.len()
            invariant
                self.gm == g,
                1 <= self.family@.len(),
                index <= self.family@.len(),
                forall|i: int|
                    0 <= i < self.family@.len() ==> (#[trigger] self.family@[i]).items_wf(g),
                forall|i: int|
                    0 <= i < self.family@.len() ==> (#[trigger] self.family@[i]).item_vec@.len()
                        >= 1,
                forall|i: int|
                    0 <= i < self.family@.len() ==> (
                    #[trigger] self.family@[i]).item_vec@.no_duplicates(),
                forall|i: int|
                    0 <= i < self.family@.len() ==> (
                    #[trigger] self.family@[i]).trans_keys_distinct(),
                forall|i: int, k: int|
                    0 <= i < self.family@.len() && 0 <= k < (
                    #[trigger] self.family@[i]).transforms@.len() ==> ((
                    #[trigger] self.family@[i].transforms@[k]).0 as int) < g.nsym() && (
                    self.family@[i].transforms@[k].1 as int) < self.family@.len(),
                forall|i: int, j: int|
                    0 <= i < j < self.family@.len() ==> (#[trigger] self.family@[i]).iset() != (
                    #[trigger] self.family@[j]).iset(),
                is_closure_of(
                    g,
                    Set::<Item>::empty().insert(Item { production: 0, dot_pos: 0 }),
                    self.family@[0].iset(),
                ),
                forall|i: int, k: int|
                    0 <= i < self.family@.len() && 0 <= k < (
                    #[trigger] self.family@[i]).transforms@.len() ==> is_closure_of(
                        g,
                        kernel(
                            g,
                            self.family@[i].iset(),
                            (#[trigger] self.family@[i].transforms@[k]).0 as int,
                        ),
                        self.family@[self.family@[i].transforms@[k].1 as int].iset(),
                    ),
                forall|i: int, k: int|
                    0 <= i < index && 0 <= k < (#[trigger] self.family@[i]).item_vec@.len()
                        && !spec_is_end(g, #[trigger] self.family@[i].item_vec@[k])
                        ==> self.family@[i].spec_has_trans(
                        spec_cursym(g, self.family@[i].item_vec@[k]),
                    ),
                forall|i: int|
                    index <= i < self.family@.len() ==> (
                    #[trigger] self.family@[i]).transforms@.len() == 0,
                forall|j: int| 1 <= j < self.family@.len() ==> #[trigger] self.state_reached(j),
            decreases usize::MAX - index,
        {
            let move_map = self.family[index].get_move_map(&self.gm);
            let ghost st_i = self.family@[index as int];
            let ghost mm0 = move_map@;
            let mm_len = move_map.len();
            let mut move_map = move_map;
            let mut mi: usize = 0;
            while mi < mm_len
                invariant
                    self.gm == g,
                    mi <= mm_len,
                    mm_len == mm0.len(),
                    move_map@ == mm0.skip(mi as int),
                    index < self.family@.len(),
                    forall|i: int|
                        0 <= i < self.family@.len() ==> (#[trigger] self.family@[i]).items_wf(g),
                    forall|i: int|
                        0 <= i < self.family@.len() ==> (
                        #[trigger] self.family@[i]).item_vec@.len() >= 1,
                    forall|i: int|
                        0 <= i < self.family@.len() ==> (
                        #[trigger] self.family@[i]).item_vec@.no_duplicates(),
                    forall|i: int|
                        0 <= i < self.family@.len() ==> (
                        #[trigger] self.family@[i]).trans_keys_distinct(),
                    forall|i: int, k: int|
                        0 <= i < self.family@.len() && 0 <= k < (
                        #[trigger] self.family@[i]).transforms@.len() ==> ((
                        #[trigger] self.family@[i].transforms@[k]).0 as int) < g.nsym() && (
                        self.family@[i].transforms@[k].1 as int) < self.family@.len(),
                    forall|i: int, j: int|
                        0 <= i < j < self.family@.len() ==> (#[trigger] self.family@[i]).iset()
                            != (#[trigger] self.family@[j]).iset(),
                    is_closure_of(
                        g,
                        Set::<Item>::empty().insert(Item { production: 0, dot_pos: 0 }),
                        self.family@[0].iset(),
                    ),
                    forall|i: int, k: int|
                        0 <= i < self.family@.len() && 0 <= k < (
                        #[trigger] self.family@[i]).transforms@.len() ==> is_closure_of(
                            g,
                            kernel(
                                g,
                                self.family@[i].iset(),
                                (#[trigger] self.family@[i].transforms@[k]).0 as int,
                            ),
                            self.family@[self.family@[i].transforms@[k].1 as int].iset(),
                        ),
                    forall|i: int, k: int|
                        0 <= i < index && 0 <= k < (#[trigger] self.family@[i]).item_vec@.len()
                            && !spec_is_end(g, #[trigger] self.family@[i].item_vec@[k])
                            ==> self.family@[i].spec_has_trans(
                            spec_cursym(g, self.family@[i].item_vec@[k]),
                        ),
                    forall|i: int|
                        index < i < self.family@.len() ==> (
                        #[trigger] self.family@[i]).transforms@.len() == 0,
                    self.family@[index as int].item_vec@ == st_i.item_vec@,
                    self.family@[index as int].transforms@.len() == mi,
                    forall|k: int|
                        0 <= k < mi ==> (#[trigger] self.family@[index as int].transforms@[k]).0
                            == mm0[k].0,
                    forall|a: int, b: int|
                        0 <= a < b < mm0.len() ==> (#[trigger] mm0[a]).0 != (#[trigger] mm0[b]).0,
                    forall|a: int|
                        0 <= a < mm0.len() ==> move_entry_ok(g, st_i, (#[trigger] mm0[a]).0, mm0[a].1),
                    forall|j: int| 1 <= j < self.family@.len() ==> #[trigger] self.state_reached(
                        j,
                    ),
                decreases mm_len - mi,
            {
                let ghost fam_entry = *self;
                let (trans, t_set) = move_map.remove(0);
                proof {
                    assert(mm0.skip(mi as int)[0] == mm0[mi as int]);
                    assert((trans, t_set) == mm0[mi as int]);
                    assert(move_map@ =~= mm0.skip(mi + 1));
                    assert(move_entry_ok(g, st_i, trans, t_set));
                    assert(st_i.item_vec@.no_duplicates());
                    assert(t_set.item_vec@.no_duplicates());
                }
                let ex = self.find_state(&t_set);
                let dest: usize;
                match ex {
                    None => {
                        self.family.push(t_set);
                        dest = self.family.len() - 1;
                        proof {
                            assert(self.family@[dest as int] == t_set);
                            assert forall|i: int| 0 <= i < dest implies (
                            #[trigger] self.family@[i]).iset() != t_set.iset() by {
                                lemma_same_items_is_set_eq(self.family@[i], t_set);
                            }
                        }
                    },
                    Some(e) => {
                        dest = e;
                        proof {
                            lemma_same_items_is_set_eq(self.family@[dest as int], t_set);
                            assert(self.family@[dest as int].iset() == t_set.iset());
                        }
                    },
                }
                let ghost fam1 = self.family@;
                let mut cur = self.family.remove(index);
                cur.transforms.push((trans, dest));
                self.family.insert(index, cur);
                proof {
                    assert(self.family@ =~= fam1.update(index as int, self.family@[index as int]));
                    assert(self.family@[index as int].item_vec@ == st_i.item_vec@);
                    assert(self.family@[index as int].transforms@ == fam1[index as int].transforms@.push((trans, dest)));
                    assert(self.family@[index as int].iset() == st_i.iset());
                    assert(is_closure_of(
                        g,
                        kernel(g, st_i.iset(), trans as int),
                        self.family@[dest as int].iset(),
                    ));
                    let tlen = self.family@[index as int].transforms@.len() as int;
                    assert(self.family@[index as int].transforms@[tlen - 1] == (trans, dest));
                    assert forall|j: int| 1 <= j < self.family@.len() implies self.state_reached(
                        j,
                    ) by {
                        if j == dest {
                            assert(self.state_reached(j));
                        } else {
                            assert(j < fam_entry.family@.len());
                            assert(fam_entry.state_reached(j));
                            let (wi, wk) = choose|wi: int, wk: int|
                                0 <= wi < fam_entry.family@.len() && 0 <= wk
                                    < fam_entry.family@[wi].transforms@.len() && (
                                #[trigger] fam_entry.family@[wi].transforms@[wk]).1 == j;
                            assert(self.family@[wi].transforms@[wk]
                                == fam_entry.family@[wi].transforms@[wk]);
                            assert(self.state_reached(j));
                        }
                    }
                }
                mi = mi + 1;
            }
            proof {
                assert forall|k: int|
                    0 <= k < self.family@[index as int].item_vec@.len() && !spec_is_end(
                        g,
                        #[trigger] self.family@[index as int].item_vec@[k],
                    ) implies self.family@[index as int].spec_has_trans(
                    spec_cursym(g, self.family@[index as int].item_vec@[k]),
                ) by {
                    assert(st_i.item_vec@[k] == self.family@[index as int].item_vec@[k]);
                    assert(item_wf(g, st_i.item_vec@[k]));
                    let a = choose|a: int|
                        0 <= a < mm0.len() && (#[trigger] mm0[a]).0 as int == spec_cursym(
                            g,
                            st_i.item_vec@[k],
                        );
                    assert(self.family@[index as int].transforms@[a].0 == mm0[a].0);
                }
            }
            index = index + 1;
        }
    }

    /// Compiles the full parsing table, one row per state, aborting at the
    /// first conflicting state: `Ok` exactly when no state conflicts, and
    /// `Err` names the first state at which the grammar is not LR(0).
    #[verifier::loop_isolation(false)]
    #[verifier::rlimit(100)]
    pub fn build_table(&mut self) -> (r: Result<(), usize>)
        requires
            old(self).gm.wf(),
            old(self).gm.augmented(),
            old(self).states_wf(),
        ensures
            final(self).gm == old(self).gm,
            final(self).family@.len() == old(self).family@.len(),
            forall|i: int|
                0 <= i < old(self).family@.len() ==> (#[trigger] final(self).family@[i]).item_vec
                    == old(self).family@[i].item_vec && final(self).family@[i].transforms == old(
                    self,
                ).family@[i].transforms,
            final(self).states_wf(),
            r is Ok <==> (forall|i: int|
                0 <= i < old(self).family@.len() ==> !spec_conflict(
                    old(self).gm,
                    #[trigger] old(self).family@[i],
                )),
            r is Ok ==> final(self).table_compiled(),
            r matches Err(ci) ==> (ci as int) < old(self).family@.len() && spec_conflict(
                old(self).gm,
                old(self).family@[ci as int],
            ) && forall|i: int|
                0 <= i < ci ==> !spec_conflict(old(self).gm, #[trigger] old(self).family@[i]),
    {
        let ghost g = self.gm;
        let ghost fam0 = self.family@;
        let n = self.family.len();
        let mut i: usize = 0;
        while i < n
            invariant
                self.gm == g,
                i <= n,
                n == self.family@.len(),
                fam0.len() == n,
                forall|k: int|
                    0 <= k < n ==> (#[trigger] self.family@[k]).item_vec == fam0[k].item_vec && (
                    self.family@[k]).transforms == fam0[k].transforms,
                forall|k: int| i <= k < n ==> #[trigger] self.family@[k] == fam0[k],
                forall|k: int| 0 <= k < i ==> !spec_conflict(g, #[trigger] fam0[k]),
                forall|k: int|
                    0 <= k < i ==> {
                        let st = #[trigger] self.family@[k];
                        &&& st.analysis_table@.len() == g.nsym()
                        &&& st.analysis_table@[0] == TableItem::Error
                        &&& forall|s: int|
                            1 <= s < g.nsym() ==> decision_ok(
                                g,
                                st,
                                s,
                                #[trigger] st.analysis_table@[s],
                            )
                    },
            decreases n - i,
        {
            let ghost fam1 = self.family@;
            let mut st = self.family.remove(i);
            let ok = st.make_decision(&self.gm);
            self.family.insert(i, st);
            proof {
                assert(self.family@ =~= fam1.update(i as int, self.family@[i as int]));
                assert(fam1[i as int] == fam0[i as int]);
            }
            if !ok {
                proof {
                    assert(self.family@ =~= fam1);
                }
                return Result::Err(i);
            }
            proof {
                let stv = self.family@[i as int];
                assert(decision_ok(g, fam0[i as int], 1, stv.analysis_table@[1]) ==> decision_ok(
                    g,
                    stv,
                    1,
                    stv.analysis_table@[1],
                ));
                assert forall|s: int| 1 <= s < g.nsym() implies decision_ok(
                    g,
                    stv,
                    s,
                    #[trigger] stv.analysis_table@[s],
                ) by {
                    assert(decision_ok(g, fam0[i as int], s, stv.analysis_table@[s]));
                    assert(stv.item_vec@ == fam0[i as int].item_vec@);
                    assert(stv.transforms@ == fam0[i as int].transforms@);
                }
            }
            i = i + 1;
        }
        Result::Ok(())
    }
}

/// The outcome of one recognizer run.
#[derive(Clone, Copy, Debug, PartialEq, Eq, Structural)]
pub enum RunVerdict {
    Accept,
    Reject,
}

/// One recorded step of the recognizer: the table action taken, and the
/// read cursor and the two stack depths after the step.
#[derive(Clone, Copy, Debug, PartialEq, Eq, Structural)]
pub struct TraceStep {
    pub action: TableItem,
    pub cursor: usize,
    pub sym_depth: usize,
    pub state_depth: usize,
}

/// The recognizer's verdict together with its full step trace.
#[derive(Debug)]
pub struct RunResult {
    pub verdict: RunVerdict,
    pub trace: Vec<TraceStep>,
}

/// How one step may follow the preceding cursor and stack depths: the
/// read cursor advances exactly on a shift and never regresses; a shift
/// deepens both stacks by one; a reduction of production `p` shrinks both
/// stacks by the length of `p`'s body before the compensating push of the
/// head symbol and destination state; accept, error, and a goto consulted
/// as a primary action leave everything in place.
pub open spec fn step_ok(g: Grammar, c0: int, sy0: int, st0: int, s: TraceStep) -> bool {
    match s.action {
        TableItem::ActionShift(_) => s.cursor == c0 + 1 && s.sym_depth == sy0 + 1
            && s.state_depth == st0 + 1,
        TableItem::ActionReduction(p) => {
            &&& (p as int) < g.nprod()
            &&& g.tail_of(p as int).len() < sy0
            &&& g.tail_of(p as int).len() < st0
            &&& s.cursor == c0
            &&& s.sym_depth == sy0 - g.tail_of(p as int).len() + 1
            &&& s.state_depth == st0 - g.tail_of(p as int).len() + 1
        },
        _ => s.cursor == c0 && s.sym_depth == sy0 && s.state_depth == st0,
    }
}

/// Every step of the trace follows from its predecessor (the run starts
/// with cursor 0 and one seeded entry on each stack).
pub open spec fn trace_wf(g: Grammar, tr: Seq<TraceStep>) -> bool {
    forall|k: int|
        0 <= k < tr.len() ==> step_ok(
            g,
            if k == 0 { 0int } else { tr[k - 1].cursor as int },
            if k == 0 { 1int } else { tr[k - 1].sym_depth as int },
            if k == 0 { 1int } else { tr[k - 1].state_depth as int },
            #[trigger] tr[k],
        )
}

/// The read cursor never regresses along a well-formed trace.
pub proof fn lemma_cursor_monotone(g: Grammar, tr: Seq<TraceStep>, i: int, j: int)
    requires
        trace_wf(g, tr),
        0 <= i <= j < tr.len(),
    ensures
        tr[i].cursor <= tr[j].cursor,
    decreases j - i,
{
    if i < j {
        lemma_cursor_monotone(g, tr, i, j - 1);
    }
}

/// Both stacks stay exactly as deep as one another throughout a run.
pub proof fn lemma_stack_depths_equal(g: Grammar, tr: Seq<TraceStep>, k: int)
    requires
        trace_wf(g, tr),
        0 <= k < tr.len(),
    ensures
        tr[k].sym_depth == tr[k].state_depth,
    decreases k,
{
    if k > 0 {
        lemma_stack_depths_equal(g, tr, k - 1);
    }
}

/// A reduction step shrinks both stacks by exactly the length of the
/// reduced production's body before the compensating push.
pub proof fn lemma_reduce_balances_stacks(g: Grammar, tr: Seq<TraceStep>, k: int, p: usize)
    requires
        trace_wf(g, tr),
        0 < k < tr.len(),
        tr[k].action == TableItem::ActionReduction(p),
    ensures
        (p as int) < g.nprod(),
        tr[k].cursor == tr[k - 1].cursor,
        tr[k].sym_depth == tr[k - 1].sym_depth - g.tail_of(p as int).len() + 1,
        tr[k].state_depth == tr[k - 1].state_depth - g.tail_of(p as int).len() + 1,
{
}

/// Every compiled cell points inside the family (shift and goto), or at a
/// real, non-augmenting production (reduction).
pub proof fn lemma_cell_bounded(fam: ItemSetFamily, i: int, s: int)
    requires
        fam.gm.wf(),
        fam.states_wf(),
        fam.table_compiled(),
        0 <= i < fam.family@.len(),
        0 <= s < fam.gm.nsym(),
    ensures
        match fam.family@[i].analysis_table@[s] {
            TableItem::Goto(d) => (d as int) < fam.family@.len(),
            TableItem::ActionShift(d) => (d as int) < fam.family@.len(),
            TableItem::ActionReduction(p) => (p as int) < fam.gm.nprod() && p != 0,
            _ => true,
        },
{
    let st = fam.family@[i];
    let e = st.analysis_table@[s];
    if s >= 1 {
        assert(decision_ok(fam.gm, st, s, e));
        if st.transforms@.len() == 0 {
            assert(item_wf(fam.gm, st.item_vec@[0]));
        } else {
            match e {
                TableItem::Goto(d) => {
                    assert(st.spec_has_trans(s));
                    let k = choose|k: int|
                        0 <= k < st.transforms@.len() && (#[trigger] st.transforms@[k]).0 == s;
                    assert((st.transforms@[k].1 as int) < fam.family@.len());
                },
                TableItem::ActionShift(d) => {
                    assert(st.spec_has_trans(s));
                    let k = choose|k: int|
                        0 <= k < st.transforms@.len() && (#[trigger] st.transforms@[k]).0 == s;
                    assert((st.transforms@[k].1 as int) < fam.family@.len());
                },
                _ => {},
            }
        }
    }
}


/// One configuration of the recognizer: the symbol stack, the state
/// stack, and the read cursor.
pub struct SpecConfig {
    pub sym: Seq<usize>,
    pub states: Seq<usize>,
    pub cursor: int,
}

/// A configuration's successor, or the verdict the machine halts with.
pub enum SpecStep {
    Next(SpecConfig),
    Halt(RunVerdict),
}

/// The character the recognizer examines at a cursor position: the input
/// character, or the appended end-of-input marker past the input's end.
pub open spec fn spec_char_at(input: Seq<char>, cursor: int) -> char {
    if 0 <= cursor < input.len() {
        input[cursor]
    } else {
        '#'
    }
}

/// The starting configuration: the end marker's index seeding the symbol
/// stack, state 0 seeding the state stack, the cursor at the input's
/// start.
pub open spec fn spec_init_config(g: Grammar) -> SpecConfig {
    SpecConfig {
        sym: seq![crate::grammar::spec_lookup_index(g, '#') as usize],
        states: seq![0usize],
        cursor: 0,
    }
}

/// One transition of the recognizer, driven by the cell at (top of the
/// state stack, symbol at the read cursor): accept and error halt; a
/// shift pushes the symbol and destination and advances the cursor; a
/// reduction pops the production's body off both stacks and pushes its
/// head and the goto destination, halting rejecting when the stacks or
/// the goto row cannot honour it; a goto met as the primary action, a
/// character outside the symbol table, and a shift of the end marker
/// itself halt rejecting.
pub open spec fn spec_step(fam: ItemSetFamily, input: Seq<char>, c: SpecConfig) -> SpecStep {
    let g = fam.gm;
    let state_top = c.states.last() as int;
    let ch = spec_char_at(input, c.cursor);
    let cell = match crate::grammar::spec_sym_index(g, ch) {
        Some(si) => fam.family@[state_top].analysis_table@[si],
        None => TableItem::Error,
    };
    match cell {
        TableItem::Accept => SpecStep::Halt(RunVerdict::Accept),
        TableItem::ActionShift(n) => if c.cursor >= input.len() {
            SpecStep::Halt(RunVerdict::Reject)
        } else {
            SpecStep::Next(
                SpecConfig {
                    sym: c.sym.push(crate::grammar::spec_lookup_index(g, ch) as usize),
                    states: c.states.push(n),
                    cursor: c.cursor + 1,
                },
            )
        },
        TableItem::ActionReduction(p) => {
            let blen = g.tail_of(p as int).len() as int;
            if c.states.len() <= blen {
                SpecStep::Halt(RunVerdict::Reject)
            } else {
                let new_len = c.states.len() - blen;
                let back_state = c.states[new_len - 1] as int;
                let head = g.productions@[p as int].head;
                match fam.family@[back_state].analysis_table@[head as int] {
                    TableItem::Goto(x) => SpecStep::Next(
                        SpecConfig {
                            sym: c.sym.take(new_len).push(head),
                            states: c.states.take(new_len).push(x),
                            cursor: c.cursor,
                        },
                    ),
                    _ => SpecStep::Halt(RunVerdict::Reject),
                }
            }
        },
        TableItem::Goto(_) => SpecStep::Halt(RunVerdict::Reject),
        TableItem::Error => SpecStep::Halt(RunVerdict::Reject),
    }
}

/// The machine's situation after `n` transitions from the start:
/// `Next` while it is still running, `Halt` once it has stopped
/// (halting is absorbing).
pub open spec fn spec_config_at(fam: ItemSetFamily, input: Seq<char>, n: nat) -> SpecStep
    decreases n,
{
    if n == 0 {
        SpecStep::Next(spec_init_config(fam.gm))
    } else {
        match spec_config_at(fam, input, (n - 1) as nat) {
            SpecStep::Next(c) => spec_step(fam, input, c),
            SpecStep::Halt(v) => SpecStep::Halt(v),
        }
    }
}

/// The table-driven machine halts on this input with this verdict.
pub open spec fn spec_halts_with(fam: ItemSetFamily, input: Seq<char>, v: RunVerdict) -> bool {
    exists|n: nat| spec_config_at(fam, input, n) == SpecStep::Halt(v)
}

/// Once halted, the machine stays halted with the same verdict.
pub proof fn lemma_halt_absorbing(
    fam: ItemSetFamily,
    input: Seq<char>,
    n: nat,
    m: nat,
    v: RunVerdict,
)
    requires
        spec_config_at(fam, input, n) == SpecStep::Halt(v),
        n <= m,
    ensures
        spec_config_at(fam, input, m) == SpecStep::Halt(v),
    decreases m,
{
    if n < m {
        lemma_halt_absorbing(fam, input, n, (m - 1) as nat, v);
    }
}

/// The machine halts with at most one outcome, so what the recognizer
/// returns is a function of the table and the input alone.
pub proof fn lemma_verdict_unique(
    fam: ItemSetFamily,
    input: Seq<char>,
    v1: RunVerdict,
    v2: RunVerdict,
)
    requires
        spec_halts_with(fam, input, v1),
        spec_halts_with(fam, input, v2),
    ensures
        v1 == v2,
{
    let n1 = choose|n: nat| spec_config_at(fam, input, n) == SpecStep::Halt(v1);
    let n2 = choose|n: nat| spec_config_at(fam, input, n) == SpecStep::Halt(v2);
    if n1 <= n2 {
        lemma_halt_absorbing(fam, input, n1, n2, v1);
    } else {
        lemma_halt_absorbing(fam, input, n2, n1, v2);
    }
}

/// The step that may come next after a given trace: its effect follows
/// from the trace's last recorded cursor and depths (or from the run's
/// seeded start).
pub open spec fn follows_trace(g: Grammar, tr: Seq<TraceStep>, s: TraceStep) -> bool {
    step_ok(
        g,
        if tr.len() == 0 { 0int } else { tr.last().cursor as int },
        if tr.len() == 0 { 1int } else { tr.last().sym_depth as int },
        if tr.len() == 0 { 1int } else { tr.last().state_depth as int },
        s,
    )
}

/// Appends one step to a well-formed trace, keeping it well-formed.
/// Appends one step to a well-formed trace, keeping it well-formed and
/// keeping every recorded cursor within the given bound.
fn record_step(
    Ghost(g): Ghost<Grammar>,
    Ghost(bound): Ghost<int>,
    trace: &mut Vec<TraceStep>,
    step: TraceStep,
)
    requires
        trace_wf(g, old(trace)@),
        follows_trace(g, old(trace)@, step),
        forall|k: int| 0 <= k < old(trace)@.len() ==> (#[trigger] old(trace)@[k]).cursor <= bound,
        step.cursor <= bound,
    ensures
        trace_wf(g, final(trace)@),
        final(trace)@ == old(trace)@.push(step),
        final(trace)@.len() == old(trace)@.len() + 1,
        old(trace)@.len() < usize::MAX,
        final(trace)@.last() == step,
        forall|k: int| 0 <= k < final(trace)@.len() ==> (#[trigger] final(trace)@[k]).cursor
            <= bound,
{
    let ghost tr0 = trace@;
    trace.push(step);
    let _n_after = trace.len();
    proof {
        assert(_n_after as int == trace@.len());
        assert forall|k: int|
            0 <= k < trace@.len() implies step_ok(
            g,
            if k == 0 { 0int } else { trace@[k - 1].cursor as int },
            if k == 0 { 1int } else { trace@[k - 1].sym_depth as int },
            if k == 0 { 1int } else { trace@[k - 1].state_depth as int },
            #[trigger] trace@[k],
        ) by {
            if k < tr0.len() {
                assert(trace@[k] == tr0[k]);
                if k > 0 {
                    assert(trace@[k - 1] == tr0[k - 1]);
                }
            } else {
                assert(trace@[k] == step);
                if k > 0 {
                    assert(trace@[k - 1] == tr0.last());
                }
            }
        }
        assert forall|k: int| 0 <= k < trace@.len() implies (#[trigger] trace@[k]).cursor
            <= bound by {
            if k < tr0.len() {
                assert(trace@[k] == tr0[k]);
            } else {
                assert(trace@[k] == step);
            }
        }
    }
}

/// Records one final step and closes the run, accepting exactly when
/// that step is the accept action.
fn finish_run(
    Ghost(g): Ghost<Grammar>,
    Ghost(bound): Ghost<int>,
    trace: Vec<TraceStep>,
    step: TraceStep,
) -> (r: RunResult)
    requires
        trace_wf(g, trace@),
        follows_trace(g, trace@, step),
        forall|k: int| 0 <= k < trace@.len() ==> (#[trigger] trace@[k]).cursor <= bound,
        step.cursor <= bound,
    ensures
        trace_wf(g, r.trace@),
        r.trace@.len() >= 1,
        r.trace@.last() == step,
        (r.verdict == RunVerdict::Accept) <==> (step.action == TableItem::Accept),
        forall|k: int| 0 <= k < r.trace@.len() ==> (#[trigger] r.trace@[k]).cursor <= bound,
{
    let mut trace = trace;
    record_step(Ghost(g), Ghost(bound), &mut trace, step);
    let verdict = if matches!(step.action, TableItem::Accept) {
        RunVerdict::Accept
    } else {
        RunVerdict::Reject
    };
    RunResult { verdict, trace }
}

impl ItemSetFamily {
    /// Runs the shift-reduce recognizer over the compiled table.  Two
    /// parallel stacks (symbols, seeded with the end marker; states,
    /// seeded with state 0) are driven by the cell at (top state, symbol
    /// at the read cursor), over the input with the end marker appended:
    /// shift pushes the symbol and destination and advances the cursor;
    /// reduce pops one production's body off both stacks and pushes its
    /// head and the goto destination; accept and error terminate.  A
    /// character outside the symbol table, a goto consulted as the
    /// primary action, or a reduction the stacks or goto row cannot
    /// honour all reject.  The returned outcome is exactly the one the
    /// table-driven machine `spec_step` halts with on this input, so the
    /// Accept/Reject answer is a function of the table and the input
    /// alone; the returned trace records every step, the cursor advances
    /// only on shifts and never passes the appended end marker, and every
    /// reduction shrinks both stacks by exactly the reduced body's length
    /// before the compensating push.
    #[verifier::loop_isolation(false)]
    #[verifier::rlimit(100)]
    #[verifier::spinoff_prover]
    pub fn run(&self, input: &Vec<char>) -> (r: RunResult)
        requires
            self.gm.wf(),
            self.gm.augmented(),
            self.states_wf(),
            self.family@.len() >= 1,
            self.table_compiled(),
        ensures
            spec_halts_with(*self, input@, r.verdict),
            trace_wf(self.gm, r.trace@),
            r.trace@.len() >= 1,
            (r.verdict == RunVerdict::Accept) <==> (r.trace@.last().action == TableItem::Accept),
            forall|k: int| 0 <= k < r.trace@.len() ==> (#[trigger] r.trace@[k]).cursor
                <= input@.len(),
    {
        let ghost g = self.gm;
        let mut symbol_stack: Vec<usize> = Vec::new();
        symbol_stack.push(self.gm.get_char_index('#'));
        let mut state_stack: Vec<usize> = Vec::new();
        state_stack.push(0);
        let mut trace: Vec<TraceStep> = Vec::new();
        let mut cursor: usize = 0;
        let input_len = input.len();
        proof {
            assert(symbol_stack@ =~= spec_init_config(g).sym);
            assert(state_stack@ =~= spec_init_config(g).states);
            assert(spec_config_at(*self, input@, 0) == SpecStep::Next(
                SpecConfig { sym: symbol_stack@, states: state_stack@, cursor: cursor as int },
            ));
        }
        #[verifier::loop_isolation(true)]
        loop
            invariant
                self.gm == g,
                self.gm.wf(),
                self.gm.augmented(),
                self.states_wf(),
                self.family@.len() >= 1,
                self.table_compiled(),
                input_len == input@.len(),
                cursor <= input_len,
                symbol_stack@.len() == state_stack@.len(),
                state_stack@.len() >= 1,
                forall|k: int|
                    0 <= k < state_stack@.len() ==> (#[trigger] state_stack@[k] as int)
                        < self.family@.len(),
                trace_wf(g, trace@),
                forall|k: int| 0 <= k < trace@.len() ==> (#[trigger] trace@[k]).cursor
                    <= input_len,
                trace@.len() >= 1 ==> trace@.last().cursor == cursor && trace@.last().sym_depth
                    == symbol_stack@.len() && trace@.last().state_depth == state_stack@.len(),
                trace@.len() == 0 ==> cursor == 0 && symbol_stack@.len() == 1
                    && state_stack@.len() == 1,
                spec_config_at(*self, input@, trace@.len() as nat) == SpecStep::Next(
                    SpecConfig { sym: symbol_stack@, states: state_stack@, cursor: cursor as int },
                ),
            decreases usize::MAX - trace@.len(),
        {
            let ghost n0 = trace@.len() as nat;
            let ghost cfg = SpecConfig {
                sym: symbol_stack@,
                states: state_stack@,
                cursor: cursor as int,
            };
            let state_top = state_stack[state_stack.len() - 1];
            let c = if cursor < input_len {
                input[cursor]
            } else {
                '#'
            };
            proof {
                assert(cfg.states.last() == state_top);
                assert(spec_char_at(input@, cfg.cursor) == c);
            }
            let cond = match self.gm.find_symbol(c) {
                Some(si) => {
                    proof {
                        lemma_cell_bounded(*self, state_top as int, si as int);
                    }
                    self.family[state_top].analysis_table[si]
                },
                None => TableItem::Error,
            };
            match cond {
                TableItem::Accept => {
                    let step = TraceStep {
                        action: cond,
                        cursor,
                        sym_depth: symbol_stack.len(),
                        state_depth: state_stack.len(),
                    };
                    proof {
                        assert(spec_step(*self, input@, cfg) == SpecStep::Halt(
                            RunVerdict::Accept,
                        ));
                        assert(spec_config_at(*self, input@, n0 + 1) == SpecStep::Halt(
                            RunVerdict::Accept,
                        ));
                        assert(spec_halts_with(*self, input@, RunVerdict::Accept));
                    }
                    return finish_run(Ghost(g), Ghost(input@.len() as int), trace, step);
                },
                TableItem::ActionShift(n) => {
                    if cursor >= input_len {
                        // a shift of the appended end marker: a table
                        // inconsistency, reported as rejection
                        let step = TraceStep {
                            action: TableItem::Error,
                            cursor,
                            sym_depth: symbol_stack.len(),
                            state_depth: state_stack.len(),
                        };
                        proof {
                            assert(spec_step(*self, input@, cfg) == SpecStep::Halt(
                                RunVerdict::Reject,
                            ));
                            assert(spec_config_at(*self, input@, n0 + 1) == SpecStep::Halt(
                                RunVerdict::Reject,
                            ));
                            assert(spec_halts_with(*self, input@, RunVerdict::Reject));
                        }
                        return finish_run(Ghost(g), Ghost(input@.len() as int), trace, step);
                    }
                    let si = self.gm.get_char_index(c);
                    symbol_stack.push(si);
                    state_stack.push(n);
                    cursor = cursor + 1;
                    let step = TraceStep {
                        action: cond,
                        cursor,
                        sym_depth: symbol_stack.len(),
                        state_depth: state_stack.len(),
                    };
                    record_step(Ghost(g), Ghost(input@.len() as int), &mut trace, step);
                    proof {
                        let new_cfg = SpecConfig {
                            sym: symbol_stack@,
                            states: state_stack@,
                            cursor: cursor as int,
                        };
                        assert(si as int == crate::grammar::spec_lookup_index(g, c));
                        assert(symbol_stack@ == cfg.sym.push(si));
                        assert(state_stack@ == cfg.states.push(n));
                        assert(spec_step(*self, input@, cfg) == SpecStep::Next(new_cfg));
                        assert(spec_config_at(*self, input@, n0 + 1) == SpecStep::Next(new_cfg));
                        assert(trace@.len() as nat == n0 + 1);
                    }
                },
                TableItem::ActionReduction(p) => {
                    let blen = self.gm.productions[p].tail.len();
                    if state_stack.len() <= blen {
                        // the stacks cannot supply the production's body:
                        // a table inconsistency, reported as rejection
                        let step = TraceStep {
                            action: TableItem::Error,
                            cursor,
                            sym_depth: symbol_stack.len(),
                            state_depth: state_stack.len(),
                        };
                        proof {
                            assert(spec_step(*self, input@, cfg) == SpecStep::Halt(
                                RunVerdict::Reject,
                            ));
                            assert(spec_config_at(*self, input@, n0 + 1) == SpecStep::Halt(
                                RunVerdict::Reject,
                            ));
                            assert(spec_halts_with(*self, input@, RunVerdict::Reject));
                        }
                        return finish_run(Ghost(g), Ghost(input@.len() as int), trace, step);
                    }
                    let new_len = state_stack.len() - blen;
                    let back_state = state_stack[new_len - 1];
                    let head = self.gm.productions[p].head;
                    proof {
                        assert(self.gm.prod_wf(p as int));
                        lemma_cell_bounded(*self, back_state as int, head as int);
                    }
                    let goto_cell = self.family[back_state].analysis_table[head];
                    match goto_cell {
                        TableItem::Goto(x) => {
                            state_stack.truncate(new_len);
                            state_stack.push(x);
                            symbol_stack.truncate(new_len);
                            symbol_stack.push(head);
                            let step = TraceStep {
                                action: cond,
                                cursor,
                                sym_depth: symbol_stack.len(),
                                state_depth: state_stack.len(),
                            };
                            record_step(Ghost(g), Ghost(input@.len() as int), &mut trace, step);
                            proof {
                                let new_cfg = SpecConfig {
                                    sym: symbol_stack@,
                                    states: state_stack@,
                                    cursor: cursor as int,
                                };
                                assert(symbol_stack@ =~= cfg.sym.take(new_len as int).push(
                                    head,
                                ));
                                assert(state_stack@ =~= cfg.states.take(new_len as int).push(x));
                                assert(spec_step(*self, input@, cfg) == SpecStep::Next(new_cfg));
                                assert(spec_config_at(*self, input@, n0 + 1) == SpecStep::Next(
                                    new_cfg,
                                ));
                                assert(trace@.len() as nat == n0 + 1);
                            }
                        },
                        _ => {
                            // a reduction whose goto lookup fails: fatal
                            // inconsistency, reported as rejection before
                            // the stacks are touched
                            let step = TraceStep {
                                action: TableItem::Error,
                                cursor,
                                sym_depth: symbol_stack.len(),
                                state_depth: state_stack.len(),
                            };
                            proof {
                                assert(spec_step(*self, input@, cfg) == SpecStep::Halt(
                                    RunVerdict::Reject,
                                ));
                                assert(spec_config_at(*self, input@, n0 + 1) == SpecStep::Halt(
                                    RunVerdict::Reject,
                                ));
                                assert(spec_halts_with(*self, input@, RunVerdict::Reject));
                            }
                            return finish_run(Ghost(g), Ghost(input@.len() as int), trace, step);
                        },
                    }
                },
                TableItem::Goto(_) => {
                    // a goto is only consulted after a reduction; as the
                    // primary action it means the input symbol was a
                    // non-terminal, which well-formed input cannot supply
                    let step = TraceStep {
                        action: cond,
                        cursor,
                        sym_depth: symbol_stack.len(),
                        state_depth: state_stack.len(),
                    };
                    proof {
                        assert(spec_step(*self, input@, cfg) == SpecStep::Halt(
                            RunVerdict::Reject,
                        ));
                        assert(spec_config_at(*self, input@, n0 + 1) == SpecStep::Halt(
                            RunVerdict::Reject,
                        ));
                        assert(spec_halts_with(*self, input@, RunVerdict::Reject));
                    }
                    return finish_run(Ghost(g), Ghost(input@.len() as int), trace, step);
                },
                TableItem::Error => {
                    let step = TraceStep {
                        action: cond,
                        cursor,
                        sym_depth: symbol_stack.len(),
                        state_depth: state_stack.len(),
                    };
                    proof {
                        assert(spec_step(*self, input@, cfg) == SpecStep::Halt(
                            RunVerdict::Reject,
                        ));
                        assert(spec_config_at(*self, input@, n0 + 1) == SpecStep::Halt(
                            RunVerdict::Reject,
                        ));
                        assert(spec_halts_with(*self, input@, RunVerdict::Reject));
                    }
                    return finish_run(Ghost(g), Ghost(input@.len() as int), trace, step);
                },
            }
        }
    }
}

} // verus!
