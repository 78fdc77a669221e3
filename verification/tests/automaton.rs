use lr0::family::{ItemSetFamily, RunVerdict};
use lr0::grammar::{build_grammar, Rule, Symbol};
use lr0::item::{Item, ItemSet, TableItem};

fn rule(head: char, body: &str) -> Rule {
    Rule { head, body: body.chars().collect() }
}

fn build(rules: &[(char, &str)]) -> ItemSetFamily {
    let rules: Vec<Rule> = rules.iter().map(|(h, b)| rule(*h, b)).collect();
    let gm = build_grammar(&rules);
    let mut fam = ItemSetFamily::new(gm);
    fam.build_dfa();
    fam
}

#[test]
fn symbol_classification() {
    assert_eq!(Symbol::from('A'), Symbol::NonTerminate('A'));
    assert_eq!(Symbol::from('Z'), Symbol::NonTerminate('Z'));
    assert_eq!(Symbol::from('$'), Symbol::VoidSymbol);
    assert_eq!(Symbol::from('#'), Symbol::EndSymbol);
    assert_eq!(Symbol::from('a'), Symbol::Terminate('a'));
    assert_eq!(Symbol::from('@'), Symbol::Terminate('@'));
    assert_eq!(Symbol::from('+'), Symbol::Terminate('+'));
    assert_eq!(Symbol::from('A').to_char(), 'A');
    assert_eq!(Symbol::from('$').to_char(), '$');
    assert_eq!(Symbol::from('#').to_char(), '#');
}

#[test]
fn grammar_registration_order() {
    let rules = vec![rule('S', "AB"), rule('A', "a"), rule('B', "b")];
    let gm = build_grammar(&rules);
    // insertion order: @ first, then heads and bodies in rule order, # last
    let expected = ['@', 'S', 'A', 'B', 'a', 'b', '#'];
    assert_eq!(gm.symbol_table.len(), expected.len());
    for (i, c) in expected.iter().enumerate() {
        assert_eq!(gm.get_char_from_index(i), *c);
        assert_eq!(gm.get_char_index(*c), i);
        assert!(gm.symbol_is_exist(*c));
    }
    assert!(!gm.symbol_is_exist('x'));
    assert_eq!(gm.get_char_index('x'), 0); // sentinel for a failed lookup
    // production 0 is the augmenting production @ -> S
    assert_eq!(gm.productions.len(), 4);
    assert_eq!(gm.productions[0].head, 0);
    assert_eq!(gm.productions[0].tail, vec![1]);
    assert_eq!(gm.productions[1].head, 1);
    assert_eq!(gm.productions[1].tail, vec![2, 3]);
    assert_eq!(gm.productions[2].head, 2);
    assert_eq!(gm.productions[2].tail, vec![4]);
}

#[test]
fn item_basics() {
    let rules = vec![rule('S', "AB"), rule('A', "a"), rule('B', "b")];
    let gm = build_grammar(&rules);
    let i0 = Item::new(1);
    assert!(i0.is_eq(&Item::new(1)));
    assert!(!i0.is_eq(&Item::new(2)));
    let i1 = Item::from(&i0);
    assert!(!i1.is_eq(&i0));
    assert!(!i0.is_end(&gm));
    assert_eq!(i0.get_current_symbol(&gm), 2); // A
    let i2 = Item::from(&i1);
    assert!(i2.is_end(&gm)); // dot past the two body symbols
}

#[test]
fn epsilon_item_is_always_at_end() {
    // a production with body `$` is complete at dot position 0 already
    let rules = vec![rule('S', "$")];
    let gm = build_grammar(&rules);
    let it = Item::new(1);
    assert!(it.is_end(&gm));
    assert!(Item::from(&it).is_end(&gm));
}

#[test]
fn closure_expands_and_is_idempotent() {
    let rules = vec![rule('S', "AB"), rule('A', "a"), rule('B', "b")];
    let gm = build_grammar(&rules);
    let mut s = ItemSet::new();
    s.add_item(Item::new(0));
    s.make_closure(&gm);
    // {@ -> .S, S -> .AB, A -> .a}
    assert_eq!(s.item_vec.len(), 3);
    assert!(s.is_item_in(&Item::new(0)));
    assert!(s.is_item_in(&Item::new(1)));
    assert!(s.is_item_in(&Item::new(2)));
    assert!(!s.is_item_in(&Item::new(3)));
    // closing an already-closed set yields the identical set of items
    let mut s2 = ItemSet::new();
    for it in &s.item_vec {
        s2.add_item(*it);
    }
    s2.make_closure(&gm);
    for it in &s2.item_vec {
        assert!(s.is_item_in(it));
    }
    for it in &s.item_vec {
        assert!(s2.is_item_in(it));
    }
}

#[test]
fn epsilon_closure_does_not_expand_past_void() {
    // closure treats S -> .$ as immediately reducible: nothing more is added
    let rules = vec![rule('S', "$")];
    let gm = build_grammar(&rules);
    let mut s = ItemSet::new();
    s.add_item(Item::new(0));
    s.make_closure(&gm);
    assert_eq!(s.item_vec.len(), 2);
    assert!(s.is_item_in(&Item::new(0)));
    assert!(s.is_item_in(&Item::new(1)));
}

#[test]
fn determinism_same_build() {
    let rules = [('E', "aE"), ('E', "b")];
    let f1 = build(&rules);
    let f2 = build(&rules);
    assert_eq!(f1.family.len(), f2.family.len());
    for (a, b) in f1.family.iter().zip(f2.family.iter()) {
        assert!(a.is_eq(b) && b.is_eq(a));
        assert_eq!(a.transforms, b.transforms);
    }
}

#[test]
fn dedup_collapses_equal_states() {
    // E -> aE | b: the state after `a` moves to itself on another `a`
    let mut fam = build(&[('E', "aE"), ('E', "b")]);
    assert_eq!(fam.family.len(), 5);
    // no two states are set-equal
    for i in 0..fam.family.len() {
        for j in 0..fam.family.len() {
            if i != j {
                assert!(!fam.family[i].is_eq(&fam.family[j]));
            }
        }
    }
    let gm = &fam.gm;
    let a_idx = gm.get_char_index('a');
    let b_idx = gm.get_char_index('b');
    // state 2 is reached from state 0 on `a`, and loops to itself on `a`
    assert!(fam.family[0].transforms.contains(&(a_idx, 2)));
    assert!(fam.family[2].transforms.contains(&(a_idx, 2)));
    assert!(fam.family[2].transforms.contains(&(b_idx, 3)));
    // a candidate equal to state 0 is found, a foreign set is not
    let mut probe = ItemSet::new();
    for it in &fam.family[0].item_vec {
        probe.add_item(*it);
    }
    assert_eq!(fam.is_exist(&probe), 0);
    let mut foreign = ItemSet::new();
    foreign.add_item(Item::from(&Item::from(&Item::new(0))));
    assert_eq!(fam.is_exist(&foreign), -1);
    assert!(fam.build_table().is_ok());
}

#[test]
fn table_cells_exact() {
    let mut fam = build(&[('S', "AB"), ('A', "a"), ('B', "b")]);
    assert_eq!(fam.family.len(), 6);
    assert_eq!(fam.build_table(), Ok(()));
    // symbols: 0:@ 1:S 2:A 3:B 4:a 5:b 6:#
    for st in &fam.family {
        assert_eq!(st.analysis_table.len(), 7); // one cell per symbol
    }
    let row0 = &fam.family[0].analysis_table;
    assert_eq!(row0[1], TableItem::Goto(1));
    assert_eq!(row0[2], TableItem::Goto(2));
    assert_eq!(row0[3], TableItem::Error);
    assert_eq!(row0[4], TableItem::ActionShift(3));
    assert_eq!(row0[5], TableItem::Error);
    assert_eq!(row0[6], TableItem::Error);
    let row1 = &fam.family[1].analysis_table;
    assert_eq!(row1[6], TableItem::Accept);
    assert_eq!(row1[4], TableItem::Error);
    let row3 = &fam.family[3].analysis_table;
    assert_eq!(row3[4], TableItem::ActionReduction(2));
    assert_eq!(row3[5], TableItem::ActionReduction(2));
    assert_eq!(row3[6], TableItem::ActionReduction(2));
    assert_eq!(row3[1], TableItem::Error);
}

#[test]
fn round_trip_acceptance() {
    let mut fam = build(&[('S', "AB"), ('A', "a"), ('B', "b")]);
    assert!(fam.build_table().is_ok());
    let accept: Vec<char> = "ab".chars().collect();
    assert_eq!(fam.run(&accept).verdict, RunVerdict::Accept);
    let short: Vec<char> = "a".chars().collect();
    assert_eq!(fam.run(&short).verdict, RunVerdict::Reject);
    let swapped: Vec<char> = "ba".chars().collect();
    assert_eq!(fam.run(&swapped).verdict, RunVerdict::Reject);
    let unknown: Vec<char> = "x".chars().collect();
    assert_eq!(fam.run(&unknown).verdict, RunVerdict::Reject);
    let empty: Vec<char> = Vec::new();
    assert_eq!(fam.run(&empty).verdict, RunVerdict::Reject);
}

#[test]
fn recursive_grammar_accepts_and_rejects() {
    let mut fam = build(&[('E', "aE"), ('E', "b")]);
    assert!(fam.build_table().is_ok());
    for good in ["b", "ab", "aab", "aaaab"] {
        let input: Vec<char> = good.chars().collect();
        assert_eq!(fam.run(&input).verdict, RunVerdict::Accept);
    }
    for bad in ["", "a", "ba", "abb", "aa"] {
        let input: Vec<char> = bad.chars().collect();
        assert_eq!(fam.run(&input).verdict, RunVerdict::Reject);
    }
}

#[test]
fn shift_reduce_conflict_detected() {
    // S -> aS | a: after one `a` the state holds S -> a. beside shift items
    let mut fam = build(&[('S', "aS"), ('S', "a")]);
    assert_eq!(fam.build_table(), Err(2));
}

#[test]
fn reduce_reduce_conflict_detected() {
    // A -> a and B -> a both complete in the state reached on `a`
    let mut fam = build(&[('S', "A"), ('S', "B"), ('A', "a"), ('B', "a")]);
    let r = fam.build_table();
    assert!(r.is_err());
}

#[test]
fn epsilon_state_is_conflict() {
    // the start state holds the complete item S -> .$ beside the
    // augmenting item, which this decision procedure declares a conflict
    let mut fam = build(&[('S', "$")]);
    assert_eq!(fam.build_table(), Err(0));
}

#[test]
fn trace_cursor_and_stacks() {
    let mut fam = build(&[('S', "AB"), ('A', "a"), ('B', "b")]);
    assert!(fam.build_table().is_ok());
    let input: Vec<char> = "ab".chars().collect();
    let r = fam.run(&input);
    assert_eq!(r.verdict, RunVerdict::Accept);
    assert!(r.trace.len() >= 2);
    let mut prev_cursor = 0usize;
    let mut prev_sym = 1usize;
    let mut prev_state = 1usize;
    for step in &r.trace {
        // the read cursor advances exactly on a shift and never regresses
        match step.action {
            TableItem::ActionShift(_) => {
                assert_eq!(step.cursor, prev_cursor + 1);
                assert_eq!(step.sym_depth, prev_sym + 1);
                assert_eq!(step.state_depth, prev_state + 1);
            }
            TableItem::ActionReduction(p) => {
                assert_eq!(step.cursor, prev_cursor);
                let blen = fam.gm.productions[p].tail.len();
                // both stacks shrink by the body length, then one push
                assert_eq!(step.sym_depth, prev_sym - blen + 1);
                assert_eq!(step.state_depth, prev_state - blen + 1);
            }
            _ => {
                assert_eq!(step.cursor, prev_cursor);
                assert_eq!(step.sym_depth, prev_sym);
                assert_eq!(step.state_depth, prev_state);
            }
        }
        assert!(step.cursor >= prev_cursor);
        assert_eq!(step.sym_depth, step.state_depth);
        prev_cursor = step.cursor;
        prev_sym = step.sym_depth;
        prev_state = step.state_depth;
    }
    assert_eq!(r.trace.last().unwrap().action, TableItem::Accept);
}

#[test]
fn move_map_partitions_by_symbol() {
    let rules = vec![rule('S', "AB"), rule('A', "a"), rule('B', "b")];
    let gm = build_grammar(&rules);
    let mut s = ItemSet::new();
    s.add_item(Item::new(0));
    s.make_closure(&gm);
    let mm = s.get_move_map(&gm);
    // one successor per symbol under a dot: S, A and a
    assert_eq!(mm.len(), 3);
    let keys: Vec<usize> = mm.iter().map(|e| e.0).collect();
    assert!(keys.contains(&gm.get_char_index('S')));
    assert!(keys.contains(&gm.get_char_index('A')));
    assert!(keys.contains(&gm.get_char_index('a')));
    for (_, succ) in &mm {
        assert!(succ.item_vec.len() >= 1);
    }
}
