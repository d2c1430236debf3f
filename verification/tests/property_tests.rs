use perm_machine::factorial;
use perm_machine::index_to_term;
use perm_machine::permutations;
use perm_machine::term_to_index;
use perm_machine::Machine;

#[test]
fn table_order_for_two_variables() {
    let table = index_to_term(2);
    let expected: Vec<Vec<usize>> = vec![vec![0], vec![1], vec![0, 1], vec![1, 0]];
    assert_eq!(table, expected);
}

#[test]
fn table_order_for_three_variables() {
    let table = index_to_term(3);
    let expected: Vec<Vec<usize>> = vec![
        vec![0],
        vec![1],
        vec![2],
        vec![0, 1],
        vec![0, 2],
        vec![1, 0],
        vec![1, 2],
        vec![2, 0],
        vec![2, 1],
        vec![0, 1, 2],
        vec![0, 2, 1],
        vec![1, 0, 2],
        vec![1, 2, 0],
        vec![2, 0, 1],
        vec![2, 1, 0],
    ];
    assert_eq!(table, expected);
}

#[test]
fn index_round_trip() {
    let table = index_to_term(3);
    for (position, term) in table.iter().enumerate() {
        assert_eq!(term_to_index(&table, term), position);
    }
}

#[test]
fn empty_universe() {
    let table = index_to_term(0);
    assert!(table.is_empty());
    let machines = Machine::all(0);
    assert_eq!(machines.len(), 1);
    let built = Machine::new(0, |_term: &Vec<usize>| panic!("no terms to ask about"));
    assert_eq!(built, machines[0]);
}

#[test]
fn construction_alignment() {
    let producer = |term: &Vec<usize>| term.len() % 2 == 1 && term[0] != 1;
    let machine = Machine::new(3, producer);
    for v in 0..3 {
        let singleton: Vec<usize> = vec![v];
        assert_eq!(machine.get(v), producer(&singleton));
    }
}

#[test]
fn set_is_idempotent() {
    for start in Machine::all(2) {
        for variable in 0..2 {
            for value in [false, true] {
                let mut once = start.clone();
                once.set(variable, value);
                let mut twice = start.clone();
                twice.set(variable, value);
                twice.set(variable, value);
                assert_eq!(once, twice);
                assert_eq!(once.get(variable), value);
            }
        }
    }
}

#[test]
fn flip_twice_restores_everything() {
    for start in Machine::all(2) {
        for variable in 0..2 {
            let mut machine = start.clone();
            machine.flip(variable);
            machine.flip(variable);
            assert_eq!(machine, start);
        }
    }
}

#[test]
fn enumeration_counts() {
    assert_eq!(Machine::all(0).len(), 1);
    assert_eq!(Machine::all(1).len(), 2);
    let machines = Machine::all(2);
    assert_eq!(machines.len(), 16);
    for a in 0..machines.len() {
        for b in (a + 1)..machines.len() {
            assert_ne!(machines[a], machines[b]);
        }
    }
}

#[test]
fn single_variable_machines() {
    let machines = Machine::all(1);
    assert_eq!(machines[0].get(0), false);
    assert_eq!(machines[1].get(0), true);
}

#[test]
fn mirrored_set_sequence() {
    let mut system = Machine::new(2, |term: &Vec<usize>| match term.as_slice() {
        [0] => false,
        [1] => false,
        [0, 1] => false,
        [1, 0] => true,
        _ => panic!(),
    });
    system.set(1, true);
    assert_eq!(system.get(0), true);
    assert_eq!(system.get(1), true);
    system.set(1, false);
    assert_eq!(system.get(0), false);
    assert_eq!(system.get(1), false);
    system.set(0, true);
    assert_eq!(system.get(0), true);
    assert_eq!(system.get(1), false);
}

#[test]
fn flip_cascades_through_longer_terms() {
    let mut system = Machine::new(3, |term: &Vec<usize>| match term.as_slice() {
        [0] => false,
        [0, 1] => true,
        [0, 2] => true,
        [0, 1, 2] => true,
        _ => false,
    });
    system.flip(0);
    assert_eq!(system.get(0), true);
    assert_eq!(system.get(1), true);
    assert_eq!(system.get(2), true);
}

#[test]
fn counting_matches_the_table() {
    assert_eq!(factorial(0), 1);
    assert_eq!(factorial(4), 24);
    assert_eq!(permutations(3, 2), 6);
    assert_eq!(permutations(3, 3), 6);
    for n in 0..6 {
        let table = index_to_term(n);
        let total: usize = (1..=n).map(|k| permutations(n, k)).sum();
        assert_eq!(table.len(), total);
    }
}
