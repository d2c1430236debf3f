use perm_machine::Machine;
use std::collections::BTreeSet;
use std::collections::HashMap;

#[test]
fn print_terms() {
    Machine::new(5, |term: &Vec<usize>| {
        println!("{term:?}");
        true
    });
}

#[test]
fn all() {
    let variables: usize = 3;
    let machines = Machine::all(variables);
    let to_index = machines
        .iter()
        .cloned()
        .enumerate()
        .map(|(i, m)| (m, i))
        .collect::<HashMap<_, _>>();
    let mut index_map = (0..machines.len()).collect::<Vec<_>>();
    for machine in &machines {
        for variable in 0..variables {
            let mut clone = machine.clone();
            clone.flip(variable);

            let machine_index = to_index[machine];
            let clone_index = to_index[&clone];

            let first_index = index_map[machine_index];
            let second_index = index_map[clone_index];

            if machine_index == 16272 {
                println!("{machine:?}, {variable} => {clone:?} ({first_index}, {second_index})");
            }

            if first_index < second_index {
                index_map[second_index] = first_index;
            } else if second_index < first_index {
                index_map[first_index] = second_index;
            }
        }
    }
    let mut reverse_index_map = (0..machines.len())
        .map(|_| Vec::new())
        .collect::<Vec<Vec<usize>>>();
    for (machine_index, prime_index) in index_map.iter().copied().enumerate() {
        reverse_index_map[prime_index].push(machine_index);
    }
    let prime_machine_indices = index_map.iter().copied().collect::<BTreeSet<_>>();
    println!("{:?}", prime_machine_indices);
    println!("{:?}", prime_machine_indices.len());
    println!(
        "{:#?}",
        prime_machine_indices
            .iter()
            .rev()
            .min_by_key(|index| reverse_index_map[**index].len())
            .map(|index| (index, reverse_index_map[*index].len(), &machines[*index]))
    );
}

#[test]
fn three() {
    let mut system = Machine::new(3, |term: &Vec<usize>| match term.as_slice() {
        [0] => false,
        [1] => true,
        [2] => true,
        [0, 1] => true,
        [0, 2] => true,
        [1, 0] => true,
        [1, 2] => true,
        [2, 0] => true,
        [2, 1] => false,
        [0, 1, 2] => false,
        [0, 2, 1] => true,
        [1, 0, 2] => false,
        [1, 2, 0] => false,
        [2, 0, 1] => false,
        [2, 1, 0] => false,
        _ => panic!(),
    });
    println!("{:?}", system);
    system.flip(0);
    println!("{:?}", system);
}

#[test]
fn experimental() {
    let mut system = Machine::new(2, |term: &Vec<usize>| match term.as_slice() {
        [0] => false,
        [1] => false,
        [0, 1] => true,
        [1, 0] => false,
        _ => panic!(),
    });
    assert_eq!(system.get(0), false);
    assert_eq!(system.get(1), false);
    system.set(0, true);
    assert_eq!(system.get(0), true);
    assert_eq!(system.get(1), true);
    system.set(0, false);
    assert_eq!(system.get(0), false);
    assert_eq!(system.get(1), false);
    system.set(1, true);
    assert_eq!(system.get(0), false);
    assert_eq!(system.get(1), true);
    system.set(1, false);
    assert_eq!(system.get(0), false);
    assert_eq!(system.get(1), false);
    system.set(1, true);
    assert_eq!(system.get(0), false);
    assert_eq!(system.get(1), true);
    system.set(0, true);
    assert_eq!(system.get(0), true);
    assert_eq!(system.get(1), false);
    system.set(1, false);
    assert_eq!(system.get(0), true);
    assert_eq!(system.get(1), false);
    system.set(0, false);
    assert_eq!(system.get(0), false);
    assert_eq!(system.get(1), true);
}

#[test]
fn equals() {
    let mut system = Machine::new(2, |term: &Vec<usize>| match term.as_slice() {
        [0] => false,
        [1] => false,
        [0, 1] => true,
        [1, 0] => true,
        _ => panic!(),
    });
    assert_eq!(system.get(0), false);
    assert_eq!(system.get(1), false);
    system.set(0, true);
    assert_eq!(system.get(0), true);
    assert_eq!(system.get(1), true);
    system.set(0, false);
    assert_eq!(system.get(0), false);
    assert_eq!(system.get(1), false);
    system.set(1, true);
    assert_eq!(system.get(0), true);
    assert_eq!(system.get(1), true);
    system.set(1, false);
    assert_eq!(system.get(0), false);
    assert_eq!(system.get(1), false);
}

#[test]
fn not_equals() {
    let mut system = Machine::new(2, |term: &Vec<usize>| match term.as_slice() {
        [0] => false,
        [1] => true,
        [0, 1] => true,
        [1, 0] => true,
        _ => panic!(),
    });
    assert_eq!(system.get(0), false);
    assert_eq!(system.get(1), true);
    system.set(0, true);
    assert_eq!(system.get(0), true);
    assert_eq!(system.get(1), false);
    system.set(0, false);
    assert_eq!(system.get(0), false);
    assert_eq!(system.get(1), true);
    system.set(1, true);
    assert_eq!(system.get(0), false);
    assert_eq!(system.get(1), true);
    system.set(1, false);
    assert_eq!(system.get(0), true);
    assert_eq!(system.get(1), false);
}
