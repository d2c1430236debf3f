//! The machine: one boolean per term of its universe, mutable through a
//! flip operation whose cascade is collected before it is applied.

use vstd::prelude::*;

verus! {

use vstd::pervasive::VecAdditionalExecFns;
use vstd::seq_lib::lemma_seq_contains_after_push;
use crate::rows::bool_rows;
use crate::rows::clone_bools;
use crate::rows::double_rows;
use crate::rows::lemma_bool_rows_enumeration;
use crate::rows::row_views;
use crate::rows::two_pow;
use crate::terms::clone_table;
use crate::terms::index_to_term;
use crate::terms::is_term;
use crate::terms::lemma_cons_is_term;
use crate::terms::lemma_tail_is_term;
use crate::terms::lemma_term_table_bijection;
use crate::terms::term_index;
use crate::terms::term_table;
use crate::terms::term_to_index;
use crate::terms::views;

/// Whether the scan of `flip(v)` picks slot `p`: its term has `v` in front,
/// is longer than the singleton, and holds `true` once the singleton slot
/// has toggled.
spec fn selected(n: usize, once: Seq<bool>, v: usize, p: int) -> bool {
    &&& term_table(n)[p].len() > 1
    &&& term_table(n)[p][0] == v
    &&& once[p]
}

/// The term holding exactly the one variable `v`.
pub open spec fn single_term(v: usize) -> Seq<usize> {
    seq![v]
}

/// Whether the slot of term `t` receives a secondary toggle when variable
/// `v` flips: `t` must not mention `v`, prepending `v` must still give a
/// term of the universe, and the slot of that longer term must hold `true`
/// after the singleton toggle.
pub open spec fn cascade_hits(n: usize, vals: Seq<bool>, v: usize, t: Seq<usize>) -> bool {
    &&& !t.contains(v)
    &&& t.len() + 1 <= n
    &&& vals[term_index(n, single_term(v) + t)]
}

/// The dense array after flipping variable `v`: first the singleton slot of
/// `v` toggles, then every slot whose term is the tail of a true-valued term
/// led by `v` toggles, all chosen against the once-toggled array.
pub open spec fn flip_vals(n: usize, vals: Seq<bool>, v: usize) -> Seq<bool> {
    let s = term_index(n, single_term(v));
    let once = vals.update(s, !vals[s]);
    Seq::new(vals.len(), |j: int| once[j] != cascade_hits(n, once, v, term_table(n)[j]))
}

/// The dense array after setting variable `v` to `value`: unchanged when
/// the singleton slot already holds `value`, else one flip of `v`.
pub open spec fn set_vals(n: usize, vals: Seq<bool>, v: usize, value: bool) -> Seq<bool> {
    if vals[term_index(n, single_term(v))] == value {
        vals
    } else {
        flip_vals(n, vals, v)
    }
}

/// A boolean value bound to every term of a fixed universe, stored densely
/// in term-table order.
#[derive(Clone, Debug, PartialEq, Eq, Hash)]
pub struct Machine {
    variables: usize,
    table: Vec<Vec<usize>>,
    values: Vec<bool>,
}

impl Machine {
    /// The universe size this machine was built for.
    pub closed spec fn vars(self) -> usize {
        self.variables
    }

    /// The dense boolean array, aligned with the term table for
    /// `self.vars()`.
    pub closed spec fn vals(self) -> Seq<bool> {
        self.values@
    }

    /// The machine's table lists exactly the terms of its universe, in term
    /// table order, and carries one boolean per term.
    pub closed spec fn wf(self) -> bool {
        &&& views(self.table@) == term_table(self.variables)
        &&& self.values@.len() == term_table(self.variables).len()
    }

    /// The boolean bound to the singleton term of variable `v`.
    pub open spec fn get_spec(self, v: usize) -> bool {
        self.vals()[term_index(self.vars(), single_term(v))]
    }

    /// The vector whose view the producer was handed for slot `i`.
    pub closed spec fn term_at(self, i: int) -> Vec<usize> {
        self.table@[i]
    }

    /// A machine for universe size `variables` whose boolean for each term
    /// is what `producer` answered for that term, asked once per term in
    /// term-table order.
    pub fn new<F: Fn(&Vec<usize>) -> bool>(variables: usize, producer: F) -> (machine: Machine)
        requires
            forall|t: &Vec<usize>| is_term(variables, t@) ==> call_requires(producer, (t,)),
        ensures
            machine.wf(),
            machine.vars() == variables,
            machine.vals().len() == term_table(variables).len(),
            forall|i: int|
                0 <= i < machine.vals().len() ==> (#[trigger] machine.term_at(i))@ == term_table(
                    variables,
                )[i] && call_ensures(producer, (&machine.term_at(i),), machine.vals()[i]),
            // construction alignment: for every variable, the boolean read
            // back by `get` is an answer of the producer on that variable's
            // singleton term
            forall|v: usize|
                v < variables ==> call_ensures(
                    producer,
                    (&machine.term_at(term_index(variables, single_term(v))),),
                    machine.get_spec(v),
                ),
    {
        proof {
            lemma_term_table_bijection(variables);
        }
        let table = index_to_term(variables);
        let mut values: Vec<bool> = Vec::new();
        let mut i: usize = 0;
        while i < table.len()
            invariant
                i <= table@.len(),
                views(table@) == term_table(variables),
                values@.len() == i,
                forall|t: &Vec<usize>| is_term(variables, t@) ==> call_requires(producer, (t,)),
                forall|j: int|
                    0 <= j < term_table(variables).len() ==> is_term(
                        variables,
                        #[trigger] term_table(variables)[j],
                    ),
                forall|j: int|
                    0 <= j < i ==> call_ensures(producer, (&table@[j],), #[trigger] values@[j]),
            decreases table@.len() - i,
        {
            proof {
                assert(table@[i as int]@ == views(table@)[i as int]);
                assert(is_term(variables, table@[i as int]@));
            }
            let value = producer(&table[i]);
            values.push(value);
            i += 1;
        }
        let machine = Machine { variables, table, values };
        proof {
            assert forall|v: usize| v < variables implies call_ensures(
                producer,
                (&machine.term_at(term_index(variables, single_term(v))),),
                machine.get_spec(v),
            ) by {
                assert(is_term(variables, single_term(v)));
                let s = term_index(variables, single_term(v));
                assert(0 <= s < term_table(variables).len());
            }
        }
        machine
    }

    /// Toggle the boolean of `variable`'s singleton term, then toggle every
    /// slot whose term is the tail of a true-valued longer term led by
    /// `variable`. The tails to toggle are collected in full before any of
    /// them toggles, against the array as it stands after the singleton
    /// toggle.
    pub fn flip(&mut self, variable: usize)
        requires
            old(self).wf(),
            variable < old(self).vars(),
        ensures
            final(self).wf(),
            final(self).vars() == old(self).vars(),
            final(self).vals() == flip_vals(old(self).vars(), old(self).vals(), variable),
            final(self).get_spec(variable) == !old(self).get_spec(variable),
    {
        proof {
            lemma_flip_get(self.variables, self.values@, variable);
        }
        let ghost n: usize = self.variables;
        let ghost old_vals: Seq<bool> = self.values@;
        let ghost table: Seq<Seq<usize>> = term_table(n);
        proof {
            lemma_term_table_bijection(n);
            assert(is_term(n, single_term(variable)));
        }
        let mut singleton: Vec<usize> = Vec::new();
        singleton.push(variable);
        proof {
            assert(singleton@ =~= single_term(variable));
        }
        let s = term_to_index(&self.table, &singleton);
        proof {
            assert(views(self.table@)[s as int] == single_term(variable));
            assert(term_index(n, single_term(variable)) == s as int);
        }
        let old_value = self.values[s];
        self.values.set(s, !old_value);
        let ghost once: Seq<bool> = self.values@;
        proof {
            assert(once == old_vals.update(s as int, !old_vals[s as int]));
        }

        // collect phase: find every tail slot to toggle before toggling any
        let mut targets: Vec<usize> = Vec::new();
        let ghost mut sels: Seq<int> = Seq::empty();
        let mut i: usize = 0;
        while i < self.table.len()
            invariant
                i <= table.len(),
                self.variables == n,
                table == term_table(n),
                views(self.table@) == table,
                self.values@ == once,
                once.len() == table.len(),
                targets@.len() == sels.len(),
                forall|a: int|
                    0 <= a < sels.len() ==> {
                        &&& 0 <= #[trigger] sels[a] < i
                        &&& selected(n, once, variable, sels[a])
                        &&& targets@[a] as int == term_index(n, table[sels[a]].drop_first())
                        &&& targets@[a] < table.len()
                    },
                forall|a: int, b: int| 0 <= a < b < sels.len() ==> sels[a] < sels[b],
                forall|p: int| 0 <= p < i && selected(n, once, variable, p) ==> sels.contains(p),
                forall|j: int| 0 <= j < table.len() ==> is_term(n, #[trigger] table[j]),
                forall|j: int| 0 <= j < table.len() ==> term_index(n, #[trigger] table[j]) == j,
                forall|t: Seq<usize>|
                    #[trigger] is_term(n, t) ==> 0 <= term_index(n, t) < table.len()
                        && table[term_index(n, t)] == t,
            decreases table.len() - i,
        {
            let t = &self.table[i];
            proof {
                assert(t@ == views(self.table@)[i as int]);
            }
            if t.len() > 1 && t[0] == variable && self.values[i] {
                let mut suffix: Vec<usize> = Vec::new();
                let mut j: usize = 1;
                while j < t.len()
                    invariant
                        1 <= j <= t@.len(),
                        suffix@ =~= t@.subrange(1, j as int),
                    decreases t@.len() - j,
                {
                    suffix.push(t[j]);
                    j += 1;
                    proof {
                        assert(suffix@ =~= t@.subrange(1, j as int));
                    }
                }
                proof {
                    assert(suffix@ =~= t@.drop_first());
                    lemma_tail_is_term(n, t@);
                    assert(table.contains(suffix@)) by {
                        assert(table[term_index(n, suffix@)] == suffix@);
                    }
                }
                let target = term_to_index(&self.table, &suffix);
                proof {
                    assert(views(self.table@)[target as int] == suffix@);
                    assert(term_index(n, suffix@) == target as int);
                }
                targets.push(target);
                proof {
                    let prev_sels = sels;
                    sels = prev_sels.push(i as int);
                    assert(selected(n, once, variable, i as int));
                    assert forall|p: int|
                        0 <= p < i + 1 && selected(n, once, variable, p) implies sels.contains(
                        p,
                    ) by {
                        lemma_seq_contains_after_push(prev_sels, i as int, p);
                    }
                }
            } else {
                proof {
                    assert forall|p: int|
                        0 <= p < i + 1 && selected(n, once, variable, p) implies sels.contains(
                        p,
                    ) by {
                        if p == i {
                            assert(!selected(n, once, variable, i as int));
                        }
                    }
                }
            }
            i += 1;
        }

        // what the collected targets mean, slot by slot
        proof {
            assert forall|ju: usize| ju < table.len() implies targets@.contains(ju)
                == cascade_hits(n, once, variable, table[ju as int]) by {
                let tail = table[ju as int];
                if targets@.contains(ju) {
                    let a = targets@.lemma_contains_to_index(ju);
                    let p = sels[a];
                    let tp = table[p];
                    assert(selected(n, once, variable, p));
                    lemma_tail_is_term(n, tp);
                    assert(ju as int == term_index(n, tp.drop_first()));
                    assert(table[ju as int] == tp.drop_first());
                    // the tail never mentions the flipped variable
                    assert forall|m: int| 0 <= m < tail.len() implies tail[m] != variable by {
                        assert(tail[m] == tp[m + 1]);
                        assert(tp[0] == variable);
                    }
                    assert(!tail.contains(variable));
                    assert(tail.len() + 1 <= n);
                    // prepending the variable rebuilds the selected term
                    assert(single_term(variable) + tail =~= tp);
                    assert(term_index(n, single_term(variable) + tail) == p);
                    assert(once[term_index(n, single_term(variable) + tail)]);
                    assert(cascade_hits(n, once, variable, tail));
                } else {
                    if cascade_hits(n, once, variable, tail) {
                        lemma_cons_is_term(n, variable, tail);
                        let u = seq![variable] + tail;
                        assert(u == single_term(variable) + tail);
                        let p = term_index(n, u);
                        assert(table[p] == u);
                        assert(selected(n, once, variable, p)) by {
                            assert(u.len() == tail.len() + 1 >= 2);
                            assert(u[0] == variable);
                            assert(once[p]);
                        }
                        assert(sels.contains(p));
                        let a = sels.lemma_contains_to_index(p);
                        assert(targets@[a] as int == term_index(n, table[p].drop_first()));
                        assert(table[p].drop_first() =~= tail);
                        assert(term_index(n, tail) == ju as int);
                        assert(targets@[a] == ju);
                        assert(targets@.contains(ju));
                        assert(false);
                    }
                }
            }
            // distinct selected terms have distinct tails, so no slot is
            // collected twice
            assert forall|a: int, b: int| 0 <= a < b < targets@.len() implies targets@[a]
                != targets@[b] by {
                let pa = sels[a];
                let pb = sels[b];
                assert(selected(n, once, variable, pa));
                assert(selected(n, once, variable, pb));
                let ta = table[pa];
                let tb = table[pb];
                assert(pa != pb);
                assert(ta != tb);
                lemma_tail_is_term(n, ta);
                lemma_tail_is_term(n, tb);
                if table[pa].drop_first() == table[pb].drop_first() {
                    assert(ta =~= seq![variable] + ta.drop_first());
                    assert(tb =~= seq![variable] + tb.drop_first());
                    assert(false);
                }
                assert(table[targets@[a] as int] == ta.drop_first());
                assert(table[targets@[b] as int] == tb.drop_first());
            }
            assert(targets@.no_duplicates());
        }

        // apply phase: toggle each collected slot once
        let ghost collected: Seq<usize> = targets@;
        proof {
            assert forall|c: int| 0 <= c < collected.len() implies (#[trigger] collected[c])
                < table.len() by {
                assert(0 <= sels[c] < table.len());
            }
        }
        let mut a: usize = 0;
        while a < targets.len()
            invariant
                a <= targets@.len(),
                targets@ == collected,
                self.variables == n,
                views(self.table@) == table,
                self.values@.len() == table.len(),
                collected.no_duplicates(),
                forall|c: int| 0 <= c < collected.len() ==> (#[trigger] collected[c]) < table.len(),
                forall|ju: usize|
                    ju < table.len() ==> self.values@[ju as int] == (once[ju as int]
                        != collected.take(a as int).contains(ju)),
            decreases targets@.len() - a,
        {
            let index = targets[a];
            let current = self.values[index];
            let ghost prev: Seq<bool> = self.values@;
            self.values.set(index, !current);
            a += 1;
            proof {
                assert(collected.take(a as int) =~= collected.take(a as int - 1).push(
                    collected[a as int - 1],
                ));
                assert forall|ju: usize| ju < table.len() implies self.values@[ju as int] == (
                once[ju as int] != collected.take(a as int).contains(ju)) by {
                    let shorter = collected.take(a as int - 1);
                    let longer = collected.take(a as int);
                    assert(longer =~= shorter.push(collected[a as int - 1]));
                    lemma_seq_contains_after_push(shorter, collected[a as int - 1], ju);
                    if ju == index {
                        if shorter.contains(ju) {
                            let c = shorter.lemma_contains_to_index(ju);
                            assert(collected[c] == collected[a as int - 1]);
                            assert(false);
                        }
                        assert(longer.contains(ju));
                    } else {
                        assert(self.values@[ju as int] == prev[ju as int]);
                        assert(longer.contains(ju) == shorter.contains(ju));
                    }
                }
            }
        }

        // the toggled array is exactly the flip image
        proof {
            assert(collected.take(collected.len() as int) =~= collected);
            let image = flip_vals(n, old_vals, variable);
            assert forall|j: int| 0 <= j < table.len() implies self.values@[j] == image[j] by {
                let ju = j as usize;
                assert(self.values@[ju as int] == (once[ju as int] != collected.contains(ju)));
                assert(collected.contains(ju) == cascade_hits(n, once, variable, table[j]));
            }
            assert(self.values@ =~= image);
        }
    }

    /// Every machine for universe size `variables`: one per boolean row of
    /// the term table's length, in row order, so that every possible dense
    /// array appears exactly once.
    pub fn all(variables: usize) -> (machines: Vec<Machine>)
        ensures
            machines@.len() == bool_rows(term_table(variables).len()).len(),
            forall|i: int|
                0 <= i < machines@.len() ==> {
                    &&& (#[trigger] machines@[i]).wf()
                    &&& machines@[i].vars() == variables
                    &&& machines@[i].vals() == bool_rows(term_table(variables).len())[i]
                },
    {
        let table = index_to_term(variables);
        let count = table.len();
        let ghost len: nat = term_table(variables).len();
        let mut rows_list: Vec<Vec<bool>> = Vec::new();
        rows_list.push(Vec::new());
        proof {
            assert(row_views(rows_list@) =~= bool_rows(0));
        }
        let mut b: usize = 0;
        while b < count
            invariant
                b <= count,
                len == term_table(variables).len(),
                views(table@) == term_table(variables),
                count == table@.len(),
                row_views(rows_list@) == bool_rows(b as nat),
            decreases count - b,
        {
            let ghost rows_now: Seq<Seq<bool>> = row_views(rows_list@);
            let mut next: Vec<Vec<bool>> = Vec::new();
            let mut r: usize = 0;
            while r < rows_list.len()
                invariant
                    r <= rows_list@.len(),
                    row_views(rows_list@) == rows_now,
                    row_views(next@) == double_rows(rows_now.take(r as int)),
                decreases rows_list@.len() - r,
            {
                let mut row_low = clone_bools(&rows_list[r]);
                row_low.push(false);
                let mut row_high = clone_bools(&rows_list[r]);
                row_high.push(true);
                let ghost before: Seq<Vec<bool>> = next@;
                next.push(row_low);
                next.push(row_high);
                r += 1;
                proof {
                    let rv = rows_now[r as int - 1];
                    assert(rows_now.take(r as int).drop_last() =~= rows_now.take(r as int - 1));
                    assert(rows_now.take(r as int).last() == rv);
                    let grown = double_rows(rows_now.take(r as int));
                    assert(grown == double_rows(rows_now.take(r as int - 1)) + seq![
                        rv.push(false),
                        rv.push(true),
                    ]);
                    assert(row_views(before) == double_rows(rows_now.take(r as int - 1)));
                    assert(row_views(before).len() == before.len());
                    assert(next@ == before.push(row_low).push(row_high));
                    assert(next@.len() == before.len() + 2);
                    assert(row_views(next@).len() == next@.len());
                    assert forall|m: int| 0 <= m < row_views(next@).len() implies row_views(
                        next@,
                    )[m] == grown[m] by {
                        if m < before.len() {
                            assert(next@[m] == before[m]);
                            assert(row_views(next@)[m] == row_views(before)[m]);
                        } else if m == before.len() {
                            assert(next@[m] == row_low);
                            assert(row_low@ == rv.push(false));
                        } else {
                            assert(next@[m] == row_high);
                            assert(row_high@ == rv.push(true));
                        }
                    }
                    assert(row_views(next@) =~= grown);
                }
            }
            proof {
                assert(rows_now.take(rows_list@.len() as int) =~= rows_now);
                assert(row_views(next@) == bool_rows((b + 1) as nat));
            }
            rows_list = next;
            b += 1;
        }
        proof {
            lemma_bool_rows_enumeration(len);
        }
        let ghost rows_final: Seq<Seq<bool>> = row_views(rows_list@);
        let mut machines: Vec<Machine> = Vec::new();
        let mut m: usize = 0;
        while m < rows_list.len()
            invariant
                m <= rows_list@.len(),
                row_views(rows_list@) == rows_final,
                rows_final == bool_rows(len),
                len == term_table(variables).len(),
                views(table@) == term_table(variables),
                forall|i: int|
                    0 <= i < rows_final.len() ==> (#[trigger] rows_final[i]).len() == len,
                machines@.len() == m,
                forall|i: int|
                    0 <= i < m ==> {
                        &&& (#[trigger] machines@[i]).wf()
                        &&& machines@[i].vars() == variables
                        &&& machines@[i].vals() == rows_final[i]
                    },
            decreases rows_list@.len() - m,
        {
            let machine_table = clone_table(&table);
            let machine_values = clone_bools(&rows_list[m]);
            proof {
                assert(machine_values@ == row_views(rows_list@)[m as int]);
            }
            let machine = Machine { variables, table: machine_table, values: machine_values };
            machines.push(machine);
            m += 1;
        }
        machines
    }

    /// Drive the boolean of `variable`'s singleton term to `value`: a flip
    /// of `variable` when the slot disagrees, and no mutation at all when it
    /// already agrees.
    pub fn set(&mut self, variable: usize, value: bool)
        requires
            old(self).wf(),
            variable < old(self).vars(),
        ensures
            final(self).wf(),
            final(self).vars() == old(self).vars(),
            final(self).vals() == set_vals(
                old(self).vars(),
                old(self).vals(),
                variable,
                value,
            ),
            final(self).get_spec(variable) == value,
    {
        if self.get(variable) != value {
            self.flip(variable);
        }
    }

    /// The boolean currently bound to the singleton term of `variable`.
    pub fn get(&self, variable: usize) -> (value: bool)
        requires
            self.wf(),
            variable < self.vars(),
        ensures
            value == self.get_spec(variable),
    {
        proof {
            lemma_term_table_bijection(self.variables);
            assert(is_term(self.variables, single_term(variable)));
        }
        let mut singleton: Vec<usize> = Vec::new();
        singleton.push(variable);
        proof {
            assert(singleton@ =~= single_term(variable));
            assert(term_table(self.variables)[term_index(self.variables, single_term(variable))]
                == single_term(variable));
        }
        let index = term_to_index(&self.table, &singleton);
        proof {
            assert(views(self.table@)[index as int] == single_term(variable));
            assert(term_index(self.variables, single_term(variable)) == index as int);
        }
        self.values[index]
    }
}

/// After one flip of `v`, the boolean read back for `v` is the negation of
/// what it was: the cascade never lands on the singleton slot itself.
pub proof fn lemma_flip_get(n: usize, vals: Seq<bool>, v: usize)
    requires
        v < n,
        vals.len() == term_table(n).len(),
    ensures
        ({
            let s = term_index(n, single_term(v));
            flip_vals(n, vals, v)[s] == !vals[s]
        }),
{
    lemma_term_table_bijection(n);
    assert(is_term(n, single_term(v)));
    let s = term_index(n, single_term(v));
    assert(term_table(n)[s] == single_term(v));
    assert(single_term(v)[0] == v);
    assert(single_term(v).contains(v));
    let once = vals.update(s, !vals[s]);
    assert(!cascade_hits(n, once, v, term_table(n)[s]));
    assert(flip_vals(n, vals, v)[s] == once[s]);
}

/// Setting a variable twice in a row to one value leaves the machine in the
/// state that the first `set` alone produced: the second call finds the
/// singleton slot already agreeing and mutates nothing.
pub proof fn lemma_set_idempotent(n: usize, vals: Seq<bool>, v: usize, value: bool)
    requires
        v < n,
        vals.len() == term_table(n).len(),
    ensures
        set_vals(n, set_vals(n, vals, v, value), v, value) == set_vals(n, vals, v, value),
{
    lemma_term_table_bijection(n);
    assert(is_term(n, single_term(v)));
    let s = term_index(n, single_term(v));
    let after = set_vals(n, vals, v, value);
    if vals[s] == value {
        assert(after == vals);
    } else {
        lemma_flip_get(n, vals, v);
        assert(after[s] == value);
    }
}

/// Two flips of one variable restore the whole dense array, not only the
/// flipped variable's own slot: the second cascade picks exactly the slots
/// the first one picked, and toggling twice is the identity.
pub proof fn lemma_flip_involution(n: usize, vals: Seq<bool>, v: usize)
    requires
        v < n,
        vals.len() == term_table(n).len(),
    ensures
        flip_vals(n, flip_vals(n, vals, v), v) == vals,
{
    lemma_term_table_bijection(n);
    assert(is_term(n, single_term(v)));
    let table = term_table(n);
    let s = term_index(n, single_term(v));
    assert(table[s] == single_term(v));
    assert(single_term(v)[0] == v);
    assert(single_term(v).contains(v));
    let first = flip_vals(n, vals, v);
    let a1 = vals.update(s, !vals[s]);
    let b1 = first.update(s, !first[s]);
    let second = flip_vals(n, first, v);
    assert(!cascade_hits(n, a1, v, table[s]));
    assert(!cascade_hits(n, b1, v, table[s]));
    assert(first[s] == a1[s]);

    // the cascade test only reads slots of terms led by `v`, and those
    // slots are identical before both flips
    assert forall|j: int| 0 <= j < vals.len() implies cascade_hits(n, b1, v, table[j])
        == cascade_hits(n, a1, v, table[j]) by {
        let t = table[j];
        if !t.contains(v) && t.len() + 1 <= n {
            lemma_cons_is_term(n, v, t);
            let u = seq![v] + t;
            assert(u == single_term(v) + t);
            let p = term_index(n, u);
            assert(table[p] == u);
            assert(u.len() > 1);
            assert(p != s) by {
                if p == s {
                    assert(table[p] == single_term(v));
                }
            }
            assert(b1[p] == first[p]);
            assert(first[p] == (a1[p] != cascade_hits(n, a1, v, table[p])));
            assert(table[p].contains(v)) by {
                assert(u[0] == v);
            }
            assert(!cascade_hits(n, a1, v, table[p]));
            assert(b1[p] == a1[p]);
        }
    }

    assert forall|j: int| 0 <= j < vals.len() implies second[j] == vals[j] by {
        if j == s {
            assert(second[s] == (b1[s] != cascade_hits(n, b1, v, table[s])));
            assert(b1[s] == !first[s]);
            assert(a1[s] == !vals[s]);
        } else {
            assert(second[j] == (b1[j] != cascade_hits(n, b1, v, table[j])));
            assert(b1[j] == first[j]);
            assert(first[j] == (a1[j] != cascade_hits(n, a1, v, table[j])));
            assert(a1[j] == vals[j]);
        }
    }
    assert(second =~= vals);
}

/// The machine enumeration is exhaustive and free of repeats: it yields
/// two-to-the-table-length machines, no two of them share a dense array,
/// and every boolean assignment over the term table is the array of one of
/// them.
pub proof fn lemma_enumeration_complete(machines: Seq<Machine>, variables: usize)
    requires
        machines.len() == bool_rows(term_table(variables).len()).len(),
        forall|i: int|
            0 <= i < machines.len() ==> (#[trigger] machines[i]).vals() == bool_rows(
                term_table(variables).len(),
            )[i],
    ensures
        machines.len() == two_pow(term_table(variables).len()),
        forall|i: int, j: int|
            0 <= i < j < machines.len() ==> machines[i].vals() != machines[j].vals(),
        forall|q: Seq<bool>| #![trigger q.len()]
            q.len() == term_table(variables).len() ==> exists|i: int|
                0 <= i < machines.len() && (#[trigger] machines[i]).vals() == q,
{
    let len = term_table(variables).len();
    lemma_bool_rows_enumeration(len);
    assert forall|q: Seq<bool>| q.len() == len implies exists|i: int|
        0 <= i < machines.len() && (#[trigger] machines[i]).vals() == q by {
        assert(bool_rows(len).contains(q));
        let w = choose|w: int| 0 <= w < bool_rows(len).len() && bool_rows(len)[w] == q;
        assert(machines[w].vals() == q);
    }
}

} // verus!
