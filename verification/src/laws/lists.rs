//! What is listed, and what is found first.
use vstd::prelude::*;

use crate::adapter;
use crate::api;
use crate::audit;
use crate::bits;
use crate::blockmerge::Subcube;
use crate::cdcl;
use crate::cdcl::VarMap;
use crate::circuit;
use crate::circuit::Assignment;
use crate::csp;
use crate::csp::CspFault;
use crate::cube;
use crate::dimacs;
use crate::domain::DomainMask;
use crate::formats;
use crate::gammacover;
use crate::instance;
use crate::instance::InstanceTensor;
use crate::laws::circuits;
use crate::laws::sizes;
use crate::propagate;
use crate::semiring;
use crate::sums;
use crate::text;
use crate::vegraph;
use crate::weighted;

verus! {

proof fn lemma_clauses_decide(vars: Seq<usize>, mask: u64, val: u64, k: int)
    requires
        0 <= k,
    ensures
        sizes::lists_in_order(cube::clause_decisions(vars, mask, val, k), k, |i: int| bits::bit(mask, i), |i: int| (vars[i], bits::bit(val, i))),
    decreases k,
{
    let p = |i: int| bits::bit(mask, i);
    let g = |i: int| (vars[i], bits::bit(val, i));
    if k > 0 {
        lemma_clauses_decide(vars, mask, val, k - 1);
        if p(k - 1) {
            sizes::lemma_list_push(cube::clause_decisions(vars, mask, val, k - 1), k - 1, p, g);
        } else {
            sizes::lemma_list_skip(cube::clause_decisions(vars, mask, val, k - 1), k - 1, p, g);
        }
    } else {
        sizes::lemma_list_empty(p, g);
    }
}

/// A clause decides the variables at its set bits, in order, each as its value says.
pub proof fn law_clauses_decide(vars: Seq<usize>, mask: u64, val: u64)
    ensures
        sizes::lists_in_order(cube::clause_decisions(vars, mask, val, vars.len() as int), vars.len() as int, |i: int| bits::bit(mask, i), |i: int| (vars[i], bits::bit(val, i))),
{
    lemma_clauses_decide(vars, mask, val, vars.len() as int);
}

proof fn lemma_open_positions_are_listed(d: Seq<DomainMask>, vars: Seq<usize>, k: int)
    requires
        0 <= k,
    ensures
        sizes::lists_in_order(propagate::open_positions(d, vars, k), k, |j: int| !d[vars[j] as int].fixed(), |j: int| j as usize),
    decreases k,
{
    let p = |j: int| !d[vars[j] as int].fixed();
    let g = |j: int| j as usize;
    if k > 0 {
        lemma_open_positions_are_listed(d, vars, k - 1);
        if p(k - 1) {
            sizes::lemma_list_push(propagate::open_positions(d, vars, k - 1), k - 1, p, g);
        } else {
            sizes::lemma_list_skip(propagate::open_positions(d, vars, k - 1), k - 1, p, g);
        }
    } else {
        sizes::lemma_list_empty(p, g);
    }
}

/// The positions whose variable is open, in order.
pub proof fn law_open_positions_are_listed(d: Seq<DomainMask>, vars: Seq<usize>)
    ensures
        sizes::lists_in_order(propagate::open_positions(d, vars, vars.len() as int), vars.len() as int, |j: int| !d[vars[j] as int].fixed(), |j: int| j as usize),
{
    lemma_open_positions_are_listed(d, vars, vars.len() as int);
}

proof fn lemma_holders_are_listed(pool: Seq<Subcube>, x: u64, k: int)
    requires
        0 <= k,
    ensures
        sizes::lists_in_order(gammacover::places_of(pool, x, k), k, |c: int| pool[c].has(x), |c: int| c as usize),
    decreases k,
{
    let p = |c: int| pool[c].has(x);
    let g = |c: int| c as usize;
    if k > 0 {
        lemma_holders_are_listed(pool, x, k - 1);
        if p(k - 1) {
            sizes::lemma_list_push(gammacover::places_of(pool, x, k - 1), k - 1, p, g);
        } else {
            sizes::lemma_list_skip(gammacover::places_of(pool, x, k - 1), k - 1, p, g);
        }
    } else {
        sizes::lemma_list_empty(p, g);
    }
}

/// The places of the subcubes that have a configuration, in order.
pub proof fn law_holders_are_listed(pool: Seq<Subcube>, x: u64)
    ensures
        sizes::lists_in_order(gammacover::places_of(pool, x, pool.len() as int), pool.len() as int, |c: int| pool[c].has(x), |c: int| c as usize),
{
    lemma_holders_are_listed(pool, x, pool.len() as int);
}

proof fn lemma_scores_are_listed(ids: Seq<usize>, scores: Seq<Option<(usize, usize)>>, k: int)
    requires
        0 <= k,
    ensures
        sizes::lists_in_order(vegraph::entries(ids, scores, k), k, |i: int| scores[i] is Some, |i: int| ((scores[i]->0).0, (scores[i]->0).1, ids[i])),
    decreases k,
{
    let p = |i: int| scores[i] is Some;
    let g = |i: int| ((scores[i]->0).0, (scores[i]->0).1, ids[i]);
    if k > 0 {
        lemma_scores_are_listed(ids, scores, k - 1);
        if p(k - 1) {
            sizes::lemma_list_push(vegraph::entries(ids, scores, k - 1), k - 1, p, g);
        } else {
            sizes::lemma_list_skip(vegraph::entries(ids, scores, k - 1), k - 1, p, g);
        }
    } else {
        sizes::lemma_list_empty(p, g);
    }
}

/// The scores that there are, in the order of the variables, each with its variable.
pub proof fn law_scores_are_listed(ids: Seq<usize>, scores: Seq<Option<(usize, usize)>>)
    ensures
        sizes::lists_in_order(vegraph::entries(ids, scores, scores.len() as int), scores.len() as int, |i: int| scores[i] is Some, |i: int| ((scores[i]->0).0, (scores[i]->0).1, ids[i])),
{
    lemma_scores_are_listed(ids, scores, scores.len() as int);
}

proof fn lemma_chosen_numbers_are_listed(p: spec_fn(int) -> bool, n: nat, k: int)
    requires
        0 <= k,
    ensures
        sizes::lists_in_order(sums::chosen_ids(p, k), k, |i: int| p(i), |i: int| i),
    decreases k,
{
    let q = |i: int| p(i);
    let g = |i: int| i;
    if k > 0 {
        lemma_chosen_numbers_are_listed(p, n, k - 1);
        if p(k - 1) {
            sizes::lemma_list_push(sums::chosen_ids(p, k - 1), k - 1, q, g);
        } else {
            sizes::lemma_list_skip(sums::chosen_ids(p, k - 1), k - 1, q, g);
        }
    } else {
        sizes::lemma_list_empty(q, g);
    }
}

/// The numbers with a property, in ascending order.
pub proof fn law_chosen_numbers_are_listed(p: spec_fn(int) -> bool, n: nat)
    ensures
        sizes::lists_in_order(sums::chosen_ids(p, n as int), n as int, |i: int| p(i), |i: int| i),
{
    lemma_chosen_numbers_are_listed(p, n, n as int);
}

proof fn lemma_kept_clauses(clauses: Seq<Seq<i64>>, k: int)
    requires
        0 <= k,
    ensures
        sizes::lists_in_order(formats::kept_clauses(clauses, k), k, |i: int| !formats::tautology(clauses[i]), |i: int| clauses[i]),
    decreases k,
{
    let p = |i: int| !formats::tautology(clauses[i]);
    let g = |i: int| clauses[i];
    if k > 0 {
        lemma_kept_clauses(clauses, k - 1);
        if p(k - 1) {
            sizes::lemma_list_push(formats::kept_clauses(clauses, k - 1), k - 1, p, g);
        } else {
            sizes::lemma_list_skip(formats::kept_clauses(clauses, k - 1), k - 1, p, g);
        }
    } else {
        sizes::lemma_list_empty(p, g);
    }
}

/// The clauses that constrain something are those without a literal and its negation, in order.
pub proof fn law_kept_clauses(clauses: Seq<Seq<i64>>)
    ensures
        sizes::lists_in_order(formats::kept_clauses(clauses, clauses.len() as int), clauses.len() as int, |i: int| !formats::tautology(clauses[i]), |i: int| clauses[i]),
{
    lemma_kept_clauses(clauses, clauses.len() as int);
}

proof fn lemma_lines_that_say_something(ls: Seq<Seq<char>>, k: int)
    requires
        0 <= k,
    ensures
        sizes::lists_in_order(csp::data_lines(ls, k), k, |i: int| text::words(ls[i]).len() > 0 && text::words(ls[i])[0][0] != '#', |i: int| (i + 1, text::trimmed(ls[i]))),
    decreases k,
{
    let p = |i: int| text::words(ls[i]).len() > 0 && text::words(ls[i])[0][0] != '#';
    let g = |i: int| (i + 1, text::trimmed(ls[i]));
    if k > 0 {
        lemma_lines_that_say_something(ls, k - 1);
        if p(k - 1) {
            sizes::lemma_list_push(csp::data_lines(ls, k - 1), k - 1, p, g);
        } else {
            sizes::lemma_list_skip(csp::data_lines(ls, k - 1), k - 1, p, g);
        }
    } else {
        sizes::lemma_list_empty(p, g);
    }
}

/// The lines that are neither blank nor a comment, in order, with their numbers and without the white space around them.
pub proof fn law_lines_that_say_something(ls: Seq<Seq<char>>)
    ensures
        sizes::lists_in_order(csp::data_lines(ls, ls.len() as int), ls.len() as int, |i: int| text::words(ls[i]).len() > 0 && text::words(ls[i])[0][0] != '#', |i: int| (i + 1, text::trimmed(ls[i]))),
{
    lemma_lines_that_say_something(ls, ls.len() as int);
}

proof fn lemma_known_values_are_listed(values: Seq<Option<bool>>, k: int)
    requires
        0 <= k,
    ensures
        sizes::lists_in_order(cdcl::of_values(values, k), k, |i: int| values[i] is Some, |i: int| (i as usize, values[i]->0)),
    decreases k,
{
    let p = |i: int| values[i] is Some;
    let g = |i: int| (i as usize, values[i]->0);
    if k > 0 {
        lemma_known_values_are_listed(values, k - 1);
        if p(k - 1) {
            sizes::lemma_list_push(cdcl::of_values(values, k - 1), k - 1, p, g);
        } else {
            sizes::lemma_list_skip(cdcl::of_values(values, k - 1), k - 1, p, g);
        }
    } else {
        sizes::lemma_list_empty(p, g);
    }
}

/// The values that there are, each with its variable, in order.
pub proof fn law_known_values_are_listed(values: Seq<Option<bool>>)
    ensures
        sizes::lists_in_order(cdcl::of_values(values, values.len() as int), values.len() as int, |i: int| values[i] is Some, |i: int| (i as usize, values[i]->0)),
{
    lemma_known_values_are_listed(values, values.len() as int);
}

proof fn lemma_known_literals_are_listed(map: VarMap, lits: Seq<(usize, bool)>, k: int)
    requires
        0 <= k,
    ensures
        sizes::lists_in_order(cdcl::of_trail(map, lits, k), k, |i: int| lits[i].0 < map.cnf_to_native@.len() && map.cnf_to_native@[lits[i].0 as int] is Some, |i: int| (map.cnf_to_native@[lits[i].0 as int]->0, lits[i].1)),
    decreases k,
{
    let p = |i: int| lits[i].0 < map.cnf_to_native@.len() && map.cnf_to_native@[lits[i].0 as int] is Some;
    let g = |i: int| (map.cnf_to_native@[lits[i].0 as int]->0, lits[i].1);
    if k > 0 {
        lemma_known_literals_are_listed(map, lits, k - 1);
        if p(k - 1) {
            sizes::lemma_list_push(cdcl::of_trail(map, lits, k - 1), k - 1, p, g);
        } else {
            sizes::lemma_list_skip(cdcl::of_trail(map, lits, k - 1), k - 1, p, g);
        }
    } else {
        sizes::lemma_list_empty(p, g);
    }
}

/// The literals whose variable is known, each with that variable, in order.
pub proof fn law_known_literals_are_listed(map: VarMap, lits: Seq<(usize, bool)>)
    ensures
        sizes::lists_in_order(cdcl::of_trail(map, lits, lits.len() as int), lits.len() as int, |i: int| lits[i].0 < map.cnf_to_native@.len() && map.cnf_to_native@[lits[i].0 as int] is Some, |i: int| (map.cnf_to_native@[lits[i].0 as int]->0, lits[i].1)),
{
    lemma_known_literals_are_listed(map, lits, lits.len() as int);
}

proof fn lemma_relations_are_listed(weights: bool, data: Seq<(int, Seq<char>)>, k: int)
    requires
        0 <= k,
    ensures
        sizes::lists_in_order(csp::body_tensors(weights, data, k), k, |i: int| 1 <= i && !(weights && text::words(data[i].1).len() > 0 && text::words(data[i].1)[0] == "w"@), |i: int| (csp::ids_of(csp::scope_words(data[i].1)), csp::configs_of(csp::config_words(data[i].1)))),
    decreases k,
{
    let p = |i: int| 1 <= i && !(weights && text::words(data[i].1).len() > 0 && text::words(data[i].1)[0] == "w"@);
    let g = |i: int| (csp::ids_of(csp::scope_words(data[i].1)), csp::configs_of(csp::config_words(data[i].1)));
    if k > 1 {
        lemma_relations_are_listed(weights, data, k - 1);
        if p(k - 1) {
            sizes::lemma_list_push(csp::body_tensors(weights, data, k - 1), k - 1, p, g);
        } else {
            sizes::lemma_list_skip(csp::body_tensors(weights, data, k - 1), k - 1, p, g);
        }
    } else if k == 1 {
        lemma_relations_are_listed(weights, data, 0);
        sizes::lemma_list_skip(csp::body_tensors(weights, data, 0), 0, p, g);
    } else {
        sizes::lemma_list_empty(p, g);
    }
}

/// Behind the header, each line that is no weight line is a relation: the numbers before the colon and those behind it.
pub proof fn law_relations_are_listed(weights: bool, data: Seq<(int, Seq<char>)>)
    ensures
        sizes::lists_in_order(csp::body_tensors(weights, data, data.len() as int), data.len() as int, |i: int| 1 <= i && !(weights && text::words(data[i].1).len() > 0 && text::words(data[i].1)[0] == "w"@), |i: int| (csp::ids_of(csp::scope_words(data[i].1)), csp::configs_of(csp::config_words(data[i].1)))),
{
    lemma_relations_are_listed(weights, data, data.len() as int);
}

proof fn lemma_weights_are_listed(weights: bool, data: Seq<(int, Seq<char>)>, k: int)
    requires
        0 <= k,
    ensures
        sizes::lists_in_order(csp::body_weights(weights, data, k), k, |i: int| 1 <= i && weights && text::words(data[i].1).len() > 0 && text::words(data[i].1)[0] == "w"@, |i: int| (text::unsigned(text::words(data[i].1)[1])->0 as usize, text::words(data[i].1)[2], text::words(data[i].1)[3])),
    decreases k,
{
    let p = |i: int| 1 <= i && weights && text::words(data[i].1).len() > 0 && text::words(data[i].1)[0] == "w"@;
    let g = |i: int| (text::unsigned(text::words(data[i].1)[1])->0 as usize, text::words(data[i].1)[2], text::words(data[i].1)[3]);
    if k > 1 {
        lemma_weights_are_listed(weights, data, k - 1);
        if p(k - 1) {
            sizes::lemma_list_push(csp::body_weights(weights, data, k - 1), k - 1, p, g);
        } else {
            sizes::lemma_list_skip(csp::body_weights(weights, data, k - 1), k - 1, p, g);
        }
    } else if k == 1 {
        lemma_weights_are_listed(weights, data, 0);
        sizes::lemma_list_skip(csp::body_weights(weights, data, 0), 0, p, g);
    } else {
        sizes::lemma_list_empty(p, g);
    }
}

/// Behind the header, each weight line gives the weights of a variable.
pub proof fn law_weights_are_listed(weights: bool, data: Seq<(int, Seq<char>)>)
    ensures
        sizes::lists_in_order(csp::body_weights(weights, data, data.len() as int), data.len() as int, |i: int| 1 <= i && weights && text::words(data[i].1).len() > 0 && text::words(data[i].1)[0] == "w"@, |i: int| (text::unsigned(text::words(data[i].1)[1])->0 as usize, text::words(data[i].1)[2], text::words(data[i].1)[3])),
{
    lemma_weights_are_listed(weights, data, data.len() as int);
}

proof fn lemma_first_variable_out_of_range(vars: Seq<usize>, n: int, k: int)
    requires
        0 <= k,
    ensures
        sizes::finds_first(instance::first_over(vars, n, k), k, |i: int| vars[i] >= n, |i: int| vars[i]),
    decreases k,
{
    let p = |i: int| vars[i] >= n;
    let g = |i: int| vars[i];
    if k > 0 {
        lemma_first_variable_out_of_range(vars, n, k - 1);
        sizes::lemma_next_found(instance::first_over(vars, n, k - 1), k - 1, p, g, instance::first_over(vars, n, k));
    }
}

/// The first variable that is not below the number of variables.
pub proof fn law_first_variable_out_of_range(vars: Seq<usize>, n: int)
    ensures
        sizes::finds_first(instance::first_over(vars, n, vars.len() as int), vars.len() as int, |i: int| vars[i] >= n, |i: int| vars[i]),
{
    lemma_first_variable_out_of_range(vars, n, vars.len() as int);
}

proof fn lemma_first_wide_configuration(configs: Seq<u64>, arity: int, k: int)
    requires
        0 <= k,
    ensures
        sizes::finds_first(instance::first_wide(configs, arity, k), k, |i: int| !bits::below(configs[i], arity), |i: int| configs[i]),
    decreases k,
{
    let p = |i: int| !bits::below(configs[i], arity);
    let g = |i: int| configs[i];
    if k > 0 {
        lemma_first_wide_configuration(configs, arity, k - 1);
        sizes::lemma_next_found(instance::first_wide(configs, arity, k - 1), k - 1, p, g, instance::first_wide(configs, arity, k));
    }
}

/// The first configuration that has a bit beyond the variables.
pub proof fn law_first_wide_configuration(configs: Seq<u64>, arity: int)
    ensures
        sizes::finds_first(instance::first_wide(configs, arity, configs.len() as int), configs.len() as int, |i: int| !bits::below(configs[i], arity), |i: int| configs[i]),
{
    lemma_first_wide_configuration(configs, arity, configs.len() as int);
}

proof fn lemma_first_bad_row(rows: Seq<(u64, String)>, k: int)
    requires
        0 <= k,
    ensures
        sizes::finds_first(instance::first_bad_row(rows, k), k, |i: int| semiring::weight_number(rows[i].1@) is Err, |i: int| (rows[i].0, semiring::weight_number(rows[i].1@)->Err_0)),
    decreases k,
{
    let p = |i: int| semiring::weight_number(rows[i].1@) is Err;
    let g = |i: int| (rows[i].0, semiring::weight_number(rows[i].1@)->Err_0);
    if k > 0 {
        lemma_first_bad_row(rows, k - 1);
        sizes::lemma_next_found(instance::first_bad_row(rows, k - 1), k - 1, p, g, instance::first_bad_row(rows, k));
    }
}

/// The first row whose weight is no number.
pub proof fn law_first_bad_row(rows: Seq<(u64, String)>)
    ensures
        sizes::finds_first(instance::first_bad_row(rows, rows.len() as int), rows.len() as int, |i: int| semiring::weight_number(rows[i].1@) is Err, |i: int| (rows[i].0, semiring::weight_number(rows[i].1@)->Err_0)),
{
    lemma_first_bad_row(rows, rows.len() as int);
}

proof fn lemma_first_constraint_with_a_repeat(ts: Seq<InstanceTensor>, k: int)
    requires
        0 <= k,
    ensures
        sizes::finds_first(instance::first_repeat(ts, k), k, |i: int| !instance::listed_configs(ts[i]).no_duplicates(), |i: int| i as usize),
    decreases k,
{
    let p = |i: int| !instance::listed_configs(ts[i]).no_duplicates();
    let g = |i: int| i as usize;
    if k > 0 {
        lemma_first_constraint_with_a_repeat(ts, k - 1);
        sizes::lemma_next_found(instance::first_repeat(ts, k - 1), k - 1, p, g, instance::first_repeat(ts, k));
    }
}

/// The first constraint that lists a configuration twice.
pub proof fn law_first_constraint_with_a_repeat(ts: Seq<InstanceTensor>)
    ensures
        sizes::finds_first(instance::first_repeat(ts, ts.len() as int), ts.len() as int, |i: int| !instance::listed_configs(ts[i]).no_duplicates(), |i: int| i as usize),
{
    lemma_first_constraint_with_a_repeat(ts, ts.len() as int);
}

proof fn lemma_first_faulty_constraint(ts: Seq<InstanceTensor>, n: int, k: int)
    requires
        0 <= k,
    ensures
        sizes::finds_first(instance::tensors_fault(ts, n, k), k, |i: int| instance::tensor_fault(ts[i], i as usize, n) is Some, |i: int| instance::tensor_fault(ts[i], i as usize, n)->0),
    decreases k,
{
    let p = |i: int| instance::tensor_fault(ts[i], i as usize, n) is Some;
    let g = |i: int| instance::tensor_fault(ts[i], i as usize, n)->0;
    if k > 0 {
        lemma_first_faulty_constraint(ts, n, k - 1);
        sizes::lemma_next_found(instance::tensors_fault(ts, n, k - 1), k - 1, p, g, instance::tensors_fault(ts, n, k));
    }
}

/// What is wrong with the constraints is what is wrong with the first with which something is.
pub proof fn law_first_faulty_constraint(ts: Seq<InstanceTensor>, n: int)
    ensures
        sizes::finds_first(instance::tensors_fault(ts, n, ts.len() as int), ts.len() as int, |i: int| instance::tensor_fault(ts[i], i as usize, n) is Some, |i: int| instance::tensor_fault(ts[i], i as usize, n)->0),
{
    lemma_first_faulty_constraint(ts, n, ts.len() as int);
}

proof fn lemma_first_long_clause(clauses: Seq<Seq<i64>>, k: int)
    requires
        0 <= k,
    ensures
        sizes::finds_first(formats::first_long(clauses, k), k, |i: int| !formats::tautology(clauses[i]) && formats::width(clauses[i]) > dimacs::MAX_CLAUSE_WIDTH, |i: int| formats::width(clauses[i])),
    decreases k,
{
    let p = |i: int| !formats::tautology(clauses[i]) && formats::width(clauses[i]) > dimacs::MAX_CLAUSE_WIDTH;
    let g = |i: int| formats::width(clauses[i]);
    if k > 0 {
        lemma_first_long_clause(clauses, k - 1);
        sizes::lemma_next_found(formats::first_long(clauses, k - 1), k - 1, p, g, formats::first_long(clauses, k));
    }
}

/// The first clause that constrains something and is too wide for a table.
pub proof fn law_first_long_clause(clauses: Seq<Seq<i64>>)
    ensures
        sizes::finds_first(formats::first_long(clauses, clauses.len() as int), clauses.len() as int, |i: int| !formats::tautology(clauses[i]) && formats::width(clauses[i]) > dimacs::MAX_CLAUSE_WIDTH, |i: int| formats::width(clauses[i])),
{
    lemma_first_long_clause(clauses, clauses.len() as int);
}

proof fn lemma_first_stray_weight(ws: Seq<(i64, Seq<char>)>, n: int, k: int)
    requires
        0 <= k,
    ensures
        sizes::finds_first(formats::first_stray(ws, n, k), k, |i: int| ws[i].0 == 0 || ws[i].0 > n || ws[i].0 < -n, |i: int| ws[i].0),
    decreases k,
{
    let p = |i: int| ws[i].0 == 0 || ws[i].0 > n || ws[i].0 < -n;
    let g = |i: int| ws[i].0;
    if k > 0 {
        lemma_first_stray_weight(ws, n, k - 1);
        sizes::lemma_next_found(formats::first_stray(ws, n, k - 1), k - 1, p, g, formats::first_stray(ws, n, k));
    }
}

/// The first weight whose literal is of no declared variable.
pub proof fn law_first_stray_weight(ws: Seq<(i64, Seq<char>)>, n: int)
    ensures
        sizes::finds_first(formats::first_stray(ws, n, ws.len() as int), ws.len() as int, |i: int| ws[i].0 == 0 || ws[i].0 > n || ws[i].0 < -n, |i: int| ws[i].0),
{
    lemma_first_stray_weight(ws, n, ws.len() as int);
}

proof fn lemma_first_word_that_is_no_literal(ws: Seq<Seq<char>>, k: int)
    requires
        0 <= k,
    ensures
        sizes::finds_first(audit::first_invalid(ws, k), k, |i: int| dimacs::literal(ws[i]) is None, |i: int| ws[i]),
    decreases k,
{
    let p = |i: int| dimacs::literal(ws[i]) is None;
    let g = |i: int| ws[i];
    if k > 0 {
        lemma_first_word_that_is_no_literal(ws, k - 1);
        sizes::lemma_next_found(audit::first_invalid(ws, k - 1), k - 1, p, g, audit::first_invalid(ws, k));
    }
}

/// The first word that is no literal.
pub proof fn law_first_word_that_is_no_literal(ws: Seq<Seq<char>>)
    ensures
        sizes::finds_first(audit::first_invalid(ws, ws.len() as int), ws.len() as int, |i: int| dimacs::literal(ws[i]) is None, |i: int| ws[i]),
{
    lemma_first_word_that_is_no_literal(ws, ws.len() as int);
}

proof fn lemma_first_word_that_is_no_number(line: int, ws: Seq<Seq<char>>, k: int)
    requires
        0 <= k,
    ensures
        sizes::finds_first(csp::word_fault(line, ws, k), k, |i: int| text::unsigned(ws[i]) is None || text::unsigned(ws[i])->0 > usize::MAX, |i: int| CspFault::Token(line, "variable"@, ws[i])),
    decreases k,
{
    let p = |i: int| text::unsigned(ws[i]) is None || text::unsigned(ws[i])->0 > usize::MAX;
    let g = |i: int| CspFault::Token(line, "variable"@, ws[i]);
    if k > 0 {
        lemma_first_word_that_is_no_number(line, ws, k - 1);
        sizes::lemma_next_found(csp::word_fault(line, ws, k - 1), k - 1, p, g, csp::word_fault(line, ws, k));
    }
}

/// The first word that is no number of a variable.
pub proof fn law_first_word_that_is_no_number(line: int, ws: Seq<Seq<char>>)
    ensures
        sizes::finds_first(csp::word_fault(line, ws, ws.len() as int), ws.len() as int, |i: int| text::unsigned(ws[i]) is None || text::unsigned(ws[i])->0 > usize::MAX, |i: int| CspFault::Token(line, "variable"@, ws[i])),
{
    lemma_first_word_that_is_no_number(line, ws, ws.len() as int);
}

proof fn lemma_first_faulty_gate(vars: Seq<Seq<char>>, gs: Seq<Assignment>, k: int)
    requires
        0 <= k,
    ensures
        sizes::finds_first(circuit::gates_fault(vars, gs, k), k, |i: int| circuit::gate_fault(vars, gs[i]) is Some, |i: int| circuit::gate_fault(vars, gs[i])->0),
    decreases k,
{
    let p = |i: int| circuit::gate_fault(vars, gs[i]) is Some;
    let g = |i: int| circuit::gate_fault(vars, gs[i])->0;
    if k > 0 {
        lemma_first_faulty_gate(vars, gs, k - 1);
        sizes::lemma_next_found(circuit::gates_fault(vars, gs, k - 1), k - 1, p, g, circuit::gates_fault(vars, gs, k));
    }
}

/// What is wrong with the gates is what is wrong with the first with which something is.
pub proof fn law_first_faulty_gate(vars: Seq<Seq<char>>, gs: Seq<Assignment>)
    ensures
        sizes::finds_first(circuit::gates_fault(vars, gs, gs.len() as int), gs.len() as int, |i: int| circuit::gate_fault(vars, gs[i]) is Some, |i: int| circuit::gate_fault(vars, gs[i])->0),
{
    lemma_first_faulty_gate(vars, gs, gs.len() as int);
}

proof fn lemma_dropped(vars: Seq<usize>, keep: Seq<usize>, k: int)
    requires
        0 <= k <= vars.len(),
    ensures
        sizes::lists_in_order(weighted::dropped(vars.take(k), keep), k, |i: int| !keep.contains(vars[i]), |i: int| vars[i] as int),
    decreases k,
{
    let p = |i: int| !keep.contains(vars[i]);
    let g = |i: int| vars[i] as int;
    if k > 0 {
        lemma_dropped(vars, keep, k - 1);
        assert(vars.take(k).drop_last() =~= vars.take(k - 1));
        assert(vars.take(k).last() == vars[k - 1]);
        if p(k - 1) {
            sizes::lemma_list_push(weighted::dropped(vars.take(k - 1), keep), k - 1, p, g);
        } else {
            sizes::lemma_list_skip(weighted::dropped(vars.take(k - 1), keep), k - 1, p, g);
        }
    } else {
        sizes::lemma_list_empty(p, g);
    }
}

/// The variables that are dropped are those that are not kept, in order.
pub proof fn law_dropped_variables(vars: Seq<usize>, keep: Seq<usize>)
    ensures
        sizes::lists_in_order(weighted::dropped(vars, keep), vars.len() as int, |i: int| !keep.contains(vars[i]), |i: int| vars[i] as int),
{
    lemma_dropped(vars, keep, vars.len() as int);
    crate::seqs::lemma_take_all(vars);
}

proof fn lemma_heads(groups: Seq<Vec<u64>>, k: int)
    requires
        0 <= k <= groups.len(),
    ensures
        sizes::lists_in_order(adapter::heads(groups.take(k)), k, |i: int| groups[i]@.len() > 0, |i: int| groups[i]@[0]),
    decreases k,
{
    let p = |i: int| groups[i]@.len() > 0;
    let g = |i: int| groups[i]@[0];
    if k > 0 {
        lemma_heads(groups, k - 1);
        assert(groups.take(k).drop_last() =~= groups.take(k - 1));
        assert(groups.take(k).last() == groups[k - 1]);
        if p(k - 1) {
            sizes::lemma_list_push(adapter::heads(groups.take(k - 1)), k - 1, p, g);
        } else {
            sizes::lemma_list_skip(adapter::heads(groups.take(k - 1)), k - 1, p, g);
        }
    } else {
        sizes::lemma_list_empty(p, g);
    }
}

/// The first configurations of the groups that have one, in order.
pub proof fn law_heads_of_groups(groups: Seq<Vec<u64>>)
    ensures
        sizes::lists_in_order(adapter::heads(groups), groups.len() as int, |i: int| groups[i]@.len() > 0, |i: int| groups[i]@[0]),
{
    lemma_heads(groups, groups.len() as int);
    crate::seqs::lemma_take_all(groups);
}

/// No later variable has the name of this one.
pub open spec fn last_of_name(vars: Seq<Seq<char>>, i: int) -> bool {
    forall|q: int| i < q < vars.len() ==> #[trigger] vars[q] != vars[i]
}

proof fn lemma_name_places(vars: Seq<Seq<char>>, k: int)
    requires
        0 <= k <= vars.len(),
    ensures
        sizes::lists_in_order(api::name_places(vars, k), k, |i: int| last_of_name(vars, i), |i: int| i),
    decreases k,
{
    let p = |i: int| last_of_name(vars, i);
    let g = |i: int| i;
    if k > 0 {
        lemma_name_places(vars, k - 1);
        circuits::law_the_last_variable_of_a_name_counts(vars, vars[k - 1]);
        let l = circuit::last_named(vars, vars[k - 1]);
        assert(p(k - 1) <==> l == Some(k - 1)) by {
            if p(k - 1) && l is Some && l->0 > k - 1 {
                assert(vars[l->0] != vars[k - 1]);
            }
        }
        if p(k - 1) {
            sizes::lemma_list_push(api::name_places(vars, k - 1), k - 1, p, g);
        } else {
            sizes::lemma_list_skip(api::name_places(vars, k - 1), k - 1, p, g);
        }
    } else {
        sizes::lemma_list_empty(p, g);
    }
}

/// The solution of a circuit lists each name once: the last variable of the name, in the order of the
/// variables, with its value.
pub proof fn law_solutions_list_each_name_once(vars: Seq<Seq<char>>, gs: Seq<Assignment>, list: Seq<(String, bool)>, a: crate::domain::Asg)
    requires
        api::lists(vars, gs, list, a),
    ensures
        list.len() == sizes::places(vars.len() as int, |i: int| last_of_name(vars, i)).len(),
        forall|i: int| 0 <= i < vars.len() && #[trigger] last_of_name(vars, i) ==> ({
            let j = sizes::places(i, |q: int| last_of_name(vars, q)).len() as int;
            j < list.len() && list[j].0@ == vars[i] && list[j].1 == a(i)
        }),
{
    lemma_name_places(vars, vars.len() as int);
    let p = |i: int| last_of_name(vars, i);
    let at = api::name_places(vars, vars.len() as int);
    assert forall|i: int| 0 <= i < vars.len() && #[trigger] last_of_name(vars, i) implies ({
        let j = sizes::places(i, |q: int| last_of_name(vars, q)).len() as int;
        j < list.len() && list[j].0@ == vars[i] && list[j].1 == a(i)
    }) by {
        assert(p(i));
        let j = sizes::places(i, p).len() as int;
        assert(at[j] == i);
        assert(list[j].0@ == vars[at[j]]);
    }
}

proof fn lemma_scope_faults(line: int, nvars: int, ids: Seq<usize>, k: int)
    requires
        0 <= k <= ids.len(),
    ensures
        sizes::finds_first(csp::scope_fault(line, nvars, ids, k), k, |i: int| ids[i] >= nvars || exists|j: int| 0 <= j < i && #[trigger] ids[j] == ids[i], |i: int| if ids[i] >= nvars {
            CspFault::Range(line, ids[i] as int, nvars)
        } else {
            CspFault::Duplicate(line, ids[i] as int)
        }),
    decreases k,
{
    let p = |i: int| ids[i] >= nvars || exists|j: int| 0 <= j < i && #[trigger] ids[j] == ids[i];
    let g = |i: int| if ids[i] >= nvars {
        CspFault::Range(line, ids[i] as int, nvars)
    } else {
        CspFault::Duplicate(line, ids[i] as int)
    };
    if k > 0 {
        lemma_scope_faults(line, nvars, ids, k - 1);
        let t = ids.take(k - 1);
        if t.contains(ids[k - 1]) {
            let j = t.index_of(ids[k - 1]);
            assert(ids[j] == ids[k - 1]);
        }
        if exists|j: int| 0 <= j < k - 1 && #[trigger] ids[j] == ids[k - 1] {
            let j = choose|j: int| 0 <= j < k - 1 && #[trigger] ids[j] == ids[k - 1];
            assert(t[j] == ids[k - 1]);
        }
        sizes::lemma_next_found(csp::scope_fault(line, nvars, ids, k - 1), k - 1, p, g, csp::scope_fault(line, nvars, ids, k));
    }
}

/// The first variable of a scope that is out of range or comes a second time.
pub proof fn law_first_fault_of_a_scope(line: int, nvars: int, ids: Seq<usize>)
    ensures
        sizes::finds_first(csp::scope_fault(line, nvars, ids, ids.len() as int), ids.len() as int, |i: int| ids[i] >= nvars || exists|j: int| 0 <= j < i && #[trigger] ids[j] == ids[i], |i: int| if ids[i] >= nvars {
            CspFault::Range(line, ids[i] as int, nvars)
        } else {
            CspFault::Duplicate(line, ids[i] as int)
        }),
{
    lemma_scope_faults(line, nvars, ids, ids.len() as int);
}

} // verus!
