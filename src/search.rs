//! The exhaustive search that fills a board, and what can be said of it.

use crate::expr::{
    answer_value, apply, is_bad_division, op, operand_value, power, power_of, Answer, Op, Value,
};
use std::collections::HashMap;
use vstd::prelude::*;

verus! {

/// The orderings of a three-element sequence, in the order in which they
/// are generated: pick the first element by its position, then the second
/// among those left, and the last one is what remains.
pub open spec fn permutation_order(s: Seq<u8>) -> Seq<(u8, u8, u8)> {
    Seq::new(
        6,
        |k: int|
            {
                let rest = s.remove(k / 2);
                (s[k / 2], rest[k % 2], rest.remove(k % 2)[0])
            },
    )
}

/// The generation order spelled out for the three values `a`, `b`, `c`.
pub proof fn lemma_permutation_order_explicit(a: u8, b: u8, c: u8)
    ensures
        permutation_order(seq![a, b, c]) == seq![
            (a, b, c),
            (a, c, b),
            (b, a, c),
            (b, c, a),
            (c, a, b),
            (c, b, a),
        ],
{
    let s = seq![a, b, c];
    assert(s.remove(0) =~= seq![b, c]);
    assert(s.remove(1) =~= seq![a, c]);
    assert(s.remove(2) =~= seq![a, b]);
    assert(seq![b, c].remove(0) =~= seq![c]);
    assert(seq![b, c].remove(1) =~= seq![b]);
    assert(seq![a, c].remove(0) =~= seq![c]);
    assert(seq![a, c].remove(1) =~= seq![a]);
    assert(seq![a, b].remove(0) =~= seq![b]);
    assert(seq![a, b].remove(1) =~= seq![a]);
    assert(permutation_order(s) =~= seq![
        (a, b, c),
        (a, c, b),
        (b, a, c),
        (b, c, a),
        (c, a, b),
        (c, b, a),
    ]);
}

/// All orderings of the three values in `numbers`.
pub fn permutations(numbers: &Vec<u8>) -> (perms: Vec<(u8, u8, u8)>)
    requires
        numbers.len() == 3,
    ensures
        perms@ == permutation_order(numbers@),
{
    let mut perms: Vec<(u8, u8, u8)> = Vec::new();
    let mut x_index: usize = 0;
    while x_index < numbers.len()
        invariant
            numbers.len() == 3,
            x_index <= 3,
            perms@ == permutation_order(numbers@).take(2 * x_index as int),
        decreases 3 - x_index,
    {
        let x = numbers[x_index];
        let mut without_x = numbers.clone();
        assert(without_x@ =~= numbers@);
        without_x.remove(x_index);
        let mut y_index: usize = 0;
        while y_index < without_x.len()
            invariant
                numbers.len() == 3,
                x_index < 3,
                x == numbers@[x_index as int],
                without_x@ == numbers@.remove(x_index as int),
                y_index <= 2,
                perms@ == permutation_order(numbers@).take(2 * x_index + y_index),
            decreases 2 - y_index,
        {
            let y = without_x[y_index];
            let mut rest = without_x.clone();
            assert(rest@ =~= without_x@);
            rest.remove(y_index);
            let z = rest[0];
            perms.push((x, y, z));
            proof {
                let k = 2 * x_index + y_index;
                assert(k / 2 == x_index && k % 2 == y_index);
                assert(perms@ =~= permutation_order(numbers@).take(k + 1));
            }
            y_index += 1;
        }
        x_index += 1;
    }
    assert(perms@ =~= permutation_order(numbers@));
    perms
}

/// A board: for each target reached, the expression chosen for it.
pub type Board = HashMap<u8, Answer>;

/// The number of targets on a board.
pub const BOARD_SIZE: u8 = 36;

/// How many expressions the search tries: 4 * 4 operator pairs, 6 orderings
/// and 4 * 4 * 4 choices of exponents.
pub const SEARCH_LENGTH: usize = 6144;

/// The operators in the order in which the search tries them.
pub open spec fn op_order(i: int) -> Op {
    if i == 0 {
        Op::Add
    } else if i == 1 {
        Op::Subtract
    } else if i == 2 {
        Op::Multiply
    } else {
        Op::Divide
    }
}

/// The exponents in the order in which the search tries them.
pub open spec fn power_order(i: int) -> u32 {
    if i == 0 {
        1
    } else if i == 1 {
        0
    } else if i == 2 {
        2
    } else {
        3
    }
}

/// The `k`-th expression that the search tries: the first operator varies
/// slowest, then the second operator, the ordering of the values, and the
/// exponents of `x`, `y` and `z`.
pub open spec fn candidate(n1: u8, n2: u8, n3: u8, k: int) -> Answer {
    let p = permutation_order(seq![n1, n2, n3])[(k / 64) % 6];
    Answer {
        x: Value { number: p.0, power: power_order((k / 16) % 4) },
        op1: op_order(k / 1536),
        y: Value { number: p.1, power: power_order((k / 4) % 4) },
        op2: op_order((k / 384) % 4),
        z: Value { number: p.2, power: power_order(k % 4) },
    }
}

/// What the `k`-th expression of the search evaluates to.
pub open spec fn value_at(n1: u8, n2: u8, n3: u8, k: int) -> u8 {
    answer_value(candidate(n1, n2, n3, k))
}

/// A number that has a place on the board.
pub open spec fn is_target(t: u8) -> bool {
    1 <= t <= BOARD_SIZE
}

/// The `k`-th expression reaches `t`, and no earlier one does.
pub open spec fn is_first_reach(n1: u8, n2: u8, n3: u8, t: u8, k: int) -> bool {
    &&& 0 <= k
    &&& value_at(n1, n2, n3, k) == t
    &&& forall|j: int| 0 <= j < k ==> #[trigger] value_at(n1, n2, n3, j) != t
}

/// `b` maps each target that one of the first `m` expressions reaches to
/// the earliest of them that reaches it, and holds nothing else.
pub open spec fn is_board_after(b: Map<u8, Answer>, n1: u8, n2: u8, n3: u8, m: int) -> bool {
    &&& forall|t: u8|
        #[trigger] b.contains_key(t) <==> (is_target(t) && exists|k: int|
            0 <= k < m && #[trigger] value_at(n1, n2, n3, k) == t)
    &&& forall|t: u8| #[trigger]
        b.contains_key(t) ==> exists|k: int|
            k < m && #[trigger] is_first_reach(n1, n2, n3, t, k) && b[t] == candidate(n1, n2, n3, k)
}

/// `b` is the board that the whole search builds from `n1`, `n2`, `n3`.
pub open spec fn is_search_board(b: Map<u8, Answer>, n1: u8, n2: u8, n3: u8) -> bool {
    is_board_after(b, n1, n2, n3, SEARCH_LENGTH as int)
}

/// A die value.
pub open spec fn is_die(n: u8) -> bool {
    1 <= n <= 6
}

/// Whether `n` is a die value, which `fill_board` asks of its inputs.
pub fn is_valid_die(n: u8) -> (r: bool)
    ensures
        r == is_die(n),
{
    1 <= n && n <= 6
}

/// Trying the `k`-th expression keeps the board what it should be: its value
/// is added when it is a target that is not yet on the board.
proof fn lemma_board_step(b: Map<u8, Answer>, n1: u8, n2: u8, n3: u8, k: int)
    requires
        0 <= k,
        is_board_after(b, n1, n2, n3, k),
    ensures
        ({
            let v = value_at(n1, n2, n3, k);
            if is_target(v) && !b.contains_key(v) {
                is_board_after(b.insert(v, candidate(n1, n2, n3, k)), n1, n2, n3, k + 1)
            } else {
                is_board_after(b, n1, n2, n3, k + 1)
            }
        }),
{
    let v = value_at(n1, n2, n3, k);
    if is_target(v) && !b.contains_key(v) {
        let nb = b.insert(v, candidate(n1, n2, n3, k));
        assert(is_first_reach(n1, n2, n3, v, k));
        assert forall|t: u8| #[trigger]
            nb.contains_key(t) <==> (is_target(t) && exists|j: int|
                0 <= j < k + 1 && #[trigger] value_at(n1, n2, n3, j) == t) by {
            if t != v && is_target(t) && exists|j: int| 0 <= j < k + 1 && #[trigger] value_at(n1, n2, n3, j) == t {
                let j = choose|j: int| 0 <= j < k + 1 && #[trigger] value_at(n1, n2, n3, j) == t;
                assert(j < k);
            }
        }
        assert forall|t: u8| #[trigger]
            nb.contains_key(t) implies exists|j: int|
                j < k + 1 && #[trigger] is_first_reach(n1, n2, n3, t, j) && nb[t] == candidate(n1, n2, n3, j) by {
            if t != v {
                let j = choose|j: int| j < k && #[trigger] is_first_reach(n1, n2, n3, t, j) && b[t] == candidate(n1, n2, n3, j);
                assert(j < k + 1);
            }
        }
    } else {
        assert forall|t: u8| #[trigger]
            b.contains_key(t) <==> (is_target(t) && exists|j: int|
                0 <= j < k + 1 && #[trigger] value_at(n1, n2, n3, j) == t) by {
            if is_target(t) && exists|j: int| 0 <= j < k + 1 && #[trigger] value_at(n1, n2, n3, j) == t {
                let j = choose|j: int| 0 <= j < k + 1 && #[trigger] value_at(n1, n2, n3, j) == t;
                if j == k {
                    assert(b.contains_key(v));
                } else {
                    assert(0 <= j < k && value_at(n1, n2, n3, j) == t);
                }
            }
        }
        assert forall|t: u8| #[trigger]
            b.contains_key(t) implies exists|j: int|
                j < k + 1 && #[trigger] is_first_reach(n1, n2, n3, t, j) && b[t] == candidate(n1, n2, n3, j) by {
            let j = choose|j: int| j < k && #[trigger] is_first_reach(n1, n2, n3, t, j) && b[t] == candidate(n1, n2, n3, j);
            assert(j < k + 1);
        }
    }
}

/// A die value raised to an exponent the search tries fits in a `u8`.
proof fn lemma_operand_fits(n: u8, e: u32)
    requires
        is_die(n),
        e <= 3,
    ensures
        power_of(n as nat, e as nat) <= 216,
{
    reveal_with_fuel(power_of, 4);
    let m = n as nat;
    assert(m * m <= 36 && m * (m * m) <= 216) by (nonlinear_arith)
        requires
            1 <= m <= 6,
    ;
}

/// Every ordering of three die values consists of die values.
proof fn lemma_orderings_are_dice(n1: u8, n2: u8, n3: u8, i: int)
    requires
        is_die(n1),
        is_die(n2),
        is_die(n3),
        0 <= i < 6,
    ensures
        is_die(permutation_order(seq![n1, n2, n3])[i].0),
        is_die(permutation_order(seq![n1, n2, n3])[i].1),
        is_die(permutation_order(seq![n1, n2, n3])[i].2),
{
    lemma_permutation_order_explicit(n1, n2, n3);
}

/// The `i`-th operator of the search order.
fn op_at(i: usize) -> (o: Op)
    requires
        i < 4,
    ensures
        o == op_order(i as int),
{
    if i == 0 {
        Op::Add
    } else if i == 1 {
        Op::Subtract
    } else if i == 2 {
        Op::Multiply
    } else {
        Op::Divide
    }
}

/// The `i`-th exponent of the search order.
fn power_at(i: usize) -> (e: u32)
    requires
        i < 4,
    ensures
        e == power_order(i as int),
        e <= 3,
{
    if i == 0 {
        1
    } else if i == 1 {
        0
    } else if i == 2 {
        2
    } else {
        3
    }
}

/// Builds the board for the dice `n1`, `n2`, `n3`: every expression of the
/// search is tried in turn, and one whose value is a target not yet on the
/// board is put there.
pub fn fill_board(n1: u8, n2: u8, n3: u8) -> (results: Board)
    requires
        is_die(n1),
        is_die(n2),
        is_die(n3),
    ensures
        is_search_board(results@, n1, n2, n3),
{
    broadcast use vstd::std_specs::hash::group_hash_axioms;

    let mut results: Board = HashMap::with_capacity(BOARD_SIZE as usize);
    let numbers = vec![n1, n2, n3];
    assert(numbers@ =~= seq![n1, n2, n3]);
    let perms = permutations(&numbers);
    let mut k: usize = 0;
    while k < SEARCH_LENGTH
        invariant
            is_die(n1),
            is_die(n2),
            is_die(n3),
            perms@ == permutation_order(seq![n1, n2, n3]),
            k <= SEARCH_LENGTH,
            is_board_after(results@, n1, n2, n3, k as int),
        decreases SEARCH_LENGTH - k,
    {
        let op1 = op_at(k / 1536);
        let op2 = op_at((k / 384) % 4);
        let (x, y, z) = perms[(k / 64) % 6];
        let x_power = power_at((k / 16) % 4);
        let y_power = power_at((k / 4) % 4);
        let z_power = power_at(k % 4);
        proof {
            lemma_orderings_are_dice(n1, n2, n3, (k as int / 64) % 6);
            lemma_operand_fits(x, x_power);
            lemma_operand_fits(y, y_power);
            lemma_operand_fits(z, z_power);
            lemma_board_step(results@, n1, n2, n3, k as int);
        }
        let x_final = power(x, x_power);
        let y_final = power(y, y_power);
        let z_final = power(z, z_power);
        let answer = op(x_final, &op1, y_final);
        let answer = op(answer, &op2, z_final);
        let entry = Answer::from(&x, &x_power, &op1, &y, &y_power, &op2, &z, &z_power);
        assert(entry == candidate(n1, n2, n3, k as int));
        assert(answer == value_at(n1, n2, n3, k as int));
        if answer != 0 && answer <= BOARD_SIZE && !results.contains_key(&answer) {
            results.insert(answer, entry);
        }
        k += 1;
    }
    results
}

/// The numbers from 1 to `n` that are not keys of `b`, in ascending order.
pub open spec fn missing_upto(b: Map<u8, Answer>, n: nat) -> Seq<u8>
    decreases n,
{
    if n == 0 {
        seq![]
    } else {
        let before = missing_upto(b, (n - 1) as nat);
        if b.contains_key(n as u8) {
            before
        } else {
            before.push(n as u8)
        }
    }
}

/// The targets that have no entry in `b`, in ascending order.
pub open spec fn missing_of(b: Map<u8, Answer>) -> Seq<u8> {
    missing_upto(b, BOARD_SIZE as nat)
}

/// What `missing_upto` holds: exactly the numbers from 1 to `n` without an
/// entry, each once and in ascending order.
pub proof fn lemma_missing_upto(b: Map<u8, Answer>, n: nat)
    requires
        n <= 255,
    ensures
        forall|t: u8| #[trigger]
            missing_upto(b, n).contains(t) <==> (1 <= t <= n && !b.contains_key(t)),
        forall|i: int, j: int|
            0 <= i < j < missing_upto(b, n).len() ==> missing_upto(b, n)[i] < missing_upto(b, n)[j],
        forall|i: int| 0 <= i < missing_upto(b, n).len() ==> 1 <= #[trigger] missing_upto(b, n)[i] <= n,
    decreases n,
{
    if n > 0 {
        let before = missing_upto(b, (n - 1) as nat);
        lemma_missing_upto(b, (n - 1) as nat);
        if !b.contains_key(n as u8) {
            let now = before.push(n as u8);
            assert forall|t: u8| #[trigger] now.contains(t) <==> (1 <= t <= n && !b.contains_key(t)) by {
                assert((n as u8) as nat == n);
                if t == n as u8 {
                    assert(now[before.len() as int] == t);
                    assert(now.contains(t));
                } else if now.contains(t) {
                    let i = choose|i: int| 0 <= i < now.len() && now[i] == t;
                    assert(i < before.len());
                    assert(before[i] == t);
                    assert(before.contains(t));
                } else if 1 <= t <= n && !b.contains_key(t) {
                    assert(before.contains(t));
                    let i = choose|i: int| 0 <= i < before.len() && before[i] == t;
                    assert(now[i] == t);
                }
            }
        }
    }
}

/// The targets from 1 to 36 that have no entry in `results`, in ascending
/// order.
pub fn get_missing(results: &Board) -> (missing: Vec<u8>)
    ensures
        missing@ == missing_of(results@),
        forall|t: u8| #[trigger] missing@.contains(t) <==> (is_target(t) && !results@.contains_key(t)),
        forall|i: int, j: int| 0 <= i < j < missing@.len() ==> missing@[i] < missing@[j],
{
    broadcast use vstd::std_specs::hash::group_hash_axioms;

    let mut missing: Vec<u8> = Vec::new();
    let mut t: u8 = 1;
    while t <= BOARD_SIZE
        invariant
            1 <= t <= BOARD_SIZE + 1,
            missing@ == missing_upto(results@, (t - 1) as nat),
        decreases BOARD_SIZE + 1 - t,
    {
        if !results.contains_key(&t) {
            missing.push(t);
        }
        t += 1;
    }
    proof {
        lemma_missing_upto(results@, BOARD_SIZE as nat);
    }
    missing
}

/// Every key of a board built from three dice is a target, and the
/// expression stored under it evaluates to that key.
pub proof fn lemma_entries_evaluate_to_keys(n1: u8, n2: u8, n3: u8, b: Map<u8, Answer>)
    requires
        is_search_board(b, n1, n2, n3),
    ensures
        forall|t: u8| #[trigger] b.contains_key(t) ==> is_target(t) && answer_value(b[t]) == t,
{
    assert forall|t: u8| #[trigger] b.contains_key(t) implies is_target(t) && answer_value(b[t]) == t by {
        let k = choose|k: int|
            k < SEARCH_LENGTH as int && #[trigger] is_first_reach(n1, n2, n3, t, k) && b[t] == candidate(n1, n2, n3, k);
    }
}

/// The missing list and the keys of a board built from three dice are
/// disjoint, and together they are the targets 1 to 36.
pub proof fn lemma_missing_complements_keys(n1: u8, n2: u8, n3: u8, b: Map<u8, Answer>)
    requires
        is_search_board(b, n1, n2, n3),
    ensures
        forall|t: u8| (#[trigger] missing_of(b).contains(t) || b.contains_key(t)) <==> is_target(t),
        forall|t: u8| !(#[trigger] missing_of(b).contains(t) && b.contains_key(t)),
{
    lemma_missing_upto(b, BOARD_SIZE as nat);
}

/// Two boards that both meet the search's contract for the same dice are
/// the same board: the search is deterministic.
pub proof fn lemma_search_board_unique(n1: u8, n2: u8, n3: u8, b1: Map<u8, Answer>, b2: Map<u8, Answer>)
    requires
        is_search_board(b1, n1, n2, n3),
        is_search_board(b2, n1, n2, n3),
    ensures
        b1 == b2,
{
    assert forall|t: u8| #[trigger] b1.contains_key(t) implies b2.contains_key(t) && b1[t] == b2[t] by {
        let k1 = choose|k: int|
            k < SEARCH_LENGTH as int && #[trigger] is_first_reach(n1, n2, n3, t, k) && b1[t] == candidate(n1, n2, n3, k);
        assert(b2.contains_key(t));
        let k2 = choose|k: int|
            k < SEARCH_LENGTH as int && #[trigger] is_first_reach(n1, n2, n3, t, k) && b2[t] == candidate(n1, n2, n3, k);
        if k1 < k2 {
            assert(value_at(n1, n2, n3, k1) != t);
        } else if k2 < k1 {
            assert(value_at(n1, n2, n3, k2) != t);
        }
    }
    assert(b1 =~= b2);
}

/// The position in the search order of the expression with operators
/// Subtract and Add, ordering `p`, exponents 0 and 0 for `x` and `y`, and
/// the exponent with index `c` for `z`.
proof fn lemma_plain_sum_position(p: int, c: int)
    requires
        0 <= p < 6,
        0 <= c < 4,
    ensures
        ({
            let j = 1536 + p * 64 + 20 + c;
            &&& j / 1536 == 1
            &&& (j / 384) % 4 == 0
            &&& (j / 64) % 6 == p
            &&& (j / 16) % 4 == 1
            &&& (j / 4) % 4 == 1
            &&& j % 4 == c
        }),
{
    let j = 1536 + p * 64 + 20 + c;
    assert(j / 64 == 24 + p) by (nonlinear_arith)
        requires
            j == 1536 + p * 64 + 20 + c,
            0 <= p < 6,
            0 <= c < 4,
    ;
    assert(j / 16 == 96 + p * 4 + 1) by (nonlinear_arith)
        requires
            j == 1536 + p * 64 + 20 + c,
            0 <= p < 6,
            0 <= c < 4,
    ;
    assert(j / 4 == 384 + p * 16 + 5) by (nonlinear_arith)
        requires
            j == 1536 + p * 64 + 20 + c,
            0 <= p < 6,
            0 <= c < 4,
    ;
    assert(j % 4 == c) by (nonlinear_arith)
        requires
            j == 1536 + p * 64 + 20 + c,
            0 <= p < 6,
            0 <= c < 4,
    ;
}

/// An expression whose first step is a bad division and whose value is a
/// target is never the first to reach it: the expression that subtracts
/// `y^0` from `x^0` and adds the same `z` comes earlier with the same value.
proof fn lemma_bad_first_step_is_late(n1: u8, n2: u8, n3: u8, k: int) -> (j: int)
    requires
        is_die(n1),
        is_die(n2),
        is_die(n3),
        0 <= k < SEARCH_LENGTH as int,
        is_target(value_at(n1, n2, n3, k)),
        ({
            let a = candidate(n1, n2, n3, k);
            is_bad_division(a.op1, operand_value(a.x), operand_value(a.y))
        }),
    ensures
        0 <= j < k,
        value_at(n1, n2, n3, j) == value_at(n1, n2, n3, k),
{
    let a = candidate(n1, n2, n3, k);
    let p = (k / 64) % 6;
    let c = k % 4;
    let j = 1536 + p * 64 + 20 + c;
    lemma_plain_sum_position(p, c);
    let aj = candidate(n1, n2, n3, j);
    reveal_with_fuel(power_of, 2);
    lemma_orderings_are_dice(n1, n2, n3, p);
    assert(a.z.power <= 3);
    lemma_operand_fits(a.z.number, a.z.power);
    assert(aj.op1 == Op::Subtract && aj.op2 == Op::Add);
    assert(aj.x.power == 0 && aj.y.power == 0);
    assert(operand_value(aj.x) == 1 && operand_value(aj.y) == 1);
    assert(aj.z == a.z);
    assert(a.op1 == Op::Divide);
    assert(k / 1536 == 3);
    j
}

/// The step of the first operator of a stored expression never divides by
/// zero or leaves a remainder, nor does the step of the second.
pub proof fn lemma_no_bad_division(n1: u8, n2: u8, n3: u8, b: Map<u8, Answer>)
    requires
        is_die(n1),
        is_die(n2),
        is_die(n3),
        is_search_board(b, n1, n2, n3),
    ensures
        forall|t: u8| #[trigger]
            b.contains_key(t) ==> {
                let a = b[t];
                let xv = operand_value(a.x);
                let yv = operand_value(a.y);
                &&& !is_bad_division(a.op1, xv, yv)
                &&& !is_bad_division(a.op2, apply(a.op1, xv, yv), operand_value(a.z))
            },
{
    assert forall|t: u8| #[trigger] b.contains_key(t) implies {
        let a = b[t];
        let xv = operand_value(a.x);
        let yv = operand_value(a.y);
        &&& !is_bad_division(a.op1, xv, yv)
        &&& !is_bad_division(a.op2, apply(a.op1, xv, yv), operand_value(a.z))
    } by {
        let k = choose|k: int|
            k < SEARCH_LENGTH as int && #[trigger] is_first_reach(n1, n2, n3, t, k) && b[t] == candidate(n1, n2, n3, k);
        let a = candidate(n1, n2, n3, k);
        if is_bad_division(a.op1, operand_value(a.x), operand_value(a.y)) {
            let j = lemma_bad_first_step_is_late(n1, n2, n3, k);
            assert(value_at(n1, n2, n3, j) != t);
        }
    }
}

} // verus!
