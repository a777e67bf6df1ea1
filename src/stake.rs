//! Stake distributions with exact stake fractions, and the quorums of a committee
//! drawn from them.
use vstd::prelude::*;
use vstd::arithmetic::power::pow;
use num_bigint::BigInt;
use num_rational::BigRational;
use itertools::Itertools;
use crate::exact::{big_add, big_clone, big_from, big_mul, big_pow, big_lt, int_value, ratio_new, represents};

verus! {

/// Every node holds the same share of stake.
pub struct UniformStakeDistribution(pub usize);

impl UniformStakeDistribution {
    pub fn new(num_nodes: usize) -> (r: Self)
        ensures
            r.0 == num_nodes,
    {
        UniformStakeDistribution(num_nodes)
    }

    pub fn num_nodes(&self) -> (r: usize)
        ensures
            r == self.0,
    {
        self.0
    }

    /// The stake of each node as an integer weight: one each, out of `num_nodes`.
    pub fn weights(&self) -> (r: Vec<BigInt>)
        ensures
            r@.len() == self.0,
            forall|i: int| 0 <= i < r@.len() ==> #[trigger] int_value(r@[i]) == 1,
            non_negative(r@),
            weight_sum(r@) == self.0,
    {
        let mut v: Vec<BigInt> = Vec::new();
        let mut i: usize = 0;
        while i < self.0
            invariant
                i <= self.0,
                v@.len() == i,
                forall|j: int| 0 <= j < v@.len() ==> #[trigger] int_value(v@[j]) == 1,
                weight_sum(v@) == i,
            decreases self.0 - i,
        {
            let one = big_from(1);
            proof {
                assert(v@.push(one).drop_last() == v@);
            }
            v.push(one);
            i = i + 1;
        }
        v
    }

    /// `1 / num_nodes` for a node in range, zero otherwise.
    pub fn stake_of(&self, node: usize) -> (r: BigRational)
        ensures
            node < self.0 ==> represents(r, 1, self.0 as int),
            node >= self.0 ==> represents(r, 0, 1),
    {
        if node < self.0 {
            ratio_new(big_from(1), big_from(self.0 as u64))
        } else {
            ratio_new(big_from(0), big_from(1))
        }
    }
}

/// Node `i` holds the share `p * (1 - p)^i` with `p = p_num / p_den`, except the last
/// node, which holds all that remains: `(1 - p)^(num_nodes - 1)`.
pub struct ExponentialStakeDistribution {
    pub num_nodes: usize,
    pub p_num: u32,
    pub p_den: u32,
}

/// Sum of the uniform shares of nodes `0..k` among `n`, over the denominator `n`.
pub open spec fn uniform_prefix(n: nat, k: nat) -> int
    decreases k,
{
    if k == 0 {
        0
    } else {
        uniform_prefix(n, (k - 1) as nat) + if k - 1 < n { 1int } else { 0int }
    }
}

/// The uniform shares of all `n` nodes add up to exactly one: `n` numerators of one over `n`.
pub proof fn lemma_uniform_sums_to_one(n: nat)
    ensures
        uniform_prefix(n, n) == n,
{
    lemma_uniform_prefix(n, n);
}

proof fn lemma_uniform_prefix(n: nat, k: nat)
    requires
        k <= n,
    ensures
        uniform_prefix(n, k) == k,
    decreases k,
{
    if k > 0 {
        lemma_uniform_prefix(n, (k - 1) as nat);
    }
}

/// Share of `node` in the truncated geometric distribution, as a numerator over
/// `d^(num_nodes - 1)`: `a * (d - a)^node * d^(num_nodes - 2 - node)` before the last node,
/// `(d - a)^(num_nodes - 1)` for the last node, zero beyond.
pub open spec fn geometric_weight(num_nodes: nat, a: int, d: int, node: nat) -> int {
    if node >= num_nodes {
        0
    } else if node == num_nodes - 1 {
        pow(d - a, node)
    } else {
        a * pow(d - a, node) * pow(d, (num_nodes - 2 - node) as nat)
    }
}

/// Sum of the shares of nodes `0..k`, over `d^(num_nodes - 1)`.
pub open spec fn geometric_prefix(num_nodes: nat, a: int, d: int, k: nat) -> int
    decreases k,
{
    if k == 0 {
        0
    } else {
        geometric_prefix(num_nodes, a, d, (k - 1) as nat) + geometric_weight(num_nodes, a, d, (k - 1) as nat)
    }
}

proof fn lemma_geometric_prefix(num_nodes: nat, a: int, d: int, k: nat)
    requires
        k < num_nodes,
    ensures
        geometric_prefix(num_nodes, a, d, k)
            == pow(d, (num_nodes - 1 - k) as nat) * (pow(d, k) - pow(d - a, k)),
    decreases k,
{
    let b = d - a;
    let m = (num_nodes - 1) as nat;
    if k > 0 {
        let j = (k - 1) as nat;
        lemma_geometric_prefix(num_nodes, a, d, j);
        let e = (m - k) as nat;
        let de = pow(d, e);
        assert(pow(d, (m - j) as nat) == d * de) by {
            vstd::arithmetic::power::lemma_pow_adds(d, 1, e);
            vstd::arithmetic::power::lemma_pow1(d);
        }
        assert(pow(d, k) == d * pow(d, j)) by {
            vstd::arithmetic::power::lemma_pow_adds(d, 1, j);
            vstd::arithmetic::power::lemma_pow1(d);
        }
        assert(pow(b, k) == b * pow(b, j)) by {
            vstd::arithmetic::power::lemma_pow_adds(b, 1, j);
            vstd::arithmetic::power::lemma_pow1(b);
        }
        assert(geometric_weight(num_nodes, a, d, j) == a * pow(b, j) * de);
        let dj = pow(d, j);
        let bj = pow(b, j);
        assert((d * de) * (dj - bj) + a * bj * de == de * (d * dj - (d - a) * bj)) by (nonlinear_arith);
        assert(geometric_prefix(num_nodes, a, d, k) == geometric_prefix(num_nodes, a, d, j) + geometric_weight(num_nodes, a, d, j));
        assert(geometric_prefix(num_nodes, a, d, j) == (d * de) * (dj - bj));
        assert(geometric_prefix(num_nodes, a, d, k) == de * (pow(d, k) - pow(b, k)));
    } else {
        vstd::arithmetic::power::lemma_pow0(d);
        vstd::arithmetic::power::lemma_pow0(b);
        assert(pow(d, 0) == 1 && pow(b, 0) == 1);
        let z = pow(d, 0) - pow(b, 0);
        let x = pow(d, m);
        assert(x * z == 0) by (nonlinear_arith)
            requires z == 0;
    }
}

/// The shares of a truncated geometric distribution add up to exactly one: their
/// numerators over `d^(num_nodes - 1)` add up to that denominator.
pub proof fn lemma_geometric_sums_to_one(num_nodes: nat, a: int, d: int)
    requires
        0 < num_nodes,
    ensures
        geometric_prefix(num_nodes, a, d, num_nodes) == pow(d, (num_nodes - 1) as nat),
{
    let m = (num_nodes - 1) as nat;
    lemma_geometric_prefix(num_nodes, a, d, m);
    vstd::arithmetic::power::lemma_pow0(d);
    assert(geometric_prefix(num_nodes, a, d, m) == pow(d, m) - pow(d - a, m));
}

impl ExponentialStakeDistribution {
    pub open spec fn wf(&self) -> bool {
        0 < self.num_nodes && 0 < self.p_num < self.p_den && self.num_nodes <= 0xffff_ffff
    }

    pub fn new(num_nodes: usize, p_num: u32, p_den: u32) -> (r: Self)
        requires
            0 < num_nodes <= 0xffff_ffff,
            0 < p_num < p_den,
        ensures
            r.wf(),
            r.num_nodes == num_nodes,
            r.p_num == p_num,
            r.p_den == p_den,
    {
        ExponentialStakeDistribution { num_nodes, p_num, p_den }
    }

    pub fn num_nodes(&self) -> (r: usize)
        ensures
            r == self.num_nodes,
    {
        self.num_nodes
    }

    /// Whether the last node's share, `(1 - p)^(num_nodes - 1)`, exceeds the first node's, `p`.
    pub fn tail_heavier_than_head(&self) -> (r: bool)
        requires
            self.wf(),
        ensures
            r == (pow(self.p_den - self.p_num, (self.num_nodes - 1) as nat) * self.p_den
                > self.p_num * pow(self.p_den as int, (self.num_nodes - 1) as nat)),
    {
        let e = (self.num_nodes - 1) as u32;
        let a = big_from(self.p_num as u64);
        let d = big_from(self.p_den as u64);
        let b = big_from((self.p_den - self.p_num) as u64);
        let tail = big_pow(&b, e);
        let lhs = big_mul(&tail, &d);
        let de = big_pow(&d, e);
        let rhs = big_mul(&a, &de);
        big_lt(&rhs, &lhs)
    }

    /// The stake of each node as an integer weight out of `p_den^(num_nodes - 1)`.
    pub fn weights(&self) -> (r: Vec<BigInt>)
        requires
            self.wf(),
        ensures
            r@.len() == self.num_nodes,
            forall|i: int| 0 <= i < r@.len() ==> #[trigger] int_value(r@[i])
                == geometric_weight(self.num_nodes as nat, self.p_num as int, self.p_den as int, i as nat),
            non_negative(r@),
            weight_sum(r@) == pow(self.p_den as int, (self.num_nodes - 1) as nat),
    {
        let ghost n = self.num_nodes as nat;
        let ghost a = self.p_num as int;
        let ghost d = self.p_den as int;
        let mut v: Vec<BigInt> = Vec::new();
        let mut i: usize = 0;
        while i < self.num_nodes
            invariant
                self.wf(),
                n == self.num_nodes as nat,
                a == self.p_num as int,
                d == self.p_den as int,
                i <= self.num_nodes,
                v@.len() == i,
                forall|j: int| 0 <= j < v@.len() ==> #[trigger] int_value(v@[j]) == geometric_weight(n, a, d, j as nat),
                non_negative(v@),
                weight_sum(v@) == geometric_prefix(n, a, d, i as nat),
            decreases self.num_nodes - i,
        {
            let w = self.weight_of(i);
            proof {
                assert(v@.push(w).drop_last() == v@);
                lemma_geometric_weight_non_negative(n, a, d, i as nat);
                assert(v@.push(w)[i as int] == w);
            }
            v.push(w);
            proof {
                assert(weight_sum(v@) == weight_sum(v@.drop_last()) + int_value(w));
            }
            i = i + 1;
        }
        proof {
            lemma_geometric_sums_to_one(n, a, d);
        }
        v
    }

    /// The integer weight of `node` out of `p_den^(num_nodes - 1)`.
    fn weight_of(&self, node: usize) -> (r: BigInt)
        requires
            self.wf(),
            node < self.num_nodes,
        ensures
            int_value(r) == geometric_weight(self.num_nodes as nat, self.p_num as int, self.p_den as int, node as nat),
    {
        let d = big_from(self.p_den as u64);
        let b = big_from((self.p_den - self.p_num) as u64);
        let last = (self.num_nodes - 1) as u32;
        let e = node as u32;
        let bn = big_pow(&b, e);
        if node == self.num_nodes - 1 {
            bn
        } else {
            let a = big_from(self.p_num as u64);
            let ab = big_mul(&a, &bn);
            let rest = big_pow(&d, last - 1 - e);
            big_mul(&ab, &rest)
        }
    }

    /// The exact share of stake held by `node`; zero out of range.
    pub fn stake_of(&self, node: usize) -> (r: BigRational)
        requires
            self.wf(),
        ensures
            represents(
                r,
                geometric_weight(self.num_nodes as nat, self.p_num as int, self.p_den as int, node as nat),
                pow(self.p_den as int, (self.num_nodes - 1) as nat),
            ),
    {
        let d = big_from(self.p_den as u64);
        let last = (self.num_nodes - 1) as u32;
        proof {
            vstd::arithmetic::power::lemma_pow_positive(self.p_den as int, last as nat);
        }
        let den = big_pow(&d, last);
        if node >= self.num_nodes {
            return ratio_new(big_from(0), den);
        }
        ratio_new(self.weight_of(node), den)
    }
}

proof fn lemma_geometric_weight_non_negative(num_nodes: nat, a: int, d: int, node: nat)
    requires
        0 < a < d,
    ensures
        geometric_weight(num_nodes, a, d, node) >= 0,
{
    if node < num_nodes {
        vstd::arithmetic::power::lemma_pow_positive(d - a, node);
        vstd::arithmetic::power::lemma_pow_positive(d, (num_nodes - 2 - node) as nat);
        let x = pow(d - a, node);
        let y = pow(d, (num_nodes - 2 - node) as nat);
        assert(a * x * y >= 0) by (nonlinear_arith)
            requires a > 0, x > 0, y > 0;
    }
}

/// Sum of the integers that `s` holds.
pub open spec fn weight_sum(s: Seq<BigInt>) -> int
    decreases s.len(),
{
    if s.len() == 0 {
        0
    } else {
        weight_sum(s.drop_last()) + int_value(s.last())
    }
}

/// A table whose `n` weights all equal `w > 0` gives every node the uniform share
/// `1 / n`: its total is `n * w`, and `w / (n * w) = 1 / n`.
pub proof fn lemma_equal_table_is_uniform(s: Seq<BigInt>, w: int)
    requires
        w > 0,
        forall|i: int| 0 <= i < s.len() ==> #[trigger] int_value(s[i]) == w,
    ensures
        weight_sum(s) == s.len() * w,
        forall|i: int| 0 <= i < s.len() ==> #[trigger] int_value(s[i]) * s.len() == 1 * weight_sum(s),
    decreases s.len(),
{
    if s.len() > 0 {
        let t = s.drop_last();
        assert forall|i: int| 0 <= i < t.len() implies #[trigger] int_value(t[i]) == w by {
            assert(t[i] == s[i]);
        }
        lemma_equal_table_is_uniform(t, w);
        assert(weight_sum(s) == t.len() * w + w);
        assert(t.len() * w + w == s.len() * w) by (nonlinear_arith)
            requires t.len() + 1 == s.len();
    }
    assert forall|i: int| 0 <= i < s.len() implies #[trigger] int_value(s[i]) * s.len() == 1 * weight_sum(s) by {
        assert(w * s.len() == s.len() * w) by (nonlinear_arith);
    }
}

/// Every weight of `s` is at least zero.
pub open spec fn non_negative(s: Seq<BigInt>) -> bool {
    forall|i: int| 0 <= i < s.len() ==> #[trigger] int_value(s[i]) >= 0
}

/// Sum of the first `n` weights of `s`.
pub open spec fn prefix_weight(s: Seq<BigInt>, n: int) -> int {
    weight_sum(s.take(n))
}

/// A table of integer stakes, one per node; node `i` holds `weights[i] / total`.
pub struct CustomStakeDistribution {
    pub weights: Vec<BigInt>,
    pub total: BigInt,
}

impl CustomStakeDistribution {
    pub open spec fn wf(&self) -> bool {
        &&& int_value(self.total) == weight_sum(self.weights@)
        &&& int_value(self.total) > 0
        &&& non_negative(self.weights@)
    }

    /// The table of `weights`, or `None` when one of them is negative or they sum to zero.
    pub fn from_weights(weights: Vec<BigInt>) -> (r: Option<Self>)
        ensures
            match r {
                Some(d) => d.wf() && d.weights@ == weights@,
                None => !non_negative(weights@) || weight_sum(weights@) <= 0,
            },
    {
        let zero = big_from(0);
        let mut total = big_from(0);
        let mut i: usize = 0;
        while i < weights.len()
            invariant
                i <= weights@.len(),
                int_value(zero) == 0,
                int_value(total) == weight_sum(weights@.take(i as int)),
                non_negative(weights@.take(i as int)),
            decreases weights@.len() - i,
        {
            assert(weights@.take(i as int + 1).drop_last() == weights@.take(i as int));
            if big_lt(&weights[i], &zero) {
                assert(!non_negative(weights@)) by {
                    assert(int_value(weights@[i as int]) < 0);
                }
                return None;
            }
            assert(non_negative(weights@.take(i as int + 1))) by {
                assert forall|j: int| 0 <= j < i + 1 implies #[trigger] int_value(weights@.take(i as int + 1)[j]) >= 0 by {
                    if j < i {
                        assert(weights@.take(i as int + 1)[j] == weights@.take(i as int)[j]);
                    }
                }
            }
            total = big_add(&total, &weights[i]);
            i = i + 1;
        }
        assert(weights@.take(i as int) == weights@);
        if big_lt(&zero, &total) {
            Some(CustomStakeDistribution { weights, total })
        } else {
            None
        }
    }

    pub fn num_nodes(&self) -> (r: usize)
        ensures
            r == self.weights@.len(),
    {
        self.weights.len()
    }

    /// `weights[node] / total`; zero out of range.
    pub fn stake_of(&self, node: usize) -> (r: BigRational)
        requires
            self.wf(),
        ensures
            represents(
                r,
                if node < self.weights@.len() { int_value(self.weights@[node as int]) } else { 0 },
                int_value(self.total),
            ),
    {
        let num = if node < self.weights.len() {
            big_clone(&self.weights[node])
        } else {
            big_from(0)
        };
        let den = big_clone(&self.total);
        ratio_new(num, den)
    }

    /// The node picked by `draw`, a number in `0..total`; see [`sample_node`].
    pub fn sample(&self, draw: &BigInt) -> (r: usize)
        requires
            self.wf(),
            0 <= int_value(*draw) < int_value(self.total),
        ensures
            r < self.weights@.len(),
            prefix_weight(self.weights@, r as int + 1) > int_value(*draw),
            forall|j: int| 0 <= j < r ==> #[trigger] prefix_weight(self.weights@, j + 1) <= int_value(*draw),
    {
        sample_node(&self.weights, draw)
    }
}

/// The sum of `weights`.
pub fn total_weight(weights: &Vec<BigInt>) -> (r: BigInt)
    ensures
        int_value(r) == weight_sum(weights@),
{
    let mut total = big_from(0);
    let mut i: usize = 0;
    while i < weights.len()
        invariant
            i <= weights@.len(),
            int_value(total) == weight_sum(weights@.take(i as int)),
        decreases weights@.len() - i,
    {
        assert(weights@.take(i as int + 1).drop_last() == weights@.take(i as int));
        total = big_add(&total, &weights[i]);
        i = i + 1;
    }
    assert(weights@.take(i as int) == weights@);
    total
}

/// The node picked by `draw`, a number in `0..total` of the integer stake `weights`:
/// the first node whose running sum of weights exceeds `draw`. A uniform `draw` picks
/// each node with probability equal to its stake.
pub fn sample_node(weights: &Vec<BigInt>, draw: &BigInt) -> (r: usize)
    requires
        0 <= int_value(*draw) < weight_sum(weights@),
    ensures
        r < weights@.len(),
        prefix_weight(weights@, r as int + 1) > int_value(*draw),
        forall|j: int| 0 <= j < r ==> #[trigger] prefix_weight(weights@, j + 1) <= int_value(*draw),
{
    let mut acc = big_from(0);
    let mut i: usize = 0;
    while i < weights.len()
        invariant
            i <= weights@.len(),
            0 <= int_value(*draw) < weight_sum(weights@),
            int_value(acc) == weight_sum(weights@.take(i as int)),
            int_value(acc) <= int_value(*draw),
            forall|j: int| 0 <= j < i ==> #[trigger] prefix_weight(weights@, j + 1) <= int_value(*draw),
        decreases weights@.len() - i,
    {
        assert(weights@.take(i as int + 1).drop_last() == weights@.take(i as int));
        acc = big_add(&acc, &weights[i]);
        if big_lt(draw, &acc) {
            return i;
        }
        i = i + 1;
    }
    assert(weights@.take(i as int) == weights@);
    // The running sum has reached the total, which exceeds the draw.
    assert(false);
    0
}

/// Relies on `Itertools::unique`: each node of `v` once, none other.
#[verifier::external_body]
fn unique_nodes(v: &[usize]) -> (r: Vec<usize>)
    ensures
        r@.to_set() == v@.to_set(),
        r@.no_duplicates(),
{
    v.iter().unique().copied().collect()
}

/// Seats in the poorest third of a committee of `size` seats, rounded up.
pub open spec fn weak_seats(size: nat) -> nat {
    ((size + 2) / 3) as nat
}

/// Seats in the poorest two thirds of a committee of `size` seats: `size - floor(size / 3)`.
pub open spec fn strong_seats(size: nat) -> nat {
    (size - size / 3) as nat
}

/// The integer weight of `node`.
pub open spec fn node_weight(weights: Seq<BigInt>, node: usize) -> int {
    int_value(weights[node as int])
}

/// Every seat of `nodes` names a node of `weights`.
pub open spec fn in_range(weights: Seq<BigInt>, nodes: Seq<usize>) -> bool {
    forall|i: int| 0 <= i < nodes.len() ==> #[trigger] nodes[i] < weights.len()
}

/// The seats of `nodes` are ordered by ascending weight.
pub open spec fn sorted_by_weight(weights: Seq<BigInt>, nodes: Seq<usize>) -> bool {
    forall|i: int, j: int| 0 <= i <= j < nodes.len()
        ==> #[trigger] node_weight(weights, nodes[i]) <= #[trigger] node_weight(weights, nodes[j])
}

/// Sum of the weights of the nodes below `v` that hold a seat in `seats`, each once.
pub open spec fn distinct_weight_below(weights: Seq<BigInt>, seats: Seq<usize>, v: nat) -> int
    decreases v,
{
    if v == 0 {
        0
    } else {
        distinct_weight_below(weights, seats, (v - 1) as nat)
            + if seats.contains((v - 1) as usize) { int_value(weights[v - 1]) } else { 0 }
    }
}

/// Sum of the weights of the distinct nodes that hold a seat in `seats`.
pub open spec fn distinct_weight(weights: Seq<BigInt>, seats: Seq<usize>) -> int {
    distinct_weight_below(weights, seats, weights.len())
}

/// Sum of the weights of the distinct nodes in `seats`.
fn seats_weight(weights: &Vec<BigInt>, seats: &[usize]) -> (r: BigInt)
    requires
        in_range(weights@, seats@),
    ensures
        int_value(r) == distinct_weight(weights@, seats@),
{
    let mut mark: Vec<bool> = Vec::new();
    let mut v: usize = 0;
    while v < weights.len()
        invariant
            v <= weights@.len(),
            mark@.len() == v,
            forall|x: int| 0 <= x < v ==> !#[trigger] mark@[x],
        decreases weights@.len() - v,
    {
        mark.push(false);
        v = v + 1;
    }
    let mut i: usize = 0;
    while i < seats.len()
        invariant
            i <= seats@.len(),
            in_range(weights@, seats@),
            mark@.len() == weights@.len(),
            forall|x: usize| x < mark@.len() ==> #[trigger] mark@[x as int] == seats@.take(i as int).contains(x),
        decreases seats@.len() - i,
    {
        let ghost before = seats@.take(i as int);
        let s = seats[i];
        mark.set(s, true);
        proof {
            let after = seats@.take(i as int + 1);
            assert(after == before.push(s));
            assert forall|x: usize| x < mark@.len() implies #[trigger] mark@[x as int] == after.contains(x) by {
                if after.contains(x) {
                    let k = choose|k: int| 0 <= k < after.len() && after[k] == x;
                    if k < i {
                        assert(before[k] == x);
                    }
                }
                if before.contains(x) {
                    let k = choose|k: int| 0 <= k < before.len() && before[k] == x;
                    assert(after[k] == x);
                }
                if x == s {
                    assert(after[i as int] == s);
                }
            }
        }
        i = i + 1;
    }
    assert(seats@.take(i as int) == seats@);
    let mut total = big_from(0);
    let mut v: usize = 0;
    while v < weights.len()
        invariant
            v <= weights@.len(),
            mark@.len() == weights@.len(),
            forall|x: usize| x < mark@.len() ==> #[trigger] mark@[x as int] == seats@.contains(x),
            int_value(total) == distinct_weight_below(weights@, seats@, v as nat),
        decreases weights@.len() - v,
    {
        if mark[v] {
            total = big_add(&total, &weights[v]);
        }
        v = v + 1;
    }
    total
}

/// A committee: the node behind each seat, poorest first.
pub struct ValidatorSample {
    pub nodes: Vec<usize>,
}

impl ValidatorSample {
    /// The committee whose seats are the drawn nodes `draws`, ordered by ascending
    /// stake weight.
    pub fn new(draws: Vec<usize>, weights: &Vec<BigInt>) -> (r: Self)
        requires
            in_range(weights@, draws@),
        ensures
            r.nodes@.to_multiset() == draws@.to_multiset(),
            sorted_by_weight(weights@, r.nodes@),
            in_range(weights@, r.nodes@),
    {
        broadcast use vstd::seq_lib::group_to_multiset_ensures;
        let ghost orig = draws@;
        let mut rest = draws;
        let mut out: Vec<usize> = Vec::new();
        while rest.len() > 0
            invariant
                in_range(weights@, rest@),
                in_range(weights@, out@),
                out@.to_multiset().add(rest@.to_multiset()) == orig.to_multiset(),
                sorted_by_weight(weights@, out@),
                forall|i: int, j: int| 0 <= i < out@.len() && 0 <= j < rest@.len()
                    ==> #[trigger] node_weight(weights@, out@[i]) <= #[trigger] node_weight(weights@, rest@[j]),
            decreases rest@.len(),
        {
            let mut m: usize = 0;
            let mut k: usize = 1;
            while k < rest.len()
                invariant
                    m < rest@.len(),
                    1 <= k <= rest@.len(),
                    in_range(weights@, rest@),
                    forall|j: int| 0 <= j < k ==> node_weight(weights@, rest@[m as int]) <= #[trigger] node_weight(weights@, rest@[j]),
                decreases rest@.len() - k,
            {
                if big_lt(&weights[rest[k]], &weights[rest[m]]) {
                    m = k;
                }
                k = k + 1;
            }
            let ghost old_rest = rest@;
            let ghost old_out = out@;
            let x = rest.remove(m);
            out.push(x);
            proof {
                assert(old_rest[m as int] == x);
                old_rest.to_multiset_ensures();
                old_out.to_multiset_ensures();
                assert(old_rest.contains(x));
                assert(old_rest.to_multiset().count(x) > 0);
                assert(out@.to_multiset() == old_out.to_multiset().insert(x));
                assert(rest@.to_multiset() == old_rest.to_multiset().remove(x));
                assert(out@.to_multiset().add(rest@.to_multiset()) =~= old_out.to_multiset().add(old_rest.to_multiset()));
                assert forall|j: int| 0 <= j < rest@.len() implies #[trigger] rest@[j] < weights@.len()
                    && node_weight(weights@, x) <= node_weight(weights@, rest@[j]) by {
                    if j < m {
                        assert(rest@[j] == old_rest[j]);
                    } else {
                        assert(rest@[j] == old_rest[j + 1]);
                    }
                }
                assert forall|i: int| 0 <= i < out@.len() implies #[trigger] out@[i] < weights@.len() by {
                    if i < old_out.len() {
                        assert(out@[i] == old_out[i]);
                    }
                }
                assert forall|i: int, j: int| 0 <= i <= j < out@.len()
                    implies #[trigger] node_weight(weights@, out@[i]) <= #[trigger] node_weight(weights@, out@[j]) by {
                    if j == old_out.len() {
                        if i < j {
                            assert(out@[i] == old_out[i]);
                        }
                    } else {
                        assert(out@[i] == old_out[i]);
                        assert(out@[j] == old_out[j]);
                    }
                }
                assert forall|i: int, j: int| 0 <= i < out@.len() && 0 <= j < rest@.len()
                    implies #[trigger] node_weight(weights@, out@[i]) <= #[trigger] node_weight(weights@, rest@[j]) by {
                    let jj = if j < m { j } else { j + 1 };
                    assert(rest@[j] == old_rest[jj]);
                    if i < old_out.len() {
                        assert(out@[i] == old_out[i]);
                    }
                }
            }
        }
        proof {
            rest@.to_multiset_ensures();
        }
        assert(rest@.to_multiset() =~= vstd::multiset::Multiset::empty());
        assert(out@.to_multiset() =~= orig.to_multiset());
        ValidatorSample { nodes: out }
    }

    /// Weight of the distinct nodes holding at least one seat.
    pub fn total_stake(&self, weights: &Vec<BigInt>) -> (r: BigInt)
        requires
            in_range(weights@, self.nodes@),
        ensures
            int_value(r) == distinct_weight(weights@, self.nodes@),
    {
        seats_weight(weights, self.nodes.as_slice())
    }

    /// Weight of the distinct nodes among the poorest `ceil(size / 3)` seats.
    pub fn weak_quorum_stake(&self, weights: &Vec<BigInt>) -> (r: BigInt)
        requires
            in_range(weights@, self.nodes@),
        ensures
            int_value(r) == distinct_weight(weights@, self.nodes@.take(weak_seats(self.nodes@.len()) as int)),
    {
        let len = self.nodes.len();
        let m = len / 3 + if len % 3 == 0 { 0 } else { 1 };
        let seats = vstd::slice::slice_subrange(self.nodes.as_slice(), 0, m);
        assert(seats@ == self.nodes@.take(weak_seats(self.nodes@.len()) as int));
        seats_weight(weights, seats)
    }

    /// Weight of the distinct nodes among the poorest `size - floor(size / 3)` seats.
    pub fn strong_quorum_stake(&self, weights: &Vec<BigInt>) -> (r: BigInt)
        requires
            in_range(weights@, self.nodes@),
        ensures
            int_value(r) == distinct_weight(weights@, self.nodes@.take(strong_seats(self.nodes@.len()) as int)),
    {
        let len = self.nodes.len();
        let m = len - len / 3;
        let seats = vstd::slice::slice_subrange(self.nodes.as_slice(), 0, m);
        assert(seats@ == self.nodes@.take(strong_seats(self.nodes@.len()) as int));
        seats_weight(weights, seats)
    }

    /// Distinct nodes holding at least one seat.
    pub fn total_nodes(&self) -> (r: Vec<usize>)
        ensures
            r@.to_set() == self.nodes@.to_set(),
            r@.no_duplicates(),
    {
        unique_nodes(self.nodes.as_slice())
    }

    /// Distinct nodes among the poorest `ceil(size / 3)` seats.
    pub fn weak_quorum_nodes(&self) -> (r: Vec<usize>)
        ensures
            r@.to_set() == self.nodes@.take(weak_seats(self.nodes@.len()) as int).to_set(),
            r@.no_duplicates(),
    {
        let len = self.nodes.len();
        let m = len / 3 + if len % 3 == 0 { 0 } else { 1 };
        let seats = vstd::slice::slice_subrange(self.nodes.as_slice(), 0, m);
        assert(seats@ == self.nodes@.take(weak_seats(self.nodes@.len()) as int));
        unique_nodes(seats)
    }

    /// Distinct nodes among the poorest `size - floor(size / 3)` seats.
    pub fn strong_quorum_nodes(&self) -> (r: Vec<usize>)
        ensures
            r@.to_set() == self.nodes@.take(strong_seats(self.nodes@.len()) as int).to_set(),
            r@.no_duplicates(),
    {
        let len = self.nodes.len();
        let m = len - len / 3;
        let seats = vstd::slice::slice_subrange(self.nodes.as_slice(), 0, m);
        assert(seats@ == self.nodes@.take(strong_seats(self.nodes@.len()) as int));
        unique_nodes(seats)
    }
}

/// Every node of the weak quorum of a committee also stands in its strong quorum.
pub proof fn lemma_weak_quorum_within_strong(nodes: Seq<usize>)
    ensures
        nodes.take(weak_seats(nodes.len()) as int).to_set().subset_of(
            nodes.take(strong_seats(nodes.len()) as int).to_set(),
        ),
{
    let w = weak_seats(nodes.len()) as int;
    let s = strong_seats(nodes.len()) as int;
    assert(w <= s);
    assert forall|x: usize| nodes.take(w).to_set().contains(x) implies nodes.take(s).to_set().contains(x) by {
        let i = choose|i: int| 0 <= i < nodes.take(w).len() && nodes.take(w)[i] == x;
        assert(nodes.take(s)[i] == x);
    }
}

proof fn lemma_distinct_weight_monotone(weights: Seq<BigInt>, a: Seq<usize>, b: Seq<usize>, v: nat)
    requires
        non_negative(weights),
        v <= weights.len(),
        forall|x: usize| a.contains(x) ==> b.contains(x),
    ensures
        distinct_weight_below(weights, a, v) <= distinct_weight_below(weights, b, v),
    decreases v,
{
    if v > 0 {
        lemma_distinct_weight_monotone(weights, a, b, (v - 1) as nat);
        assert(int_value(weights[v - 1]) >= 0);
    }
}

/// In every committee, the strong quorum's stake is at least the weak quorum's: the
/// poorest two thirds of the seats hold every node of the poorest third, and no
/// weight is negative.
pub proof fn lemma_strong_quorum_stake_covers_weak(weights: Seq<BigInt>, nodes: Seq<usize>)
    requires
        non_negative(weights),
    ensures
        distinct_weight(weights, nodes.take(weak_seats(nodes.len()) as int))
            <= distinct_weight(weights, nodes.take(strong_seats(nodes.len()) as int)),
{
    lemma_weak_quorum_within_strong(nodes);
    let a = nodes.take(weak_seats(nodes.len()) as int);
    let b = nodes.take(strong_seats(nodes.len()) as int);
    assert forall|x: usize| a.contains(x) implies b.contains(x) by {
        assert(a.to_set().contains(x));
    }
    lemma_distinct_weight_monotone(weights, a, b, weights.len());
}

} // verus!
