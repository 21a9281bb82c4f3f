//! Combinatorics of partitions used to express the Chern classes of the dual
//! bundle through monomial symmetric functions.
use vstd::prelude::*;

verus! {

pub open spec fn sum(p: Seq<u32>) -> int
    decreases p.len(),
{
    if p.len() == 0 {
        0
    } else {
        p[0] + sum(p.skip(1))
    }
}

/// `p` is a partition of `weight` into exactly `length` positive parts,
/// listed from the largest down.
pub open spec fn is_partition(p: Seq<u32>, weight: nat, length: nat) -> bool {
    &&& p.len() == length
    &&& forall|i: int| 0 <= i < p.len() ==> 1 <= #[trigger] p[i]
    &&& forall|i: int, j: int| 0 <= i < j < p.len() ==> #[trigger] p[i] >= #[trigger] p[j]
    &&& sum(p) == weight
}

/// A list of positive parts sums to at least its length.
proof fn lemma_sum_at_least_len(p: Seq<u32>)
    requires
        forall|i: int| 0 <= i < p.len() ==> 1 <= #[trigger] p[i],
    ensures
        sum(p) >= p.len(),
    decreases p.len(),
{
    if p.len() > 0 {
        assert forall|i: int| 0 <= i < p.skip(1).len() implies 1 <= #[trigger] p.skip(1)[i] by {
            assert(p.skip(1)[i] == p[i + 1]);
        }
        lemma_sum_at_least_len(p.skip(1));
    }
}

/// `[x] + p` is a partition exactly when `p` is one with parts at most `x`.
proof fn lemma_partition_cons(x: u32, p: Seq<u32>, weight: nat, length: nat)
    requires
        length >= 1,
        x >= 1,
        weight >= x,
    ensures
        is_partition(seq![x] + p, weight, length) <==> (is_partition(p, (weight - x) as nat, (
        length - 1) as nat) && (p.len() > 0 ==> p[0] <= x)),
{
    let q = seq![x] + p;
    assert(q.skip(1) =~= p);
    assert(q[0] == x);
    if is_partition(q, weight, length) {
        assert forall|i: int| 0 <= i < p.len() implies 1 <= #[trigger] p[i] by {
            assert(q[i + 1] == p[i]);
        }
        assert forall|i: int, j: int| 0 <= i < j < p.len() implies #[trigger] p[i] >= #[trigger] p[j] by {
            assert(q[i + 1] == p[i]);
            assert(q[j + 1] == p[j]);
        }
        if p.len() > 0 {
            assert(q[1] == p[0]);
        }
    }
    if is_partition(p, (weight - x) as nat, (length - 1) as nat) && (p.len() > 0 ==> p[0] <= x) {
        assert forall|i: int| 0 <= i < q.len() implies 1 <= #[trigger] q[i] by {
            if i > 0 {
                assert(q[i] == p[i - 1]);
            }
        }
        assert forall|i: int, j: int| 0 <= i < j < q.len() implies #[trigger] q[i] >= #[trigger] q[j] by {
            assert(q[j] == p[j - 1]);
            if i > 0 {
                assert(q[i] == p[i - 1]);
            } else if j > 1 {
                assert(p[0] >= p[j - 1]);
            }
        }
    }
}

/// `[x] + v`.
fn prepend(x: u32, v: &Vec<u32>) -> (r: Vec<u32>)
    ensures
        r@ == seq![x] + v@,
{
    let mut r: Vec<u32> = Vec::new();
    r.push(x);
    let mut i: usize = 0;
    while i < v.len()
        invariant
            0 <= i <= v@.len(),
            r@ == seq![x] + v@.subrange(0, i as int),
        decreases v@.len() - i,
    {
        r.push(v[i]);
        assert(v@.subrange(0, i + 1) =~= v@.subrange(0, i as int).push(v@[i as int]));
        assert(seq![x] + v@.subrange(0, i + 1) =~= (seq![x] + v@.subrange(0, i as int)).push(
            v@[i as int],
        ));
        i = i + 1;
    }
    assert(v@.subrange(0, v@.len() as int) =~= v@);
    r
}

/// Every partition of `weight` into exactly `length` positive parts, each
/// listed from the largest part down, each once.
pub fn partitions(weight: u32, length: u32) -> (r: Vec<Vec<u32>>)
    requires
        1 <= length <= weight,
    ensures
        forall|i: int| 0 <= i < r@.len() ==> is_partition(#[trigger] r@[i]@, weight as nat, length as nat),
        forall|i: int, j: int| 0 <= i < j < r@.len() ==> #[trigger] r@[i]@ != #[trigger] r@[j]@,
        forall|p: Seq<u32>|
            is_partition(p, weight as nat, length as nat) ==> exists|i: int|
                0 <= i < r@.len() && #[trigger] r@[i]@ == p,
    decreases length,
{
    if length == 1 {
        let mut r: Vec<Vec<u32>> = Vec::new();
        let mut single: Vec<u32> = Vec::new();
        single.push(weight);
        r.push(single);
        proof {
            let q = seq![weight];
            assert(r@[0]@ =~= q);
            assert(q.skip(1) =~= Seq::<u32>::empty());
            assert(sum(q.skip(1)) == 0);
            assert(sum(q) == weight);
            assert forall|p: Seq<u32>| is_partition(p, weight as nat, 1) implies exists|i: int|
                0 <= i < r@.len() && #[trigger] r@[i]@ == p by {
                assert(p.skip(1) =~= Seq::<u32>::empty());
                assert(p =~= q);
                assert(r@[0]@ == p);
            }
        }
        return r;
    }
    let mut r: Vec<Vec<u32>> = Vec::new();
    let mut i: u32 = 1;
    while i <= weight - length + 1
        invariant
            2 <= length <= weight,
            1 <= i <= weight - length + 2,
            forall|l: int| 0 <= l < r@.len() ==> is_partition(#[trigger] r@[l]@, weight as nat, length as nat),
            forall|l: int| 0 <= l < r@.len() ==> #[trigger] r@[l]@[0] < i,
            forall|l: int, m: int| 0 <= l < m < r@.len() ==> #[trigger] r@[l]@ != #[trigger] r@[m]@,
            forall|p: Seq<u32>|
                is_partition(p, weight as nat, length as nat) && p[0] < i ==> exists|l: int|
                    0 <= l < r@.len() && #[trigger] r@[l]@ == p,
        decreases weight - length + 2 - i,
    {
        let sub = partitions(weight - i, length - 1);
        let ghost start = r@.len();
        let mut j: usize = 0;
        while j < sub.len()
            invariant
                2 <= length <= weight,
                1 <= i <= weight - length + 1,
                start <= r@.len(),
                forall|l: int| 0 <= l < sub@.len() ==> is_partition(#[trigger] sub@[l]@, (weight - i) as nat, (length - 1) as nat),
                forall|l: int, m: int| 0 <= l < m < sub@.len() ==> #[trigger] sub@[l]@ != #[trigger] sub@[m]@,
                forall|l: int| 0 <= l < r@.len() ==> is_partition(#[trigger] r@[l]@, weight as nat, length as nat),
                forall|l: int| 0 <= l < start ==> #[trigger] r@[l]@[0] < i,
                forall|l: int| start <= l < r@.len() ==> #[trigger] r@[l]@[0] == i,
                forall|l: int| start <= l < r@.len() ==> exists|m: int| 0 <= m < j && #[trigger] sub@[m]@ == (#[trigger] r@[l])@.skip(1),
                forall|l: int, m: int| 0 <= l < m < r@.len() ==> #[trigger] r@[l]@ != #[trigger] r@[m]@,
                forall|m: int| 0 <= m < j && sub@[m]@[0] <= i ==> exists|l: int|
                    0 <= l < r@.len() && #[trigger] r@[l]@ == seq![i] + #[trigger] sub@[m]@,
                forall|p: Seq<u32>|
                    is_partition(p, weight as nat, length as nat) && p[0] < i ==> exists|l: int|
                        0 <= l < r@.len() && #[trigger] r@[l]@ == p,
            decreases sub@.len() - j,
        {
            if sub[j][0] <= i {
                let p = prepend(i, &sub[j]);
                proof {
                    lemma_partition_cons(i, sub@[j as int]@, weight as nat, length as nat);
                    assert(p@.skip(1) =~= sub@[j as int]@);
                    assert forall|l: int| 0 <= l < r@.len() implies #[trigger] r@[l]@ != p@ by {
                        if l >= start {
                            let m = choose|m: int| 0 <= m < j && #[trigger] sub@[m]@ == (#[trigger] r@[l])@.skip(1);
                            if r@[l]@ == p@ {
                                assert(sub@[m]@ == sub@[j as int]@);
                            }
                        } else {
                            assert(p@[0] == i);
                        }
                    }
                }
                let ghost before = r@;
                r.push(p);
                proof {
                    let n = r@.len() - 1;
                    assert forall|l: int| 0 <= l < n implies #[trigger] r@[l] == before[l] by {}
                    assert forall|m: int| 0 <= m < j + 1 && sub@[m]@[0] <= i implies exists|l: int|
                        0 <= l < r@.len() && #[trigger] r@[l]@ == seq![i] + #[trigger] sub@[m]@ by {
                        if m < j {
                            let l = choose|l: int| 0 <= l < before.len() && #[trigger] before[l]@ == seq![i] + sub@[m]@;
                            assert(r@[l] == before[l]);
                        } else {
                            assert(r@[n]@ == seq![i] + sub@[m]@);
                        }
                    }
                    assert forall|q: Seq<u32>|
                        is_partition(q, weight as nat, length as nat) && q[0] < i implies exists|l: int|
                            0 <= l < r@.len() && #[trigger] r@[l]@ == q by {
                        let l = choose|l: int| 0 <= l < before.len() && #[trigger] before[l]@ == q;
                        assert(r@[l] == before[l]);
                    }
                    assert(r@[n]@ == p@);
                    assert forall|l: int| start <= l < r@.len() implies exists|m: int|
                        0 <= m < j + 1 && #[trigger] sub@[m]@ == (#[trigger] r@[l])@.skip(1) by {
                        if l == n {
                            assert(sub@[j as int]@ == r@[l]@.skip(1));
                        }
                    }
                }
            }
            j = j + 1;
        }
        proof {
            assert forall|p: Seq<u32>|
                is_partition(p, weight as nat, length as nat) && p[0] < i + 1 implies exists|l: int|
                    0 <= l < r@.len() && #[trigger] r@[l]@ == p by {
                if p[0] == i {
                    let rest = p.skip(1);
                    assert(p =~= seq![i] + rest);
                    lemma_partition_cons(i, rest, weight as nat, length as nat);
                    let m = choose|m: int| 0 <= m < sub@.len() && #[trigger] sub@[m]@ == rest;
                    assert(rest[0] == p[1]);
                }
            }
        }
        i = i + 1;
    }
    proof {
        assert forall|p: Seq<u32>| is_partition(p, weight as nat, length as nat) implies exists|l: int|
            0 <= l < r@.len() && #[trigger] r@[l]@ == p by {
            let rest = p.skip(1);
            assert(p =~= seq![p[0]] + rest);
            assert(sum(p) == p[0] + sum(rest));
            assert forall|l: int| 0 <= l < rest.len() implies 1 <= #[trigger] rest[l] by {
                assert(rest[l] == p[l + 1]);
            }
            lemma_sum_at_least_len(rest);
        }
    }
    r
}

/// `n` choose `k`, by `C(n, 0) = 1` and `C(n, k) = n * C(n - 1, k - 1) / k`.
pub open spec fn binomial(n: nat, k: nat) -> nat
    decreases k,
{
    if k == 0 {
        1
    } else {
        n * binomial((n - 1) as nat, (k - 1) as nat) / k
    }
}

/// Every intermediate product `n * C(n - 1, k - 1)` of the recursion fits in
/// 32 bits.
pub open spec fn binom_fits(n: nat, k: nat) -> bool
    decreases k,
{
    k == 0 || (n * binomial((n - 1) as nat, (k - 1) as nat) <= u32::MAX && binom_fits(
        (n - 1) as nat,
        (k - 1) as nat,
    ))
}

/// `n` choose `k`.
pub fn binom(n: u32, k: u32) -> (r: u32)
    requires
        k <= n,
        binom_fits(n as nat, k as nat),
    ensures
        r == binomial(n as nat, k as nat),
    decreases k,
{
    if k == 0 {
        1
    } else {
        let b = binom(n - 1, k - 1);
        n * b / k
    }
}

/// The position where the run of entries equal to `s[0]` that starts at or
/// before `i` ends.
pub open spec fn lead_from(s: Seq<u32>, i: nat) -> nat
    decreases s.len() - i,
{
    if 0 < i < s.len() && s[i as int] == s[0] {
        lead_from(s, i + 1)
    } else {
        i
    }
}

/// The length of the leading run of entries equal to the first one.
pub open spec fn lead(s: Seq<u32>) -> nat {
    if s.len() == 0 {
        0
    } else {
        lead_from(s, 1)
    }
}

proof fn lemma_lead_from(s: Seq<u32>, i: nat)
    requires
        1 <= i <= s.len(),
        forall|j: int| 0 <= j < i ==> #[trigger] s[j] == s[0],
    ensures
        i <= lead_from(s, i) <= s.len(),
        forall|j: int| 0 <= j < lead_from(s, i) ==> #[trigger] s[j] == s[0],
        lead_from(s, i) < s.len() ==> s[lead_from(s, i) as int] != s[0],
    decreases s.len() - i,
{
    if i < s.len() && s[i as int] == s[0] {
        lemma_lead_from(s, i + 1);
    }
}

/// The leading run of a non-empty sequence: its length, and that it is
/// maximal.
pub proof fn lemma_lead(s: Seq<u32>)
    requires
        s.len() > 0,
    ensures
        1 <= lead(s) <= s.len(),
        forall|j: int| 0 <= j < lead(s) ==> #[trigger] s[j] == s[0],
        lead(s) < s.len() ==> s[lead(s) as int] != s[0],
{
    lemma_lead_from(s, 1);
}

/// The number of ways the partition `jr` (zero-padded to the length of `jn`)
/// grows into its neighbour `jn` by adding one to distinct parts: runs of
/// equal parts are matched up, and a run of `jn` that keeps the value of the
/// run of `jr` contributes a binomial factor.
pub open spec fn multiplicity(jn: Seq<u32>, jr: Seq<u32>) -> nat
    decreases jn.len(),
{
    let ln = lead(jn);
    let lr = lead(jr);
    if jn.len() == 0 || jr.len() != jn.len() || ln < 1 || ln > jn.len() {
        1
    } else {
        let rest = multiplicity(jn.skip(ln as int), jr.skip(ln as int));
        if jn[0] > jr[0] {
            rest
        } else {
            binomial(ln, lr) * rest
        }
    }
}

/// `jn` is a neighbour of `jr` of the same length, run by run, as
/// `do_neighbour_multiplicity` checks it, and the multiplicity fits in 32 bits.
pub open spec fn neighbouring(jn: Seq<u32>, jr: Seq<u32>) -> bool
    decreases jn.len(),
{
    let ln = lead(jn);
    let lr = lead(jr);
    jn.len() == 0 || {
        &&& jr.len() == jn.len()
        &&& 1 <= ln <= jn.len()
        &&& forall|i: int| 0 <= i < jr.len() ==> #[trigger] jr[i] < u32::MAX
        &&& jn[0] == jr[0] || jn[0] == jr[0] + 1
        &&& jn[0] > jr[0] ==> ln <= lr
        &&& jn[0] <= jr[0] ==> {
            &&& lr <= ln
            &&& forall|i: int| lr <= i < ln ==> #[trigger] jn[i] == jr[i] + 1
            &&& binom_fits(ln, lr)
            &&& binomial(ln, lr) * multiplicity(jn.skip(ln as int), jr.skip(ln as int)) <= u32::MAX
        }
        &&& neighbouring(jn.skip(ln as int), jr.skip(ln as int))
    }
}

/// `jr` followed by zeros up to length `len`.
pub open spec fn padded(jr: Seq<u32>, len: nat) -> Seq<u32> {
    jr + Seq::new((len - jr.len()) as nat, |i: int| 0u32)
}

/// The length of the leading run of a slice.
fn lead_len(s: &[u32]) -> (r: usize)
    requires
        s@.len() > 0,
    ensures
        r == lead(s@),
{
    let mut i: usize = 1;
    while i < s.len() && s[i] == s[0]
        invariant
            1 <= i <= s@.len(),
            lead(s@) == lead_from(s@, i as nat),
        decreases s@.len() - i,
    {
        i = i + 1;
    }
    i
}

/// The multiplicity with which the neighbour `jn` arises from `jr`, after
/// `jr` is padded with zeros to the length of `jn`.
pub fn neighbour_multiplicity(jn: &[u32], jr: &[u32]) -> (r: u32)
    requires
        jr@.len() <= jn@.len() <= u32::MAX,
        neighbouring(jn@, padded(jr@, jn@.len())),
    ensures
        r == multiplicity(jn@, padded(jr@, jn@.len())),
    decreases jn@.len(), 1nat,
{
    let mut full: Vec<u32> = Vec::new();
    let mut i: usize = 0;
    while i < jn.len()
        invariant
            jr@.len() <= jn@.len(),
            0 <= i <= jn@.len(),
            full@ == padded(jr@, jn@.len()).subrange(0, i as int),
        decreases jn@.len() - i,
    {
        if i < jr.len() {
            full.push(jr[i]);
        } else {
            full.push(0);
        }
        assert(padded(jr@, jn@.len()).subrange(0, i + 1) =~= full@);
        i = i + 1;
    }
    assert(padded(jr@, jn@.len()).subrange(0, jn@.len() as int) =~= padded(jr@, jn@.len()));
    do_neighbour_multiplicity(jn, full.as_slice())
}

/// The multiplicity with which the neighbour `jn` arises from `jr`, both of
/// the same length.
pub fn do_neighbour_multiplicity(jn: &[u32], jr: &[u32]) -> (r: u32)
    requires
        neighbouring(jn@, jr@),
        jn@.len() == jr@.len() <= u32::MAX,
    ensures
        r == multiplicity(jn@, jr@),
    decreases jn@.len(), 0nat,
{
    if jn.len() == 0 {
        return 1;
    }
    proof {
        lemma_lead(jn@);
        lemma_lead(jr@);
    }
    let lead_n = lead_len(jn);
    let lead_r = lead_len(jr);
    let rest_n = &jn[lead_n..jn.len()];
    let rest_r = &jr[lead_n..jr.len()];
    assert(rest_n@ =~= jn@.skip(lead_n as int));
    assert(rest_r@ =~= jr@.skip(lead_n as int));
    assert(padded(rest_r@, rest_n@.len()) =~= rest_r@);
    let rest = neighbour_multiplicity(rest_n, rest_r);
    if jn[0] > jr[0] {
        rest
    } else {
        binom(lead_n as u32, lead_r as u32) * rest
    }
}

/// `x` inserted into the non-increasing sequence `s` before its first part
/// not larger than `x`: the descending sort of `[x] + s`.
pub open spec fn insert_desc(x: u32, s: Seq<u32>) -> Seq<u32>
    decreases s.len(),
{
    if s.len() == 0 || x >= s[0] {
        seq![x] + s
    } else {
        seq![s[0]] + insert_desc(x, s.skip(1))
    }
}

/// The parts are non-increasing.
pub open spec fn descending(s: Seq<u32>) -> bool {
    forall|i: int, j: int| 0 <= i < j < s.len() ==> #[trigger] s[i] >= #[trigger] s[j]
}

/// The neighbours of `jr` with `k` parts: each part of `jr` either grows by
/// one or stays, and the parts that remain of the `k` are ones; the parts are
/// kept in descending order.
pub open spec fn neighbour_set(jr: Seq<u32>, k: nat) -> Set<Seq<u32>>
    decreases jr.len(),
{
    if jr.len() == 0 {
        set![Seq::new(k, |i: int| 1u32)]
    } else {
        let rest = jr.skip(1);
        let grown = neighbour_set(rest, (k - 1) as nat);
        let kept = neighbour_set(rest, k);
        grown.map(|jn: Seq<u32>| seq![(jr[0] + 1) as u32] + jn).union(
            kept.map(|jn: Seq<u32>| insert_desc(jr[0], jn)),
        )
    }
}

/// Some list of `r` equals `s`.
pub open spec fn listed(r: Seq<Vec<u32>>, s: Seq<u32>) -> bool {
    exists|l: int| 0 <= l < r.len() && #[trigger] r[l]@ == s
}

/// `s` is `f` of one of the first `n` lists of `xs`.
pub open spec fn image_of_prefix(
    xs: Seq<Vec<u32>>,
    n: int,
    f: spec_fn(Seq<u32>) -> Seq<u32>,
    s: Seq<u32>,
) -> bool {
    exists|a: int| 0 <= a < n && #[trigger] f(xs[a]@) == s
}

/// Whether two lists of parts are equal.
fn same_parts(a: &Vec<u32>, b: &Vec<u32>) -> (r: bool)
    ensures
        r == (a@ == b@),
{
    if a.len() != b.len() {
        return false;
    }
    let mut i: usize = 0;
    while i < a.len()
        invariant
            a@.len() == b@.len(),
            0 <= i <= a@.len(),
            forall|j: int| 0 <= j < i ==> a@[j] == b@[j],
        decreases a@.len() - i,
    {
        if a[i] != b[i] {
            return false;
        }
        i = i + 1;
    }
    assert(a@ =~= b@);
    true
}

/// Appends `v` to `r` unless an equal list is already there.
fn push_new(r: &mut Vec<Vec<u32>>, v: Vec<u32>)
    requires
        forall|l: int, m: int| 0 <= l < m < old(r)@.len() ==> #[trigger] old(r)@[l]@ != #[trigger] old(r)@[m]@,
    ensures
        forall|l: int, m: int| 0 <= l < m < final(r)@.len() ==> #[trigger] final(r)@[l]@ != #[trigger] final(r)@[m]@,
        forall|s: Seq<u32>| #[trigger] listed(final(r)@, s) <==> (listed(old(r)@, s) || s == v@),
{
    let mut i: usize = 0;
    while i < r.len()
        invariant
            0 <= i <= r@.len(),
            r@ == old(r)@,
            forall|l: int| 0 <= l < i ==> #[trigger] r@[l]@ != v@,
            forall|l: int, m: int| 0 <= l < m < r@.len() ==> #[trigger] r@[l]@ != #[trigger] r@[m]@,
        decreases r@.len() - i,
    {
        if same_parts(&r[i], &v) {
            proof {
                assert(r@[i as int]@ == v@);
                assert forall|s: Seq<u32>| #[trigger] listed(r@, s) <==> (listed(old(r)@, s) || s == v@) by {
                    if s == v@ {
                        assert(r@[i as int]@ == s);
                    }
                }
            }
            return;
        }
        i = i + 1;
    }
    let ghost before = r@;
    r.push(v);
    proof {
        assert forall|s: Seq<u32>| #[trigger] listed(r@, s) <==> (listed(before, s) || s == v@) by {
            if exists|l: int| 0 <= l < r@.len() && #[trigger] r@[l]@ == s {
                let l = choose|l: int| 0 <= l < r@.len() && #[trigger] r@[l]@ == s;
                if l < before.len() {
                    assert(before[l] == r@[l]);
                }
            }
            if exists|l: int| 0 <= l < before.len() && #[trigger] before[l]@ == s {
                let l = choose|l: int| 0 <= l < before.len() && #[trigger] before[l]@ == s;
                assert(r@[l] == before[l]);
            }
            if s == v@ {
                assert(r@[before.len() as int]@ == s);
            }
        }
        assert forall|l: int, m: int| 0 <= l < m < r@.len() implies #[trigger] r@[l]@ != #[trigger] r@[m]@ by {
            if m == before.len() {
                assert(r@[l] == before[l]);
            } else {
                assert(r@[l] == before[l]);
                assert(r@[m] == before[m]);
            }
        }
    }
}

/// `x` inserted into the non-increasing list `v` by descending order.
fn insert_sorted(x: u32, v: &Vec<u32>) -> (r: Vec<u32>)
    ensures
        r@ == insert_desc(x, v@),
{
    let mut r: Vec<u32> = Vec::new();
    let mut i: usize = 0;
    assert(v@.skip(0) =~= v@);
    assert(v@.take(0) + insert_desc(x, v@) =~= insert_desc(x, v@));
    while i < v.len() && v[i] > x
        invariant
            0 <= i <= v@.len(),
            r@ == v@.take(i as int),
            insert_desc(x, v@) == v@.take(i as int) + insert_desc(x, v@.skip(i as int)),
        decreases v@.len() - i,
    {
        proof {
            assert(v@.skip(i as int).skip(1) =~= v@.skip(i + 1));
            assert(v@.take(i + 1) =~= v@.take(i as int) + seq![v@[i as int]]);
            assert(insert_desc(x, v@.skip(i as int)) == seq![v@[i as int]] + insert_desc(x, v@.skip(i + 1)));
            assert(v@.take(i as int) + (seq![v@[i as int]] + insert_desc(x, v@.skip(i + 1))) =~= v@.take(i + 1) + insert_desc(x, v@.skip(i + 1)));
        }
        r.push(v[i]);
        i = i + 1;
    }
    r.push(x);
    let ghost mid = i;
    while i < v.len()
        invariant
            mid <= i <= v@.len(),
            r@ == v@.take(mid as int) + seq![x] + v@.subrange(mid as int, i as int),
        decreases v@.len() - i,
    {
        r.push(v[i]);
        proof {
            assert(v@.subrange(mid as int, i + 1) =~= v@.subrange(mid as int, i as int).push(v@[i as int]));
        }
        i = i + 1;
    }
    proof {
        assert(v@.subrange(mid as int, v@.len() as int) =~= v@.skip(mid as int));
        assert(insert_desc(x, v@.skip(mid as int)) == seq![x] + v@.skip(mid as int));
        assert(v@.take(mid as int) + seq![x] + v@.skip(mid as int) =~= v@.take(mid as int) + (seq![x] + v@.skip(mid as int)));
    }
    r
}

/// The distinct neighbours of the partition `jr` with `k` parts.
pub fn neighbours(jr: &[u32], k: usize) -> (r: Vec<Vec<u32>>)
    requires
        jr@.len() <= k,
        forall|i: int| 0 <= i < jr@.len() ==> #[trigger] jr@[i] < u32::MAX,
    ensures
        forall|l: int, m: int| 0 <= l < m < r@.len() ==> #[trigger] r@[l]@ != #[trigger] r@[m]@,
        forall|s: Seq<u32>| #[trigger] neighbour_set(jr@, k as nat).contains(s) <==> listed(r@, s),
    decreases jr@.len(),
{
    if jr.len() == 0 {
        let mut ones: Vec<u32> = Vec::new();
        let mut i: usize = 0;
        while i < k
            invariant
                0 <= i <= k,
                ones@ == Seq::new(i as nat, |j: int| 1u32),
            decreases k - i,
        {
            ones.push(1);
            assert(ones@ =~= Seq::new((i + 1) as nat, |j: int| 1u32));
            i = i + 1;
        }
        let mut r: Vec<Vec<u32>> = Vec::new();
        r.push(ones);
        proof {
            assert forall|s: Seq<u32>| #[trigger] neighbour_set(jr@, k as nat).contains(s) <==> listed(r@, s) by {
                if s == Seq::new(k as nat, |j: int| 1u32) {
                    assert(r@[0]@ == s);
                }
            }
        }
        return r;
    }
    let rest = &jr[1..jr.len()];
    let ghost rs = jr@.skip(1);
    assert(rest@ =~= rs);
    let first = jr[0];
    let grown = neighbours(rest, k - 1);
    let kept = neighbours(rest, k);
    let ghost f = |jn: Seq<u32>| seq![(jr@[0] + 1) as u32] + jn;
    let ghost g = |jn: Seq<u32>| insert_desc(jr@[0], jn);
    let mut r: Vec<Vec<u32>> = Vec::new();
    let mut i: usize = 0;
    while i < grown.len()
        invariant
            0 <= i <= grown@.len(),
            first == jr@[0],
            first < u32::MAX,
            f == (|jn: Seq<u32>| seq![(jr@[0] + 1) as u32] + jn),
            forall|l: int, m: int| 0 <= l < m < r@.len() ==> #[trigger] r@[l]@ != #[trigger] r@[m]@,
            forall|s: Seq<u32>| #[trigger] listed(r@, s) <==> image_of_prefix(grown@, i as int, f, s),
        decreases grown@.len() - i,
    {
        let v = prepend(first + 1, &grown[i]);
        let ghost before = r@;
        push_new(&mut r, v);
        proof {
            assert forall|s: Seq<u32>| #[trigger] listed(r@, s) <==> image_of_prefix(grown@, i + 1, f, s) by {
                if s == v@ {
                    assert(f(grown@[i as int]@) == s);
                }
                if image_of_prefix(grown@, i + 1, f, s) {
                    let a = choose|a: int| 0 <= a < i + 1 && #[trigger] f(grown@[a]@) == s;
                    if a == i {
                        assert(s == v@);
                    } else {
                        assert(image_of_prefix(grown@, i as int, f, s));
                    }
                }
                if image_of_prefix(grown@, i as int, f, s) {
                    let a = choose|a: int| 0 <= a < i && #[trigger] f(grown@[a]@) == s;
                    assert(image_of_prefix(grown@, i + 1, f, s));
                }
            }
        }
        i = i + 1;
    }
    let mut j: usize = 0;
    while j < kept.len()
        invariant
            0 <= j <= kept@.len(),
            i == grown@.len(),
            first == jr@[0],
            f == (|jn: Seq<u32>| seq![(jr@[0] + 1) as u32] + jn),
            g == (|jn: Seq<u32>| insert_desc(jr@[0], jn)),
            forall|l: int, m: int| 0 <= l < m < r@.len() ==> #[trigger] r@[l]@ != #[trigger] r@[m]@,
            forall|s: Seq<u32>| #[trigger] listed(r@, s) <==> (image_of_prefix(grown@, i as int, f, s) || image_of_prefix(kept@, j as int, g, s)),
        decreases kept@.len() - j,
    {
        let v = insert_sorted(first, &kept[j]);
        push_new(&mut r, v);
        proof {
            assert forall|s: Seq<u32>| #[trigger] listed(r@, s) <==> (image_of_prefix(grown@, i as int, f, s) || image_of_prefix(kept@, j + 1, g, s)) by {
                if s == v@ {
                    assert(g(kept@[j as int]@) == s);
                }
                if image_of_prefix(kept@, j + 1, g, s) {
                    let b = choose|b: int| 0 <= b < j + 1 && #[trigger] g(kept@[b]@) == s;
                    if b == j {
                        assert(s == v@);
                    } else {
                        assert(image_of_prefix(kept@, j as int, g, s));
                    }
                }
                if image_of_prefix(kept@, j as int, g, s) {
                    let b = choose|b: int| 0 <= b < j && #[trigger] g(kept@[b]@) == s;
                    assert(image_of_prefix(kept@, j + 1, g, s));
                }
            }
        }
        j = j + 1;
    }
    proof {
        assert forall|s: Seq<u32>| #[trigger] neighbour_set(jr@, k as nat).contains(s) <==> listed(r@, s) by {
            let gs = neighbour_set(rs, (k - 1) as nat);
            let ks = neighbour_set(rs, k as nat);
            assert(neighbour_set(jr@, k as nat) == gs.map(f).union(ks.map(g)));
            if gs.map(f).contains(s) {
                let x = choose|x: Seq<u32>| gs.contains(x) && f(x) == s;
                let a = choose|a: int| 0 <= a < grown@.len() && #[trigger] grown@[a]@ == x;
                assert(f(grown@[a]@) == s);
            }
            if ks.map(g).contains(s) {
                let x = choose|x: Seq<u32>| ks.contains(x) && g(x) == s;
                let b = choose|b: int| 0 <= b < kept@.len() && #[trigger] kept@[b]@ == x;
                assert(g(kept@[b]@) == s);
            }
            if image_of_prefix(grown@, i as int, f, s) {
                let a = choose|a: int| 0 <= a < i && #[trigger] f(grown@[a]@) == s;
                assert(gs.contains(grown@[a]@));
                assert(gs.map(f).contains(s));
            }
            if image_of_prefix(kept@, j as int, g, s) {
                let b = choose|b: int| 0 <= b < j && #[trigger] g(kept@[b]@) == s;
                assert(ks.contains(kept@[b]@));
                assert(ks.map(g).contains(s));
            }
        }
    }
    r
}

} // verus!
