use vstd::prelude::*;

verus! {

/// A strictly decreasing selection of `k` one-based indices, each in `1..=n`.
pub open spec fn is_comb(c: Seq<int>, n: int, k: int) -> bool {
    &&& c.len() == k
    &&& forall|i: int| 0 <= i < k ==> 1 <= #[trigger] c[i] <= n
    &&& forall|i: int, j: int| 0 <= i < j < k ==> #[trigger] c[i] > #[trigger] c[j]
}

/// The first selection: the `k` largest indices `[n, n-1, ..., n-k+1]`.
pub open spec fn first_comb(n: int, k: int) -> Seq<int> {
    Seq::new(k as nat, |i: int| n - i)
}

/// The smallest value that position `p` of a selection of size `k` can hold.
pub open spec fn floor_at(k: int, p: int) -> int {
    k - p
}

/// The rightmost position before `j` whose digit can still be lowered, or -1.
pub open spec fn pivot(c: Seq<int>, k: int, j: int) -> int
    decreases j,
{
    if j <= 0 {
        -1
    } else if c[j - 1] > floor_at(k, j - 1) {
        j - 1
    } else {
        pivot(c, k, j - 1)
    }
}

/// The odometer step: lower the rightmost digit that can be lowered and reset every digit
/// after it to one less than its left neighbour; `None` once no digit can be lowered.
pub open spec fn next_comb(c: Seq<int>, k: int) -> Option<Seq<int>> {
    let p = pivot(c, k, k);
    if p < 0 {
        None
    } else {
        Some(Seq::new(k as nat, |i: int| if i < p { c[i] } else { c[p] - 1 - (i - p) }))
    }
}

/// What the enumeration of `k`-subsets of `1..=n` holds after `i` steps.
pub open spec fn iterate(n: int, k: int, i: nat) -> Option<Seq<int>>
    decreases i,
{
    if i == 0 {
        if 1 <= k <= n {
            Some(first_comb(n, k))
        } else {
            None
        }
    } else {
        match iterate(n, k, (i - 1) as nat) {
            None => None,
            Some(c) => next_comb(c, k),
        }
    }
}

proof fn lemma_pivot_range(c: Seq<int>, k: int, j: int)
    ensures
        -1 <= pivot(c, k, j) < j || (j <= 0 && pivot(c, k, j) == -1),
        pivot(c, k, j) >= 0 ==> c[pivot(c, k, j)] > floor_at(k, pivot(c, k, j)),
        forall|q: int| pivot(c, k, j) < q < j ==> c[q] <= floor_at(k, q),
    decreases j,
{
    if j > 0 {
        lemma_pivot_range(c, k, j - 1);
    }
}

proof fn lemma_next_is_comb(c: Seq<int>, n: int, k: int)
    requires
        is_comb(c, n, k),
    ensures
        next_comb(c, k) matches Some(d) ==> is_comb(d, n, k),
{
    lemma_pivot_range(c, k, k);
    let p = pivot(c, k, k);
    if p >= 0 {
        let d = next_comb(c, k).unwrap();
        assert forall|i: int, j: int| 0 <= i < j < k implies #[trigger] d[i] > #[trigger] d[j] by {
            if j > p && i < p {
                assert(c[i] > c[p]);
            }
        }
    }
}

/// `a` and `b` agree before position `p` and `a` is greater at `p`.
pub open spec fn differs_first_at(a: Seq<int>, b: Seq<int>, p: int) -> bool {
    &&& 0 <= p < a.len()
    &&& a.len() == b.len()
    &&& forall|i: int| 0 <= i < p ==> a[i] == b[i]
    &&& a[p] > b[p]
}

/// `a` comes after `b` in lexicographic order.
pub open spec fn lex_greater(a: Seq<int>, b: Seq<int>) -> bool {
    exists|p: int| differs_first_at(a, b, p)
}

proof fn lemma_lex_trans(a: Seq<int>, b: Seq<int>, c: Seq<int>)
    requires
        lex_greater(a, b),
        lex_greater(b, c),
    ensures
        lex_greater(a, c),
{
    let p = choose|p: int| differs_first_at(a, b, p);
    let q = choose|q: int| differs_first_at(b, c, q);
    if p <= q {
        assert(differs_first_at(a, c, p));
    } else {
        assert(differs_first_at(a, c, q));
    }
}

proof fn lemma_lex_irreflexive(a: Seq<int>)
    ensures
        !lex_greater(a, a),
{
}

proof fn lemma_next_lex_smaller(c: Seq<int>, k: int)
    requires
        c.len() == k,
        next_comb(c, k) is Some,
    ensures
        lex_greater(c, next_comb(c, k).unwrap()),
{
    lemma_pivot_range(c, k, k);
    assert(differs_first_at(c, next_comb(c, k).unwrap(), pivot(c, k, k)));
}

/// Every step of the enumeration yields a selection.
pub proof fn lemma_iterate_is_comb(n: int, k: int, i: nat)
    ensures
        iterate(n, k, i) matches Some(c) ==> is_comb(c, n, k),
    decreases i,
{
    if i > 0 {
        lemma_iterate_is_comb(n, k, (i - 1) as nat);
        if let Some(c) = iterate(n, k, (i - 1) as nat) {
            lemma_next_is_comb(c, n, k);
        }
    }
}

/// Once the enumeration has ended it stays ended.
pub proof fn lemma_iterate_ended(n: int, k: int, i: nat, j: nat)
    requires
        i <= j,
        iterate(n, k, i) is None,
    ensures
        iterate(n, k, j) is None,
    decreases j - i,
{
    if i < j {
        lemma_iterate_ended(n, k, i, (j - 1) as nat);
    }
}

/// The enumeration moves strictly down the lexicographic order, so it never repeats itself.
pub proof fn lemma_iterate_decreasing(n: int, k: int, i: nat, j: nat)
    requires
        i < j,
        iterate(n, k, j) is Some,
    ensures
        iterate(n, k, i) is Some,
        lex_greater(iterate(n, k, i).unwrap(), iterate(n, k, j).unwrap()),
        iterate(n, k, i) != iterate(n, k, j),
    decreases j - i,
{
    let jm = (j - 1) as nat;
    if iterate(n, k, jm) is None {
        assert(iterate(n, k, j) is None);
    }
    lemma_iterate_is_comb(n, k, jm);
    lemma_next_lex_smaller(iterate(n, k, jm).unwrap(), k);
    if i < jm {
        lemma_iterate_decreasing(n, k, i, jm);
        lemma_lex_trans(iterate(n, k, i).unwrap(), iterate(n, k, jm).unwrap(), iterate(n, k, j).unwrap());
    }
    lemma_lex_irreflexive(iterate(n, k, j).unwrap());
}

/// The digits of `c` read as a number in base `base`, most significant first.
pub open spec fn odometer_value(c: Seq<int>, base: int) -> int
    decreases c.len(),
{
    if c.len() == 0 {
        0
    } else {
        odometer_value(c.drop_last(), base) * base + c.last()
    }
}

/// How far an enumeration is from its end: it drops at every step.
pub open spec fn progress(current: Option<Seq<int>>, n: int) -> int {
    match current {
        Some(c) => odometer_value(c, n + 1) + 1,
        None => 0,
    }
}

/// Every digit of `c` lies in `0..base`.
pub open spec fn digits_below(c: Seq<int>, base: int) -> bool {
    forall|i: int| 0 <= i < c.len() ==> 0 <= #[trigger] c[i] < base
}

proof fn lemma_value_bounds(c: Seq<int>, base: int)
    requires
        base >= 2,
        digits_below(c, base),
    ensures
        odometer_value(c, base) >= 0,
    decreases c.len(),
{
    if c.len() > 0 {
        assert(digits_below(c.drop_last(), base));
        lemma_value_bounds(c.drop_last(), base);
        let v = odometer_value(c.drop_last(), base);
        assert(v * base >= 0) by (nonlinear_arith)
            requires
                v >= 0,
                base >= 2,
        ;
    }
}

proof fn lemma_lex_value(a: Seq<int>, b: Seq<int>, p: int, base: int)
    requires
        base >= 2,
        digits_below(a, base),
        digits_below(b, base),
        differs_first_at(a, b, p),
    ensures
        odometer_value(a, base) > odometer_value(b, base),
    decreases a.len(),
{
    let a1 = a.drop_last();
    let b1 = b.drop_last();
    assert(digits_below(a1, base));
    assert(digits_below(b1, base));
    if p == a.len() - 1 {
        assert(a1 =~= b1);
    } else {
        assert(differs_first_at(a1, b1, p));
        lemma_lex_value(a1, b1, p, base);
        let va = odometer_value(a1, base);
        let vb = odometer_value(b1, base);
        let la = a.last();
        let lb = b.last();
        assert(va * base + la > vb * base + lb) by (nonlinear_arith)
            requires
                va >= vb + 1,
                base >= 2,
                0 <= la,
                lb < base,
        ;
    }
}

/// An enumeration step of a selection lowers its progress.
proof fn lemma_step_progress(c: Seq<int>, n: int, k: int)
    requires
        is_comb(c, n, k),
        n >= 1,
    ensures
        progress(next_comb(c, k), n) < progress(Some(c), n),
        progress(next_comb(c, k), n) >= 0,
        progress(Some(c), n) >= 1,
{
    assert(digits_below(c, n + 1));
    lemma_value_bounds(c, n + 1);
    if let Some(d) = next_comb(c, k) {
        lemma_next_is_comb(c, n, k);
        lemma_next_lex_smaller(c, k);
        assert(digits_below(d, n + 1));
        lemma_value_bounds(d, n + 1);
        let p = choose|p: int| differs_first_at(c, d, p);
        lemma_lex_value(c, d, p, n + 1);
    }
}

proof fn lemma_comb_shape(c: Seq<int>, n: int, k: int, p: int, i: int)
    requires
        is_comb(c, n, k),
        0 <= p <= i < k,
    ensures
        c[i] <= c[p] - (i - p),
        c[i] >= floor_at(k, i),
{
    lemma_comb_below(c, n, k, p, i);
    lemma_comb_floor(c, n, k, i);
}

proof fn lemma_comb_below(c: Seq<int>, n: int, k: int, p: int, i: int)
    requires
        is_comb(c, n, k),
        0 <= p <= i < k,
    ensures
        c[i] <= c[p] - (i - p),
    decreases i - p,
{
    if i > p {
        lemma_comb_below(c, n, k, p, i - 1);
        assert(c[i - 1] > c[i]);
    }
}

proof fn lemma_comb_floor(c: Seq<int>, n: int, k: int, i: int)
    requires
        is_comb(c, n, k),
        0 <= i < k,
    ensures
        c[i] >= floor_at(k, i),
    decreases k - i,
{
    if i < k - 1 {
        lemma_comb_floor(c, n, k, i + 1);
        assert(c[i] > c[i + 1]);
    }
}

proof fn lemma_pivot_at_least(c: Seq<int>, k: int, j: int, q: int)
    requires
        0 <= q < j,
        c[q] > floor_at(k, q),
    ensures
        pivot(c, k, j) >= q,
    decreases j,
{
    if j - 1 > q && !(c[j - 1] > floor_at(k, j - 1)) {
        lemma_pivot_at_least(c, k, j - 1, q);
    }
}

/// The first position at or after `i` where `a` and `b` differ, or their length.
pub open spec fn first_difference(a: Seq<int>, b: Seq<int>, i: int) -> int
    decreases a.len() - i,
{
    if i >= a.len() || i < 0 {
        a.len() as int
    } else if a[i] != b[i] {
        i
    } else {
        first_difference(a, b, i + 1)
    }
}

proof fn lemma_first_difference(a: Seq<int>, b: Seq<int>, i: int)
    requires
        a.len() == b.len(),
        0 <= i <= a.len(),
    ensures
        i <= first_difference(a, b, i) <= a.len(),
        forall|q: int| i <= q < first_difference(a, b, i) ==> a[q] == b[q],
        first_difference(a, b, i) < a.len() ==> a[first_difference(a, b, i)] != b[first_difference(a, b, i)],
    decreases a.len() - i,
{
    if i < a.len() && a[i] == b[i] {
        lemma_first_difference(a, b, i + 1);
    }
}

/// Two selections of the same length where `a` is nowhere below `b` after an agreeing
/// prefix: `a` is `b` or comes after it.
proof fn lemma_at_least(a: Seq<int>, b: Seq<int>, p: int)
    requires
        a.len() == b.len(),
        0 <= p <= a.len(),
        forall|i: int| 0 <= i < p ==> a[i] == b[i],
        forall|i: int| p <= i < a.len() ==> a[i] >= b[i],
    ensures
        a == b || lex_greater(a, b),
{
    lemma_first_difference(a, b, p);
    let d = first_difference(a, b, p);
    if d < a.len() {
        assert(differs_first_at(a, b, d));
    } else {
        assert(a =~= b);
    }
}

/// No selection lies strictly between a selection and the next one.
proof fn lemma_no_gap(e: Seq<int>, c: Seq<int>, n: int, k: int)
    requires
        is_comb(e, n, k),
        is_comb(c, n, k),
        lex_greater(e, c),
    ensures
        next_comb(e, k) matches Some(e2) && (e2 == c || lex_greater(e2, c)),
{
    let p = choose|p: int| differs_first_at(e, c, p);
    lemma_comb_shape(c, n, k, p, p);
    lemma_pivot_at_least(e, k, k, p);
    lemma_pivot_range(e, k, k);
    let j = pivot(e, k, k);
    let e2 = next_comb(e, k).unwrap();
    if j == p {
        if e2[p] > c[p] {
            assert(differs_first_at(e2, c, p));
        } else {
            assert forall|i: int| p <= i < k implies e2[i] >= c[i] by {
                lemma_comb_shape(c, n, k, p, i);
            }
            lemma_at_least(e2, c, p);
        }
    } else {
        assert(differs_first_at(e2, c, p));
    }
}

proof fn lemma_iterate_progress(n: int, k: int, i: nat)
    requires
        1 <= k <= n,
    ensures
        iterate(n, k, i) is Some ==> progress(iterate(n, k, i), n) + i <= progress(iterate(n, k, 0), n),
        iterate(n, k, i) is Some ==> progress(iterate(n, k, i), n) >= 1,
        progress(iterate(n, k, i), n) >= 0,
    decreases i,
{
    lemma_iterate_is_comb(n, k, i);
    if let Some(c) = iterate(n, k, i) {
        assert(digits_below(c, n + 1));
        lemma_value_bounds(c, n + 1);
    }
    if i > 0 {
        let im = (i - 1) as nat;
        lemma_iterate_progress(n, k, im);
        lemma_iterate_is_comb(n, k, im);
        if let Some(c) = iterate(n, k, im) {
            lemma_step_progress(c, n, k);
        }
    }
}

/// The enumeration of the `k`-subsets of `1..=n` yields only selections, never the same one
/// twice, reaches every selection, and ends after exactly `binomial(n, k)` of them.
pub proof fn lemma_enumeration_complete(n: int, k: int)
    requires
        1 <= k <= n,
    ensures
        forall|i: nat| i < binomial(n as nat, k as nat) ==> #[trigger] iterate(n, k, i) is Some,
        iterate(n, k, binomial(n as nat, k as nat)) is None,
        forall|i: nat| #[trigger] iterate(n, k, i) is Some ==> is_comb(iterate(n, k, i).unwrap(), n, k),
        forall|i: nat, j: nat| i < j && #[trigger] iterate(n, k, j) is Some ==> #[trigger] iterate(n, k, i) != iterate(n, k, j),
        forall|c: Seq<int>| is_comb(c, n, k) ==> exists|i: nat| #[trigger] iterate(n, k, i) == Some(c),
        exists|m: nat| #[trigger] iterate(n, k, m) is None,
{
    lemma_enumeration_count(n, k);
    assert forall|i: nat| #[trigger] iterate(n, k, i) is Some implies is_comb(iterate(n, k, i).unwrap(), n, k) by {
        lemma_iterate_is_comb(n, k, i);
    }
    assert forall|i: nat, j: nat| i < j && #[trigger] iterate(n, k, j) is Some implies #[trigger] iterate(n, k, i) != iterate(
        n,
        k,
        j,
    ) by {
        lemma_iterate_decreasing(n, k, i, j);
    }
    let m = progress(iterate(n, k, 0), n) as nat;
    lemma_iterate_progress(n, k, 0);
    lemma_iterate_progress(n, k, m);
    assert(iterate(n, k, m) is None);
    assert forall|c: Seq<int>| is_comb(c, n, k) implies exists|i: nat| #[trigger] iterate(n, k, i) == Some(c) by {
        lemma_reaches(n, k, c, m);
    }
}

proof fn lemma_reaches(n: int, k: int, c: Seq<int>, i: nat)
    requires
        1 <= k <= n,
        is_comb(c, n, k),
    ensures
        (exists|j: nat| j <= i && #[trigger] iterate(n, k, j) == Some(c)) || (iterate(n, k, i) matches Some(e)
            && lex_greater(e, c)),
    decreases i,
{
    if i == 0 {
        let f = first_comb(n, k);
        assert forall|q: int| 0 <= q < k implies f[q] >= c[q] by {
            lemma_comb_shape(c, n, k, 0, q);
        }
        lemma_at_least(f, c, 0);
        if f == c {
            assert(iterate(n, k, 0) == Some(c));
        }
    } else {
        let im = (i - 1) as nat;
        lemma_reaches(n, k, c, im);
        if !(exists|j: nat| j <= im && #[trigger] iterate(n, k, j) == Some(c)) {
            let e = iterate(n, k, im).unwrap();
            lemma_iterate_is_comb(n, k, im);
            lemma_no_gap(e, c, n, k);
            if iterate(n, k, i) == Some(c) {
                assert(iterate(n, k, i) == Some(c));
            }
        } else {
            let j = choose|j: nat| j <= im && #[trigger] iterate(n, k, j) == Some(c);
            assert(j <= i && iterate(n, k, j) == Some(c));
        }
    }
}

/// The number of ways to choose `k` items out of `n`.
pub open spec fn binomial(n: nat, k: nat) -> nat
    decreases n,
{
    if k == 0 {
        1
    } else if n == 0 {
        0
    } else {
        binomial((n - 1) as nat, (k - 1) as nat) + binomial((n - 1) as nat, k)
    }
}

proof fn lemma_binomial_beyond(n: nat, k: nat)
    requires
        k > n,
    ensures
        binomial(n, k) == 0,
    decreases n,
{
    if n > 0 {
        lemma_binomial_beyond((n - 1) as nat, (k - 1) as nat);
        lemma_binomial_beyond((n - 1) as nat, k);
    }
}

proof fn lemma_binomial_positive(n: nat, k: nat)
    requires
        k <= n,
    ensures
        binomial(n, k) >= 1,
    decreases n,
{
    if k > 0 {
        lemma_binomial_positive((n - 1) as nat, (k - 1) as nat);
    }
}

proof fn lemma_pivot_shift(c: Seq<int>, n: int, k: int, j: int)
    requires
        k >= 2,
        c.len() == k - 1,
        0 <= j <= k - 1,
    ensures
        pivot(seq![n] + c, k, j + 1) == if pivot(c, k - 1, j) >= 0 {
            pivot(c, k - 1, j) + 1
        } else if n > k {
            0
        } else {
            -1
        },
    decreases j,
{
    let s = seq![n] + c;
    assert(s[0] == n);
    assert(pivot(c, k - 1, 0) == -1);
    assert(pivot(s, k, 0) == -1);
    if j > 0 {
        lemma_pivot_shift(c, n, k, j - 1);
        assert(s[j] == c[j - 1]);
        assert(floor_at(k, j) == floor_at(k - 1, j - 1));
        assert(pivot(s, k, j + 1) == if s[j] > floor_at(k, j) { j } else { pivot(s, k, j) });
        assert(pivot(c, k - 1, j) == if c[j - 1] > floor_at(k - 1, j - 1) { j - 1 } else { pivot(c, k - 1, j - 1) });
    } else {
        assert(pivot(s, k, 1) == if s[0] > floor_at(k, 0) { 0 } else { pivot(s, k, 0) });
    }
}

/// The step after a selection that starts with `n` and continues with `c`.
proof fn lemma_next_prefixed(c: Seq<int>, n: int, k: int)
    requires
        k >= 2,
        c.len() == k - 1,
    ensures
        next_comb(seq![n] + c, k) == match next_comb(c, k - 1) {
            Some(d) => Some(seq![n] + d),
            None => if n > k {
                Some(first_comb(n - 1, k))
            } else {
                None
            },
        },
{
    let s = seq![n] + c;
    lemma_pivot_shift(c, n, k, k - 1);
    let pc = pivot(c, k - 1, k - 1);
    if pc >= 0 {
        let d = next_comb(c, k - 1).unwrap();
        assert(next_comb(s, k).unwrap() =~= seq![n] + d);
    } else if n > k {
        assert(next_comb(s, k).unwrap() =~= first_comb(n - 1, k));
    }
}

proof fn lemma_single(n: int, i: nat)
    requires
        1 <= n,
        i <= n,
    ensures
        i < n ==> iterate(n, 1, i) == Some(seq![n - i]),
        i == n ==> iterate(n, 1, i) is None,
    decreases i,
{
    if i == 0 {
        assert(first_comb(n, 1) =~= seq![n]);
    } else {
        lemma_single(n, (i - 1) as nat);
        let c = seq![n - (i - 1)];
        assert(pivot(c, 1, 0) == -1);
        if i < n {
            assert(next_comb(c, 1).unwrap() =~= seq![n - i]);
        }
    }
}

proof fn lemma_first_block(n: int, k: int, i: nat)
    requires
        2 <= k <= n,
        i < binomial((n - 1) as nat, (k - 1) as nat),
        forall|q: nat| q < binomial((n - 1) as nat, (k - 1) as nat) ==> #[trigger] iterate(n - 1, k - 1, q) is Some,
    ensures
        iterate(n, k, i) == Some(seq![n] + iterate(n - 1, k - 1, i).unwrap()),
    decreases i,
{
    if i == 0 {
        assert(first_comb(n, k) =~= seq![n] + first_comb(n - 1, k - 1));
    } else {
        let im = (i - 1) as nat;
        lemma_first_block(n, k, im);
        let c = iterate(n - 1, k - 1, im).unwrap();
        lemma_iterate_is_comb(n - 1, k - 1, im);
        lemma_next_prefixed(c, n, k);
        assert(iterate(n - 1, k - 1, i) is Some);
    }
}

proof fn lemma_second_block(n: int, k: int, a: nat, j: nat)
    requires
        2 <= k < n,
        iterate(n, k, a) == Some(first_comb(n - 1, k)),
    ensures
        iterate(n, k, a + j) == iterate(n - 1, k, j),
    decreases j,
{
    if j > 0 {
        lemma_second_block(n, k, a, (j - 1) as nat);
        assert((a + j - 1) as nat == a + (j - 1) as nat);
    }
}

proof fn lemma_enumeration_count(n: int, k: int)
    requires
        1 <= k <= n,
    ensures
        forall|i: nat| i < binomial(n as nat, k as nat) ==> #[trigger] iterate(n, k, i) is Some,
        iterate(n, k, binomial(n as nat, k as nat)) is None,
    decreases n,
{
    if k == 1 {
        assert(binomial(n as nat, 1) == n) by {
            lemma_binomial_one(n as nat);
        }
        assert forall|i: nat| i < binomial(n as nat, k as nat) implies #[trigger] iterate(n, k, i) is Some by {
            lemma_single(n, i);
        }
        lemma_single(n, n as nat);
    } else {
        let a = binomial((n - 1) as nat, (k - 1) as nat);
        let b = binomial((n - 1) as nat, k as nat);
        lemma_enumeration_count(n - 1, k - 1);
        lemma_binomial_positive((n - 1) as nat, (k - 1) as nat);
        let am = (a - 1) as nat;
        lemma_first_block(n, k, am);
        let c = iterate(n - 1, k - 1, am).unwrap();
        lemma_iterate_is_comb(n - 1, k - 1, am);
        lemma_next_prefixed(c, n, k);
        assert(iterate(n - 1, k - 1, a) is None);
        assert(iterate(n, k, a) == next_comb(seq![n] + c, k));
        assert forall|i: nat| i < a implies #[trigger] iterate(n, k, i) is Some by {
            lemma_first_block(n, k, i);
        }
        if k == n {
            lemma_binomial_beyond((n - 1) as nat, k as nat);
            assert(iterate(n, k, a) is None);
        } else {
            lemma_enumeration_count(n - 1, k);
            assert forall|i: nat| i < a + b implies #[trigger] iterate(n, k, i) is Some by {
                if i >= a {
                    lemma_second_block(n, k, a, (i - a) as nat);
                    assert(a + (i - a) as nat == i);
                }
            }
            lemma_second_block(n, k, a, b);
        }
    }
}

proof fn lemma_binomial_one(n: nat)
    ensures
        binomial(n, 1) == n,
    decreases n,
{
    if n > 0 {
        lemma_binomial_one((n - 1) as nat);
        assert(binomial((n - 1) as nat, 0) == 1);
        assert(binomial(n, 1) == binomial((n - 1) as nat, 0) + binomial((n - 1) as nat, 1));
    }
}

/// An ordered pool of items together with the size of the subsets to draw from it.
pub struct Combination<T> {
    pub data_list: Vec<T>,
    pub length_of_combination: usize,
}

impl<T> Combination<T> {
    pub fn new(data_list: Vec<T>, length_of_combination: usize) -> (r: Combination<T>)
        ensures
            r.data_list@ == data_list@,
            r.length_of_combination == length_of_combination,
    {
        Combination { data_list, length_of_combination }
    }

    /// Starts the enumeration of every subset of the pool of the requested size, which must
    /// be at least one; a size larger than the pool gives an empty enumeration.
    pub fn iter(&self) -> (r: CombIterator<'_, T>)
        requires
            self.length_of_combination >= 1,
        ensures
            r.wf(),
            r.pool() == self.data_list@,
            r.current() == iterate(self.data_list@.len() as int, self.length_of_combination as int, 0),
    {
        CombIterator::new(self)
    }
}

/// Walks the subsets of a pool; it borrows the pool and owns only its odometer.
pub struct CombIterator<'a, T> {
    comb: &'a Combination<T>,
    keys_list: Vec<usize>,
    keys_list_len: usize,
    finished: bool,
}

impl<'a, T> CombIterator<'a, T> {
    /// The one-based indices of the subset that the next call hands out, if any.
    pub closed spec fn current(&self) -> Option<Seq<int>> {
        if self.finished {
            None
        } else {
            Some(self.keys_list@.map_values(|x: usize| x as int))
        }
    }

    /// The pool that the subsets are drawn from.
    pub closed spec fn pool(&self) -> Seq<T> {
        self.comb.data_list@
    }

    pub closed spec fn wf(&self) -> bool {
        &&& self.keys_list_len == self.comb.length_of_combination
        &&& self.keys_list@.len() == self.keys_list_len
        &&& self.keys_list_len >= 1
        &&& !self.finished ==> is_comb(
            self.current().unwrap(),
            self.comb.data_list@.len() as int,
            self.keys_list_len as int,
        )
    }

    fn new(comb: &'a Combination<T>) -> (r: CombIterator<'a, T>)
        requires
            comb.length_of_combination >= 1,
        ensures
            r.wf(),
            r.pool() == comb.data_list@,
            r.current() == iterate(comb.data_list@.len() as int, comb.length_of_combination as int, 0),
    {
        let n = comb.data_list.len();
        let k = comb.length_of_combination;
        let mut keys_list: Vec<usize> = Vec::with_capacity(k);
        let finished = k > n;
        let mut i: usize = 0;
        while i < k
            invariant
                i <= k,
                keys_list@.len() == i,
                forall|j: int| 0 <= j < i ==> keys_list@[j] == if k <= n { n - j } else { 0 },
            decreases k - i,
        {
            if k <= n {
                keys_list.push(n - i);
            } else {
                keys_list.push(0);
            }
            i = i + 1;
        }
        let r = CombIterator { comb, keys_list, keys_list_len: k, finished };
        if !finished {
            assert(r.current().unwrap() =~= first_comb(n as int, k as int));
        }
        r
    }

    /// Lowers the odometer by one step; marks the enumeration finished when it cannot.
    fn change_keys_list(&mut self)
        requires
            old(self).wf(),
            !old(self).finished,
        ensures
            final(self).wf(),
            final(self).pool() == old(self).pool(),
            final(self).current() == next_comb(old(self).current().unwrap(), old(self).keys_list_len as int),
    {
        let ghost c = self.current().unwrap();
        let k = self.keys_list_len;
        proof {
            lemma_pivot_range(c, k as int, k as int);
        }
        let mut j: usize = k;
        while j > 0 && self.keys_list[j - 1] <= k - (j - 1)
            invariant
                j <= k,
                k == self.keys_list_len,
                self.keys_list@.len() == k,
                self.current() == Some(c),
                self.wf(),
                !self.finished,
                pivot(c, k as int, j as int) == pivot(c, k as int, k as int),
                self.comb == old(self).comb,
            decreases j,
        {
            j = j - 1;
        }
        if j == 0 {
            self.finished = true;
            return;
        }
        let p = j - 1;
        assert(pivot(c, k as int, k as int) == p);
        let ghost d = next_comb(c, k as int).unwrap();
        proof {
            lemma_next_is_comb(c, self.comb.data_list@.len() as int, k as int);
        }
        let top = self.keys_list[p] - 1;
        self.keys_list.set(p, top);
        let mut i: usize = p + 1;
        while i < k
            invariant
                p < i <= k,
                k == self.keys_list_len,
                self.keys_list@.len() == k,
                !self.finished,
                self.comb == old(self).comb,
                p == pivot(c, k as int, k as int),
                d == next_comb(c, k as int).unwrap(),
                is_comb(c, self.comb.data_list@.len() as int, k as int),
                is_comb(d, self.comb.data_list@.len() as int, k as int),
                forall|q: int| p <= q < k ==> d[q] == c[p as int] - 1 - (q - p),
                forall|q: int| 0 <= q < i ==> self.keys_list@[q] as int == d[q],
                forall|q: int| i <= q < k ==> self.keys_list@[q] as int == c[q],
            decreases k - i,
        {
            assert(d[i - 1] >= 1 && d[i as int] == d[i - 1] - 1);
            let v = self.keys_list[i - 1] - 1;
            self.keys_list.set(i, v);
            i = i + 1;
        }
        assert(self.current().unwrap() =~= d);
    }

    /// Hands out the current subset, as references into the pool in the order of its
    /// indices, and moves to the next one.
    pub fn next(&mut self) -> (r: Option<Vec<&'a T>>)
        requires
            old(self).wf(),
        ensures
            final(self).wf(),
            final(self).pool() == old(self).pool(),
            match old(self).current() {
                None => r is None && final(self).current() is None,
                Some(c) => {
                    &&& r matches Some(v)
                    &&& v@.len() == c.len()
                    &&& forall|i: int| 0 <= i < c.len() ==> *v@[i] == old(self).pool()[c[i] - 1]
                    &&& final(self).current() == next_comb(c, c.len() as int)
                    &&& 0 <= progress(final(self).current(), old(self).pool().len() as int)
                    &&& progress(final(self).current(), old(self).pool().len() as int) < progress(
                        old(self).current(),
                        old(self).pool().len() as int,
                    )
                },
            },
    {
        if self.finished {
            return None;
        }
        let ghost c = self.current().unwrap();
        let k = self.keys_list_len;
        let mut result: Vec<&'a T> = Vec::with_capacity(k);
        let mut i: usize = 0;
        while i < k
            invariant
                i <= k,
                self.wf(),
                !self.finished,
                k == self.keys_list_len,
                c == self.current().unwrap(),
                result@.len() == i,
                forall|j: int| 0 <= j < i ==> *result@[j] == self.comb.data_list@[c[j] - 1],
            decreases k - i,
        {
            let key = self.keys_list[i];
            assert(c[i as int] == key as int);
            result.push(&self.comb.data_list[key - 1]);
            i = i + 1;
        }
        proof {
            lemma_step_progress(c, self.comb.data_list@.len() as int, k as int);
        }
        self.change_keys_list();
        Some(result)
    }
}

} // verus!
