use vstd::prelude::*;

use crate::combination::{iterate, lemma_iterate_decreasing, lemma_iterate_ended, lemma_iterate_is_comb, progress, Combination};
use crate::food_data::FoodData;
use crate::food_table::{score, sum_of, FoodTable};
use crate::kijun::Kijun;

verus! {

/// How many of the best selections a run keeps.
pub const TOP_COUNT: usize = 5;

/// One scored combination of foods.
pub struct Selection {
    /// The score, in thousandths of a percent.
    pub score: i128,
    /// The position, in the list of requested sizes, of the size that produced it.
    pub round: usize,
    /// The one-based positions of the foods in the pool, in decreasing order.
    pub combination: Vec<usize>,
    /// The foods themselves, in the order of `combination`.
    pub table: FoodTable,
}

impl Selection {
    pub open spec fn comb(&self) -> Seq<int> {
        self.combination@.map_values(|x: usize| x as int)
    }
}

/// The foods at the one-based positions `c`.
pub open spec fn picked(foods: Seq<Seq<FoodData>>, c: Seq<int>) -> Seq<Seq<FoodData>> {
    c.map_values(|x: int| foods[x - 1])
}

/// The score of the foods of `pool` at the one-based positions `c`.
pub open spec fn candidate_score(pool: &FoodTable, kijun: &Kijun, c: Seq<int>) -> Option<int> {
    score(kijun@, sum_of(picked(pool.foods(), c)))
}

/// `sel` is a combination that the run enumerates, with its foods and its score.
pub open spec fn from_run(sel: Selection, pool: &FoodTable, sizes: Seq<usize>, kijun: &Kijun) -> bool {
    &&& 0 <= sel.round < sizes.len()
    &&& exists|i: nat| iterate(pool.foods().len() as int, sizes[sel.round as int] as int, i) == Some(sel.comb())
    &&& sel.table.wf()
    &&& sel.table.foods() == picked(pool.foods(), sel.comb())
    &&& candidate_score(pool, kijun, sel.comb()) == Some(sel.score as int)
}

/// The list is ordered from the highest score down.
pub open spec fn ranked(r: Seq<Selection>) -> bool {
    forall|a: int, b: int| 0 <= a < b < r.len() ==> #[trigger] r[a].score >= #[trigger] r[b].score
}

/// No two entries come from the same combination of the same round.
pub open spec fn distinct_origins(r: Seq<Selection>) -> bool {
    forall|a: int, b: int|
        0 <= a < b < r.len() ==> (#[trigger] r[a]).round != (#[trigger] r[b]).round || r[a].comb() != r[b].comb()
}

/// The combination `c` of round `q` is one of the entries.
pub open spec fn kept(r: Seq<Selection>, q: int, c: Seq<int>) -> bool {
    exists|j: int| 0 <= j < r.len() && (#[trigger] r[j]).round == q && r[j].comb() == c
}

/// The list is full and a score of `s` would not enter it.
pub open spec fn beaten(r: Seq<Selection>, s: int) -> bool {
    r.len() == TOP_COUNT && s <= r[TOP_COUNT - 1].score
}

/// The list `r0` with `s` put at position `pos` and cut to `TOP_COUNT` entries.
pub open spec fn placed(r0: Seq<Selection>, s: Selection, pos: int) -> Seq<Selection> {
    let r1 = r0.insert(pos, s);
    if r1.len() > TOP_COUNT {
        r1.subrange(0, TOP_COUNT as int)
    } else {
        r1
    }
}

proof fn lemma_placed_ranked(r0: Seq<Selection>, s: Selection, pos: int)
    requires
        ranked(r0),
        0 <= pos <= r0.len() <= TOP_COUNT,
        pos < TOP_COUNT,
        forall|j: int| 0 <= j < pos ==> #[trigger] r0[j].score >= s.score,
        pos < r0.len() ==> r0[pos].score < s.score,
    ensures
        ranked(placed(r0, s, pos)),
        placed(r0, s, pos).len() <= TOP_COUNT,
        r0.len() <= placed(r0, s, pos).len(),
        r0.len() == TOP_COUNT ==> placed(r0, s, pos)[TOP_COUNT - 1].score >= r0[TOP_COUNT - 1].score,
        placed(r0, s, pos)[pos] == s,
        forall|j: int| 0 <= j < placed(r0, s, pos).len() && j < pos ==> #[trigger] placed(r0, s, pos)[j] == r0[j],
        forall|j: int| 0 <= j < placed(r0, s, pos).len() && j > pos ==> #[trigger] placed(r0, s, pos)[j] == r0[j - 1],
{
    let r = placed(r0, s, pos);
    assert forall|a: int, b: int| 0 <= a < b < r.len() implies #[trigger] r[a].score >= #[trigger] r[b].score by {
        if b < pos {
            assert(r[a] == r0[a] && r[b] == r0[b]);
        } else if b == pos {
            assert(r[a] == r0[a]);
        } else if a < pos {
            assert(r[a] == r0[a] && r[b] == r0[b - 1]);
            assert(r0[a].score >= s.score);
            if pos < r0.len() {
                assert(r0[pos].score >= r0[b - 1].score);
            }
        } else if a == pos {
            assert(r[b] == r0[b - 1]);
            assert(pos < r0.len());
            if b - 1 > pos {
                assert(r0[pos].score >= r0[b - 1].score);
            }
        } else {
            assert(r[a] == r0[a - 1] && r[b] == r0[b - 1]);
        }
    }
    if r0.len() == TOP_COUNT {
        if pos < TOP_COUNT - 1 {
            assert(r[TOP_COUNT - 1] == r0[TOP_COUNT - 2]);
        }
    }
}

proof fn lemma_placed_members(r0: Seq<Selection>, s: Selection, pos: int)
    requires
        ranked(r0),
        0 <= pos <= r0.len() <= TOP_COUNT,
        pos < TOP_COUNT,
        pos < r0.len() ==> r0[pos].score < s.score,
        ranked(placed(r0, s, pos)),
        placed(r0, s, pos)[pos] == s,
        forall|j: int| 0 <= j < placed(r0, s, pos).len() && j < pos ==> #[trigger] placed(r0, s, pos)[j] == r0[j],
        forall|j: int| 0 <= j < placed(r0, s, pos).len() && j > pos ==> #[trigger] placed(r0, s, pos)[j] == r0[j - 1],
    ensures
        forall|j: int| 0 <= j < placed(r0, s, pos).len() ==> #[trigger] placed(r0, s, pos)[j] == s || r0.contains(placed(r0, s, pos)[j]),
        forall|j: int|
            0 <= j < r0.len() ==> placed(r0, s, pos).contains(#[trigger] r0[j]) || beaten(placed(r0, s, pos), r0[j].score as int),
        placed(r0, s, pos).contains(s),
{
    let r = placed(r0, s, pos);
    assert(r.len() == if r0.len() + 1 > TOP_COUNT { TOP_COUNT as int } else { r0.len() + 1 as int });
    assert forall|j: int| 0 <= j < r.len() implies #[trigger] r[j] == s || r0.contains(r[j]) by {
        if j < pos {
            assert(r[j] == r0[j]);
        } else if j > pos {
            assert(r[j] == r0[j - 1]);
        }
    }
    assert forall|j: int| 0 <= j < r0.len() implies r.contains(#[trigger] r0[j]) || beaten(r, r0[j].score as int) by {
        if j < pos {
            assert(r[j] == r0[j]);
        } else if j + 1 < r.len() {
            assert(r[j + 1] == r0[j]);
        } else {
            assert(r.len() == TOP_COUNT);
            assert(j == TOP_COUNT - 1);
            if pos == TOP_COUNT - 1 {
                assert(r[TOP_COUNT - 1] == s);
                assert(r0[pos].score < s.score);
            } else {
                assert(r[TOP_COUNT - 1] == r0[TOP_COUNT - 2]);
                assert(r0[TOP_COUNT - 2].score >= r0[j].score);
            }
        }
    }
    assert(r[pos] == s);
}

/// `a` and `b` come from different combinations or different rounds.
pub open spec fn other_origin(a: Selection, b: Selection) -> bool {
    a.round != b.round || a.comb() != b.comb()
}

proof fn lemma_placed_distinct(r0: Seq<Selection>, s: Selection, pos: int)
    requires
        distinct_origins(r0),
        0 <= pos <= r0.len(),
        forall|j: int| 0 <= j < r0.len() ==> other_origin(#[trigger] r0[j], s),
        placed(r0, s, pos)[pos] == s,
        forall|j: int| 0 <= j < placed(r0, s, pos).len() && j < pos ==> #[trigger] placed(r0, s, pos)[j] == r0[j],
        forall|j: int| 0 <= j < placed(r0, s, pos).len() && j > pos ==> #[trigger] placed(r0, s, pos)[j] == r0[j - 1],
    ensures
        distinct_origins(placed(r0, s, pos)),
{
    let r = placed(r0, s, pos);
    assert forall|a: int, b: int| 0 <= a < b < r.len() implies (#[trigger] r[a]).round != (#[trigger] r[b]).round
        || r[a].comb() != r[b].comb() by {
        if a < pos && b < pos {
            assert(r[a] == r0[a] && r[b] == r0[b]);
        } else if a < pos && b == pos {
            assert(other_origin(r0[a], s));
        } else if a < pos {
            assert(r[a] == r0[a] && r[b] == r0[b - 1]);
        } else if a == pos {
            assert(r[b] == r0[b - 1]);
            assert(other_origin(r0[b - 1], s));
        } else {
            assert(r[a] == r0[a - 1] && r[b] == r0[b - 1]);
        }
    }
}

/// Puts `sel` into the ranked list `r` after the entries whose score is at least its own,
/// keeping the first `TOP_COUNT` entries.
fn insert_ranked(r: &mut Vec<Selection>, sel: Selection)
    requires
        ranked(old(r)@),
        old(r)@.len() <= TOP_COUNT,
    ensures
        ranked(final(r)@),
        final(r)@.len() <= TOP_COUNT,
        old(r)@.len() <= final(r)@.len(),
        old(r)@.len() == TOP_COUNT ==> final(r)@[TOP_COUNT - 1].score >= old(r)@[TOP_COUNT - 1].score,
        forall|j: int| 0 <= j < final(r)@.len() ==> #[trigger] final(r)@[j] == sel || old(r)@.contains(final(r)@[j]),
        forall|j: int|
            0 <= j < old(r)@.len() ==> final(r)@.contains(#[trigger] old(r)@[j]) || beaten(final(r)@, old(r)@[j].score as int),
        final(r)@.contains(sel) || beaten(final(r)@, sel.score as int),
        distinct_origins(old(r)@) && (forall|j: int| 0 <= j < old(r)@.len() ==> other_origin(#[trigger] old(r)@[j], sel))
            ==> distinct_origins(final(r)@),
{
    let ghost r0 = r@;
    let mut pos: usize = 0;
    while pos < r.len() && r[pos].score >= sel.score
        invariant
            r@ == r0,
            pos <= r@.len(),
            forall|j: int| 0 <= j < pos ==> #[trigger] r@[j].score >= sel.score,
        decreases r@.len() - pos,
    {
        pos = pos + 1;
    }
    if pos >= TOP_COUNT {
        assert(r0[TOP_COUNT - 1].score >= sel.score);
        assert forall|j: int| 0 <= j < r0.len() implies r0.contains(#[trigger] r0[j]) by {}
        return;
    }
    let ghost s = sel;
    proof {
        lemma_placed_ranked(r0, s, pos as int);
        lemma_placed_members(r0, s, pos as int);
        if distinct_origins(r0) && (forall|j: int| 0 <= j < r0.len() ==> other_origin(#[trigger] r0[j], s)) {
            lemma_placed_distinct(r0, s, pos as int);
        }
    }
    r.insert(pos, sel);
    if r.len() > TOP_COUNT {
        r.truncate(TOP_COUNT);
    }
    assert(r@ =~= placed(r0, s, pos as int));
}

/// The combination `c` of round `q`, of score `s`, is one of the entries, or the list is full
/// of entries that score at least as well.
pub open spec fn covers(r: Seq<Selection>, q: int, c: Seq<int>, s: int) -> bool {
    kept(r, q, c) || beaten(r, s)
}

/// If the `i`-th combination of round `q` has a score, the list covers it.
pub open spec fn step_covered(r: Seq<Selection>, pool: &FoodTable, sizes: Seq<usize>, kijun: &Kijun, q: int, i: nat) -> bool {
    match iterate(pool.foods().len() as int, sizes[q] as int, i) {
        Some(c) => match candidate_score(pool, kijun, c) {
            Some(s) => covers(r, q, c, s),
            None => true,
        },
        None => true,
    }
}

proof fn lemma_cover_kept(r0: Seq<Selection>, r: Seq<Selection>, sel: Selection, q: int, c: Seq<int>, s: int)
    requires
        r0.len() <= r.len(),
        r0.len() == TOP_COUNT ==> r[TOP_COUNT - 1].score >= r0[TOP_COUNT - 1].score,
        r.len() <= TOP_COUNT,
        forall|j: int| 0 <= j < r0.len() ==> r.contains(#[trigger] r0[j]) || beaten(r, r0[j].score as int),
        covers(r0, q, c, s),
        forall|j: int| 0 <= j < r0.len() && (#[trigger] r0[j]).round == q && r0[j].comb() == c ==> r0[j].score == s,
    ensures
        covers(r, q, c, s),
{
    if kept(r0, q, c) {
        let j = choose|j: int| 0 <= j < r0.len() && (#[trigger] r0[j]).round == q && r0[j].comb() == c;
        if r.contains(r0[j]) {
            let j2 = choose|j2: int| 0 <= j2 < r.len() && r[j2] == r0[j];
            assert(r[j2].round == q && r[j2].comb() == c);
        }
    }
}

fn positions(n: usize) -> (r: Vec<usize>)
    ensures
        r@.len() == n,
        forall|i: int| 0 <= i < n ==> r@[i] == i,
{
    let mut r: Vec<usize> = Vec::with_capacity(n);
    let mut i: usize = 0;
    while i < n
        invariant
            i <= n,
            r@.len() == i,
            forall|j: int| 0 <= j < i ==> r@[j] == j,
        decreases n - i,
    {
        r.push(i);
        i = i + 1;
    }
    r
}

/// Scores every combination of the pool of each requested size against `kijun` and keeps
/// the `TOP_COUNT` best, highest score first. Combinations without a score are left out; a
/// size of zero, or one larger than the pool, contributes no combination.
pub fn automatic_selection(pool: &FoodTable, sizes: &[usize], kijun: &Kijun) -> (r: Vec<Selection>)
    requires
        pool.wf(),
        kijun.wf(),
    ensures
        r@.len() <= TOP_COUNT,
        ranked(r@),
        distinct_origins(r@),
        forall|j: int| 0 <= j < r@.len() ==> from_run(#[trigger] r@[j], pool, sizes@, kijun),
        forall|q: int, i: nat| 0 <= q < sizes@.len() ==> #[trigger] step_covered(r@, pool, sizes@, kijun, q, i),
{
    let n = pool.len();
    let ghost pf = pool.foods();
    let mut r: Vec<Selection> = Vec::new();
    let mut q: usize = 0;
    while q < sizes.len()
        invariant
            pool.wf(),
            kijun.wf(),
            pf == pool.foods(),
            n == pf.len(),
            q <= sizes@.len(),
            r@.len() <= TOP_COUNT,
            ranked(r@),
            distinct_origins(r@),
            forall|j: int| 0 <= j < r@.len() ==> from_run(#[trigger] r@[j], pool, sizes@, kijun),
            forall|j: int| 0 <= j < r@.len() ==> (#[trigger] r@[j]).round < q,
            forall|q2: int, i: nat| 0 <= q2 < q ==> #[trigger] step_covered(r@, pool, sizes@, kijun, q2, i),
        decreases sizes@.len() - q,
    {
        let k = sizes[q];
        if k >= 1 {
            let comb = Combination::new(positions(n), k);
            let mut it = comb.iter();
            let ghost mut steps: nat = 0;
            let mut done = false;
            while !done
                invariant
                    pool.wf(),
                    kijun.wf(),
                    pf == pool.foods(),
                    n == pf.len(),
                    q < sizes@.len(),
                    k == sizes@[q as int],
                    k >= 1,
                    it.wf(),
                    it.pool().len() == n,
                    forall|i: int| 0 <= i < n ==> it.pool()[i] == i,
                    it.current() == iterate(n as int, k as int, steps),
                    done ==> it.current() is None,
                    r@.len() <= TOP_COUNT,
                    ranked(r@),
                    distinct_origins(r@),
                    forall|j: int| 0 <= j < r@.len() ==> from_run(#[trigger] r@[j], pool, sizes@, kijun),
                    forall|j: int|
                        0 <= j < r@.len() ==> (#[trigger] r@[j]).round < q || (r@[j].round == q && exists|i: nat|
                            i < steps && iterate(n as int, k as int, i) == Some(r@[j].comb())),
                    forall|q2: int, i: nat| 0 <= q2 < q ==> #[trigger] step_covered(r@, pool, sizes@, kijun, q2, i),
                    forall|i: nat| i < steps ==> #[trigger] step_covered(r@, pool, sizes@, kijun, q as int, i),
                decreases progress(it.current(), n as int), if done { 0int } else { 1int },
            {
                let ghost c0 = it.current();
                match it.next() {
                    None => {
                        done = true;
                    },
                    Some(v) => {
                        let ghost c = c0.unwrap();
                        proof {
                            lemma_iterate_is_comb(n as int, k as int, steps);
                        }
                        let mut idx0: Vec<usize> = Vec::with_capacity(k);
                        let mut combination: Vec<usize> = Vec::with_capacity(k);
                        let mut j: usize = 0;
                        while j < v.len()
                            invariant
                                v@.len() == c.len(),
                                c.len() == k,
                                forall|i: int| 0 <= i < c.len() ==> 1 <= #[trigger] c[i] <= n,
                                forall|i: int| 0 <= i < c.len() ==> *v@[i] == c[i] - 1,
                                j <= v@.len(),
                                idx0@.len() == j,
                                combination@.len() == j,
                                forall|i: int| 0 <= i < j ==> idx0@[i] == c[i] - 1,
                                forall|i: int| 0 <= i < j ==> combination@[i] == c[i],
                            decreases v@.len() - j,
                        {
                            let x: usize = *v[j];
                            idx0.push(x);
                            combination.push(x + 1);
                            j = j + 1;
                        }
                        let table = pool.subset(&idx0);
                        assert(table.foods() =~= picked(pf, c));
                        let ghost comb_seq = combination@.map_values(|x: usize| x as int);
                        assert(comb_seq =~= c);
                        match table.percentage_of_kijun(kijun) {
                            Some(s) => {
                                let sel = Selection { score: s, round: q, combination, table };
                                let ghost r0 = r@;
                                assert(sel.comb() == c);
                                assert(from_run(sel, pool, sizes@, kijun));
                                proof {
                                    assert forall|j: int| 0 <= j < r0.len() implies other_origin(#[trigger] r0[j], sel) by {
                                        if r0[j].round == q {
                                            let ij = choose|ij: nat| ij < steps && iterate(n as int, k as int, ij) == Some(r0[j].comb());
                                            lemma_iterate_decreasing(n as int, k as int, ij, steps);
                                        }
                                    }
                                }
                                let ghost g = sel;
                                insert_ranked(&mut r, sel);
                                proof {
                                    let nn = n as int;
                                    assert forall|q2: int, i: nat| 0 <= q2 < q implies #[trigger] step_covered(
                                        r@,
                                        pool,
                                        sizes@,
                                        kijun,
                                        q2,
                                        i,
                                    ) by {
                                        assert(step_covered(r0, pool, sizes@, kijun, q2, i));
                                        if let Some(c2) = iterate(nn, sizes@[q2] as int, i) {
                                            if let Some(s2) = candidate_score(pool, kijun, c2) {
                                                lemma_cover_kept(r0, r@, g, q2, c2, s2);
                                            }
                                        }
                                    }
                                    assert forall|i: nat| i < steps implies #[trigger] step_covered(
                                        r@,
                                        pool,
                                        sizes@,
                                        kijun,
                                        q as int,
                                        i,
                                    ) by {
                                        assert(step_covered(r0, pool, sizes@, kijun, q as int, i));
                                        if let Some(c2) = iterate(nn, k as int, i) {
                                            if let Some(s2) = candidate_score(pool, kijun, c2) {
                                                lemma_cover_kept(r0, r@, g, q as int, c2, s2);
                                            }
                                        }
                                    }
                                    if r@.contains(g) {
                                        let jg = choose|jg: int| 0 <= jg < r@.len() && r@[jg] == g;
                                        assert(r@[jg].round == q && r@[jg].comb() == c);
                                    }
                                    assert(step_covered(r@, pool, sizes@, kijun, q as int, steps));
                                    assert forall|j: int| 0 <= j < r@.len() implies (#[trigger] r@[j]).round < q || (r@[j].round
                                        == q && exists|i: nat| i < steps + 1 && iterate(nn, k as int, i) == Some(r@[j].comb())) by {
                                        if r@[j] == g {
                                            assert(iterate(nn, k as int, steps) == Some(r@[j].comb()));
                                        } else {
                                            let j0 = choose|j0: int| 0 <= j0 < r0.len() && r0[j0] == r@[j];
                                            if r0[j0].round == q {
                                                let i0 = choose|i0: nat| i0 < steps && iterate(nn, k as int, i0) == Some(r0[j0].comb());
                                                assert(i0 < steps + 1);
                                            }
                                        }
                                    }
                                }
                            },
                            None => {
                                assert(step_covered(r@, pool, sizes@, kijun, q as int, steps));
                            },
                        }
                        proof {
                            steps = steps + 1;
                        }
                    },
                }
            }
            proof {
                assert forall|i: nat| #[trigger] step_covered(r@, pool, sizes@, kijun, q as int, i) by {
                    if i >= steps {
                        lemma_iterate_ended(n as int, k as int, steps, i);
                    }
                }
            }
        }
        q = q + 1;
    }
    r
}

} // verus!
