//! The ordered pairs of atom types, ranked from the cheapest interaction to the
//! dearest.
use vstd::prelude::*;
use crate::problem::{Problem, ProblemInstance};

verus! {

/// An ordered pair of atom types `(from, to)`.
pub type TypePair = (usize, usize);

/// The energy of an edge from the first type of the pair to the second.
pub open spec fn pair_cost(p: Problem, a: TypePair) -> int {
    p.energy[a.0 as int][a.1 as int] as int
}

/// `a` is listed before `b` when the pairs are enumerated row by row.
pub open spec fn listed_before(a: TypePair, b: TypePair) -> bool {
    a.0 < b.0 || (a.0 == b.0 && a.1 < b.1)
}

/// `a` ranks before `b`: it is cheaper, or as cheap and listed first.
pub open spec fn ranks_before(p: Problem, a: TypePair, b: TypePair) -> bool {
    pair_cost(p, a) < pair_cost(p, b) || (pair_cost(p, a) == pair_cost(p, b) && listed_before(a, b))
}

/// Both types of the pair are atom types of the problem.
pub open spec fn pair_fits(p: Problem, a: TypePair) -> bool {
    a.0 < p.quota.len() && a.1 < p.quota.len()
}

/// Every pair of the sequence ranks before every later one.
pub open spec fn ranked(p: Problem, pairs: Seq<TypePair>) -> bool {
    forall|i: int, j: int| 0 <= i < j < pairs.len() ==> ranks_before(p, #[trigger] pairs[i], #[trigger] pairs[j])
}

/// All pairs of the sequence are pairs of atom types.
pub open spec fn pairs_fit(p: Problem, pairs: Seq<TypePair>) -> bool {
    forall|i: int| 0 <= i < pairs.len() ==> pair_fits(p, #[trigger] pairs[i])
}

/// The sequence holds every ordered pair of atom types, the pair of a type with
/// itself included, in ascending order of energy; pairs of equal energy stand
/// in the order in which they are enumerated.
pub open spec fn is_pair_ranking(p: Problem, pairs: Seq<TypePair>) -> bool {
    &&& pairs.len() == p.quota.len() * p.quota.len()
    &&& pairs_fit(p, pairs)
    &&& forall|a: usize, b: usize| a < p.quota.len() && b < p.quota.len() ==> pairs.contains((a, b))
    &&& ranked(p, pairs)
}

/// Two rankings of the pairs of one problem agree up to `upto`.
proof fn lemma_rankings_agree(p: Problem, a: Seq<TypePair>, b: Seq<TypePair>, upto: int)
    requires
        is_pair_ranking(p, a),
        is_pair_ranking(p, b),
        0 <= upto <= a.len(),
    ensures
        forall|i: int| 0 <= i < upto ==> #[trigger] a[i] == b[i],
    decreases upto,
{
    if upto > 0 {
        lemma_rankings_agree(p, a, b, upto - 1);
        let i = upto - 1;
        assert(pair_fits(p, a[i]));
        assert(pair_fits(p, b[i]));
        assert(b.contains(a[i]));
        assert(a.contains(b[i]));
        let m = choose|m: int| 0 <= m < b.len() && b[m] == a[i];
        let n = choose|n: int| 0 <= n < a.len() && a[n] == b[i];
        if m < i {
            assert(a[m] == b[m]);
            assert(ranks_before(p, a[m], a[i]));
        } else if n < i {
            assert(a[n] == b[n]);
            assert(ranks_before(p, b[n], b[i]));
        } else if m > i && n > i {
            assert(ranks_before(p, b[i], b[m]));
            assert(ranks_before(p, a[i], a[n]));
        }
    }
}

/// The pairs of a problem have one ranking.
pub proof fn lemma_pair_ranking_unique(p: Problem, a: Seq<TypePair>, b: Seq<TypePair>)
    requires
        is_pair_ranking(p, a),
        is_pair_ranking(p, b),
    ensures
        a == b,
{
    lemma_rankings_agree(p, a, b, a.len() as int);
    assert(a =~= b);
}

/// Whether `a` ranks before `b`.
fn precedes(inst: &ProblemInstance, a: TypePair, b: TypePair) -> (r: bool)
    requires
        inst.wf(),
        pair_fits(inst@, a),
        pair_fits(inst@, b),
    ensures
        r == ranks_before(inst@, a, b),
{
    let cost_a: i32 = inst.energy(a.0, a.1);
    let cost_b: i32 = inst.energy(b.0, b.1);
    cost_a < cost_b || (cost_a == cost_b && (a.0 < b.0 || (a.0 == b.0 && a.1 < b.1)))
}

/// Inserts `item` into a ranked sequence at its rank.
fn insert_ranked(inst: &ProblemInstance, pairs: &mut Vec<TypePair>, item: TypePair)
    requires
        inst.wf(),
        pair_fits(inst@, item),
        pairs_fit(inst@, old(pairs)@),
        ranked(inst@, old(pairs)@),
        !old(pairs)@.contains(item),
    ensures
        pairs_fit(inst@, final(pairs)@),
        ranked(inst@, final(pairs)@),
        final(pairs)@.len() == old(pairs)@.len() + 1,
        forall|q: TypePair| final(pairs)@.contains(q) <==> (old(pairs)@.contains(q) || q == item),
{
    let ghost before = pairs@;
    let mut pos: usize = pairs.len();
    while pos > 0
        invariant
            inst.wf(),
            pair_fits(inst@, item),
            pairs@ == before,
            pairs_fit(inst@, before),
            pos <= before.len(),
            forall|x: int| pos <= x < before.len() ==> ranks_before(inst@, item, #[trigger] before[x]),
        ensures
            pos == 0 || !ranks_before(inst@, item, before[pos - 1]),
        decreases pos,
    {
        if !precedes(inst, item, pairs[pos - 1]) {
            break ;
        }
        pos = pos - 1;
    }
    pairs.insert(pos, item);
    proof {
        let after = pairs@;
        assert(after.len() == before.len() + 1);
        assert(after[pos as int] == item);
        assert forall|x: int| 0 <= x < pos implies ranks_before(inst@, #[trigger] before[x], item) by {
            assert(before.contains(before[x]));
            assert(before.contains(before[pos - 1]));
            if x < pos - 1 {
                assert(ranks_before(inst@, before[x], before[pos - 1]));
            }
        }
        assert forall|i: int, j: int| 0 <= i < j < after.len() implies ranks_before(
            inst@,
            #[trigger] after[i],
            #[trigger] after[j],
        ) by {
            let bi = if i < pos { i } else { i - 1 };
            let bj = if j < pos { j } else { j - 1 };
            if i != pos {
                assert(after[i] == before[bi]);
            }
            if j != pos {
                assert(after[j] == before[bj]);
            }
            if i != pos && j != pos {
                assert(ranks_before(inst@, before[bi], before[bj]));
            }
        }
        assert forall|i: int| 0 <= i < after.len() implies pair_fits(inst@, #[trigger] after[i]) by {
            if i < pos {
                assert(after[i] == before[i]);
            } else if i > pos {
                assert(after[i] == before[i - 1]);
            }
        }
        assert forall|q: TypePair| after.contains(q) <==> (before.contains(q) || q == item) by {
            if after.contains(q) {
                let i = choose|i: int| 0 <= i < after.len() && after[i] == q;
                if i < pos {
                    assert(before[i] == q);
                } else if i > pos {
                    assert(before[i - 1] == q);
                }
            }
            if before.contains(q) {
                let i = choose|i: int| 0 <= i < before.len() && before[i] == q;
                if i < pos {
                    assert(after[i] == q);
                } else {
                    assert(after[i + 1] == q);
                }
            }
        }
    }
}

/// Lists every ordered pair of atom types, the pair of a type with itself
/// included, from the cheapest interaction to the dearest. Pairs of equal
/// energy keep the order in which they are enumerated, row by row.
pub fn sorted_type_pairs(inst: &ProblemInstance) -> (pairs: Vec<TypePair>)
    requires
        inst.wf(),
    ensures
        is_pair_ranking(inst@, pairs@),
{
    let k: usize = inst.atom_count();
    let mut pairs: Vec<TypePair> = Vec::new();
    let mut i: usize = 0;
    while i < k
        invariant
            inst.wf(),
            k == inst@.quota.len(),
            i <= k,
            pairs@.len() == i * k,
            pairs_fit(inst@, pairs@),
            ranked(inst@, pairs@),
            forall|q: TypePair| pairs@.contains(q) <==> (q.0 < i && q.1 < k),
        decreases k - i,
    {
        let mut j: usize = 0;
        while j < k
            invariant
                inst.wf(),
                k == inst@.quota.len(),
                i < k,
                j <= k,
                pairs@.len() == i * k + j,
                pairs_fit(inst@, pairs@),
                ranked(inst@, pairs@),
                forall|q: TypePair| pairs@.contains(q) <==> ((q.0 < i && q.1 < k) || (q.0 == i && q.1 < j)),
            decreases k - j,
        {
            insert_ranked(inst, &mut pairs, (i, j));
            j = j + 1;
        }
        assert(i * k + k == (i + 1) * k) by (nonlinear_arith);
        i = i + 1;
    }
    assert forall|a: usize, b: usize| a < k && b < k implies pairs@.contains((a, b)) by {
        let q: TypePair = (a, b);
        assert(q.0 < i && q.1 < k);
    }
    pairs
}

} // verus!
