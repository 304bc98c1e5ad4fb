//! Which cells of a hidden state make up each sentence embedding.
//!
//! A hidden state holds, for each sentence and token, a run of `hidden` numbers. The
//! embedding of a sentence is the mean of the runs of its unmasked tokens; the plan says
//! where those runs begin, what each weighs, and what the sum is divided by.
use vstd::prelude::*;

verus! {

/// One token that counts: where its run begins and what it weighs.
#[derive(Clone, Copy, Debug, PartialEq, Eq, Structural)]
pub struct PoolTerm {
    pub base: usize,
    pub weight: u32,
}

/// What one sentence embedding is made of.
#[derive(Debug)]
pub struct PoolRow {
    pub terms: Vec<PoolTerm>,
    pub denominator: u128,
}

/// The unmasked tokens among the first `upto` of a sentence, in order.
pub open spec fn row_terms(
    mask: Seq<u32>,
    row: int,
    seq: int,
    hidden: int,
    upto: int,
) -> Seq<PoolTerm>
    decreases upto,
{
    if upto <= 0 {
        Seq::empty()
    } else {
        let before = row_terms(mask, row, seq, hidden, upto - 1);
        let cell = row * seq + upto - 1;
        if mask[cell] != 0 {
            before.push(PoolTerm { base: (cell * hidden) as usize, weight: mask[cell] })
        } else {
            before
        }
    }
}

/// The weights of some terms, added up.
pub open spec fn weight_sum(terms: Seq<PoolTerm>) -> nat
    decreases terms.len(),
{
    if terms.len() == 0 {
        0
    } else {
        weight_sum(terms.drop_last()) + terms.last().weight as nat
    }
}

/// A plan for one sentence: its unmasked tokens, and their weight to divide by; a sentence
/// without any is divided by one.
pub open spec fn pools(mask: Seq<u32>, row: int, seq: int, hidden: int, plan: PoolRow) -> bool {
    let terms = row_terms(mask, row, seq, hidden, seq);
    &&& plan.terms@ == terms
    &&& plan.denominator == (if weight_sum(terms) == 0 {
        1
    } else {
        weight_sum(terms)
    })
}

/// Plans one sentence.
pub fn pool_row(mask: &Vec<u32>, row: usize, seq: usize, hidden: usize) -> (plan: PoolRow)
    requires
        row * seq + seq <= mask@.len(),
        mask@.len() * hidden <= usize::MAX,
    ensures
        pools(mask@, row as int, seq as int, hidden as int, plan),
        plan.terms@ == Seq::new(
            seq as nat,
            |t: int|
                PoolTerm {
                    base: ((row as int * seq as int + t) * hidden as int) as usize,
                    weight: mask@[row as int * seq as int + t],
                },
        ).filter(|term: PoolTerm| term.weight != 0),
{
    let mut terms: Vec<PoolTerm> = Vec::new();
    let mut total: u128 = 0;
    let mut t: usize = 0;
    let len: usize = mask.len();
    assert(row * seq <= len);
    let start: usize = row * seq;
    while t < seq
        invariant
            len == mask@.len(),
            start == row * seq,
            start + seq <= len,
            len * hidden <= usize::MAX,
            t <= seq,
            terms@ == row_terms(mask@, row as int, seq as int, hidden as int, t as int),
            total == weight_sum(terms@),
            total <= t * u32::MAX,
        decreases seq - t,
    {
        let cell: usize = start + t;
        let weight: u32 = mask[cell];
        assert(cell * hidden <= len * hidden) by (nonlinear_arith)
            requires
                cell <= len,
        ;
        assert(t * u32::MAX + u32::MAX <= u128::MAX) by (nonlinear_arith)
            requires
                0 <= t <= u64::MAX,
        ;
        if weight != 0 {
            let term: PoolTerm = PoolTerm { base: cell * hidden, weight };
            let ghost before = terms@;
            terms.push(term);
            total = total + weight as u128;
            assert(terms@.drop_last() == before);
        }
        t += 1;
    }
    let denominator: u128 = if total == 0 {
        1
    } else {
        total
    };
    let plan: PoolRow = PoolRow { terms, denominator };
    proof {
        plan_is_the_unmasked_tokens(mask@, row as int, seq as int, hidden as int, plan);
    }
    plan
}

/// Plans every sentence of a batch.
pub fn pool_plan(mask: &Vec<u32>, n: usize, seq: usize, hidden: usize) -> (plan: Vec<PoolRow>)
    requires
        mask@.len() == n * seq,
        n * seq * hidden <= usize::MAX,
    ensures
        plan@.len() == n,
        forall|s: int|
            0 <= s < n ==> pools(mask@, s, seq as int, hidden as int, #[trigger] plan@[s]),
{
    let mut plan: Vec<PoolRow> = Vec::new();
    let mut s: usize = 0;
    while s < n
        invariant
            mask@.len() == n * seq,
            n * seq * hidden <= usize::MAX,
            s <= n,
            plan@.len() == s,
            forall|k: int|
                0 <= k < s ==> pools(mask@, k, seq as int, hidden as int, #[trigger] plan@[k]),
        decreases n - s,
    {
        assert(s * seq + seq <= n * seq) by (nonlinear_arith)
            requires
                s + 1 <= n,
        ;
        plan.push(pool_row(mask, s, seq, hidden));
        s += 1;
    }
    plan
}

/// The terms of a sentence are its unmasked tokens and no others: a run is in the plan
/// exactly when the token it belongs to has a weight other than zero.
pub proof fn terms_are_unmasked(
    mask: Seq<u32>,
    row: int,
    seq: int,
    hidden: int,
    upto: int,
    term: PoolTerm,
)
    requires
        0 <= upto,
    ensures
        row_terms(mask, row, seq, hidden, upto).contains(term) <==> exists|t: int|
            0 <= t < upto && mask[row * seq + t] != 0 && term == (PoolTerm {
                base: ((row * seq + t) * hidden) as usize,
                weight: #[trigger] mask[row * seq + t],
            }),
    decreases upto,
{
    let here = row_terms(mask, row, seq, hidden, upto);
    if upto > 0 {
        terms_are_unmasked(mask, row, seq, hidden, upto - 1, term);
        let before = row_terms(mask, row, seq, hidden, upto - 1);
        let t = upto - 1;
        let cell = row * seq + upto - 1;
        assert(cell == row * seq + t);
        let last = PoolTerm { base: ((row * seq + t) * hidden) as usize, weight: mask[row * seq + t] };
        if mask[cell] != 0 {
            assert(here == before.push(last));
            assert(here[before.len() as int] == last);
            if before.contains(term) {
                let k = choose|k: int| 0 <= k < before.len() && before[k] == term;
                assert(here[k] == term);
            }
        }
    }
}

/// Every run of a plan lies inside the hidden state of its batch.
pub proof fn runs_are_inside(mask: Seq<u32>, n: int, row: int, seq: int, hidden: int, upto: int)
    requires
        0 <= row < n,
        0 <= upto <= seq,
        0 <= hidden,
        n * seq * hidden <= usize::MAX,
    ensures
        forall|k: int|
            0 <= k < row_terms(mask, row, seq, hidden, upto).len() ==> (
            #[trigger] row_terms(mask, row, seq, hidden, upto)[k]).base + hidden <= n * seq * hidden,
    decreases upto,
{
    if upto > 0 {
        runs_are_inside(mask, n, row, seq, hidden, upto - 1);
        let cell = row * seq + upto - 1;
        assert(0 <= cell < n * seq) by (nonlinear_arith)
            requires
                cell == row * seq + upto - 1,
                0 <= row < n,
                0 < upto <= seq,
        ;
        assert(0 <= cell * hidden && cell * hidden + hidden <= n * seq * hidden) by (nonlinear_arith)
            requires
                0 <= cell < n * seq,
                0 <= hidden,
        ;
        let here = row_terms(mask, row, seq, hidden, upto);
        let before = row_terms(mask, row, seq, hidden, upto - 1);
        assert forall|k: int| 0 <= k < here.len() implies (#[trigger] here[k]).base + hidden <= n
            * seq * hidden by {
            if k < before.len() {
                assert(here[k] == before[k]);
            } else {
                assert(here[k].base == cell * hidden);
            }
        }
    }
}

/// Padding takes no part: tokens past the last unmasked one leave the plan as it is.
pub proof fn padding_is_ignored(
    mask: Seq<u32>,
    row: int,
    seq: int,
    hidden: int,
    used: int,
    upto: int,
)
    requires
        0 <= used <= upto,
        forall|t: int| used <= t < upto ==> #[trigger] mask[row * seq + t] == 0,
    ensures
        row_terms(mask, row, seq, hidden, upto) == row_terms(mask, row, seq, hidden, used),
    decreases upto,
{
    if used < upto {
        assert(mask[row * seq + (upto - 1)] == 0);
        padding_is_ignored(mask, row, seq, hidden, used, upto - 1);
    }
}

/// Where every weight is one, the sum is divided by the number of unmasked tokens.
pub proof fn unit_weights_count(terms: Seq<PoolTerm>)
    requires
        forall|k: int| 0 <= k < terms.len() ==> (#[trigger] terms[k]).weight == 1,
    ensures
        weight_sum(terms) == terms.len(),
    decreases terms.len(),
{
    if terms.len() > 0 {
        unit_weights_count(terms.drop_last());
    }
}

proof fn lemma_terms_filter(mask: Seq<u32>, row: int, seq: int, hidden: int, upto: int)
    requires
        0 <= upto,
    ensures
        row_terms(mask, row, seq, hidden, upto) == Seq::new(
            upto as nat,
            |t: int|
                PoolTerm {
                    base: ((row * seq + t) * hidden) as usize,
                    weight: mask[row * seq + t],
                },
        ).filter(|term: PoolTerm| term.weight != 0),
    decreases upto,
{
    reveal(Seq::filter);
    let all = Seq::new(
        upto as nat,
        |t: int|
            PoolTerm { base: ((row * seq + t) * hidden) as usize, weight: mask[row * seq + t] },
    );
    if upto > 0 {
        lemma_terms_filter(mask, row, seq, hidden, upto - 1);
        assert(all.drop_last() =~= Seq::new(
            (upto - 1) as nat,
            |t: int|
                PoolTerm { base: ((row * seq + t) * hidden) as usize, weight: mask[row * seq + t] },
        ));
        assert(row * seq + upto - 1 == row * seq + (upto - 1));
        assert(all.last() == PoolTerm {
            base: ((row * seq + (upto - 1)) * hidden) as usize,
            weight: mask[row * seq + (upto - 1)],
        });
    }
}

proof fn lemma_weight_of_mask(mask: Seq<u32>, row: int, seq: int, hidden: int, upto: int)
    requires
        0 <= row * seq,
        0 <= upto,
        row * seq + upto <= mask.len(),
    ensures
        weight_sum(row_terms(mask, row, seq, hidden, upto)) == mask.subrange(
            row * seq,
            row * seq + upto,
        ).fold_left(0int, |sum: int, weight: u32| sum + weight),
    decreases upto,
{
    reveal(Seq::fold_left);
    if upto > 0 {
        lemma_weight_of_mask(mask, row, seq, hidden, upto - 1);
        let cells = mask.subrange(row * seq, row * seq + upto);
        assert(cells.drop_last() =~= mask.subrange(row * seq, row * seq + (upto - 1)));
        assert(cells.last() == mask[row * seq + upto - 1]);
        let here = row_terms(mask, row, seq, hidden, upto);
        let before = row_terms(mask, row, seq, hidden, upto - 1);
        if mask[row * seq + upto - 1] != 0 {
            assert(here.drop_last() =~= before);
        }
    }
}

/// The plan of a sentence lists its tokens once each and in order, those with a weight other
/// than zero, and divides by what the weights in its row of the mask add up to, or by one where
/// that is nothing.
pub proof fn plan_is_the_unmasked_tokens(
    mask: Seq<u32>,
    row: int,
    seq: int,
    hidden: int,
    plan: PoolRow,
)
    requires
        0 <= row,
        0 <= seq,
        row * seq + seq <= mask.len(),
        pools(mask, row, seq, hidden, plan),
    ensures
        plan.terms@ == Seq::new(
            seq as nat,
            |t: int|
                PoolTerm {
                    base: ((row * seq + t) * hidden) as usize,
                    weight: mask[row * seq + t],
                },
        ).filter(|term: PoolTerm| term.weight != 0),
        plan.denominator == ({
            let total = mask.subrange(row * seq, row * seq + seq).fold_left(
                0int,
                |sum: int, weight: u32| sum + weight,
            );
            if total == 0 {
                1
            } else {
                total
            }
        }),
{
    assert(0 <= row * seq) by (nonlinear_arith)
        requires
            0 <= row,
            0 <= seq,
    ;
    lemma_terms_filter(mask, row, seq, hidden, seq);
    lemma_weight_of_mask(mask, row, seq, hidden, seq);
}

proof fn lemma_bases_ascend(mask: Seq<u32>, row: int, seq: int, hidden: int, upto: int)
    requires
        0 <= row * seq,
        0 <= upto <= seq,
        0 < hidden,
        (row * seq + seq) * hidden <= usize::MAX,
    ensures
        ({
            let terms = row_terms(mask, row, seq, hidden, upto);
            &&& forall|i: int|
                0 <= i < terms.len() ==> (#[trigger] terms[i]).base < (row * seq + upto) * hidden
            &&& forall|i: int, j: int|
                0 <= i < j < terms.len() ==> (#[trigger] terms[i]).base < (#[trigger] terms[j]).base
        }),
    decreases upto,
{
    if upto > 0 {
        lemma_bases_ascend(mask, row, seq, hidden, upto - 1);
        let before = row_terms(mask, row, seq, hidden, upto - 1);
        let here = row_terms(mask, row, seq, hidden, upto);
        let cell = row * seq + upto - 1;
        assert(0 <= cell * hidden < (row * seq + upto) * hidden <= (row * seq + seq) * hidden)
            by (nonlinear_arith)
            requires
                cell == row * seq + upto - 1,
                0 <= row * seq,
                0 < upto <= seq,
                0 < hidden,
        ;
        assert((row * seq + (upto - 1)) * hidden == cell * hidden);
        assert forall|i: int, j: int| 0 <= i < j < here.len() implies (#[trigger] here[i]).base < (
        #[trigger] here[j]).base by {
            assert(here[i] == before[i]);
            if j < before.len() {
                assert(here[j] == before[j]);
            }
        }
        assert forall|i: int| 0 <= i < here.len() implies (#[trigger] here[i]).base < (row * seq
            + upto) * hidden by {
            if i < before.len() {
                assert(here[i] == before[i]);
            }
        }
    }
}

/// No token of a sentence counts twice and none that is unmasked is left out: the runs of a plan
/// begin one behind the other, and one begins where a token's does exactly when the mask has a
/// weight for that token.
pub proof fn tokens_count_once(
    mask: Seq<u32>,
    row: int,
    seq: int,
    hidden: int,
    plan: PoolRow,
    t: int,
)
    requires
        0 <= row,
        0 <= t < seq,
        0 < hidden,
        (row * seq + seq) * hidden <= usize::MAX,
        pools(mask, row, seq, hidden, plan),
    ensures
        forall|i: int, j: int|
            0 <= i < j < plan.terms@.len() ==> (#[trigger] plan.terms@[i]).base < (
            #[trigger] plan.terms@[j]).base,
        mask[row * seq + t] != 0 <==> exists|k: int|
            0 <= k < plan.terms@.len() && (#[trigger] plan.terms@[k]).base == (row * seq + t)
                * hidden && plan.terms@[k].weight == mask[row * seq + t],
{
    assert(0 <= row * seq) by (nonlinear_arith)
        requires
            0 <= row,
            0 < seq,
    ;
    lemma_bases_ascend(mask, row, seq, hidden, seq);
    let terms = row_terms(mask, row, seq, hidden, seq);
    let cell = row * seq + t;
    assert(0 <= cell * hidden <= (row * seq + seq) * hidden) by (nonlinear_arith)
        requires
            cell == row * seq + t,
            0 <= row * seq,
            0 <= t < seq,
            0 < hidden,
    ;
    let term = PoolTerm { base: (cell * hidden) as usize, weight: mask[cell] };
    terms_are_unmasked(mask, row, seq, hidden, seq, term);
    if mask[cell] != 0 {
        assert(terms.contains(term));
        let k = choose|k: int| 0 <= k < terms.len() && terms[k] == term;
        assert(plan.terms@[k].base == cell * hidden);
    }
    if exists|k: int|
        0 <= k < terms.len() && (#[trigger] terms[k]).base == cell * hidden && terms[k].weight
            == mask[cell] {
        let k = choose|k: int|
            0 <= k < terms.len() && (#[trigger] terms[k]).base == cell * hidden && terms[k].weight
                == mask[cell];
        assert(terms[k] == term);
        assert(terms.contains(term));
        let u = choose|u: int|
            0 <= u < seq && mask[row * seq + u] != 0 && term == (PoolTerm {
                base: ((row * seq + u) * hidden) as usize,
                weight: #[trigger] mask[row * seq + u],
            });
        assert(term.weight == mask[row * seq + u]);
    }
}

} // verus!
