//! Whether engines agree: the least similarity of any two engines on any sentence.
use crate::compare::{pairs_are_complete, pairs_from, places, unordered_pairs};
use crate::num::Num;
use vstd::prelude::*;

verus! {

/// Bit pattern of the largest single precision number, from which the least similarity is
/// sought downward.
pub const CEILING: u64 = 0x47ef_ffff_e000_0000;

/// Bit pattern of the similarity that must be exceeded: `0.999` in single precision.
pub const THRESHOLD: u64 = 0x3fef_f7ce_e000_0000;

/// The least of some similarities; one that is not a number is passed over.
pub open spec fn least(sims: Seq<Num>) -> Num
    decreases sims.len(),
{
    if sims.len() == 0 {
        Num { bits: CEILING }
    } else {
        let before = least(sims.drop_last());
        if sims.last().below(before) {
            sims.last()
        } else {
            before
        }
    }
}

/// The least of some similarities.
pub fn least_of(sims: &Vec<Num>) -> (r: Num)
    ensures
        r == least(sims@),
{
    let mut r: Num = Num { bits: CEILING };
    let mut i: usize = 0;
    while i < sims.len()
        invariant
            i <= sims@.len(),
            r == least(sims@.take(i as int)),
        decreases sims@.len() - i,
    {
        assert(sims@.take(i + 1).drop_last() == sims@.take(i as int));
        if sims[i].less(r) {
            r = sims[i];
        }
        i += 1;
    }
    assert(sims@.take(i as int) == sims@);
    r
}

/// The least similarity is a number, no similarity is below it, and it is one of them or the
/// ceiling.
pub proof fn least_is_least(sims: Seq<Num>)
    ensures
        !least(sims).nan(),
        least(sims).key() <= (Num { bits: CEILING }).key(),
        forall|k: int| 0 <= k < sims.len() ==> !(#[trigger] sims[k]).below(least(sims)),
        least(sims) == (Num { bits: CEILING }) || sims.contains(least(sims)),
    decreases sims.len(),
{
    if sims.len() > 0 {
        let front = sims.drop_last();
        least_is_least(front);
        let n = front.len() as int;
        assert(sims[n] == sims.last());
        assert forall|k: int| 0 <= k < sims.len() implies !(#[trigger] sims[k]).below(
            least(sims),
        ) by {
            if k < n {
                assert(front[k] == sims[k]);
            }
        }
        if least(sims) == least(front) && front.contains(least(front)) {
            let k = choose|k: int| 0 <= k < front.len() && front[k] == least(front);
            assert(sims[k] == least(sims));
        }
    }
}

/// Whether `sims` holds the similarities of two engines' embeddings, sentence by sentence, as
/// far as both have one.
pub open spec fn similarities<T, C: Fn(&T, &T) -> Num>(
    a: Seq<T>,
    b: Seq<T>,
    cosine: C,
    sims: Seq<Num>,
) -> bool {
    &&& sims.len() == (if a.len() <= b.len() {
        a.len()
    } else {
        b.len()
    })
    &&& forall|k: int|
        0 <= k < sims.len() ==> call_ensures(cosine, (&a[k], &b[k]), #[trigger] sims[k])
}

/// Whether `sims` holds the similarities of every pair of engines, in order.
pub open spec fn all_similarities<T, C: Fn(&T, &T) -> Num>(
    outputs: Seq<Vec<T>>,
    cosine: C,
    sims: Seq<Seq<Num>>,
) -> bool {
    let pairs = pairs_from(0, outputs.len() as int);
    &&& sims.len() == pairs.len()
    &&& forall|k: int|
        0 <= k < sims.len() ==> similarities(
            outputs[pairs[k].0]@,
            outputs[pairs[k].1]@,
            cosine,
            #[trigger] sims[k],
        )
}

/// The least similarity of each pair.
pub open spec fn leasts(sims: Seq<Seq<Num>>) -> Seq<Num> {
    sims.map_values(|s: Seq<Num>| least(s))
}

/// Whether every similarity is a number.
pub open spec fn all_numbers(sims: Seq<Seq<Num>>) -> bool {
    forall|p: int| 0 <= p < sims.len() ==> numbers(#[trigger] sims[p])
}

/// Whether each of some similarities is a number.
pub open spec fn numbers(sims: Seq<Num>) -> bool {
    forall|k: int| 0 <= k < sims.len() ==> !(#[trigger] sims[k]).nan()
}

/// Whether the engines pass: every similarity is a number, and the least of all exceeds the
/// threshold.
pub open spec fn passes(sims: Seq<Seq<Num>>) -> bool {
    all_numbers(sims) && (Num { bits: THRESHOLD }).below(least(leasts(sims)))
}

fn are_numbers(sims: &Vec<Num>) -> (r: bool)
    ensures
        r == numbers(sims@),
{
    let mut k: usize = 0;
    while k < sims.len()
        invariant
            k <= sims@.len(),
            forall|j: int| 0 <= j < k ==> !(#[trigger] sims@[j]).nan(),
        decreases sims@.len() - k,
    {
        if sims[k].is_nan() {
            return false;
        }
        k += 1;
    }
    true
}

/// What comparing the engines comes to.
#[derive(Debug)]
pub struct Parity {
    /// The least similarity of each pair of engines.
    pub mins: Vec<Num>,
    /// The least similarity of all.
    pub worst: Num,
    /// Whether that exceeds the threshold and every similarity is a number.
    pub pass: bool,
}

fn pair_similarities<T, C: Fn(&T, &T) -> Num>(a: &Vec<T>, b: &Vec<T>, cosine: &C) -> (sims: Vec<
    Num,
>)
    requires
        forall|x: &T, y: &T| call_requires(*cosine, (x, y)),
    ensures
        similarities(a@, b@, *cosine, sims@),
{
    let mut sims: Vec<Num> = Vec::new();
    let mut k: usize = 0;
    while k < a.len() && k < b.len()
        invariant
            k <= a@.len(),
            k <= b@.len(),
            forall|x: &T, y: &T| call_requires(*cosine, (x, y)),
            sims@.len() == k,
            forall|j: int|
                0 <= j < k ==> call_ensures(*cosine, (&a@[j], &b@[j]), #[trigger] sims@[j]),
        decreases a@.len() - k,
    {
        let s: Num = cosine(&a[k], &b[k]);
        sims.push(s);
        k += 1;
    }
    sims
}

/// Whether two embeddings are alike: their similarity is a number above 0.999.
pub open spec fn alike<T, C: Fn(&T, &T) -> Num>(x: T, y: T, cosine: C) -> bool {
    exists|c: Num| #[trigger]
        call_ensures(cosine, (&x, &y), c) && (Num { bits: THRESHOLD }).below(c)
}

/// Compares every pair of engines sentence by sentence; nothing where fewer than two engines
/// gave embeddings.
pub fn parity<T, C: Fn(&T, &T) -> Num>(outputs: &Vec<Vec<T>>, cosine: &C) -> (r: Option<Parity>)
    requires
        forall|x: &T, y: &T| call_requires(*cosine, (x, y)),
    ensures
        r is None <==> outputs@.len() < 2,
        r matches Some(p) ==> exists|sims: Seq<Seq<Num>>| #[trigger]
            all_similarities(outputs@, *cosine, sims) && p.mins@ == leasts(sims) && p.worst
                == least(p.mins@) && p.pass == passes(sims),
        r matches Some(p) && p.pass ==> forall|i: int, j: int, k: int|
            0 <= i < j < outputs@.len() && 0 <= k < outputs@[i]@.len() && k < outputs@[j]@.len()
                ==> #[trigger] alike(outputs@[i]@[k], outputs@[j]@[k], *cosine),
        r matches Some(p) && !p.pass ==> exists|i: int, j: int, k: int, c: Num|
            0 <= i < j < outputs@.len() && 0 <= k < outputs@[i]@.len() && k < outputs@[j]@.len()
                && #[trigger] call_ensures(*cosine, (&outputs@[i]@[k], &outputs@[j]@[k]), c)
                && !(Num { bits: 0x3fef_f7ce_e000_0000 }).below(c),
{
    if outputs.len() < 2 {
        return None;
    }
    let pairs: Vec<(usize, usize)> = unordered_pairs(outputs.len());
    let ghost all = pairs_from(0, outputs@.len() as int);
    let ghost mut found: Seq<Seq<Num>> = Seq::empty();
    let mut sound: bool = true;
    let mut mins: Vec<Num> = Vec::new();
    let mut k: usize = 0;
    while k < pairs.len()
        invariant
            forall|x: &T, y: &T| call_requires(*cosine, (x, y)),
            all == pairs_from(0, outputs@.len() as int),
            all == places(pairs@),
            k <= pairs@.len(),
            found.len() == k,
            mins@ == leasts(found),
            sound == all_numbers(found),
            forall|j: int|
                0 <= j < k ==> similarities(
                    outputs@[all[j].0]@,
                    outputs@[all[j].1]@,
                    *cosine,
                    #[trigger] found[j],
                ),
        decreases pairs@.len() - k,
    {
        let i: usize = pairs[k].0;
        let j: usize = pairs[k].1;
        proof {
            assert(all[k as int] == (i as int, j as int));
            assert(all.contains((i as int, j as int)));
            pairs_are_complete(0, outputs@.len() as int, i as int, j as int);
        }
        let sims: Vec<Num> = pair_similarities(&outputs[i], &outputs[j], cosine);
        let whole: bool = are_numbers(&sims);
        mins.push(least_of(&sims));
        proof {
            let next = found.push(sims@);
            assert(mins@ =~= leasts(next));
            assert(all_numbers(next) == (sound && whole)) by {
                if sound && whole {
                    assert forall|p: int| 0 <= p < next.len() implies numbers(#[trigger] next[p]) by {
                        if p < k {
                            assert(next[p] == found[p]);
                        }
                    }
                } else if !whole {
                    assert(!numbers(next[k as int]));
                } else {
                    let p = choose|p: int| 0 <= p < found.len() && !numbers(#[trigger] found[p]);
                    assert(!numbers(next[p]));
                }
            }
            found = next;
        }
        sound = sound && whole;
        k += 1;
    }
    let worst: Num = least_of(&mins);
    let threshold: Num = Num { bits: THRESHOLD };
    assert(all_similarities(outputs@, *cosine, found));
    proof {
        disagreement_is_on_a_sentence(outputs@, *cosine, found);
        assert forall|i: int, j: int, k: int|
            passes(found) && 0 <= i < j < outputs@.len() && 0 <= k < outputs@[i]@.len() && k
                < outputs@[j]@.len() implies #[trigger] alike(
            outputs@[i]@[k],
            outputs@[j]@[k],
            *cosine,
        ) by {
            agreement_is_on_every_sentence(outputs@, *cosine, found, i, j, k);
        }
    }
    Some(Parity { mins, worst, pass: sound && threshold.less(worst) })
}

/// The least similarity exceeds the threshold exactly when every similarity that is a number
/// does.
proof fn lemma_least_exceeds(sims: Seq<Num>)
    ensures
        (Num { bits: THRESHOLD }).below(least(sims)) <==> forall|k: int|
            0 <= k < sims.len() && !(#[trigger] sims[k]).nan() ==> (Num { bits: THRESHOLD }).below(
                sims[k],
            ),
{
    let t = Num { bits: THRESHOLD };
    least_is_least(sims);
    if forall|k: int| 0 <= k < sims.len() && !(#[trigger] sims[k]).nan() ==> t.below(sims[k]) {
        if sims.contains(least(sims)) {
            let k = choose|k: int| 0 <= k < sims.len() && sims[k] == least(sims);
            assert(t.below(sims[k]));
        }
    }
}

/// The worst pair decides: the engines pass exactly when every similarity of every pair is a
/// number above the threshold.
pub proof fn worst_pair_decides(sims: Seq<Seq<Num>>)
    ensures
        passes(sims) <==> forall|p: int, k: int|
            0 <= p < sims.len() && 0 <= k < sims[p].len() ==> (Num { bits: THRESHOLD }).below(
                #[trigger] sims[p][k],
            ),
{
    let t = Num { bits: THRESHOLD };
    let mins = leasts(sims);
    lemma_least_exceeds(mins);
    assert forall|p: int| 0 <= p < sims.len() implies mins[p] == least(sims[p]) && !(
    #[trigger] mins[p]).nan() && (t.below(mins[p]) <==> forall|k: int|
        0 <= k < sims[p].len() && !(#[trigger] sims[p][k]).nan() ==> t.below(sims[p][k])) by {
        least_is_least(sims[p]);
        lemma_least_exceeds(sims[p]);
    }
    if passes(sims) {
        assert forall|p: int, k: int|
            0 <= p < sims.len() && 0 <= k < sims[p].len() implies t.below(
            #[trigger] sims[p][k],
        ) by {
            assert(numbers(sims[p]));
            assert(t.below(mins[p]));
        }
    }
    if forall|p: int, k: int|
        0 <= p < sims.len() && 0 <= k < sims[p].len() ==> t.below(#[trigger] sims[p][k]) {
        assert forall|p: int| 0 <= p < sims.len() implies numbers(#[trigger] sims[p]) by {
            assert forall|k: int| 0 <= k < sims[p].len() implies !(#[trigger] sims[p][k]).nan() by {
                assert(t.below(sims[p][k]));
            }
        }
        assert forall|p: int| 0 <= p < mins.len() implies t.below(#[trigger] mins[p]) by {}
    }
}

proof fn lemma_pair_is_compared<T, C: Fn(&T, &T) -> Num>(
    outputs: Seq<Vec<T>>,
    cosine: C,
    sims: Seq<Seq<Num>>,
    i: int,
    j: int,
    k: int,
) -> (p: int)
    requires
        all_similarities(outputs, cosine, sims),
        0 <= i < j < outputs.len(),
        0 <= k < outputs[i]@.len(),
        k < outputs[j]@.len(),
    ensures
        0 <= p < sims.len(),
        k < sims[p].len(),
        call_ensures(cosine, (&outputs[i]@[k], &outputs[j]@[k]), sims[p][k]),
{
    let pairs = pairs_from(0, outputs.len() as int);
    pairs_are_complete(0, outputs.len() as int, i, j);
    assert(pairs.contains((i, j)));
    let p = choose|p: int| 0 <= p < pairs.len() && pairs[p] == (i, j);
    assert(similarities(outputs[pairs[p].0]@, outputs[pairs[p].1]@, cosine, sims[p]));
    p
}

proof fn lemma_similarity_is_of_a_pair<T, C: Fn(&T, &T) -> Num>(
    outputs: Seq<Vec<T>>,
    cosine: C,
    sims: Seq<Seq<Num>>,
    p: int,
    k: int,
) -> (r: (int, int))
    requires
        all_similarities(outputs, cosine, sims),
        0 <= p < sims.len(),
        0 <= k < sims[p].len(),
    ensures
        0 <= r.0 < r.1 < outputs.len(),
        k < outputs[r.0]@.len(),
        k < outputs[r.1]@.len(),
        call_ensures(cosine, (&outputs[r.0]@[k], &outputs[r.1]@[k]), sims[p][k]),
{
    let pairs = pairs_from(0, outputs.len() as int);
    let r = pairs[p];
    assert(pairs.contains(r));
    pairs_are_complete(0, outputs.len() as int, r.0, r.1);
    assert(similarities(outputs[pairs[p].0]@, outputs[pairs[p].1]@, cosine, sims[p]));
    r
}

/// Engines that pass agree on every sentence: for any two of them and any sentence that both
/// embedded, the similarity is a number above 0.999. The worst similarity has none below it.
pub proof fn agreement_is_on_every_sentence<T, C: Fn(&T, &T) -> Num>(
    outputs: Seq<Vec<T>>,
    cosine: C,
    sims: Seq<Seq<Num>>,
    i: int,
    j: int,
    k: int,
)
    requires
        all_similarities(outputs, cosine, sims),
        0 <= i < j < outputs.len(),
        0 <= k < outputs[i]@.len(),
        k < outputs[j]@.len(),
    ensures
        passes(sims) ==> exists|c: Num| #[trigger]
            call_ensures(cosine, (&outputs[i]@[k], &outputs[j]@[k]), c) && (Num {
                bits: 0x3fef_f7ce_e000_0000,
            }).below(c),
        exists|c: Num| #[trigger]
            call_ensures(cosine, (&outputs[i]@[k], &outputs[j]@[k]), c) && !c.below(
                least(leasts(sims)),
            ),
{
    let mins = leasts(sims);
    let worst = least(mins);
    worst_pair_decides(sims);
    least_is_least(mins);
    let p = lemma_pair_is_compared(outputs, cosine, sims, i, j, k);
    least_is_least(sims[p]);
    assert(mins[p] == least(sims[p]));
    assert(!mins[p].below(worst));
    assert(!sims[p][k].below(worst));
    if passes(sims) {
        assert((Num { bits: THRESHOLD }).below(sims[p][k]));
    }
}

/// Engines that do not pass disagree somewhere: there are two of them and a sentence that both
/// embedded whose similarity is not a number above 0.999. The worst similarity is that of two
/// engines on a sentence, where it is not the ceiling.
pub proof fn disagreement_is_on_a_sentence<T, C: Fn(&T, &T) -> Num>(
    outputs: Seq<Vec<T>>,
    cosine: C,
    sims: Seq<Seq<Num>>,
)
    requires
        all_similarities(outputs, cosine, sims),
    ensures
        !passes(sims) ==> exists|i: int, j: int, k: int, c: Num|
            0 <= i < j < outputs.len() && 0 <= k < outputs[i]@.len() && k < outputs[j]@.len()
                && #[trigger] call_ensures(cosine, (&outputs[i]@[k], &outputs[j]@[k]), c) && !(Num {
                bits: 0x3fef_f7ce_e000_0000,
            }).below(c),
        least(leasts(sims)) == (Num { bits: 0x47ef_ffff_e000_0000 }) || exists|
            i: int,
            j: int,
            k: int,
        |
            0 <= i < j < outputs.len() && 0 <= k < outputs[i]@.len() && k < outputs[j]@.len()
                && #[trigger] call_ensures(
                cosine,
                (&outputs[i]@[k], &outputs[j]@[k]),
                least(leasts(sims)),
            ),
{
    let t = Num { bits: THRESHOLD };
    let mins = leasts(sims);
    let worst = least(mins);
    worst_pair_decides(sims);
    least_is_least(mins);
    if !passes(sims) {
        let (p, k) = choose|p: int, k: int|
            0 <= p < sims.len() && 0 <= k < sims[p].len() && !t.below(#[trigger] sims[p][k]);
        let (i, j) = lemma_similarity_is_of_a_pair(outputs, cosine, sims, p, k);
        assert(call_ensures(cosine, (&outputs[i]@[k], &outputs[j]@[k]), sims[p][k]));
    }
    if worst != (Num { bits: CEILING }) {
        assert(mins.contains(worst));
        let p = choose|p: int| 0 <= p < mins.len() && mins[p] == worst;
        least_is_least(sims[p]);
        assert(least(sims[p]) == worst);
        let k = choose|k: int| 0 <= k < sims[p].len() && sims[p][k] == worst;
        let (i, j) = lemma_similarity_is_of_a_pair(outputs, cosine, sims, p, k);
        assert(call_ensures(cosine, (&outputs[i]@[k], &outputs[j]@[k]), worst));
    }
}

/// The least similarity of a pair is that of the pair at the same place: no sentence that both
/// engines embedded has a lower one, and one has it, where it is not the ceiling.
pub proof fn each_pair_has_its_least<T, C: Fn(&T, &T) -> Num>(
    outputs: Seq<Vec<T>>,
    cosine: C,
    sims: Seq<Seq<Num>>,
    p: int,
    k: int,
)
    requires
        all_similarities(outputs, cosine, sims),
        0 <= p < pairs_from(0, outputs.len() as int).len(),
        0 <= k,
        k < outputs[pairs_from(0, outputs.len() as int)[p].0]@.len(),
        k < outputs[pairs_from(0, outputs.len() as int)[p].1]@.len(),
    ensures
        leasts(sims).len() == pairs_from(0, outputs.len() as int).len(),
        ({
            let (i, j) = pairs_from(0, outputs.len() as int)[p];
            let low = leasts(sims)[p];
            &&& exists|c: Num| #[trigger]
                call_ensures(cosine, (&outputs[i]@[k], &outputs[j]@[k]), c) && !c.below(low)
            &&& low == (Num { bits: 0x47ef_ffff_e000_0000 }) || exists|m: int|
                0 <= m < outputs[i]@.len() && m < outputs[j]@.len() && #[trigger] call_ensures(
                    cosine,
                    (&outputs[i]@[m], &outputs[j]@[m]),
                    low,
                )
        }),
{
    let pairs = pairs_from(0, outputs.len() as int);
    let (i, j) = pairs[p];
    assert(similarities(outputs[pairs[p].0]@, outputs[pairs[p].1]@, cosine, sims[p]));
    least_is_least(sims[p]);
    let low = leasts(sims)[p];
    assert(low == least(sims[p]));
    assert(call_ensures(cosine, (&outputs[i]@[k], &outputs[j]@[k]), sims[p][k]));
    if low != (Num { bits: CEILING }) {
        let m = choose|m: int| 0 <= m < sims[p].len() && sims[p][m] == low;
        assert(call_ensures(cosine, (&outputs[i]@[m], &outputs[j]@[m]), sims[p][m]));
    }
}

} // verus!
