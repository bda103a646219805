//! Beam search over a scoring callback.
//!
//! A frontier of at most `beam_size` partial token sequences is advanced one
//! token at a time. At each step the unfinished beams are handed, all at
//! once, to the step function, which offers continuations for each of them;
//! finished beams are carried forward untouched. From the finished beams and
//! all children the best `beam_size` are kept, the earlier candidate winning
//! a tie.

use crate::score::score_add;
use crate::score::score_sum;
use crate::score::NEG_INFINITY;
use vstd::prelude::*;

verus! {

/// One candidate sequence of the search, with its cumulative score. The
/// search copies tokens and never looks into them, so they may be of any type
/// that can be copied.
pub struct BeamNode<T> {
    pub seq: Vec<T>,
    pub log_prob: i64,
}

/// The mathematical value of a [`BeamNode`].
pub struct Beam<T> {
    pub seq: Seq<T>,
    pub log_prob: i64,
}

impl<T> View for BeamNode<T> {
    type V = Beam<T>;

    open spec fn view(&self) -> Beam<T> {
        Beam { seq: self.seq@, log_prob: self.log_prob }
    }
}

/// The values of a list of beams.
pub open spec fn beam_views<T>(beams: Seq<BeamNode<T>>) -> Seq<Beam<T>> {
    Seq::new(beams.len(), |i: int| beams[i]@)
}

/// The values of the continuation lists that a step function returned.
pub open spec fn continuation_views<T>(lists: Seq<Vec<(T, i64)>>) -> Seq<Seq<(T, i64)>> {
    Seq::new(lists.len(), |i: int| lists[i]@)
}

/// The beam that extends `parent` by `token`, whose incremental score is
/// `delta`.
pub open spec fn child<T>(parent: Beam<T>, token: T, delta: i64) -> Beam<T> {
    Beam { seq: parent.seq.push(token), log_prob: score_sum(parent.log_prob, delta) }
}

/// The children of `parent` under the continuations offered for it, in the
/// order in which they were offered.
pub open spec fn children<T>(parent: Beam<T>, offered: Seq<(T, i64)>) -> Seq<Beam<T>> {
    Seq::new(offered.len(), |j: int| child(parent, offered[j].0, offered[j].1))
}

/// The children of the first `n` unfinished beams, beam by beam. A beam for
/// which the step function returned no list has no children.
pub open spec fn expansions<T>(active: Seq<Beam<T>>, offered: Seq<Seq<(T, i64)>>, n: int) -> Seq<
    Beam<T>,
>
    decreases n,
{
    if n <= 0 {
        Seq::empty()
    } else if n - 1 < offered.len() {
        expansions(active, offered, n - 1) + children(active[n - 1], offered[n - 1])
    } else {
        expansions(active, offered, n - 1)
    }
}

/// The candidates of one step in the order in which ties are decided: the
/// finished beams first, then the children of the unfinished ones.
pub open spec fn candidates<T>(
    frozen: Seq<Beam<T>>,
    active: Seq<Beam<T>>,
    offered: Seq<Seq<(T, i64)>>,
) -> Seq<Beam<T>> {
    frozen + expansions(active, offered, active.len() as int)
}

/// The position of the first beam with the highest score; 0 for an empty
/// list.
pub open spec fn first_best<T>(beams: Seq<Beam<T>>) -> int
    decreases beams.len(),
{
    if beams.len() <= 1 {
        0
    } else {
        let before = first_best(beams.drop_last());
        if beams.last().log_prob > beams[before].log_prob {
            beams.len() - 1
        } else {
            before
        }
    }
}

/// The best `k` beams in descending order of score, an earlier beam coming
/// before a later one of the same score: the first best beam, followed by the
/// best `k - 1` of the others.
pub open spec fn top_beams<T>(beams: Seq<Beam<T>>, k: nat) -> Seq<Beam<T>>
    decreases k,
{
    if k == 0 || beams.len() == 0 {
        Seq::empty()
    } else {
        let m = first_best(beams);
        seq![beams[m]] + top_beams(beams.remove(m), (k - 1) as nat)
    }
}

/// The frontier after one step.
pub open spec fn next_frontier<T>(
    frozen: Seq<Beam<T>>,
    active: Seq<Beam<T>>,
    offered: Seq<Seq<(T, i64)>>,
    k: nat,
) -> Seq<Beam<T>> {
    top_beams(candidates(frozen, active, offered), k)
}

/// `first_best` is a position of the list; no beam scores higher than the one
/// there, and every beam before it scores lower.
pub proof fn lemma_first_best<T>(beams: Seq<Beam<T>>)
    requires
        beams.len() > 0,
    ensures
        0 <= first_best(beams) < beams.len(),
        forall|j: int|
            0 <= j < beams.len() ==> (#[trigger] beams[j]).log_prob <= beams[first_best(
                beams,
            )].log_prob,
        forall|j: int|
            0 <= j < first_best(beams) ==> (#[trigger] beams[j]).log_prob < beams[first_best(
                beams,
            )].log_prob,
    decreases beams.len(),
{
    if beams.len() > 1 {
        let shorter = beams.drop_last();
        lemma_first_best(shorter);
        assert forall|j: int| 0 <= j < beams.len() implies (#[trigger] beams[j]).log_prob
            <= beams[first_best(beams)].log_prob by {
            if j < shorter.len() {
                assert(beams[j] == shorter[j]);
            }
        }
        assert forall|j: int| 0 <= j < first_best(beams) implies (#[trigger] beams[j]).log_prob
            < beams[first_best(beams)].log_prob by {
            assert(beams[j] == shorter[j]);
        }
    }
}

/// `top_beams` keeps `k` beams, or all of them if there are fewer.
pub proof fn lemma_top_beams_len<T>(beams: Seq<Beam<T>>, k: nat)
    ensures
        top_beams(beams, k).len() == if k <= beams.len() {
            k
        } else {
            beams.len()
        },
    decreases k,
{
    if k != 0 && beams.len() != 0 {
        lemma_first_best(beams);
        lemma_top_beams_len(beams.remove(first_best(beams)), (k - 1) as nat);
    }
}

/// The best `j` beams are the first `j` of the best `k`, for `j <= k`.
pub proof fn lemma_top_beams_prefix<T>(beams: Seq<Beam<T>>, j: nat, k: nat)
    requires
        j <= k,
    ensures
        top_beams(beams, j).is_prefix_of(top_beams(beams, k)),
    decreases j,
{
    if j != 0 && beams.len() != 0 {
        lemma_first_best(beams);
        let rest = beams.remove(first_best(beams));
        lemma_top_beams_prefix(rest, (j - 1) as nat, (k - 1) as nat);
        let a = top_beams(rest, (j - 1) as nat);
        let b = top_beams(rest, (k - 1) as nat);
        let first = seq![beams[first_best(beams)]];
        assert((first + a).is_prefix_of(first + b)) by {
            assert(a =~= b.subrange(0, a.len() as int));
            assert((first + a) =~= (first + b).subrange(0, (first + a).len() as int));
        }
    }
}

/// Every beam that `top_beams` keeps is one of the candidates.
pub proof fn lemma_top_beams_members<T>(beams: Seq<Beam<T>>, k: nat, i: int)
    requires
        0 <= i < top_beams(beams, k).len(),
    ensures
        exists|j: int| 0 <= j < beams.len() && #[trigger] beams[j] == top_beams(beams, k)[i],
    decreases k,
{
    lemma_first_best(beams);
    let m = first_best(beams);
    if i == 0 {
        assert(beams[m] == top_beams(beams, k)[0]);
    } else {
        let rest = beams.remove(m);
        lemma_top_beams_members(rest, (k - 1) as nat, i - 1);
        let j = choose|j: int|
            0 <= j < rest.len() && #[trigger] rest[j] == top_beams(rest, (k - 1) as nat)[i - 1];
        if j < m {
            assert(beams[j] == top_beams(beams, k)[i]);
        } else {
            assert(beams[j + 1] == top_beams(beams, k)[i]);
        }
    }
}

/// `top_beams` lists the beams in descending order of score.
pub proof fn lemma_top_beams_sorted<T>(beams: Seq<Beam<T>>, k: nat)
    ensures
        forall|i: int, j: int|
            0 <= i <= j < top_beams(beams, k).len() ==> (#[trigger] top_beams(
                beams,
                k,
            )[i]).log_prob >= (#[trigger] top_beams(beams, k)[j]).log_prob,
    decreases k,
{
    if k != 0 && beams.len() != 0 {
        lemma_first_best(beams);
        let m = first_best(beams);
        let rest = beams.remove(m);
        let tail = top_beams(rest, (k - 1) as nat);
        let all = top_beams(beams, k);
        lemma_top_beams_sorted(rest, (k - 1) as nat);
        assert forall|i: int, j: int| 0 <= i <= j < all.len() implies (#[trigger] all[i]).log_prob
            >= (#[trigger] all[j]).log_prob by {
            if i == 0 && j > 0 {
                lemma_top_beams_members(rest, (k - 1) as nat, j - 1);
                let p = choose|p: int| 0 <= p < rest.len() && #[trigger] rest[p] == tail[j - 1];
                if p < m {
                    assert(rest[p] == beams[p]);
                } else {
                    assert(rest[p] == beams[p + 1]);
                }
                assert(all[j] == tail[j - 1]);
            } else if i > 0 {
                assert(all[i] == tail[i - 1]);
                assert(all[j] == tail[j - 1]);
            }
        }
    }
}

/// The number of leading beams whose score is at least `score`.
spec fn rank_of<T>(beams: Seq<Beam<T>>, score: i64) -> nat
    decreases beams.len(),
{
    if beams.len() == 0 || beams[0].log_prob < score {
        0
    } else {
        1 + rank_of(beams.drop_first(), score)
    }
}

/// A list of at most `k` kept beams after one more candidate was offered: the
/// candidate goes behind the beams that score at least as high, and the list
/// is cut back to `k`.
spec fn insert_ranked<T>(kept: Seq<Beam<T>>, x: Beam<T>, k: nat) -> Seq<Beam<T>> {
    let p = rank_of(kept, x.log_prob);
    if p >= k {
        kept
    } else {
        let grown = kept.insert(p as int, x);
        if grown.len() > k {
            grown.take(k as int)
        } else {
            grown
        }
    }
}

spec fn descending<T>(beams: Seq<Beam<T>>) -> bool {
    forall|i: int, j: int|
        0 <= i <= j < beams.len() ==> (#[trigger] beams[i]).log_prob >= (
        #[trigger] beams[j]).log_prob
}

proof fn lemma_rank_of_bound<T>(beams: Seq<Beam<T>>, score: i64)
    ensures
        rank_of(beams, score) <= beams.len(),
    decreases beams.len(),
{
    if beams.len() != 0 && beams[0].log_prob >= score {
        lemma_rank_of_bound(beams.drop_first(), score);
    }
}

proof fn lemma_rank_of_at<T>(beams: Seq<Beam<T>>, score: i64, p: int)
    requires
        0 <= p <= beams.len(),
        forall|i: int| 0 <= i < p ==> (#[trigger] beams[i]).log_prob >= score,
        p < beams.len() ==> beams[p].log_prob < score,
    ensures
        rank_of(beams, score) == p,
    decreases beams.len(),
{
    if p > 0 {
        let rest = beams.drop_first();
        assert forall|i: int| 0 <= i < p - 1 implies (#[trigger] rest[i]).log_prob >= score by {
            assert(rest[i] == beams[i + 1]);
        }
        lemma_rank_of_at(rest, score, p - 1);
    }
}

/// Keeping the best `k` of a list with one more candidate at its end is the
/// same as offering that candidate to the best `k` of the list.
proof fn lemma_top_beams_push<T>(beams: Seq<Beam<T>>, x: Beam<T>, k: nat)
    ensures
        top_beams(beams.push(x), k) == insert_ranked(top_beams(beams, k), x, k),
    decreases k,
{
    let longer = beams.push(x);
    let kept = top_beams(beams, k);
    lemma_top_beams_len(beams, k);
    if k == 0 {
    } else if beams.len() == 0 {
        assert(first_best(longer) == 0);
        assert(longer.remove(0) =~= Seq::<Beam<T>>::empty());
        assert(top_beams(longer.remove(0), (k - 1) as nat) =~= Seq::<Beam<T>>::empty());
        assert(top_beams(longer, k) =~= seq![x]);
        assert(rank_of(kept, x.log_prob) == 0);
        assert(kept.insert(0, x) =~= seq![x]);
    } else {
        lemma_first_best(beams);
        let m = first_best(beams);
        assert(longer.drop_last() =~= beams);
        assert(kept[0] == beams[m]);
        if x.log_prob > beams[m].log_prob {
            assert(first_best(longer) == beams.len());
            assert(longer.remove(beams.len() as int) =~= beams);
            lemma_top_beams_prefix(beams, (k - 1) as nat, k);
            lemma_top_beams_len(beams, (k - 1) as nat);
            assert(rank_of(kept, x.log_prob) == 0);
            assert(top_beams(longer, k) =~= insert_ranked(kept, x, k));
        } else {
            assert(first_best(longer) == m);
            let rest = beams.remove(m);
            assert(longer.remove(m) =~= rest.push(x));
            lemma_top_beams_push(rest, x, (k - 1) as nat);
            let tail = top_beams(rest, (k - 1) as nat);
            lemma_top_beams_len(rest, (k - 1) as nat);
            assert(kept.drop_first() =~= tail);
            lemma_rank_of_bound(tail, x.log_prob);
            let q = rank_of(tail, x.log_prob);
            assert(rank_of(kept, x.log_prob) == q + 1);
            let head = seq![beams[m]];
            assert(kept =~= head + tail);
            assert(top_beams(longer, k) == head + insert_ranked(tail, x, (k - 1) as nat));
            if q < k - 1 {
                let grown = tail.insert(q as int, x);
                assert(kept.insert(q as int + 1, x) =~= head + grown);
                if grown.len() > k - 1 {
                    assert((head + grown).take(k as int) =~= head + grown.take(k - 1));
                }
            }
        }
    }
}


/// A kept candidate while one step is being decided: a finished beam
/// (`parent` is its place among the finished beams, and there is no `token`),
/// or the child of the unfinished beam at `parent` that ends in `token`.
struct Slot<T> {
    parent: usize,
    token: Option<T>,
    log_prob: i64,
}

spec fn slot_fits<T>(frozen: Seq<Beam<T>>, active: Seq<Beam<T>>, slot: Slot<T>) -> bool {
    if slot.token is Some {
        slot.parent < active.len()
    } else {
        slot.parent < frozen.len()
    }
}

spec fn slot_beam<T>(frozen: Seq<Beam<T>>, active: Seq<Beam<T>>, slot: Slot<T>) -> Beam<T> {
    if slot.token is Some {
        Beam {
            seq: active[slot.parent as int].seq.push(slot.token->Some_0),
            log_prob: slot.log_prob,
        }
    } else {
        Beam { seq: frozen[slot.parent as int].seq, log_prob: slot.log_prob }
    }
}

spec fn slot_beams<T>(frozen: Seq<Beam<T>>, active: Seq<Beam<T>>, slots: Seq<Slot<T>>) -> Seq<
    Beam<T>,
> {
    Seq::new(slots.len(), |i: int| slot_beam(frozen, active, slots[i]))
}

spec fn slots_fit<T>(frozen: Seq<Beam<T>>, active: Seq<Beam<T>>, slots: Seq<Slot<T>>) -> bool {
    forall|i: int| 0 <= i < slots.len() ==> slot_fits(frozen, active, #[trigger] slots[i])
}

/// Offers one candidate to the kept ones.
fn offer<T: Copy>(
    kept: &mut Vec<Slot<T>>,
    slot: Slot<T>,
    k: usize,
    Ghost(frozen): Ghost<Seq<Beam<T>>>,
    Ghost(active): Ghost<Seq<Beam<T>>>,
)
    requires
        old(kept).len() <= k,
        descending(slot_beams(frozen, active, old(kept)@)),
        slots_fit(frozen, active, old(kept)@),
        slot_fits(frozen, active, slot),
    ensures
        slot_beams(frozen, active, final(kept)@) == insert_ranked(
            slot_beams(frozen, active, old(kept)@),
            slot_beam(frozen, active, slot),
            k as nat,
        ),
        slots_fit(frozen, active, final(kept)@),
        final(kept).len() <= k,
{
    let ghost before = slot_beams(frozen, active, kept@);
    let ghost x = slot_beam(frozen, active, slot);
    let n = kept.len();
    if n == k {
        if k == 0 {
            return ;
        }
        if kept[n - 1].log_prob >= slot.log_prob {
            proof {
                assert forall|i: int| 0 <= i < n implies (#[trigger] before[i]).log_prob
                    >= x.log_prob by {
                    assert(before[i].log_prob >= before[n - 1].log_prob);
                }
                lemma_rank_of_at(before, x.log_prob, n as int);
            }
            return ;
        }
    }
    let mut p = n;
    while p > 0 && kept[p - 1].log_prob < slot.log_prob
        invariant
            p <= n,
            n == kept.len(),
            forall|i: int| p <= i < n ==> (#[trigger] kept[i]).log_prob < slot.log_prob,
        decreases p,
    {
        p = p - 1;
    }
    proof {
        assert forall|i: int| 0 <= i < p implies (#[trigger] before[i]).log_prob
            >= x.log_prob by {
            assert(before[i].log_prob >= before[p - 1].log_prob);
        }
        if p < n {
            assert(before[p as int].log_prob == kept[p as int].log_prob);
        }
        lemma_rank_of_at(before, x.log_prob, p as int);
    }
    kept.insert(p, slot);
    assert(slot_beams(frozen, active, kept@) =~= before.insert(p as int, x));
    if kept.len() > k {
        kept.truncate(k);
        assert(slot_beams(frozen, active, kept@) =~= before.insert(p as int, x).take(k as int));
    }
}

/// A copy of a token sequence.
fn copy_tokens<T: Copy>(tokens: &Vec<T>) -> (copy: Vec<T>)
    ensures
        copy@ == tokens@,
{
    let mut copy: Vec<T> = Vec::with_capacity(tokens.len());
    let mut i: usize = 0;
    while i < tokens.len()
        invariant
            i <= tokens.len(),
            copy@ == tokens@.take(i as int),
        decreases tokens.len() - i,
    {
        copy.push(tokens[i]);
        i = i + 1;
        assert(copy@ =~= tokens@.take(i as int));
    }
    assert(tokens@.take(tokens.len() as int) =~= tokens@);
    copy
}

/// One step of the search once the step function has answered: from the
/// finished beams and the children of the unfinished ones, the best
/// `beam_size`, best first. `continuations` holds, for each unfinished beam in
/// turn, the tokens offered for it with their incremental scores; a beam
/// without a list has no children, and lists beyond the last beam are not
/// read.
pub fn select_beams<T: Copy>(
    frozen: &[BeamNode<T>],
    active: &[BeamNode<T>],
    continuations: &[Vec<(T, i64)>],
    beam_size: usize,
) -> (kept: Vec<BeamNode<T>>)
    ensures
        beam_views(kept@) == next_frontier(
            beam_views(frozen@),
            beam_views(active@),
            continuation_views(continuations@),
            beam_size as nat,
        ),
{
    let ghost fv = beam_views(frozen@);
    let ghost av = beam_views(active@);
    let ghost cv = continuation_views(continuations@);
    let ghost k = beam_size as nat;
    let mut slots: Vec<Slot<T>> = Vec::new();
    assert(slot_beams(fv, av, slots@) =~= top_beams(fv.take(0), k));
    let mut i: usize = 0;
    while i < frozen.len()
        invariant
            i <= frozen.len(),
            fv == beam_views(frozen@),
            k == beam_size as nat,
            slots.len() <= beam_size,
            slots_fit(fv, av, slots@),
            slot_beams(fv, av, slots@) == top_beams(fv.take(i as int), k),
        decreases frozen.len() - i,
    {
        let slot = Slot { parent: i, token: None, log_prob: frozen[i].log_prob };
        proof {
            lemma_top_beams_sorted(fv.take(i as int), k);
            lemma_top_beams_push(fv.take(i as int), fv[i as int], k);
            assert(fv.take(i as int).push(fv[i as int]) =~= fv.take(i + 1));
            assert(slot_beam(fv, av, slot) == fv[i as int]);
        }
        offer(&mut slots, slot, beam_size, Ghost(fv), Ghost(av));
        i = i + 1;
    }
    assert(fv.take(frozen.len() as int) =~= fv);
    assert(fv =~= fv + expansions(av, cv, 0));
    let mut a: usize = 0;
    while a < active.len()
        invariant
            a <= active.len(),
            av == beam_views(active@),
            cv == continuation_views(continuations@),
            k == beam_size as nat,
            slots.len() <= beam_size,
            slots_fit(fv, av, slots@),
            slot_beams(fv, av, slots@) == top_beams(fv + expansions(av, cv, a as int), k),
        decreases active.len() - a,
    {
        if a < continuations.len() {
            let offered = &continuations[a];
            let ghost done = fv + expansions(av, cv, a as int);
            let ghost kids = children(av[a as int], cv[a as int]);
            assert(done + kids.take(0) =~= done);
            let mut j: usize = 0;
            while j < offered.len()
                invariant
                    j <= offered.len(),
                    a < active.len(),
                    a < cv.len(),
                    av == beam_views(active@),
                    offered@ == cv[a as int],
                    kids == children(av[a as int], cv[a as int]),
                    k == beam_size as nat,
                    slots.len() <= beam_size,
                    slots_fit(fv, av, slots@),
                    slot_beams(fv, av, slots@) == top_beams(done + kids.take(j as int), k),
                decreases offered.len() - j,
            {
                let token = offered[j].0;
                let log_prob = score_add(active[a].log_prob, offered[j].1);
                let slot = Slot { parent: a, token: Some(token), log_prob };
                proof {
                    let sofar = done + kids.take(j as int);
                    lemma_top_beams_sorted(sofar, k);
                    lemma_top_beams_push(sofar, kids[j as int], k);
                    assert(sofar.push(kids[j as int]) =~= done + kids.take(j + 1));
                    assert(slot_beam(fv, av, slot) == kids[j as int]);
                }
                offer(&mut slots, slot, beam_size, Ghost(fv), Ghost(av));
                j = j + 1;
            }
            assert(kids.take(offered.len() as int) =~= kids);
            assert(done + kids =~= fv + expansions(av, cv, a + 1)) by {
                assert((fv + expansions(av, cv, a as int)) + kids =~= fv + (expansions(
                    av,
                    cv,
                    a as int,
                ) + kids));
            }
        }
        a = a + 1;
    }
    let mut kept: Vec<BeamNode<T>> = Vec::with_capacity(slots.len());
    let mut s: usize = 0;
    while s < slots.len()
        invariant
            s <= slots.len(),
            fv == beam_views(frozen@),
            av == beam_views(active@),
            slots_fit(fv, av, slots@),
            kept.len() == s,
            beam_views(kept@) == slot_beams(fv, av, slots@).take(s as int),
        decreases slots.len() - s,
    {
        let slot = &slots[s];
        let node = match slot.token {
            Some(token) => {
                let mut seq = copy_tokens(&active[slot.parent].seq);
                seq.push(token);
                BeamNode { seq, log_prob: slot.log_prob }
            },
            None => BeamNode {
                seq: copy_tokens(&frozen[slot.parent].seq),
                log_prob: slot.log_prob,
            },
        };
        assert(node@ == slot_beam(fv, av, *slot));
        let ghost before = kept@;
        kept.push(node);
        s = s + 1;
        assert forall|i: int| 0 <= i < s implies beam_views(kept@)[i] == slot_beams(
            fv,
            av,
            slots@,
        ).take(s as int)[i] by {
            if i < s - 1 {
                assert(beam_views(before)[i] == slot_beams(fv, av, slots@).take(s - 1)[i]);
            }
        }
        assert(beam_views(kept@) =~= slot_beams(fv, av, slots@).take(s as int));
    }
    assert(slot_beams(fv, av, slots@).take(slots.len() as int) =~= slot_beams(fv, av, slots@));
    kept
}


/// The finish predicate, lifted from sequences to beams.
pub open spec fn beam_done<T>(done: spec_fn(Seq<T>) -> bool) -> spec_fn(Beam<T>) -> bool {
    |b: Beam<T>| done(b.seq)
}

/// The negation of [`beam_done`].
pub open spec fn beam_open<T>(done: spec_fn(Seq<T>) -> bool) -> spec_fn(Beam<T>) -> bool {
    |b: Beam<T>| !done(b.seq)
}

/// Every beam of the frontier is finished.
pub open spec fn all_finished<T>(frontier: Seq<Beam<T>>, done: spec_fn(Seq<T>) -> bool) -> bool {
    forall|i: int| 0 <= i < frontier.len() ==> done((#[trigger] frontier[i]).seq)
}

/// One step of the search under a step function that answers `oracle` and a
/// finish predicate `done`.
pub open spec fn advance<T>(
    frontier: Seq<Beam<T>>,
    oracle: spec_fn(Seq<Beam<T>>) -> Seq<Seq<(T, i64)>>,
    done: spec_fn(Seq<T>) -> bool,
    k: nat,
) -> Seq<Beam<T>> {
    let frozen = frontier.filter(beam_done(done));
    let active = frontier.filter(beam_open(done));
    next_frontier(frozen, active, oracle(active), k)
}

/// Every beam of `frontier` is finished, by a predicate with which the finish
/// predicate `is_finished` agrees.
#[verifier::opaque]
spec fn finished_for<T, G: Fn(&[T]) -> bool>(is_finished: G, frontier: Seq<Beam<T>>) -> bool {
    exists|done: spec_fn(Seq<T>) -> bool| #[trigger]
        all_finished(frontier, done) && finish_agrees(is_finished, done)
}

/// The frontier when the search stops: after `depth` steps, or as soon as
/// every beam is finished.
pub open spec fn search<T>(
    frontier: Seq<Beam<T>>,
    oracle: spec_fn(Seq<Beam<T>>) -> Seq<Seq<(T, i64)>>,
    done: spec_fn(Seq<T>) -> bool,
    k: nat,
    depth: nat,
) -> Seq<Beam<T>>
    decreases depth,
{
    if depth == 0 || all_finished(frontier, done) {
        frontier
    } else {
        search(advance(frontier, oracle, done, k), oracle, done, k, (depth - 1) as nat)
    }
}

/// The sequence of the first best beam; empty for an empty frontier.
pub open spec fn best_sequence<T>(frontier: Seq<Beam<T>>) -> Seq<T> {
    if frontier.len() == 0 {
        Seq::empty()
    } else {
        frontier[first_best(frontier)].seq
    }
}

/// The step function `next` answers as `oracle` does whenever it succeeds.
pub open spec fn step_agrees<T, E, F: Fn(&[BeamNode<T>]) -> Result<Vec<Vec<(T, i64)>>, E>>(
    next: F,
    oracle: spec_fn(Seq<Beam<T>>) -> Seq<Seq<(T, i64)>>,
) -> bool {
    forall|beams: &[BeamNode<T>], r: Result<Vec<Vec<(T, i64)>>, E>| #[trigger]
        next.ensures((beams,), r) ==> (r matches Ok(lists) ==> continuation_views(lists@)
            == oracle(beam_views(beams@)))
}

/// The finish predicate `is_finished` answers as `done` does.
pub open spec fn finish_agrees<T, G: Fn(&[T]) -> bool>(
    is_finished: G,
    done: spec_fn(Seq<T>) -> bool,
) -> bool {
    forall|seq: &[T], r: bool| #[trigger] is_finished.ensures((seq,), r) ==> r == done(seq@)
}

/// Some call of the step function `next` can end in the error `e`.
pub open spec fn step_fails_with<T, E, F: Fn(&[BeamNode<T>]) -> Result<Vec<Vec<(T, i64)>>, E>>(
    next: F,
    e: E,
) -> bool {
    exists|beams: &[BeamNode<T>]| #[trigger]
        next.ensures((beams,), Result::<Vec<Vec<(T, i64)>>, E>::Err(e))
}

/// The step function `next` can end in the error `e` when it is handed
/// beams, at least one, that each continue a beam of `frontier` by fewer than
/// `steps` tokens.
pub open spec fn fails_within<T, E, F: Fn(&[BeamNode<T>]) -> Result<Vec<Vec<(T, i64)>>, E>>(
    next: F,
    frontier: Seq<Beam<T>>,
    steps: nat,
    e: E,
) -> bool {
    exists|beams: &[BeamNode<T>], taken: nat|
        #![trigger
            next.ensures((beams,), Result::<Vec<Vec<(T, i64)>>, E>::Err(e)),
            descends(beam_views(beams@), frontier, taken, false)]
        taken < steps && beams@.len() > 0 && next.ensures(
            (beams,),
            Result::<Vec<Vec<(T, i64)>>, E>::Err(e),
        ) && descends(beam_views(beams@), frontier, taken, false)
}

/// The step function `next` can answer `offered` when it is handed the
/// beams `active`.
pub open spec fn answers<T, E, F: Fn(&[BeamNode<T>]) -> Result<Vec<Vec<(T, i64)>>, E>>(
    next: F,
    active: Seq<Beam<T>>,
    offered: Seq<Seq<(T, i64)>>,
) -> bool {
    exists|beams: &[BeamNode<T>], lists: Vec<Vec<(T, i64)>>|
        beam_views(beams@) == active && continuation_views(lists@) == offered
            && #[trigger] next.ensures((beams,), Result::<Vec<Vec<(T, i64)>>, E>::Ok(lists))
}

/// The search can end in the frontier `last`: from `frontier`, at most
/// `depth` steps are taken, each on continuations that `next` can answer for
/// the unfinished beams, and the search stops as soon as every beam is
/// finished.
pub open spec fn reaches<T, E, F: Fn(&[BeamNode<T>]) -> Result<Vec<Vec<(T, i64)>>, E>>(
    next: F,
    done: spec_fn(Seq<T>) -> bool,
    frontier: Seq<Beam<T>>,
    k: nat,
    depth: nat,
    last: Seq<Beam<T>>,
) -> bool
    decreases depth,
{
    if depth == 0 || all_finished(frontier, done) {
        last == frontier
    } else {
        exists|offered: Seq<Seq<(T, i64)>>|
            #[trigger] answers(next, frontier.filter(beam_open(done)), offered) && reaches(
                next,
                done,
                next_frontier(
                    frontier.filter(beam_done(done)),
                    frontier.filter(beam_open(done)),
                    offered,
                    k,
                ),
                k,
                (depth - 1) as nat,
                last,
            )
    }
}

/// One step on the continuations `offered` gives `kept` after `frontier`:
/// `kept` holds the best `k` of the finished beams and of the children of the
/// unfinished ones, and `next` can answer `offered` for the unfinished beams.
/// Where every beam is finished `next` is not asked.
pub open spec fn step_gives<T, E, F: Fn(&[BeamNode<T>]) -> Result<Vec<Vec<(T, i64)>>, E>>(
    next: F,
    done: spec_fn(Seq<T>) -> bool,
    frontier: Seq<Beam<T>>,
    k: nat,
    offered: Seq<Seq<(T, i64)>>,
    kept: Seq<Beam<T>>,
) -> bool {
    &&& all_finished(frontier, done) || answers(next, frontier.filter(beam_open(done)), offered)
    &&& kept == next_frontier(
        frontier.filter(beam_done(done)),
        frontier.filter(beam_open(done)),
        offered,
        k,
    )
}

/// `kept` is a frontier that one step can give after `frontier`.
pub open spec fn steps_to<T, E, F: Fn(&[BeamNode<T>]) -> Result<Vec<Vec<(T, i64)>>, E>>(
    next: F,
    done: spec_fn(Seq<T>) -> bool,
    frontier: Seq<Beam<T>>,
    k: nat,
    kept: Seq<Beam<T>>,
) -> bool {
    exists|offered: Seq<Seq<(T, i64)>>|
        #[trigger] step_gives(next, done, frontier, k, offered, kept)
}

/// `seq` is the best sequence of a frontier in which the search can end.
pub open spec fn found_by<T, E, F: Fn(&[BeamNode<T>]) -> Result<Vec<Vec<(T, i64)>>, E>>(
    next: F,
    done: spec_fn(Seq<T>) -> bool,
    frontier: Seq<Beam<T>>,
    k: nat,
    depth: nat,
    seq: Seq<T>,
) -> bool {
    exists|last: Seq<Beam<T>>|
        #[trigger] reaches(next, done, frontier, k, depth, last) && seq == best_sequence(last)
}

/// `beam` continues `from` by at most `steps` tokens. With `declining`, its
/// score is moreover no higher than that of `from`.
pub open spec fn follows<T>(beam: Beam<T>, from: Beam<T>, steps: nat, declining: bool) -> bool {
    &&& from.seq.is_prefix_of(beam.seq)
    &&& beam.seq.len() <= from.seq.len() + steps
    &&& declining ==> beam.log_prob <= from.log_prob
}

/// `beam` follows some beam of `frontier`.
pub open spec fn has_ancestor<T>(
    beam: Beam<T>,
    frontier: Seq<Beam<T>>,
    steps: nat,
    declining: bool,
) -> bool {
    exists|i: int| 0 <= i < frontier.len() && #[trigger] follows(beam, frontier[i], steps, declining)
}

/// Every beam of `beams` follows some beam of `frontier`.
pub open spec fn descends<T>(
    beams: Seq<Beam<T>>,
    frontier: Seq<Beam<T>>,
    steps: nat,
    declining: bool,
) -> bool {
    forall|j: int|
        0 <= j < beams.len() ==> has_ancestor(#[trigger] beams[j], frontier, steps, declining)
}

/// No continuation in `offered` has an incremental score above zero.
pub open spec fn nonpositive<T>(offered: Seq<Seq<(T, i64)>>) -> bool {
    forall|a: int, j: int|
        0 <= a < offered.len() && 0 <= j < offered[a].len() ==> (#[trigger] offered[a][j]).1 <= 0
}

/// Every child among the expansions is the child of one of the unfinished
/// beams under one of the continuations offered for it.
proof fn lemma_expansion_origin<T>(
    active: Seq<Beam<T>>,
    offered: Seq<Seq<(T, i64)>>,
    n: int,
    q: int,
)
    requires
        0 <= n <= active.len(),
        0 <= q < expansions(active, offered, n).len(),
    ensures
        exists|a: int, j: int|
            0 <= a < n && a < offered.len() && 0 <= j < offered[a].len() && #[trigger] child(
                active[a],
                offered[a][j].0,
                offered[a][j].1,
            ) == expansions(active, offered, n)[q],
    decreases n,
{
    let before = expansions(active, offered, n - 1);
    if n - 1 < offered.len() && q >= before.len() {
        let a = n - 1;
        let j = q - before.len();
        assert(child(active[a], offered[a][j].0, offered[a][j].1) == expansions(
            active,
            offered,
            n,
        )[q]);
    } else {
        lemma_expansion_origin(active, offered, n - 1, q);
    }
}

/// After one step every beam of the frontier is a finished beam of the old
/// frontier or a child of an unfinished one; where no incremental score is
/// above zero, no beam scores higher than the beam it comes from.
pub proof fn lemma_next_frontier_descends<T>(
    frozen: Seq<Beam<T>>,
    active: Seq<Beam<T>>,
    offered: Seq<Seq<(T, i64)>>,
    k: nat,
    declining: bool,
)
    requires
        declining ==> nonpositive(offered),
    ensures
        descends(next_frontier(frozen, active, offered, k), frozen + active, 1, declining),
{
    let all = candidates(frozen, active, offered);
    let kept = next_frontier(frozen, active, offered, k);
    let old = frozen + active;
    assert forall|t: int| 0 <= t < kept.len() implies has_ancestor(
        #[trigger] kept[t],
        old,
        1,
        declining,
    ) by {
        lemma_top_beams_members(all, k, t);
        let c = choose|c: int| 0 <= c < all.len() && #[trigger] all[c] == kept[t];
        if c < frozen.len() {
            assert(follows(kept[t], old[c], 1, declining));
        } else {
            let q = c - frozen.len();
            lemma_expansion_origin(active, offered, active.len() as int, q);
            let (a, j) = choose|a: int, j: int|
                0 <= a < active.len() && a < offered.len() && 0 <= j < offered[a].len()
                    && #[trigger] child(active[a], offered[a][j].0, offered[a][j].1) == expansions(
                    active,
                    offered,
                    active.len() as int,
                )[q];
            let parent = active[a];
            assert(parent.seq =~= parent.seq.push(offered[a][j].0).subrange(
                0,
                parent.seq.len() as int,
            ));
            if declining {
                assert(offered[a][j].1 <= 0);
            }
            assert(old[frozen.len() + a] == parent);
            assert(follows(kept[t], old[frozen.len() + a], 1, declining));
        }
    }
}

/// Every beam of the frontier after a step is one of the finished beams, or
/// the child of an unfinished beam under a continuation offered for it.
pub proof fn lemma_next_frontier_origin<T>(
    frozen: Seq<Beam<T>>,
    active: Seq<Beam<T>>,
    offered: Seq<Seq<(T, i64)>>,
    k: nat,
    t: int,
)
    requires
        0 <= t < next_frontier(frozen, active, offered, k).len(),
    ensures
        (exists|i: int|
            0 <= i < frozen.len() && #[trigger] frozen[i] == next_frontier(
                frozen,
                active,
                offered,
                k,
            )[t]) || (exists|a: int, j: int|
            0 <= a < active.len() && a < offered.len() && 0 <= j < offered[a].len()
                && #[trigger] child(active[a], offered[a][j].0, offered[a][j].1) == next_frontier(
                frozen,
                active,
                offered,
                k,
            )[t]),
{
    let all = candidates(frozen, active, offered);
    let kept = next_frontier(frozen, active, offered, k);
    lemma_top_beams_members(all, k, t);
    let c = choose|c: int| 0 <= c < all.len() && #[trigger] all[c] == kept[t];
    if c < frozen.len() {
        assert(frozen[c] == kept[t]);
    } else {
        lemma_expansion_origin(active, offered, active.len() as int, c - frozen.len());
    }
}

/// The expansions hold at least the children of the first unfinished beam.
proof fn lemma_expansions_len<T>(active: Seq<Beam<T>>, offered: Seq<Seq<(T, i64)>>, n: int)
    requires
        1 <= n,
        offered.len() >= 1,
    ensures
        expansions(active, offered, n).len() >= offered[0].len(),
    decreases n,
{
    if n > 1 {
        lemma_expansions_len(active, offered, n - 1);
    } else {
        assert(expansions(active, offered, 0).len() == 0);
    }
}

/// A step keeps at least one beam where it may keep one and the first
/// unfinished beam is offered a continuation.
pub proof fn lemma_next_frontier_nonempty<T>(
    frozen: Seq<Beam<T>>,
    active: Seq<Beam<T>>,
    offered: Seq<Seq<(T, i64)>>,
    k: nat,
)
    requires
        k >= 1,
        active.len() >= 1,
        offered.len() >= 1,
        offered[0].len() >= 1,
    ensures
        next_frontier(frozen, active, offered, k).len() >= 1,
{
    lemma_expansions_len(active, offered, active.len() as int);
    lemma_top_beams_len(candidates(frozen, active, offered), k);
}

/// Following is transitive, the steps adding up.
pub proof fn lemma_descends_transitive<T>(
    last: Seq<Beam<T>>,
    middle: Seq<Beam<T>>,
    first: Seq<Beam<T>>,
    s1: nat,
    s2: nat,
    declining: bool,
)
    requires
        descends(last, middle, s1, declining),
        descends(middle, first, s2, declining),
    ensures
        descends(last, first, s1 + s2, declining),
{
    assert forall|j: int| 0 <= j < last.len() implies has_ancestor(
        #[trigger] last[j],
        first,
        s1 + s2,
        declining,
    ) by {
        assert(has_ancestor(last[j], middle, s1, declining));
        let m = choose|m: int|
            0 <= m < middle.len() && #[trigger] follows(last[j], middle[m], s1, declining);
        assert(has_ancestor(middle[m], first, s2, declining));
        let i = choose|i: int|
            0 <= i < first.len() && #[trigger] follows(middle[m], first[i], s2, declining);
        assert(first[i].seq =~= last[j].seq.subrange(0, first[i].seq.len() as int)) by {
            assert(first[i].seq =~= middle[m].seq.subrange(0, first[i].seq.len() as int));
            assert(middle[m].seq =~= last[j].seq.subrange(0, middle[m].seq.len() as int));
        }
        assert(follows(last[j], first[i], s1 + s2, declining));
    }
}

/// The beams that a filter keeps are beams of the frontier.
pub proof fn lemma_filter_descends<T>(frontier: Seq<Beam<T>>, pred: spec_fn(Beam<T>) -> bool)
    ensures
        descends(frontier.filter(pred), frontier, 0, true),
    decreases frontier.len(),
{
    reveal(Seq::filter);
    if frontier.len() > 0 {
        let shorter = frontier.drop_last();
        lemma_filter_descends(shorter, pred);
        let kept = frontier.filter(pred);
        assert forall|j: int| 0 <= j < kept.len() implies has_ancestor(
            #[trigger] kept[j],
            frontier,
            0,
            true,
        ) by {
            if j < shorter.filter(pred).len() {
                assert(has_ancestor(shorter.filter(pred)[j], shorter, 0, true));
                let i = choose|i: int|
                    0 <= i < shorter.len() && #[trigger] follows(kept[j], shorter[i], 0, true);
                assert(follows(kept[j], frontier[i], 0, true));
            } else {
                assert(follows(kept[j], frontier[frontier.len() - 1], 0, true));
            }
        }
    }
}

/// A frontier is finished throughout exactly when the filter for unfinished
/// beams keeps nothing.
pub proof fn lemma_all_finished<T>(frontier: Seq<Beam<T>>, done: spec_fn(Seq<T>) -> bool)
    ensures
        all_finished(frontier, done) <==> frontier.filter(beam_open(done)).len() == 0,
    decreases frontier.len(),
{
    reveal(Seq::filter);
    if frontier.len() > 0 {
        let shorter = frontier.drop_last();
        lemma_all_finished(shorter, done);
        if all_finished(frontier, done) {
            assert forall|i: int| 0 <= i < shorter.len() implies done(
                (#[trigger] shorter[i]).seq,
            ) by {
                assert(shorter[i] == frontier[i]);
            }
            assert(done(frontier[frontier.len() - 1].seq));
        }
        if frontier.filter(beam_open(done)).len() == 0 {
            assert forall|i: int| 0 <= i < frontier.len() implies done(
                (#[trigger] frontier[i]).seq,
            ) by {
                if i < shorter.len() {
                    assert(shorter[i] == frontier[i]);
                }
            }
        }
    }
}

/// Beams that descend with declining scores descend.
proof fn lemma_descends_plain<T>(beams: Seq<Beam<T>>, frontier: Seq<Beam<T>>, steps: nat)
    requires
        descends(beams, frontier, steps, true),
    ensures
        descends(beams, frontier, steps, false),
{
    assert forall|j: int| 0 <= j < beams.len() implies has_ancestor(
        #[trigger] beams[j],
        frontier,
        steps,
        false,
    ) by {
        assert(has_ancestor(beams[j], frontier, steps, true));
        let i = choose|i: int|
            0 <= i < frontier.len() && #[trigger] follows(beams[j], frontier[i], steps, true);
        assert(follows(beams[j], frontier[i], steps, false));
    }
}

/// A frontier with an unfinished beam is not [`finished_for`] the finish
/// predicate.
proof fn lemma_unfinished<T, G: Fn(&[T]) -> bool>(
    is_finished: G,
    frontier: Seq<Beam<T>>,
    active: Seq<Beam<T>>,
)
    requires
        active.len() > 0,
        forall|done: spec_fn(Seq<T>) -> bool| #[trigger]
            finish_agrees(is_finished, done) ==> active == frontier.filter(beam_open(done)),
    ensures
        !finished_for(is_finished, frontier),
{
    reveal(finished_for);
    assert forall|done: spec_fn(Seq<T>) -> bool| #[trigger]
        all_finished(frontier, done) implies !finish_agrees(is_finished, done) by {
        lemma_all_finished(frontier, done);
    }
}

/// A frontier whose beams are all finished by `done` is [`finished_for`] a
/// finish predicate that agrees with `done`.
proof fn lemma_finished_for<T, G: Fn(&[T]) -> bool>(
    is_finished: G,
    frontier: Seq<Beam<T>>,
    done: spec_fn(Seq<T>) -> bool,
)
    requires
        finish_agrees(is_finished, done),
        all_finished(frontier, done),
    ensures
        finished_for(is_finished, frontier),
{
    reveal(finished_for);
}

/// Splits a frontier into its finished and its unfinished beams, each in
/// frontier order.
fn partition_beams<T: Copy, G: Fn(&[T]) -> bool>(beams: &[BeamNode<T>], is_finished: &G) -> (parts: (
    Vec<BeamNode<T>>,
    Vec<BeamNode<T>>,
))
    requires
        forall|seq: &[T]| #[trigger] is_finished.requires((seq,)),
    ensures
        forall|done: spec_fn(Seq<T>) -> bool| #[trigger]
            finish_agrees(*is_finished, done) ==> beam_views(parts.0@) == beam_views(
                beams@,
            ).filter(beam_done(done)) && beam_views(parts.1@) == beam_views(beams@).filter(
                beam_open(done),
            ),
        descends(beam_views(parts.0@), beam_views(beams@), 0, true),
        descends(beam_views(parts.1@), beam_views(beams@), 0, true),
{
    let ghost all = beam_views(beams@);
    let mut frozen: Vec<BeamNode<T>> = Vec::new();
    let mut active: Vec<BeamNode<T>> = Vec::new();
    let mut i: usize = 0;
    proof {
        reveal(Seq::filter);
        assert forall|done: spec_fn(Seq<T>) -> bool| #[trigger]
            finish_agrees(*is_finished, done) implies beam_views(frozen@) == all.take(0).filter(
            beam_done(done),
        ) && beam_views(active@) == all.take(0).filter(beam_open(done)) by {
            assert(beam_views(frozen@) =~= all.take(0).filter(beam_done(done)));
            assert(beam_views(active@) =~= all.take(0).filter(beam_open(done)));
        }
    }
    while i < beams.len()
        invariant
            i <= beams.len(),
            all == beam_views(beams@),
            forall|seq: &[T]| #[trigger] is_finished.requires((seq,)),
            forall|done: spec_fn(Seq<T>) -> bool| #[trigger]
                finish_agrees(*is_finished, done) ==> beam_views(frozen@) == all.take(
                    i as int,
                ).filter(beam_done(done)) && beam_views(active@) == all.take(i as int).filter(
                    beam_open(done),
                ),
            descends(beam_views(frozen@), all, 0, true),
            descends(beam_views(active@), all, 0, true),
        decreases beams.len() - i,
    {
        let ghost frozen_before = beam_views(frozen@);
        let ghost active_before = beam_views(active@);
        let finished = is_finished(beams[i].seq.as_slice());
        let node = BeamNode { seq: copy_tokens(&beams[i].seq), log_prob: beams[i].log_prob };
        assert(node@ == all[i as int]);
        assert(follows(node@, all[i as int], 0, true));
        if finished {
            frozen.push(node);
            assert(beam_views(frozen@) =~= frozen_before.push(all[i as int]));
        } else {
            active.push(node);
            assert(beam_views(active@) =~= active_before.push(all[i as int]));
        }
        proof {
            let shorter = all.take(i as int);
            let longer = all.take(i + 1);
            assert(longer.drop_last() =~= shorter);
            assert(longer.last() == all[i as int]);
            assert forall|done: spec_fn(Seq<T>) -> bool| #[trigger]
                finish_agrees(*is_finished, done) implies beam_views(frozen@) == longer.filter(
                beam_done(done),
            ) && beam_views(active@) == longer.filter(beam_open(done)) by {
                reveal(Seq::filter);
                assert(finished == done(beams[i as int].seq@));
            }
        }
        i = i + 1;
    }
    assert(all.take(beams.len() as int) =~= all);
    (frozen, active)
}


/// Where the finished and unfinished beams come from one frontier, the
/// frontier after the step descends from it by one token.
proof fn lemma_step_descends<T>(
    frontier: Seq<Beam<T>>,
    frozen: Seq<Beam<T>>,
    active: Seq<Beam<T>>,
    offered: Seq<Seq<(T, i64)>>,
    k: nat,
    declining: bool,
)
    requires
        descends(frozen, frontier, 0, true),
        descends(active, frontier, 0, true),
        declining ==> nonpositive(offered),
    ensures
        descends(next_frontier(frozen, active, offered, k), frontier, 1, declining),
{
    let old = frozen + active;
    assert forall|j: int| 0 <= j < old.len() implies has_ancestor(
        #[trigger] old[j],
        frontier,
        0,
        declining,
    ) by {
        if j < frozen.len() {
            assert(has_ancestor(frozen[j], frontier, 0, true));
            let i = choose|i: int|
                0 <= i < frontier.len() && #[trigger] follows(frozen[j], frontier[i], 0, true);
            assert(follows(old[j], frontier[i], 0, declining));
        } else {
            assert(has_ancestor(active[j - frozen.len()], frontier, 0, true));
            let i = choose|i: int|
                0 <= i < frontier.len() && #[trigger] follows(
                    active[j - frozen.len()],
                    frontier[i],
                    0,
                    true,
                );
            assert(follows(old[j], frontier[i], 0, declining));
        }
    }
    lemma_next_frontier_descends(frozen, active, offered, k, declining);
    lemma_descends_transitive(
        next_frontier(frozen, active, offered, k),
        old,
        frontier,
        1,
        0,
        declining,
    );
}

/// Scores never rise along a search whose step function offers no
/// incremental score above zero: every beam of the last frontier continues a
/// beam of the first by at most `depth` tokens and scores no higher than it.
pub proof fn lemma_search_scores_decline<T>(
    frontier: Seq<Beam<T>>,
    oracle: spec_fn(Seq<Beam<T>>) -> Seq<Seq<(T, i64)>>,
    done: spec_fn(Seq<T>) -> bool,
    k: nat,
    depth: nat,
)
    requires
        forall|asked: Seq<Beam<T>>| nonpositive(#[trigger] oracle(asked)),
    ensures
        descends(search(frontier, oracle, done, k, depth), frontier, depth, true),
    decreases depth,
{
    if depth == 0 || all_finished(frontier, done) {
        assert forall|j: int| 0 <= j < frontier.len() implies has_ancestor(
            #[trigger] frontier[j],
            frontier,
            depth,
            true,
        ) by {
            assert(follows(frontier[j], frontier[j], depth, true));
        }
    } else {
        let frozen = frontier.filter(beam_done(done));
        let active = frontier.filter(beam_open(done));
        let stepped = advance(frontier, oracle, done, k);
        lemma_filter_descends(frontier, beam_done(done));
        lemma_filter_descends(frontier, beam_open(done));
        lemma_step_descends(frontier, frozen, active, oracle(active), k, true);
        lemma_search_scores_decline(stepped, oracle, done, k, (depth - 1) as nat);
        lemma_descends_transitive(
            search(stepped, oracle, done, k, (depth - 1) as nat),
            stepped,
            frontier,
            (depth - 1) as nat,
            1,
            true,
        );
    }
}

/// The position of the first continuation with the highest incremental
/// score; 0 for an empty list.
pub open spec fn first_highest<T>(offered: Seq<(T, i64)>) -> int
    decreases offered.len(),
{
    if offered.len() <= 1 {
        0
    } else {
        let before = first_highest(offered.drop_last());
        if offered.last().1 > offered[before].1 {
            offered.len() - 1
        } else {
            before
        }
    }
}

/// The best continuation offered gives `parent` a child with a finite score:
/// neither the parent's score nor the highest incremental score is negative
/// infinity, and their sum is finite and within range.
pub open spec fn best_exact<T>(parent: Beam<T>, offered: Seq<(T, i64)>) -> bool {
    &&& parent.log_prob != NEG_INFINITY
    &&& offered[first_highest(offered)].1 != NEG_INFINITY
    &&& i64::MIN < parent.log_prob + offered[first_highest(offered)].1 <= i64::MAX
}

/// Greedy decoding from `start`: while the sequence is unfinished and steps
/// are left, the token with the highest incremental score is appended, the
/// first of them if several score alike. Where the step function offers
/// nothing the result is empty.
pub open spec fn greedy<T>(
    start: Beam<T>,
    oracle: spec_fn(Seq<Beam<T>>) -> Seq<Seq<(T, i64)>>,
    done: spec_fn(Seq<T>) -> bool,
    depth: nat,
) -> Seq<T>
    decreases depth,
{
    if depth == 0 || done(start.seq) {
        start.seq
    } else {
        let lists = oracle(seq![start]);
        if lists.len() == 0 || lists[0].len() == 0 {
            Seq::empty()
        } else {
            let j = first_highest(lists[0]);
            greedy(child(start, lists[0][j].0, lists[0][j].1), oracle, done, (depth - 1) as nat)
        }
    }
}

/// Along the greedy path from `start` every token that is appended gives a
/// finite score ([`best_exact`]).
pub open spec fn greedy_exact<T>(
    start: Beam<T>,
    oracle: spec_fn(Seq<Beam<T>>) -> Seq<Seq<(T, i64)>>,
    done: spec_fn(Seq<T>) -> bool,
    depth: nat,
) -> bool
    decreases depth,
{
    if depth == 0 || done(start.seq) {
        true
    } else {
        let lists = oracle(seq![start]);
        if lists.len() == 0 || lists[0].len() == 0 {
            true
        } else {
            let j = first_highest(lists[0]);
            best_exact(start, lists[0]) && greedy_exact(
                child(start, lists[0][j].0, lists[0][j].1),
                oracle,
                done,
                (depth - 1) as nat,
            )
        }
    }
}

/// Along the greedy path from `start` the step function offers
/// log-probabilities, none above zero, and every token that is appended
/// gives a score other than negative infinity.
pub open spec fn greedy_finite<T>(
    start: Beam<T>,
    oracle: spec_fn(Seq<Beam<T>>) -> Seq<Seq<(T, i64)>>,
    done: spec_fn(Seq<T>) -> bool,
    depth: nat,
) -> bool
    decreases depth,
{
    if depth == 0 || done(start.seq) {
        true
    } else {
        let lists = oracle(seq![start]);
        if lists.len() == 0 || lists[0].len() == 0 {
            true
        } else {
            let j = first_highest(lists[0]);
            let next = child(start, lists[0][j].0, lists[0][j].1);
            nonpositive(lists) && next.log_prob != NEG_INFINITY && greedy_finite(
                next,
                oracle,
                done,
                (depth - 1) as nat,
            )
        }
    }
}

/// The first of the highest incremental scores is the highest, and every
/// score before it is lower.
proof fn lemma_first_highest<T>(offered: Seq<(T, i64)>)
    requires
        offered.len() > 0,
    ensures
        0 <= first_highest(offered) < offered.len(),
        forall|j: int|
            0 <= j < offered.len() ==> (#[trigger] offered[j]).1 <= offered[first_highest(
                offered,
            )].1,
        forall|j: int|
            0 <= j < first_highest(offered) ==> (#[trigger] offered[j]).1 < offered[first_highest(
                offered,
            )].1,
    decreases offered.len(),
{
    if offered.len() > 1 {
        let shorter = offered.drop_last();
        lemma_first_highest(shorter);
        assert forall|j: int| 0 <= j < offered.len() implies (#[trigger] offered[j]).1
            <= offered[first_highest(offered)].1 by {
            if j < shorter.len() {
                assert(offered[j] == shorter[j]);
            }
        }
        assert forall|j: int| 0 <= j < first_highest(offered) implies (#[trigger] offered[j]).1
            < offered[first_highest(offered)].1 by {
            assert(offered[j] == shorter[j]);
        }
    }
}

/// Where the best continuation gives a finite score, the best child is the
/// one with the highest incremental score.
proof fn lemma_first_best_child<T>(parent: Beam<T>, offered: Seq<(T, i64)>)
    requires
        offered.len() > 0,
        best_exact(parent, offered),
    ensures
        first_best(children(parent, offered)) == first_highest(offered),
{
    let kids = children(parent, offered);
    let b = first_highest(offered);
    let c = first_best(kids);
    lemma_first_highest(offered);
    lemma_first_best(kids);
    assert(kids[b].log_prob == parent.log_prob + offered[b].1);
    assert forall|j: int| 0 <= j < kids.len() implies (#[trigger] kids[j]).log_prob
        <= kids[b].log_prob by {
        assert(offered[j].1 <= offered[b].1);
    }
    assert forall|j: int| 0 <= j < b implies (#[trigger] kids[j]).log_prob
        < kids[b].log_prob by {
        assert(offered[j].1 < offered[b].1);
    }
    assert(kids[c].log_prob == kids[b].log_prob);
}

/// With a frontier of one beam and `beam_size` 1 the search decodes
/// greedily: where every token that is appended gives a finite score, its
/// result is the sequence obtained by always appending the token with the
/// highest incremental score, the first of them if several score alike.
/// Nothing is asked of the tokens that are not chosen: they may be ruled out
/// by negative infinity, and their sums may leave the range.
pub proof fn lemma_greedy_reduction<T>(
    start: Beam<T>,
    oracle: spec_fn(Seq<Beam<T>>) -> Seq<Seq<(T, i64)>>,
    done: spec_fn(Seq<T>) -> bool,
    depth: nat,
)
    requires
        greedy_exact(start, oracle, done, depth),
    ensures
        best_sequence(search(seq![start], oracle, done, 1, depth)) == greedy(
            start,
            oracle,
            done,
            depth,
        ),
    decreases depth,
{
    let frontier = seq![start];
    assert(frontier[0] == start);
    if depth == 0 || done(start.seq) {
        assert(all_finished(frontier, done) <==> done(start.seq));
        assert(first_best(frontier) == 0);
        assert(search(frontier, oracle, done, 1, depth) == frontier);
    } else {
        assert(!all_finished(frontier, done));
        reveal_with_fuel(Seq::filter, 2);
        assert(frontier.drop_last() =~= Seq::<Beam<T>>::empty());
        let frozen = frontier.filter(beam_done(done));
        let active = frontier.filter(beam_open(done));
        assert(frozen =~= Seq::<Beam<T>>::empty());
        assert(active =~= frontier);
        let lists = oracle(frontier);
        let all = candidates(frozen, active, lists);
        let stepped = advance(frontier, oracle, done, 1);
        assert(expansions(active, lists, 0) =~= Seq::<Beam<T>>::empty());
        if lists.len() == 0 || lists[0].len() == 0 {
            assert(all =~= Seq::<Beam<T>>::empty());
            assert(stepped =~= Seq::<Beam<T>>::empty());
            assert(all_finished(stepped, done));
            assert(search(frontier, oracle, done, 1, depth) == search(
                stepped,
                oracle,
                done,
                1,
                (depth - 1) as nat,
            ));
            assert(search(stepped, oracle, done, 1, (depth - 1) as nat) == stepped);
        } else {
            let kids = children(start, lists[0]);
            assert(all =~= kids);
            lemma_first_best_child(start, lists[0]);
            lemma_first_highest(lists[0]);
            let j = first_highest(lists[0]);
            let next = child(start, lists[0][j].0, lists[0][j].1);
            assert(kids[j] == next);
            assert(top_beams(kids.remove(j), 0) =~= Seq::<Beam<T>>::empty());
            assert(top_beams(kids, 1) =~= seq![next]);
            assert(stepped =~= seq![next]);
            lemma_greedy_reduction(next, oracle, done, (depth - 1) as nat);
            assert(search(frontier, oracle, done, 1, depth) == search(
                stepped,
                oracle,
                done,
                1,
                (depth - 1) as nat,
            ));
        }
    }
}

/// Greedy decoding on log-probabilities: with a frontier of one beam whose
/// score is not above zero and `beam_size` 1, where the step function offers
/// no incremental score above zero and every token that is appended gives a
/// score other than negative infinity, the search returns the sequence
/// obtained by always appending the token with the highest incremental
/// score, the first of them if several score alike.
pub proof fn lemma_greedy_log_probs<T>(
    start: Beam<T>,
    oracle: spec_fn(Seq<Beam<T>>) -> Seq<Seq<(T, i64)>>,
    done: spec_fn(Seq<T>) -> bool,
    depth: nat,
)
    requires
        start.log_prob <= 0,
        greedy_finite(start, oracle, done, depth),
    ensures
        best_sequence(search(seq![start], oracle, done, 1, depth)) == greedy(
            start,
            oracle,
            done,
            depth,
        ),
{
    lemma_greedy_finite_exact(start, oracle, done, depth);
    lemma_greedy_reduction(start, oracle, done, depth);
}

/// On log-probabilities, scores other than negative infinity are exact.
proof fn lemma_greedy_finite_exact<T>(
    start: Beam<T>,
    oracle: spec_fn(Seq<Beam<T>>) -> Seq<Seq<(T, i64)>>,
    done: spec_fn(Seq<T>) -> bool,
    depth: nat,
)
    requires
        start.log_prob <= 0,
        greedy_finite(start, oracle, done, depth),
    ensures
        greedy_exact(start, oracle, done, depth),
    decreases depth,
{
    if depth == 0 || done(start.seq) {
    } else {
        let lists = oracle(seq![start]);
        if lists.len() == 0 || lists[0].len() == 0 {
        } else {
            lemma_first_highest(lists[0]);
            let j = first_highest(lists[0]);
            let next = child(start, lists[0][j].0, lists[0][j].1);
            assert(lists[0][j].1 <= 0);
            lemma_greedy_finite_exact(next, oracle, done, (depth - 1) as nat);
        }
    }
}

/// `kept` is the frontier that a step makes of the finished beams `frozen`
/// and the unfinished beams `active`, for an answer that `next` can give when
/// it is handed the unfinished beams.
pub open spec fn grown_by<T, E, F: Fn(&[BeamNode<T>]) -> Result<Vec<Vec<(T, i64)>>, E>>(
    next: F,
    frozen: Seq<Beam<T>>,
    active: Seq<Beam<T>>,
    k: nat,
    kept: Seq<Beam<T>>,
) -> bool {
    exists|offered: Seq<Seq<(T, i64)>>| #[trigger]
        answers(next, active, offered) && kept == next_frontier(frozen, active, offered, k)
}

/// Where the step function answers as `oracle` does, a frontier that is
/// [`grown_by`] it is the one that the oracle's answer gives.
proof fn lemma_grown_by_oracle<T, E, F: Fn(&[BeamNode<T>]) -> Result<Vec<Vec<(T, i64)>>, E>>(
    next: F,
    oracle: spec_fn(Seq<Beam<T>>) -> Seq<Seq<(T, i64)>>,
    frozen: Seq<Beam<T>>,
    active: Seq<Beam<T>>,
    k: nat,
    kept: Seq<Beam<T>>,
)
    requires
        grown_by(next, frozen, active, k, kept),
        step_agrees(next, oracle),
    ensures
        kept == next_frontier(frozen, active, oracle(active), k),
{
    let offered = choose|offered: Seq<Seq<(T, i64)>>| #[trigger]
        answers(next, active, offered) && kept == next_frontier(frozen, active, offered, k);
    let (beams, lists) = choose|beams: &[BeamNode<T>], lists: Vec<Vec<(T, i64)>>|
        beam_views(beams@) == active && continuation_views(lists@) == offered
            && #[trigger] next.ensures((beams,), Result::<Vec<Vec<(T, i64)>>, E>::Ok(lists));
    assert(offered == oracle(active));
}

/// Hands the unfinished beams to `next` and selects the new frontier from the
/// finished beams and the children.
fn expand<T: Copy, E, F>(
    frozen: &[BeamNode<T>],
    active: &[BeamNode<T>],
    next: &F,
    beam_size: usize,
) -> (r: Result<Vec<BeamNode<T>>, E>) where F: Fn(&[BeamNode<T>]) -> Result<Vec<Vec<(T, i64)>>, E>
    requires
        forall|b: &[BeamNode<T>]| #[trigger] next.requires((b,)),
    ensures
        r matches Ok(kept) ==> grown_by(
            *next,
            beam_views(frozen@),
            beam_views(active@),
            beam_size as nat,
            beam_views(kept@),
        ),
        r matches Err(e) ==> next.ensures((active,), Result::<Vec<Vec<(T, i64)>>, E>::Err(e)),
        r matches Err(e) ==> step_fails_with(*next, e),
        (forall|e: E| !#[trigger] step_fails_with(*next, e)) ==> r is Ok,
{
    let answer = next(active);
    match answer {
        Ok(lists) => {
            let kept = select_beams(frozen, active, lists.as_slice(), beam_size);
            proof {
                assert(next.ensures((active,), Result::<Vec<Vec<(T, i64)>>, E>::Ok(lists)));
                assert(answers(*next, beam_views(active@), continuation_views(lists@)));
            }
            Ok(kept)
        },
        Err(e) => {
            assert(next.ensures((active,), Result::<Vec<Vec<(T, i64)>>, E>::Err(e)));
            assert(step_fails_with(*next, e));
            Err(e)
        },
    }
}

/// One step of the search: the unfinished beams are handed to `next` in one
/// call, and the best `beam_size` of the finished beams and the children make
/// the new frontier. `next` is not called when every beam is finished.
///
/// Whatever the two callbacks do, a new frontier holds at most `beam_size`
/// beams, each a beam of the old frontier or one token longer than one; an
/// error is one that `next` returned for beams of the frontier
/// ([`fails_within`]), and there is none if `next` cannot fail or if every
/// beam is finished. Where the callbacks are functions of their arguments,
/// the new frontier is [`advance`] of the old one.
pub fn beam_search_step<T: Copy, E, F, G>(
    beams: &[BeamNode<T>],
    next: &F,
    is_finished: &G,
    beam_size: usize,
) -> (r: Result<Vec<BeamNode<T>>, E>) where
    F: Fn(&[BeamNode<T>]) -> Result<Vec<Vec<(T, i64)>>, E>,
    G: Fn(&[T]) -> bool,

    requires
        forall|b: &[BeamNode<T>]| #[trigger] next.requires((b,)),
        forall|seq: &[T]| #[trigger] is_finished.requires((seq,)),
    ensures
        forall|oracle: spec_fn(Seq<Beam<T>>) -> Seq<Seq<(T, i64)>>, done: spec_fn(Seq<T>) -> bool|
            #![trigger step_agrees(*next, oracle), finish_agrees(*is_finished, done)]
            step_agrees(*next, oracle) && finish_agrees(*is_finished, done) ==> (r matches Ok(kept)
                ==> beam_views(kept@) == advance(
                beam_views(beams@),
                oracle,
                done,
                beam_size as nat,
            )),
        forall|done: spec_fn(Seq<T>) -> bool| #[trigger]
            finish_agrees(*is_finished, done) ==> (r matches Ok(kept) ==> steps_to(
                *next,
                done,
                beam_views(beams@),
                beam_size as nat,
                beam_views(kept@),
            )),
        r matches Ok(kept) ==> kept.len() <= beam_size && descends(
            beam_views(kept@),
            beam_views(beams@),
            1,
            false,
        ),
        r matches Err(e) ==> step_fails_with(*next, e),
        r matches Err(e) ==> fails_within(*next, beam_views(beams@), 1, e),
        (forall|e: E| !#[trigger] step_fails_with(*next, e)) ==> r is Ok,
        forall|done: spec_fn(Seq<T>) -> bool| #[trigger]
            finish_agrees(*is_finished, done) && all_finished(beam_views(beams@), done)
                ==> r is Ok,
{
    let (frozen, active) = partition_beams(beams, is_finished);
    let ghost fv = beam_views(frozen@);
    let ghost av = beam_views(active@);
    let kept = if active.len() == 0 {
        let nothing: Vec<Vec<(T, i64)>> = Vec::new();
        select_beams(frozen.as_slice(), active.as_slice(), nothing.as_slice(), beam_size)
    } else {
        proof {
            assert forall|done: spec_fn(Seq<T>) -> bool| #[trigger]
                finish_agrees(*is_finished, done) implies !all_finished(
                beam_views(beams@),
                done,
            ) by {
                lemma_all_finished(beam_views(beams@), done);
                assert(av.len() == active@.len());
            }
        }
        let handed = active.as_slice();
        match expand(frozen.as_slice(), handed, next, beam_size) {
            Ok(kept) => kept,
            Err(e) => {
                proof {
                    lemma_descends_plain(av, beam_views(beams@), 0);
                    assert(descends(beam_views(handed@), beam_views(beams@), 0, false));
                    assert(fails_within(*next, beam_views(beams@), 1, e));
                }
                return Err(e);
            },
        }
    };
    proof {
        let ov = if active@.len() == 0 {
            Seq::<Seq<(T, i64)>>::empty()
        } else {
            choose|offered: Seq<Seq<(T, i64)>>| #[trigger]
                answers(*next, av, offered) && beam_views(kept@) == next_frontier(
                    fv,
                    av,
                    offered,
                    beam_size as nat,
                )
        };
        if active@.len() == 0 {
            assert(continuation_views(Seq::<Vec<(T, i64)>>::empty()) =~= ov);
        }
        assert(beam_views(kept@) == next_frontier(fv, av, ov, beam_size as nat));
        lemma_top_beams_len(candidates(fv, av, ov), beam_size as nat);
        lemma_step_descends(beam_views(beams@), fv, av, ov, beam_size as nat, false);
        assert forall|
            oracle: spec_fn(Seq<Beam<T>>) -> Seq<Seq<(T, i64)>>,
            done: spec_fn(Seq<T>) -> bool,
        |
            #![trigger step_agrees(*next, oracle), finish_agrees(*is_finished, done)]
            step_agrees(*next, oracle) && finish_agrees(*is_finished, done) implies beam_views(
            kept@,
        ) == advance(beam_views(beams@), oracle, done, beam_size as nat) by {
            if active@.len() == 0 {
                assert(expansions(av, ov, 0) =~= expansions(av, oracle(av), 0));
            } else {
                lemma_grown_by_oracle(*next, oracle, fv, av, beam_size as nat, beam_views(kept@));
            }
        }
        assert forall|done: spec_fn(Seq<T>) -> bool| #[trigger]
            finish_agrees(*is_finished, done) implies steps_to(
            *next,
            done,
            beam_views(beams@),
            beam_size as nat,
            beam_views(kept@),
        ) by {
            lemma_all_finished(beam_views(beams@), done);
            assert(av == beam_views(beams@).filter(beam_open(done)));
            assert(fv == beam_views(beams@).filter(beam_done(done)));
            assert(av.len() == active@.len());
            if active@.len() > 0 {
                assert(answers(*next, av, ov));
            } else {
                assert(all_finished(beam_views(beams@), done));
            }
            assert(all_finished(beam_views(beams@), done) || answers(
                *next,
                beam_views(beams@).filter(beam_open(done)),
                ov,
            ));
            assert(step_gives(
                *next,
                done,
                beam_views(beams@),
                beam_size as nat,
                ov,
                beam_views(kept@),
            ));
        }
    }
    Ok(kept)
}

/// The position of the first beam with the highest score.
fn best_beam<T: Copy>(frontier: &Vec<BeamNode<T>>) -> (m: usize)
    requires
        frontier.len() > 0,
    ensures
        m == first_best(beam_views(frontier@)),
        m < frontier.len(),
{
    let ghost all = beam_views(frontier@);
    let mut m: usize = 0;
    let mut i: usize = 1;
    assert(first_best(all.take(1)) == 0);
    while i < frontier.len()
        invariant
            1 <= i <= frontier.len(),
            all == beam_views(frontier@),
            m < i,
            m == first_best(all.take(i as int)),
        decreases frontier.len() - i,
    {
        proof {
            assert(all.take(i + 1).drop_last() =~= all.take(i as int));
            assert(all.take(i as int)[m as int] == all[m as int]);
        }
        if frontier[i].log_prob > frontier[m].log_prob {
            m = i;
        }
        i = i + 1;
    }
    assert(all.take(frontier.len() as int) =~= all);
    m
}

/// Searches for a high-scoring sequence: from `initial_beams`, at most
/// `max_depth` steps are taken, each as in [`beam_search_step`], and the
/// search stops early once every beam of the frontier is finished. The result
/// is the sequence of the highest-scoring beam of the last frontier, the
/// earliest of them if several score alike, finished or not; it is empty if
/// that frontier is empty.
///
/// Whatever the two callbacks do, the result is the best sequence of a
/// frontier that the search reaches from the initial one ([`found_by`]); an
/// error is one that `next` returned for beams that continue initial beams
/// by fewer than `max_depth` tokens ([`fails_within`]), and there is none if
/// `next` cannot fail, if no step is allowed or if every initial beam is
/// finished. Where the callbacks are functions of their arguments, the
/// result is that of [`search`].
pub fn beam_search<T: Copy, E, F, G>(
    initial_beams: Vec<BeamNode<T>>,
    next: F,
    is_finished: G,
    beam_size: usize,
    max_depth: usize,
) -> (r: Result<Vec<T>, E>) where
    F: Fn(&[BeamNode<T>]) -> Result<Vec<Vec<(T, i64)>>, E>,
    G: Fn(&[T]) -> bool,

    requires
        forall|b: &[BeamNode<T>]| #[trigger] next.requires((b,)),
        forall|seq: &[T]| #[trigger] is_finished.requires((seq,)),
    ensures
        forall|oracle: spec_fn(Seq<Beam<T>>) -> Seq<Seq<(T, i64)>>, done: spec_fn(Seq<T>) -> bool|
            #![trigger step_agrees(next, oracle), finish_agrees(is_finished, done)]
            step_agrees(next, oracle) && finish_agrees(is_finished, done) ==> (r matches Ok(seq)
                ==> seq@ == best_sequence(
                search(
                    beam_views(initial_beams@),
                    oracle,
                    done,
                    beam_size as nat,
                    max_depth as nat,
                ),
            )),
        forall|done: spec_fn(Seq<T>) -> bool| #[trigger]
            finish_agrees(is_finished, done) ==> (r matches Ok(seq) ==> found_by(
                next,
                done,
                beam_views(initial_beams@),
                beam_size as nat,
                max_depth as nat,
                seq@,
            )),
        r matches Ok(seq) ==> exists|last: Seq<Beam<T>>|
            #[trigger] descends(last, beam_views(initial_beams@), max_depth as nat, false)
                && seq@ == best_sequence(last),
        r matches Err(e) ==> step_fails_with(next, e),
        r matches Err(e) ==> fails_within(next, beam_views(initial_beams@), max_depth as nat, e),
        (forall|e: E| !#[trigger] step_fails_with(next, e)) ==> r is Ok,
        max_depth == 0 ==> r is Ok,
        forall|done: spec_fn(Seq<T>) -> bool| #[trigger]
            finish_agrees(is_finished, done) && all_finished(beam_views(initial_beams@), done)
                ==> r is Ok,
{
    let ghost start = beam_views(initial_beams@);
    let ghost k = beam_size as nat;
    let mut frontier = initial_beams;
    let mut depth: usize = 0;
    let mut stopped = false;
    proof {
        assert forall|j: int| 0 <= j < start.len() implies has_ancestor(
            #[trigger] start[j],
            start,
            0,
            false,
        ) by {
            assert(follows(start[j], start[j], 0, false));
        }
    }
    while depth < max_depth && !stopped
        invariant
            depth <= max_depth,
            k == beam_size as nat,
            forall|b: &[BeamNode<T>]| #[trigger] next.requires((b,)),
            forall|seq: &[T]| #[trigger] is_finished.requires((seq,)),
            descends(beam_views(frontier@), start, depth as nat, false),
            start == beam_views(initial_beams@),
            finished_for(is_finished, start) ==> beam_views(frontier@) == start,
            forall|done: spec_fn(Seq<T>) -> bool| #[trigger]
                finish_agrees(is_finished, done) ==> (stopped ==> all_finished(
                    beam_views(frontier@),
                    done,
                )) && forall|last: Seq<Beam<T>>| #[trigger]
                    reaches(
                        next,
                        done,
                        beam_views(frontier@),
                        k,
                        (max_depth - depth) as nat,
                        last,
                    ) ==> reaches(next, done, start, k, max_depth as nat, last),
            forall|
                oracle: spec_fn(Seq<Beam<T>>) -> Seq<Seq<(T, i64)>>,
                done: spec_fn(Seq<T>) -> bool,
            |
                #![trigger step_agrees(next, oracle), finish_agrees(is_finished, done)]
                step_agrees(next, oracle) && finish_agrees(is_finished, done) ==> search(
                    start,
                    oracle,
                    done,
                    k,
                    max_depth as nat,
                ) == search(beam_views(frontier@), oracle, done, k, (max_depth - depth) as nat)
                    && (stopped ==> all_finished(beam_views(frontier@), done)),
        decreases
                if stopped {
                    0
                } else {
                    max_depth - depth
                },
    {
        let ghost before = beam_views(frontier@);
        let (frozen, active) = partition_beams(frontier.as_slice(), &is_finished);
        if active.len() == 0 {
            stopped = true;
            proof {
                assert forall|done: spec_fn(Seq<T>) -> bool| #[trigger]
                    finish_agrees(is_finished, done) implies all_finished(before, done) by {
                    lemma_all_finished(before, done);
                    assert(beam_views(active@).len() == 0);
                }
            }
        } else {
            proof {
                lemma_unfinished(is_finished, before, beam_views(active@));
            }
            let handed = active.as_slice();
            let kept = match expand(frozen.as_slice(), handed, &next, beam_size) {
                Ok(kept) => kept,
                Err(e) => {
                    proof {
                        lemma_descends_plain(beam_views(active@), before, 0);
                        lemma_descends_transitive(
                            beam_views(active@),
                            before,
                            start,
                            0,
                            depth as nat,
                            false,
                        );
                        assert(descends(beam_views(handed@), start, depth as nat, false));
                        assert(fails_within(next, start, max_depth as nat, e));
                        assert forall|done: spec_fn(Seq<T>) -> bool| #[trigger]
                            finish_agrees(is_finished, done) implies !all_finished(
                            start,
                            done,
                        ) by {
                            if all_finished(start, done) {
                                lemma_finished_for(is_finished, start, done);
                            }
                        }
                    }
                    return Err(e);
                },
            };
            proof {
                let fv = beam_views(frozen@);
                let av = beam_views(active@);
                assert(grown_by(next, fv, av, k, beam_views(kept@)));
                let ov = choose|offered: Seq<Seq<(T, i64)>>| #[trigger]
                    answers(next, av, offered) && beam_views(kept@) == next_frontier(
                        fv,
                        av,
                        offered,
                        k,
                    );
                assert(answers(next, av, ov));
                assert(beam_views(kept@) == next_frontier(fv, av, ov, k));
                lemma_step_descends(before, fv, av, ov, k, false);
                lemma_descends_transitive(
                    beam_views(kept@),
                    before,
                    start,
                    1,
                    depth as nat,
                    false,
                );
                assert forall|
                    oracle: spec_fn(Seq<Beam<T>>) -> Seq<Seq<(T, i64)>>,
                    done: spec_fn(Seq<T>) -> bool,
                |
                    #![trigger step_agrees(next, oracle), finish_agrees(is_finished, done)]
                    step_agrees(next, oracle) && finish_agrees(is_finished, done) implies search(
                    before,
                    oracle,
                    done,
                    k,
                    (max_depth - depth) as nat,
                ) == search(beam_views(kept@), oracle, done, k, (max_depth - depth - 1) as nat) by {
                    lemma_all_finished(before, done);
                    assert(av.len() > 0);
                    lemma_grown_by_oracle(next, oracle, fv, av, k, beam_views(kept@));
                    assert(beam_views(kept@) == advance(before, oracle, done, k));
                }
                assert forall|done: spec_fn(Seq<T>) -> bool| #[trigger]
                    finish_agrees(is_finished, done) implies forall|last: Seq<Beam<T>>| #[trigger]
                    reaches(
                        next,
                        done,
                        beam_views(kept@),
                        k,
                        (max_depth - depth - 1) as nat,
                        last,
                    ) ==> reaches(next, done, start, k, max_depth as nat, last) by {
                    lemma_all_finished(before, done);
                    assert(av.len() > 0);
                    assert(av == before.filter(beam_open(done)));
                    assert(fv == before.filter(beam_done(done)));
                    assert forall|last: Seq<Beam<T>>| #[trigger]
                        reaches(
                            next,
                            done,
                            beam_views(kept@),
                            k,
                            (max_depth - depth - 1) as nat,
                            last,
                        ) implies reaches(next, done, start, k, max_depth as nat, last) by {
                        assert(answers(next, before.filter(beam_open(done)), ov));
                        assert(reaches(
                            next,
                            done,
                            next_frontier(
                                before.filter(beam_done(done)),
                                before.filter(beam_open(done)),
                                ov,
                                k,
                            ),
                            k,
                            (max_depth - depth - 1) as nat,
                            last,
                        ));
                        assert(reaches(next, done, before, k, (max_depth - depth) as nat, last));
                    }
                }
            }
            let ghost taken = depth;
            frontier = kept;
            depth = depth + 1;
            assert((max_depth - depth) as nat == (max_depth - taken - 1) as nat);
        }
    }
    let ghost last = beam_views(frontier@);
    proof {
        assert forall|done: spec_fn(Seq<T>) -> bool| #[trigger]
            finish_agrees(is_finished, done) implies reaches(
            next,
            done,
            start,
            k,
            max_depth as nat,
            last,
        ) by {
            assert(reaches(next, done, last, k, (max_depth - depth) as nat, last));
        }
    }
    proof {
        assert forall|j: int| 0 <= j < last.len() implies has_ancestor(
            #[trigger] last[j],
            start,
            max_depth as nat,
            false,
        ) by {
            assert(has_ancestor(last[j], start, depth as nat, false));
            let i = choose|i: int|
                0 <= i < start.len() && #[trigger] follows(last[j], start[i], depth as nat, false);
            assert(follows(last[j], start[i], max_depth as nat, false));
        }
        assert(descends(last, start, max_depth as nat, false));
    }
    if frontier.len() == 0 {
        let seq: Vec<T> = Vec::new();
        assert(seq@ =~= best_sequence(last));
        Ok(seq)
    } else {
        let m = best_beam(&frontier);
        let node = frontier.swap_remove(m);
        assert(node@ == last[m as int]);
        Ok(node.seq)
    }
}


} // verus!
