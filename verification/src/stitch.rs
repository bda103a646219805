//! Stitching the token sequences of adjacent, overlapping windows.
//!
//! The tail of the transcript so far is laid over the head of the newly
//! decoded sequence at every offset that is searched. At offset `d` the last
//! `d + 1` tokens of the transcript face the first `d + 1` new tokens, and the
//! positions at which the two agree are counted. The first offset with the
//! highest count wins; if that count reaches the threshold, the transcript is
//! cut at the first agreeing position and the new sequence is appended from
//! there.

use vstd::prelude::*;

verus! {

/// The number of offsets that are searched.
pub open spec fn searched_offsets(prev_len: nat, curr_len: nat, max_n_offsets: nat) -> nat {
    if prev_len <= curr_len && prev_len <= max_n_offsets {
        prev_len
    } else if curr_len <= max_n_offsets {
        curr_len
    } else {
        max_n_offsets
    }
}

/// At offset `d`, the token of `prev` that faces `curr[j]` equals it.
pub open spec fn agree(prev: Seq<usize>, curr: Seq<usize>, d: int, j: int) -> bool {
    prev[prev.len() - 1 - d + j] == curr[j]
}

/// The number of agreeing positions among the first `n` at offset `d`.
pub open spec fn agreements(prev: Seq<usize>, curr: Seq<usize>, d: int, n: int) -> nat
    decreases n,
{
    if n <= 0 {
        0
    } else if agree(prev, curr, d, n - 1) {
        agreements(prev, curr, d, n - 1) + 1
    } else {
        agreements(prev, curr, d, n - 1)
    }
}

/// The number of agreeing positions at offset `d`, where `d + 1` tokens face
/// each other.
pub open spec fn overlap_at(prev: Seq<usize>, curr: Seq<usize>, d: int) -> nat {
    agreements(prev, curr, d, d + 1)
}

/// The first agreeing position among the first `n` at offset `d`, or `n` if
/// there is none.
pub open spec fn first_agreement(prev: Seq<usize>, curr: Seq<usize>, d: int, n: int) -> int
    decreases n,
{
    if n <= 0 {
        0
    } else {
        let before = first_agreement(prev, curr, d, n - 1);
        if before < n - 1 || agree(prev, curr, d, n - 1) {
            before
        } else {
            n
        }
    }
}

/// The highest count of agreeing positions over the offsets below `n`.
pub open spec fn max_overlap(prev: Seq<usize>, curr: Seq<usize>, n: int) -> nat
    decreases n,
{
    if n <= 0 {
        0
    } else {
        let before = max_overlap(prev, curr, n - 1);
        if overlap_at(prev, curr, n - 1) > before {
            overlap_at(prev, curr, n - 1)
        } else {
            before
        }
    }
}

/// The first offset below `n` whose count is the highest; 0 where no offset
/// has any agreeing position.
pub open spec fn best_offset(prev: Seq<usize>, curr: Seq<usize>, n: int) -> int
    decreases n,
{
    if n <= 0 {
        0
    } else if overlap_at(prev, curr, n - 1) > max_overlap(prev, curr, n - 1) {
        n - 1
    } else {
        best_offset(prev, curr, n - 1)
    }
}

/// Where `prev` and `curr` overlap: the length to which `prev` is cut and the
/// position from which `curr` is appended, or `None` where the highest count
/// stays below `min_n_overlaps`. With a threshold of zero and no agreeing
/// position at any offset the pair is `(0, 0)`.
pub open spec fn chunk_overlap(
    prev: Seq<usize>,
    curr: Seq<usize>,
    max_n_offsets: nat,
    min_n_overlaps: nat,
) -> Option<(int, int)> {
    let n = searched_offsets(prev.len(), curr.len(), max_n_offsets) as int;
    let best = max_overlap(prev, curr, n);
    if best < min_n_overlaps {
        None
    } else if best == 0 {
        Some((0, 0))
    } else {
        let d = best_offset(prev, curr, n);
        let j = first_agreement(prev, curr, d, d + 1);
        Some((prev.len() - 1 - d + j, j))
    }
}

/// The transcript after `curr` has been stitched to `prev`: cut and joined
/// where they overlap, joined in full where they do not.
pub open spec fn stitched(
    prev: Seq<usize>,
    curr: Seq<usize>,
    max_n_offsets: nat,
    min_n_overlaps: nat,
) -> Seq<usize> {
    match chunk_overlap(prev, curr, max_n_offsets, min_n_overlaps) {
        Some((prev_index, curr_index)) => prev.take(prev_index) + curr.skip(curr_index),
        None => prev + curr,
    }
}

/// `first_agreement` is the least agreeing position among the first `n`, and
/// is `n` exactly when none of them agrees, that is when the count is zero.
pub proof fn lemma_first_agreement(prev: Seq<usize>, curr: Seq<usize>, d: int, n: int)
    requires
        0 <= n,
    ensures
        0 <= first_agreement(prev, curr, d, n) <= n,
        first_agreement(prev, curr, d, n) < n ==> agree(
            prev,
            curr,
            d,
            first_agreement(prev, curr, d, n),
        ),
        forall|j: int|
            0 <= j < first_agreement(prev, curr, d, n) ==> !#[trigger] agree(prev, curr, d, j),
        first_agreement(prev, curr, d, n) == n <==> agreements(prev, curr, d, n) == 0,
    decreases n,
{
    if n > 0 {
        lemma_first_agreement(prev, curr, d, n - 1);
    }
}

/// `max_overlap` is the count of some offset below `n` where it is positive,
/// and no offset below `n` has a higher count.
pub proof fn lemma_max_overlap(prev: Seq<usize>, curr: Seq<usize>, n: int)
    requires
        0 <= n,
    ensures
        forall|d: int| 0 <= d < n ==> #[trigger] overlap_at(prev, curr, d) <= max_overlap(prev, curr, n),
        max_overlap(prev, curr, n) > 0 ==> {
            let best = best_offset(prev, curr, n);
            &&& 0 <= best < n
            &&& overlap_at(prev, curr, best) == max_overlap(prev, curr, n)
            &&& forall|d: int|
                0 <= d < best ==> #[trigger] overlap_at(prev, curr, d) < max_overlap(prev, curr, n)
        },
        max_overlap(prev, curr, n) == 0 ==> best_offset(prev, curr, n) == 0,
    decreases n,
{
    if n > 0 {
        lemma_max_overlap(prev, curr, n - 1);
    }
}

/// The pair that `chunk_overlap` gives lies within the two sequences: `prev`
/// can be cut at its first part, `curr` read from its second.
pub proof fn lemma_chunk_overlap_bounds(
    prev: Seq<usize>,
    curr: Seq<usize>,
    max_n_offsets: nat,
    min_n_overlaps: nat,
)
    ensures
        chunk_overlap(prev, curr, max_n_offsets, min_n_overlaps) matches Some((p, c)) ==> 0 <= p
            <= prev.len() && 0 <= c <= curr.len() && (p < prev.len() || prev.len() == 0),
{
    let n = searched_offsets(prev.len(), curr.len(), max_n_offsets) as int;
    lemma_max_overlap(prev, curr, n);
    if max_overlap(prev, curr, n) > 0 {
        let d = best_offset(prev, curr, n);
        lemma_first_agreement(prev, curr, d, d + 1);
    }
}

/// An overlap below the threshold is no overlap: where no searched offset
/// has `min_n_overlaps` agreeing positions, nothing is cut, however many
/// positions agree.
pub proof fn lemma_below_threshold(
    prev: Seq<usize>,
    curr: Seq<usize>,
    max_n_offsets: nat,
    min_n_overlaps: nat,
)
    requires
        forall|d: int|
            0 <= d < searched_offsets(prev.len(), curr.len(), max_n_offsets) ==> #[trigger] overlap_at(
                prev,
                curr,
                d,
            ) < min_n_overlaps,
        min_n_overlaps > 0,
    ensures
        chunk_overlap(prev, curr, max_n_offsets, min_n_overlaps) is None,
        stitched(prev, curr, max_n_offsets, min_n_overlaps) == prev + curr,
{
    let n = searched_offsets(prev.len(), curr.len(), max_n_offsets) as int;
    lemma_max_overlap(prev, curr, n);
    if max_overlap(prev, curr, n) > 0 {
        assert(overlap_at(prev, curr, best_offset(prev, curr, n)) < min_n_overlaps);
    }
}

/// Where the highest count reaches the threshold, an overlap is found.
pub proof fn lemma_at_threshold(
    prev: Seq<usize>,
    curr: Seq<usize>,
    max_n_offsets: nat,
    min_n_overlaps: nat,
    d: int,
)
    requires
        0 <= d < searched_offsets(prev.len(), curr.len(), max_n_offsets),
        overlap_at(prev, curr, d) >= min_n_overlaps,
    ensures
        chunk_overlap(prev, curr, max_n_offsets, min_n_overlaps) is Some,
{
    let n = searched_offsets(prev.len(), curr.len(), max_n_offsets) as int;
    lemma_max_overlap(prev, curr, n);
}

/// Finds where the transcript so far, `prev_tokens`, and the newly decoded
/// `curr_tokens` overlap. `Some((prev_index, curr_index))` says: cut the
/// transcript to length `prev_index` and append `curr_tokens` from
/// `curr_index` on. `None` says that no offset among the first
/// `max_n_offsets` has `min_n_overlaps` agreeing positions: the new tokens are
/// appended in full.
pub fn find_chunk_overlap(
    prev_tokens: &[usize],
    curr_tokens: &[usize],
    max_n_offsets: usize,
    min_n_overlaps: usize,
) -> (r: Option<(usize, usize)>)
    ensures
        match r {
            Some((prev_index, curr_index)) => chunk_overlap(
                prev_tokens@,
                curr_tokens@,
                max_n_offsets as nat,
                min_n_overlaps as nat,
            ) == Some((prev_index as int, curr_index as int)),
            None => chunk_overlap(
                prev_tokens@,
                curr_tokens@,
                max_n_offsets as nat,
                min_n_overlaps as nat,
            ) is None,
        },
{
    let ghost prev = prev_tokens@;
    let ghost curr = curr_tokens@;
    let prev_len = prev_tokens.len();
    let curr_len = curr_tokens.len();
    let n_offsets = if prev_len <= curr_len && prev_len <= max_n_offsets {
        prev_len
    } else if curr_len <= max_n_offsets {
        curr_len
    } else {
        max_n_offsets
    };
    let mut best: usize = 0;
    let mut indices: (usize, usize) = (0, 0);
    let mut offset: usize = 0;
    while offset < n_offsets
        invariant
            offset <= n_offsets,
            n_offsets <= prev_len,
            n_offsets <= curr_len,
            prev_len == prev.len(),
            curr_len == curr.len(),
            prev == prev_tokens@,
            curr == curr_tokens@,
            best == max_overlap(prev, curr, offset as int),
            best <= offset,
            best > 0 ==> {
                let d = best_offset(prev, curr, offset as int);
                let j = first_agreement(prev, curr, d, d + 1);
                indices.0 == prev_len - 1 - d + j && indices.1 == j
            },
            best == 0 ==> indices == (0usize, 0usize),
        decreases n_offsets - offset,
    {
        let start = prev_len - 1 - offset;
        let mut count: usize = 0;
        let mut first: usize = 0;
        let mut j: usize = 0;
        while j <= offset
            invariant
                j <= offset + 1,
                offset < n_offsets,
                n_offsets <= prev_len,
                n_offsets <= curr_len,
                prev_len == prev.len(),
                curr_len == curr.len(),
                prev == prev_tokens@,
                curr == curr_tokens@,
                start == prev_len - 1 - offset,
                count == agreements(prev, curr, offset as int, j as int),
                count <= j,
                first <= j,
                first == first_agreement(prev, curr, offset as int, j as int),
            decreases offset + 1 - j,
        {
            if prev_tokens[start + j] == curr_tokens[j] {
                if count == 0 {
                    proof {
                        lemma_first_agreement(prev, curr, offset as int, j as int);
                    }
                    first = j;
                }
                count = count + 1;
            } else if count == 0 {
                proof {
                    lemma_first_agreement(prev, curr, offset as int, j as int);
                }
                first = j + 1;
            } else {
                proof {
                    lemma_first_agreement(prev, curr, offset as int, j as int);
                }
            }
            j = j + 1;
        }
        if count > best {
            best = count;
            indices = (start + first, first);
        }
        offset = offset + 1;
    }
    if best >= min_n_overlaps {
        Some(indices)
    } else {
        None
    }
}

/// Stitches the newly decoded `new_tokens` to the transcript `tokens`: where
/// [`find_chunk_overlap`] finds an overlap the transcript is cut there and the
/// new tokens are appended from the position it names, otherwise they are
/// appended in full.
pub fn stitch(
    tokens: &mut Vec<usize>,
    new_tokens: &[usize],
    max_n_offsets: usize,
    min_n_overlaps: usize,
)
    ensures
        final(tokens)@ == stitched(
            old(tokens)@,
            new_tokens@,
            max_n_offsets as nat,
            min_n_overlaps as nat,
        ),
{
    let ghost prev = tokens@;
    let found = find_chunk_overlap(tokens.as_slice(), new_tokens, max_n_offsets, min_n_overlaps);
    proof {
        lemma_chunk_overlap_bounds(prev, new_tokens@, max_n_offsets as nat, min_n_overlaps as nat);
    }
    let from = match found {
        Some((prev_index, curr_index)) => {
            tokens.truncate(prev_index);
            assert(tokens@ =~= prev.take(prev_index as int));
            curr_index
        },
        None => 0,
    };
    let ghost kept = tokens@;
    let mut j: usize = from;
    while j < new_tokens.len()
        invariant
            from <= j <= new_tokens.len(),
            tokens@ == kept + new_tokens@.subrange(from as int, j as int),
        decreases new_tokens.len() - j,
    {
        tokens.push(new_tokens[j]);
        j = j + 1;
        assert(tokens@ =~= kept + new_tokens@.subrange(from as int, j as int));
    }
    assert(new_tokens@.subrange(from as int, new_tokens.len() as int) =~= new_tokens@.skip(
        from as int,
    ));
    assert(new_tokens@.skip(0) =~= new_tokens@);
}

} // verus!
