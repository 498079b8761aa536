//! The run-length transform between assignment vectors and runs.
//!
//! A run `(value, length)` stands for `length` consecutive nodes labelled
//! `value`. Lengths are 16-bit, so a stretch of more than 65535 equal labels is
//! cut into runs of full length followed by the remainder.

use vstd::prelude::*;

verus! {

/// The longest stretch one run can describe.
pub const MAX_RUN: u16 = 0xFFFF;

/// The labels that a sequence of runs stands for: each run's value repeated
/// `length` times, in order.
pub open spec fn expand(runs: Seq<(u16, u16)>) -> Seq<u16>
    decreases runs.len(),
{
    if runs.len() == 0 {
        Seq::empty()
    } else {
        expand(runs.drop_last()) + Seq::new(runs.last().1 as nat, |i: int| runs.last().0)
    }
}

/// The runs of an assignment vector, read left to right: a label that equals
/// the one before it extends the current run unless that run is full;
/// otherwise it opens a new run.
pub open spec fn rle_of(v: Seq<u16>) -> Seq<(u16, u16)>
    decreases v.len(),
{
    if v.len() == 0 {
        Seq::empty()
    } else {
        let init = rle_of(v.drop_last());
        let x = v.last();
        if init.len() > 0 && init.last().0 == x && init.last().1 < MAX_RUN {
            init.drop_last().push((x, (init.last().1 + 1) as u16))
        } else {
            init.push((x, 1u16))
        }
    }
}

/// Every run covers at least one node.
pub open spec fn runs_nonempty(runs: Seq<(u16, u16)>) -> bool {
    forall|i: int| 0 <= i < runs.len() ==> (#[trigger] runs[i]).1 >= 1
}

/// No run could have been merged into the one before it: two neighbours share
/// a value only where the earlier one is full.
pub open spec fn runs_maximal(runs: Seq<(u16, u16)>) -> bool {
    forall|i: int|
        0 <= i < runs.len() - 1 ==> (#[trigger] runs[i]).0 != runs[i + 1].0 || runs[i].1 == MAX_RUN
}

/// Expanding distributes over appending one run.
pub proof fn lemma_expand_push(runs: Seq<(u16, u16)>, run: (u16, u16))
    ensures
        expand(runs.push(run)) == expand(runs) + Seq::new(run.1 as nat, |i: int| run.0),
{
    assert(runs.push(run).drop_last() == runs);
}

/// Expanding the runs of a vector gives the vector back, every run is
/// non-empty, and the runs are maximal.
pub proof fn lemma_rle_roundtrip(v: Seq<u16>)
    ensures
        expand(rle_of(v)) == v,
        runs_nonempty(rle_of(v)),
        runs_maximal(rle_of(v)),
        v.len() > 0 ==> rle_of(v).len() > 0 && rle_of(v).last().0 == v.last(),
        rle_of(v).len() <= v.len(),
    decreases v.len(),
{
    if v.len() > 0 {
        let init = rle_of(v.drop_last());
        let x = v.last();
        lemma_rle_roundtrip(v.drop_last());
        if init.len() > 0 && init.last().0 == x && init.last().1 < MAX_RUN {
            let head = init.drop_last();
            let c = init.last().1;
            let grown = (x, (c + 1) as u16);
            assert(init == head.push((x, c)));
            lemma_expand_push(head, (x, c));
            lemma_expand_push(head, grown);
            assert(Seq::new(grown.1 as nat, |i: int| x) == Seq::new(c as nat, |i: int| x).push(x));
            assert(expand(head.push(grown)) == expand(init).push(x));
            assert(expand(init).push(x) == v) by {
                assert(v == v.drop_last().push(x));
            }
            assert(rle_of(v) == head.push(grown));
        } else {
            lemma_expand_push(init, (x, 1u16));
            assert(Seq::new(1nat, |i: int| x) == seq![x]);
            assert(v == v.drop_last() + seq![x]);
            assert(rle_of(v) == init.push((x, 1u16)));
        }
    }
}

/// The runs of a vector are the only runs that stand for it, cover at least
/// one node each and are maximal.
pub proof fn lemma_rle_unique(runs: Seq<(u16, u16)>, v: Seq<u16>)
    requires
        expand(runs) == v,
        runs_nonempty(runs),
        runs_maximal(runs),
    ensures
        runs == rle_of(v),
    decreases v.len(),
{
    if runs.len() == 0 {
        assert(runs =~= rle_of(v));
    } else {
        let head = runs.drop_last();
        let x = runs.last().0;
        let c = runs.last().1;
        assert(runs.last() == runs[runs.len() - 1]);
        assert(c >= 1);
        let tail = Seq::new(c as nat, |i: int| x);
        assert(v == expand(head) + tail);
        assert(v.last() == tail[c - 1]);
        let shorter = Seq::new((c - 1) as nat, |i: int| x);
        assert(v.drop_last() =~= expand(head) + shorter);
        if c == 1 {
            assert(v.drop_last() =~= expand(head));
            assert(runs_nonempty(head)) by {
                assert forall|i: int| 0 <= i < head.len() implies (#[trigger] head[i]).1 >= 1 by {
                    assert(head[i] == runs[i]);
                }
            }
            assert(runs_maximal(head)) by {
                assert forall|i: int| 0 <= i < head.len() - 1 implies (#[trigger] head[i]).0
                    != head[i + 1].0 || head[i].1 == MAX_RUN by {
                    assert(head[i] == runs[i]);
                    assert(head[i + 1] == runs[i + 1]);
                }
            }
            lemma_rle_unique(head, v.drop_last());
            if head.len() > 0 {
                assert(head.last() == runs[runs.len() - 2]);
            }
            assert(head.push((x, 1u16)) =~= runs);
        } else {
            let less = (x, (c - 1) as u16);
            let prev = head.push(less);
            lemma_expand_push(head, less);
            assert(runs_nonempty(prev)) by {
                assert forall|i: int| 0 <= i < prev.len() implies (#[trigger] prev[i]).1 >= 1 by {
                    if i < head.len() {
                        assert(prev[i] == runs[i]);
                    }
                }
            }
            assert(runs_maximal(prev)) by {
                assert forall|i: int| 0 <= i < prev.len() - 1 implies (#[trigger] prev[i]).0
                    != prev[i + 1].0 || prev[i].1 == MAX_RUN by {
                    assert(prev[i] == runs[i]);
                    assert(prev[i + 1].0 == runs[i + 1].0);
                }
            }
            lemma_rle_unique(prev, v.drop_last());
            assert(prev.drop_last() == head);
            assert(head.push((x, c)) =~= runs);
        }
    }
}

/// Turns an assignment vector into its runs.
pub fn assign_to_rle(assign_vec: Vec<u16>) -> (rle_vec: Vec<(u16, u16)>)
    ensures
        rle_vec@ == rle_of(assign_vec@),
        expand(rle_vec@) == assign_vec@,
        runs_nonempty(rle_vec@),
        runs_maximal(rle_vec@),
{
    assign_slice_to_rle(assign_vec.as_slice())
}

/// Turns an assignment vector, given as a slice, into its runs.
pub fn assign_slice_to_rle(assign_vec: &[u16]) -> (rle_vec: Vec<(u16, u16)>)
    ensures
        rle_vec@ == rle_of(assign_vec@),
        expand(rle_vec@) == assign_vec@,
        runs_nonempty(rle_vec@),
        runs_maximal(rle_vec@),
{
    let mut rle_vec: Vec<(u16, u16)> = Vec::new();
    let mut prev_assign: u16 = 0;
    let mut count: u16 = 0;
    let mut i: usize = 0;
    while i < assign_vec.len()
        invariant
            i <= assign_vec.len(),
            i == 0 ==> count == 0 && rle_vec@.len() == 0,
            i > 0 ==> count >= 1 && rle_of(assign_vec@.take(i as int)) == rle_vec@.push(
                (prev_assign, count),
            ),
        decreases assign_vec.len() - i,
    {
        let assign: u16 = assign_vec[i];
        proof {
            let before = assign_vec@.take(i as int);
            let now = assign_vec@.take(i + 1);
            assert(now.drop_last() == before);
            assert(now.last() == assign);
            if i > 0 {
                let init = rle_vec@.push((prev_assign, count));
                assert(init.drop_last() == rle_vec@);
                assert(init.last() == (prev_assign, count));
            } else {
                assert(before.len() == 0);
                assert(rle_of(before) == Seq::<(u16, u16)>::empty());
            }
        }
        if count == 0 {
            prev_assign = assign;
            count = 1;
        } else if assign == prev_assign && count < MAX_RUN {
            count += 1;
        } else {
            rle_vec.push((prev_assign, count));
            prev_assign = assign;
            count = 1;
        }
        i += 1;
    }
    if count > 0 {
        rle_vec.push((prev_assign, count));
    }
    proof {
        assert(assign_vec@.take(assign_vec@.len() as int) == assign_vec@);
        lemma_rle_roundtrip(assign_vec@);
    }
    rle_vec
}

/// Turns runs back into the assignment vector they stand for.
pub fn rle_to_vec(rle_vec: Vec<(u16, u16)>) -> (assign_vec: Vec<u16>)
    ensures
        assign_vec@ == expand(rle_vec@),
{
    let mut assign_vec: Vec<u16> = Vec::new();
    let mut i: usize = 0;
    while i < rle_vec.len()
        invariant
            i <= rle_vec.len(),
            assign_vec@ == expand(rle_vec@.take(i as int)),
        decreases rle_vec.len() - i,
    {
        let (value, length) = rle_vec[i];
        let ghost start = assign_vec@;
        let mut j: u16 = 0;
        while j < length
            invariant
                j <= length,
                assign_vec@ == start + Seq::new(j as nat, |k: int| value),
            decreases length - j,
        {
            assign_vec.push(value);
            j += 1;
            proof {
                assert(Seq::new(j as nat, |k: int| value) == Seq::new((j - 1) as nat, |k: int| value).push(value));
            }
        }
        proof {
            let now = rle_vec@.take(i + 1);
            assert(now.drop_last() == rle_vec@.take(i as int));
            assert(now.last() == (value, length));
        }
        i += 1;
    }
    proof {
        assert(rle_vec@.take(rle_vec@.len() as int) == rle_vec@);
    }
    assign_vec
}

} // verus!
