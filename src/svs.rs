//! k-set intersection by chaining two-set kernels, smallest set first.
use vstd::prelude::*;
use crate::dispatch::Kernel;
use crate::merge::galloping_inplace;
use crate::sets::{all_sorted, inter, inter_all, lemma_inter_len, lemma_inter_sorted, sorted};
use crate::visitor::{SliceWriter, Visitor};

verus! {

/// The contents of each set of a list.
pub open spec fn views(sets: Seq<&[i32]>) -> Seq<Seq<i32>> {
    Seq::new(sets.len(), |k: int| sets[k]@)
}

proof fn lemma_inter_all_step(v: Seq<Seq<i32>>, k: int)
    requires
        1 <= k < v.len(),
        all_sorted(v),
    ensures
        inter_all(v.take(k + 1)) == inter(inter_all(v.take(k)), v[k]),
        sorted(inter_all(v.take(k))),
    decreases k,
{
    assert(v.take(k + 1).drop_last() =~= v.take(k));
    assert(v.take(k + 1).last() == v[k]);
    if k == 1 {
        assert(v.take(1).len() == 1);
        assert(sorted(v[0]));
    } else {
        lemma_inter_all_step(v, k - 1);
        lemma_inter_sorted(inter_all(v.take(k - 1)), v[k - 1]);
    }
}

/// "Small versus small": copies the first set into `out`, then intersects
/// the running result in place with each further set by galloping. Returns
/// the length of the intersection, which stands at the front of `out`.
/// Intended for sets ordered from smallest to largest.
pub fn svs(sets: &[&[i32]], out: &mut [i32]) -> (r: usize)
    requires
        sets@.len() >= 2,
        all_sorted(views(sets@)),
        sets@[0]@.len() <= old(out)@.len(),
    ensures
        final(out)@.len() == old(out)@.len(),
        r == inter_all(views(sets@)).len(),
        final(out)@.take(r as int) == inter_all(views(sets@)),
        final(out)@.skip(sets@[0]@.len() as int) == old(out)@.skip(sets@[0]@.len() as int),
{
    let ghost v = views(sets@);
    let first = sets[0];
    let mut count: usize = 0;
    while count < first.len()
        invariant
            first@ == v[0],
            v == views(sets@),
            count <= first@.len() <= out@.len(),
            out@.len() == old(out)@.len(),
            forall|k: int| 0 <= k < count ==> out@[k] == first@[k],
            forall|k: int| first@.len() <= k < out@.len() ==> out@[k] == old(out)@[k],
        decreases first@.len() - count,
    {
        out[count] = first[count];
        count = count + 1;
    }
    proof {
        assert(out@.take(count as int) =~= first@);
        assert(v.take(1).len() == 1);
        assert(inter_all(v.take(1)) == v[0]);
        assert(sorted(v[0]));
    }
    let mut k: usize = 1;
    while k < sets.len()
        invariant
            v == views(sets@),
            all_sorted(v),
            1 <= k <= v.len(),
            count <= out@.len(),
            out@.len() == old(out)@.len(),
            out@.take(count as int) == inter_all(v.take(k as int)),
            sorted(inter_all(v.take(k as int))),
            count <= v[0].len() <= out@.len(),
            forall|q: int| v[0].len() <= q < out@.len() ==> out@[q] == old(out)@[q],
        decreases v.len() - k,
    {
        let set = sets[k];
        let ghost before = out@;
        proof {
            lemma_inter_all_step(v, k as int);
            assert(set@ == v[k as int]);
            assert(sorted(v[k as int]));
            lemma_inter_sorted(inter_all(v.take(k as int)), v[k as int]);
            if k + 1 < v.len() {
                lemma_inter_all_step(v, k as int + 1);
            }
        }
        let ghost c0 = count;
        count = galloping_inplace(out, count, set);
        proof {
            assert forall|q: int| v[0].len() <= q < out@.len() implies out@[q] == old(out)@[q] by {
                assert(out@.skip(c0 as int)[q - c0] == before.skip(c0 as int)[q - c0]);
            }
            lemma_inter_sorted(inter_all(v.take(k as int)), v[k as int]);
        }
        k = k + 1;
    }
    proof {
        assert(v.take(k as int) =~= v);
        assert(out@.skip(sets@[0]@.len() as int) =~= old(out)@.skip(sets@[0]@.len() as int));
    }
    count
}

/// "Small versus small" in place: the first set is intersected with each of
/// `rest` in turn by galloping, the running result kept at its front.
/// Returns the length of the intersection.
pub fn svs_inplace(first: &mut [i32], rest: &[&[i32]]) -> (r: usize)
    requires
        rest@.len() >= 1,
        sorted(old(first)@),
        all_sorted(views(rest@)),
    ensures
        final(first)@.len() == old(first)@.len(),
        r == inter_all(seq![old(first)@] + views(rest@)).len(),
        final(first)@.take(r as int) == inter_all(seq![old(first)@] + views(rest@)),
{
    let ghost v = seq![old(first)@] + views(rest@);
    proof {
        assert forall|k: int| 0 <= k < v.len() implies sorted(#[trigger] v[k]) by {
            if k > 0 {
                assert(v[k] == views(rest@)[k - 1]);
            }
        }
        assert(v.take(1).len() == 1);
        assert(inter_all(v.take(1)) == old(first)@);
        assert(first@.take(first@.len() as int) =~= first@);
    }
    let mut count: usize = first.len();
    let mut k: usize = 0;
    while k < rest.len()
        invariant
            v == seq![old(first)@] + views(rest@),
            all_sorted(v),
            k <= rest@.len(),
            count <= first@.len(),
            first@.len() == old(first)@.len(),
            first@.take(count as int) == inter_all(v.take(k + 1)),
            sorted(inter_all(v.take(k + 1))),
        decreases rest@.len() - k,
    {
        let set = rest[k];
        proof {
            assert(v[k + 1] == set@);
            lemma_inter_all_step(v, k + 1);
            lemma_inter_sorted(inter_all(v.take(k + 1)), v[k + 1]);
            if k + 2 < v.len() {
                lemma_inter_all_step(v, k + 2);
            }
        }
        count = galloping_inplace(first, count, set);
        k = k + 1;
    }
    proof {
        assert(v.take(k + 1) =~= v);
    }
    count
}

/// Runs `kernel` on `a` and `b` with `out` as the fixed output region.
fn intersect_into(kernel: Kernel, a: &[i32], b: &[i32], out: &mut Vec<i32>) -> (r: usize)
    requires
        sorted(a@),
        sorted(b@),
        inter(a@, b@).len() <= old(out)@.len(),
    ensures
        final(out)@.len() == old(out)@.len(),
        r == inter(a@, b@).len(),
        final(out)@.take(r as int) == inter(a@, b@),
{
    let mut buf: Vec<i32> = Vec::new();
    std::mem::swap(out, &mut buf);
    let mut writer = SliceWriter::from_vec(buf);
    kernel.run(a, b, &mut writer);
    let SliceWriter { buf, len } = writer;
    *out = buf;
    len
}

/// Which buffer holds the result of `as_svs` over `n` sets: the first
/// intersection goes to `out1`, and each further set switches buffers.
pub open spec fn final_buffer(n: int) -> usize {
    if n % 2 == 0 {
        1
    } else {
        0
    }
}

/// Extends a two-set kernel to k sets. The kernel cannot work in place, so
/// the running result alternates between `out0` and `out1`. Returns the
/// length of the intersection and the index of the buffer that holds it.
pub fn as_svs(sets: &[&[i32]], out0: &mut Vec<i32>, out1: &mut Vec<i32>, kernel: Kernel) -> (r: (
    usize,
    usize,
))
    requires
        sets@.len() >= 2,
        all_sorted(views(sets@)),
        sets@[0]@.len() <= old(out0)@.len(),
        sets@[0]@.len() <= old(out1)@.len(),
    ensures
        final(out0)@.len() == old(out0)@.len(),
        final(out1)@.len() == old(out1)@.len(),
        r.1 == final_buffer(sets@.len() as int),
        r.0 == inter_all(views(sets@)).len(),
        (if r.1 == 0 {
            final(out0)@
        } else {
            final(out1)@
        }).take(r.0 as int) == inter_all(views(sets@)),
{
    let ghost v = views(sets@);
    proof {
        assert(sorted(v[0]));
        assert(sorted(v[1]));
        lemma_inter_len(v[0], v[1]);
        lemma_inter_sorted(v[0], v[1]);
        lemma_inter_all_step(v, 1);
        assert(sets@[0]@ == v[0]);
        assert(sets@[1]@ == v[1]);
    }
    let mut count = intersect_into(kernel, sets[0], sets[1], out1);
    let mut which: usize = 1;
    let mut k: usize = 2;
    while k < sets.len()
        invariant
            v == views(sets@),
            all_sorted(v),
            2 <= k <= v.len(),
            which == final_buffer(k as int),
            out0@.len() == old(out0)@.len(),
            out1@.len() == old(out1)@.len(),
            count <= v[0].len(),
            v[0].len() <= out0@.len(),
            v[0].len() <= out1@.len(),
            (if which == 0 {
                out0@
            } else {
                out1@
            }).take(count as int) == inter_all(v.take(k as int)),
            sorted(inter_all(v.take(k as int))),
        decreases v.len() - k,
    {
        let set = sets[k];
        proof {
            lemma_inter_all_step(v, k as int);
            assert(set@ == v[k as int]);
            assert(sorted(v[k as int]));
            lemma_inter_len(inter_all(v.take(k as int)), v[k as int]);
            lemma_inter_sorted(inter_all(v.take(k as int)), v[k as int]);
            if k + 1 < v.len() {
                lemma_inter_all_step(v, k as int + 1);
            } else {
                assert(v.take(k as int + 1) =~= v);
                lemma_inter_all_step(v, k as int);
            }
        }
        if which == 1 {
            let prev = vstd::slice::slice_subrange(out1.as_slice(), 0, count);
            proof {
                assert(prev@ == inter_all(v.take(k as int)));
            }
            count = intersect_into(kernel, prev, set, out0);
            which = 0;
        } else {
            let prev = vstd::slice::slice_subrange(out0.as_slice(), 0, count);
            proof {
                assert(prev@ == inter_all(v.take(k as int)));
            }
            count = intersect_into(kernel, prev, set, out1);
            which = 1;
        }
        k = k + 1;
        proof {
            lemma_inter_sorted(inter_all(v.take(k - 1)), v[k - 1]);
            assert(count <= inter_all(v.take(k - 1)).len());
        }
    }
    proof {
        assert(v.take(k as int) =~= v);
    }
    (count, which)
}

} // verus!
