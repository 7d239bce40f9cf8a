//! Selection of a two-set kernel by name.
use vstd::prelude::*;
use crate::merge::{
    baezayates, bmiss_scalar_3x, bmiss_scalar_4x, branchless_merge, galloping, naive_merge,
};
use crate::sets::{inter, sorted};
use crate::shuffling::{simd_shuffling, simd_shuffling_avx2, simd_shuffling_avx512};
use crate::visitor::Visitor;
use vstd::string::StringSliceAdditionalSpecFns;

verus! {

/// The two-set intersection kernels of the library.
#[derive(Clone, Copy, Debug, PartialEq, Eq, Structural)]
pub enum Kernel {
    NaiveMerge,
    BranchlessMerge,
    BmissScalar3x,
    BmissScalar4x,
    Galloping,
    BaezaYates,
    ShufflingSse,
    ShufflingAvx2,
    ShufflingAvx512,
}

/// The kernel registered under a name, given as its bytes.
pub open spec fn kernel_named(name: Seq<u8>) -> Option<Kernel> {
    if name == "naive_merge".spec_bytes() {
        Some(Kernel::NaiveMerge)
    } else if name == "branchless_merge".spec_bytes() {
        Some(Kernel::BranchlessMerge)
    } else if name == "bmiss_scalar_3x".spec_bytes() {
        Some(Kernel::BmissScalar3x)
    } else if name == "bmiss_scalar_4x".spec_bytes() {
        Some(Kernel::BmissScalar4x)
    } else if name == "galloping".spec_bytes() {
        Some(Kernel::Galloping)
    } else if name == "baezayates".spec_bytes() {
        Some(Kernel::BaezaYates)
    } else if name == "shuffling_sse".spec_bytes() {
        Some(Kernel::ShufflingSse)
    } else if name == "shuffling_avx2".spec_bytes() {
        Some(Kernel::ShufflingAvx2)
    } else if name == "shuffling_avx512".spec_bytes() {
        Some(Kernel::ShufflingAvx512)
    } else {
        None
    }
}

fn bytes_eq(x: &[u8], y: &[u8]) -> (r: bool)
    ensures
        r == (x@ == y@),
{
    if x.len() != y.len() {
        return false;
    }
    let mut i: usize = 0;
    while i < x.len()
        invariant
            x@.len() == y@.len(),
            i <= x@.len(),
            forall|k: int| 0 <= k < i ==> x@[k] == y@[k],
        decreases x@.len() - i,
    {
        if x[i] != y[i] {
            return false;
        }
        i = i + 1;
    }
    assert(x@ =~= y@);
    true
}

/// Looks a kernel up by name; an unknown name gives `None`.
pub fn get_2set_algorithm(name: &str) -> (r: Option<Kernel>)
    ensures
        r == kernel_named(name.spec_bytes()),
{
    let n = name.as_bytes();
    if bytes_eq(n, "naive_merge".as_bytes()) {
        Some(Kernel::NaiveMerge)
    } else if bytes_eq(n, "branchless_merge".as_bytes()) {
        Some(Kernel::BranchlessMerge)
    } else if bytes_eq(n, "bmiss_scalar_3x".as_bytes()) {
        Some(Kernel::BmissScalar3x)
    } else if bytes_eq(n, "bmiss_scalar_4x".as_bytes()) {
        Some(Kernel::BmissScalar4x)
    } else if bytes_eq(n, "galloping".as_bytes()) {
        Some(Kernel::Galloping)
    } else if bytes_eq(n, "baezayates".as_bytes()) {
        Some(Kernel::BaezaYates)
    } else if bytes_eq(n, "shuffling_sse".as_bytes()) {
        Some(Kernel::ShufflingSse)
    } else if bytes_eq(n, "shuffling_avx2".as_bytes()) {
        Some(Kernel::ShufflingAvx2)
    } else if bytes_eq(n, "shuffling_avx512".as_bytes()) {
        Some(Kernel::ShufflingAvx512)
    } else {
        None
    }
}

impl Kernel {
    /// Runs this kernel on `a` and `b`, emitting into `visitor`.
    pub fn run<V: Visitor>(&self, a: &[i32], b: &[i32], visitor: &mut V)
        requires
            sorted(a@),
            sorted(b@),
            old(visitor).inv(),
            inter(a@, b@).len() <= old(visitor).room(),
        ensures
            final(visitor).inv(),
            final(visitor).seen() == old(visitor).seen() + inter(a@, b@),
            final(visitor).room() == old(visitor).room() - inter(a@, b@).len(),
    {
        match self {
            Kernel::NaiveMerge => naive_merge(a, b, visitor),
            Kernel::BranchlessMerge => branchless_merge(a, b, visitor),
            Kernel::BmissScalar3x => bmiss_scalar_3x(a, b, visitor),
            Kernel::BmissScalar4x => bmiss_scalar_4x(a, b, visitor),
            Kernel::Galloping => galloping(a, b, visitor),
            Kernel::BaezaYates => baezayates(a, b, visitor),
            Kernel::ShufflingSse => simd_shuffling(a, b, visitor),
            Kernel::ShufflingAvx2 => simd_shuffling_avx2(a, b, visitor),
            Kernel::ShufflingAvx512 => simd_shuffling_avx512(a, b, visitor),
        }
    }
}

} // verus!
