//! Index bookkeeping over the sorted spectrum of a Laplacian. The eigenvalues
//! themselves are floating point and are classified outside this crate (zero or
//! not, above a threshold or not); the flags that come back decide kernel
//! dimensions, spectral gaps and the harmonic/image splitting of an eigenbasis.

use vstd::prelude::*;

verus! {

/// The indices `i < k` with `flags[i] == want`, in increasing order.
pub open spec fn indices_where(flags: Seq<bool>, want: bool, k: int) -> Seq<usize>
    decreases k,
{
    if k <= 0 {
        Seq::empty()
    } else if flags[k - 1] == want {
        indices_where(flags, want, k - 1).push((k - 1) as usize)
    } else {
        indices_where(flags, want, k - 1)
    }
}

/// Number of set flags (for instance: eigenvalues classified as zero).
pub open spec fn count_set(flags: Seq<bool>) -> nat {
    indices_where(flags, true, flags.len() as int).len()
}

proof fn lemma_indices_where_len(flags: Seq<bool>, k: int)
    requires
        0 <= k <= flags.len(),
    ensures
        indices_where(flags, true, k).len() + indices_where(flags, false, k).len() == k,
        indices_where(flags, true, k).len() <= k,
    decreases k,
{
    if k > 0 {
        lemma_indices_where_len(flags, k - 1);
    }
}

/// Number of set flags: the kernel dimension when the flags mark the zero eigenvalues.
pub fn count_set_flags(flags: &Vec<bool>) -> (c: usize)
    ensures
        c == count_set(flags@),
{
    let mut c: usize = 0;
    let mut i: usize = 0;
    while i < flags.len()
        invariant
            i <= flags@.len(),
            c == indices_where(flags@, true, i as int).len(),
        decreases flags@.len() - i,
    {
        proof {
            lemma_indices_where_len(flags@, i as int);
        }
        if flags[i] {
            c += 1;
        }
        i += 1;
    }
    c
}

/// Index of the first set flag: in an ascending spectrum flagged by "above the
/// threshold", the position of the spectral gap.
pub fn first_set_flag(flags: &Vec<bool>) -> (r: Option<usize>)
    ensures
        match r {
            Some(i) => i < flags@.len() && flags@[i as int] && forall|j: int|
                0 <= j < i ==> !#[trigger] flags@[j],
            None => forall|j: int| 0 <= j < flags@.len() ==> !#[trigger] flags@[j],
        },
{
    let mut i: usize = 0;
    while i < flags.len()
        invariant
            i <= flags@.len(),
            forall|j: int| 0 <= j < i ==> !#[trigger] flags@[j],
        decreases flags@.len() - i,
    {
        if flags[i] {
            return Some(i);
        }
        i += 1;
    }
    None
}

/// Split the indices of `flags` into those with the flag set and the others, each in
/// increasing order: the harmonic and the image columns of an eigenbasis.
pub fn split_by_flag(flags: &Vec<bool>) -> (r: (Vec<usize>, Vec<usize>))
    ensures
        r.0@ == indices_where(flags@, true, flags@.len() as int),
        r.1@ == indices_where(flags@, false, flags@.len() as int),
        r.0@.len() == count_set(flags@),
        r.0@.len() + r.1@.len() == flags@.len(),
{
    let mut set_idx: Vec<usize> = Vec::new();
    let mut unset_idx: Vec<usize> = Vec::new();
    let mut i: usize = 0;
    while i < flags.len()
        invariant
            i <= flags@.len(),
            set_idx@ == indices_where(flags@, true, i as int),
            unset_idx@ == indices_where(flags@, false, i as int),
        decreases flags@.len() - i,
    {
        if flags[i] {
            set_idx.push(i);
        } else {
            unset_idx.push(i);
        }
        i += 1;
    }
    proof {
        lemma_indices_where_len(flags@, flags@.len() as int);
    }
    (set_idx, unset_idx)
}

} // verus!
