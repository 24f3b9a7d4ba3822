//! Token-id windows for the embedding model.
use vstd::prelude::*;

verus! {

/// The token ids cut or padded to `max_len`: the first `max_len` ids, then `pad_id` up to
/// `max_len`.
pub open spec fn padded_ids(ids: Seq<u32>, max_len: int, pad_id: u32) -> Seq<u32> {
    let n = if ids.len() < max_len {
        ids.len() as int
    } else {
        max_len
    };
    ids.take(n) + Seq::new((max_len - n) as nat, |i: int| pad_id)
}

/// Truncates or pads token ids to exactly `max_len` entries.
pub fn truncate_and_pad(token_ids: &Vec<u32>, max_len: usize, pad_id: u32) -> (r: Vec<u32>)
    ensures
        r@ == padded_ids(token_ids@, max_len as int, pad_id),
{
    let actual_len = if token_ids.len() < max_len { token_ids.len() } else { max_len };
    let mut padded: Vec<u32> = Vec::new();
    let mut i: usize = 0;
    while i < actual_len
        invariant
            i <= actual_len <= token_ids@.len(),
            actual_len <= max_len,
            padded@ == token_ids@.take(i as int),
        decreases actual_len - i,
    {
        padded.push(token_ids[i]);
        assert(token_ids@.take(i + 1) =~= token_ids@.take(i as int).push(token_ids@[i as int]));
        i += 1;
    }
    let mut k: usize = actual_len;
    while k < max_len
        invariant
            actual_len <= k <= max_len,
            actual_len <= token_ids@.len(),
            padded@ == token_ids@.take(actual_len as int) + Seq::new(
                (k - actual_len) as nat,
                |j: int| pad_id,
            ),
        decreases max_len - k,
    {
        padded.push(pad_id);
        assert(padded@ =~= token_ids@.take(actual_len as int) + Seq::new(
            (k + 1 - actual_len) as nat,
            |j: int| pad_id,
        ));
        k += 1;
    }
    proof {
        if token_ids@.len() < max_len {
            assert(actual_len == token_ids@.len());
        }
    }
    padded
}


/// Matryoshka truncation: the first `target_dim` entries of `vec`, or all of them when it
/// is no longer.
pub fn matryoshka_truncate<T: Copy>(vec: &Vec<T>, target_dim: usize) -> (r: Vec<T>)
    ensures
        r@ == if vec@.len() <= target_dim {
            vec@
        } else {
            vec@.take(target_dim as int)
        },
{
    let n = if vec.len() <= target_dim { vec.len() } else { target_dim };
    let mut out: Vec<T> = Vec::new();
    let mut i: usize = 0;
    while i < n
        invariant
            i <= n <= vec@.len(),
            out@ == vec@.take(i as int),
        decreases n - i,
    {
        out.push(vec[i]);
        assert(vec@.take(i + 1) =~= vec@.take(i as int).push(vec@[i as int]));
        i += 1;
    }
    proof {
        if vec@.len() <= target_dim {
            assert(vec@.take(n as int) =~= vec@);
        }
    }
    out
}

} // verus!
