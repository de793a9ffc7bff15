//! Small shared utilities: block-size arithmetic, sign reinterpretation, and
//! helpers for vectors of server ids.

use vstd::prelude::*;
use crate::protos::ServerId;

verus! {

/// Transmutes a signed/unsigned integer into its opposite unsigned/signed
/// integer while maintaining bitwise equivalence, even though the integer
/// value may change.
///
/// Used instead of a bare `as` cast to mark the places that intentionally do
/// not care about the value changing upon reinterpretation of the bits.
pub trait FlipSign<T>: Sized {
    /// The mathematical value of the reinterpreted bits.
    spec fn flip_spec(self) -> T;

    /// Reinterprets the bits under the opposite sign.
    fn flip(self) -> (r: T)
        ensures
            r == self.flip_spec(),
    ;
}

impl FlipSign<u16> for i16 {
    open spec fn flip_spec(self) -> u16 {
        self as u16
    }

    fn flip(self) -> u16 {
        self as u16
    }
}

impl FlipSign<i16> for u16 {
    open spec fn flip_spec(self) -> i16 {
        self as i16
    }

    fn flip(self) -> i16 {
        self as i16
    }
}

impl FlipSign<u32> for i32 {
    open spec fn flip_spec(self) -> u32 {
        self as u32
    }

    fn flip(self) -> u32 {
        self as u32
    }
}

impl FlipSign<i32> for u32 {
    open spec fn flip_spec(self) -> i32 {
        self as i32
    }

    fn flip(self) -> i32 {
        self as i32
    }
}

impl FlipSign<u64> for i64 {
    open spec fn flip_spec(self) -> u64 {
        self as u64
    }

    fn flip(self) -> u64 {
        self as u64
    }
}

impl FlipSign<i64> for u64 {
    open spec fn flip_spec(self) -> i64 {
        self as i64
    }

    fn flip(self) -> i64 {
        self as i64
    }
}

/// How many bytes remain until `end_offset` reaches the next multiple of
/// `block_size`: 0 when already aligned, else the distance to the next block
/// boundary.
pub fn block_size_remainder(block_size: u64, end_offset: u64) -> (r: u64)
    requires
        block_size > 0,
    ensures
        r == (if end_offset % block_size == 0 {
            0u64
        } else {
            (block_size - end_offset % block_size) as u64
        }),
        r < block_size,
        (end_offset + r) % (block_size as int) == 0,
{
    let rem = end_offset % block_size;
    if rem == 0 {
        return 0;
    }
    proof {
        assert((end_offset + (block_size - end_offset % block_size)) % (block_size as int) == 0)
            by (nonlinear_arith)
            requires
                block_size > 0,
        ;
    }
    block_size - rem
}

/// Whether `v` holds `id`.
pub fn ids_contain(v: &Vec<ServerId>, id: ServerId) -> (r: bool)
    ensures
        r == v@.contains(id),
{
    let mut i: usize = 0;
    while i < v.len()
        invariant
            i <= v@.len(),
            forall|k: int| 0 <= k < i ==> v@[k] != id,
        decreases v@.len() - i,
    {
        if v[i] == id {
            return true;
        }
        i = i + 1;
    }
    false
}

/// Adds `id` to a duplicate-free id list unless already present.
pub fn ids_insert(v: &mut Vec<ServerId>, id: ServerId)
    requires
        forall|i: int, j: int| 0 <= i < j < old(v)@.len() ==> old(v)@[i] != old(v)@[j],
    ensures
        forall|i: int, j: int| 0 <= i < j < final(v)@.len() ==> final(v)@[i] != final(v)@[j],
        forall|x: ServerId|
            #[trigger] final(v)@.contains(x) <==> (old(v)@.contains(x) || x == id),
        final(v)@.len() >= old(v)@.len(),
        old(v)@.contains(id) ==> final(v)@ == old(v)@,
{
    if !ids_contain(v, id) {
        v.push(id);
        proof {
            let pre = old(v)@;
            let post = v@;
            assert forall|x: ServerId| #[trigger]
                post.contains(x) implies (pre.contains(x) || x == id) by {
                let i = choose|i: int| 0 <= i < post.len() && post[i] == x;
                if i < pre.len() {
                    assert(pre[i] == x);
                }
            }
            assert forall|x: ServerId|
                (pre.contains(x) || x == id) implies #[trigger] post.contains(x) by {
                if x == id {
                    assert(post[pre.len() as int] == x);
                } else {
                    let i = choose|i: int| 0 <= i < pre.len() && pre[i] == x;
                    assert(post[i] == x);
                }
            }
        }
    }
}

/// Removes `id` from a duplicate-free id list if present.
pub fn ids_remove(v: &mut Vec<ServerId>, id: ServerId)
    requires
        forall|i: int, j: int| 0 <= i < j < old(v)@.len() ==> old(v)@[i] != old(v)@[j],
    ensures
        forall|i: int, j: int| 0 <= i < j < final(v)@.len() ==> final(v)@[i] != final(v)@[j],
        forall|x: ServerId|
            #[trigger] final(v)@.contains(x) <==> (old(v)@.contains(x) && x != id),
        final(v)@.len() <= old(v)@.len(),
{
    let mut i: usize = 0;
    while i < v.len()
        invariant
            i <= v@.len(),
            v@ == old(v)@,
            forall|a: int, b: int| 0 <= a < b < v@.len() ==> v@[a] != v@[b],
            forall|k: int| 0 <= k < i ==> v@[k] != id,
        decreases v@.len() - i,
    {
        if v[i] == id {
            v.remove(i);
            proof {
                let pre = old(v)@;
                let post = v@;
                assert(pre[i as int] == id);
                assert(post.len() == pre.len() - 1);
                assert(forall|k: int| 0 <= k < i ==> post[k] == pre[k]);
                assert(forall|k: int| i <= k < post.len() ==> post[k] == pre[k + 1]);
                assert forall|a: int, b: int| 0 <= a < b < post.len() implies post[a]
                    != post[b] by {
                    if a < i {
                        if b < i {
                            assert(pre[a] != pre[b]);
                        } else {
                            assert(pre[a] != pre[b + 1]);
                        }
                    } else {
                        assert(pre[a + 1] != pre[b + 1]);
                    }
                }
                assert forall|x: ServerId| #[trigger]
                    post.contains(x) implies (pre.contains(x) && x != id) by {
                    let k = choose|k: int| 0 <= k < post.len() && post[k] == x;
                    if k < i {
                        assert(pre[k] == x);
                        assert(pre[k] != pre[i as int]);
                    } else {
                        assert(pre[k + 1] == x);
                        assert(pre[k + 1] != pre[i as int]);
                    }
                }
                assert forall|x: ServerId|
                    (pre.contains(x) && x != id) implies #[trigger] post.contains(x) by {
                    let k = choose|k: int| 0 <= k < pre.len() && pre[k] == x;
                    if k < i {
                        assert(post[k] == x);
                    } else {
                        assert(k != i);
                        assert(post[k - 1] == x);
                    }
                }
            }
            return ;
        }
        i = i + 1;
    }
}

/// Copies a vector of server ids; the copy holds the same ids in the same
/// order.
pub fn clone_ids(v: &Vec<ServerId>) -> (r: Vec<ServerId>)
    ensures
        r@ == v@,
{
    let mut r: Vec<ServerId> = Vec::new();
    let mut i: usize = 0;
    while i < v.len()
        invariant
            i <= v@.len(),
            r@ == v@.take(i as int),
        decreases v@.len() - i,
    {
        r.push(v[i]);
        proof {
            assert(r@ =~= v@.take(i + 1 as int));
        }
        i = i + 1;
    }
    proof {
        assert(v@.take(v@.len() as int) =~= v@);
    }
    r
}

} // verus!
