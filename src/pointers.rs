//! The live-pointer table: maps each live pointer to the index of its
//! allocation signature, split into a high part (the bucket) and a low part.
use indexmap::IndexMap;
use std::hash::RandomState;
use vstd::prelude::*;

use crate::collections::{bucket_view, buckets_held, insert_bucket, new_buckets, remove_bucket};

verus! {

/// The span of low parts that one bucket covers.
pub const PAGE_SIZE: u64 = 0x3FFF;

/// A pointer split into its bucket and its offset inside the bucket.
pub struct SplitPointer {
    pub big: u64,
    pub small: u16,
}

impl SplitPointer {
    pub fn new(ptr: u64) -> (r: Self)
        ensures
            r.big == ptr / PAGE_SIZE,
            r.small == ptr % PAGE_SIZE,
    {
        SplitPointer { big: ptr / PAGE_SIZE, small: (ptr % PAGE_SIZE) as u16 }
    }
}

/// One bucket: the low parts of its live pointers, and beside each the index
/// of its allocation signature.
pub struct Indices {
    pub small_ptr_parts: Vec<u16>,
    pub allocation_indices: Vec<usize>,
}

/// Two pointers with the same bucket and the same offset are the same pointer.
pub proof fn lemma_split_injective(p: u64, q: u64)
    requires
        p / PAGE_SIZE == q / PAGE_SIZE,
        p % PAGE_SIZE == q % PAGE_SIZE,
    ensures
        p == q,
{
    assert(p == (p / 0x3FFFu64) * 0x3FFF + p % 0x3FFFu64) by (nonlinear_arith);
    assert(q == (q / 0x3FFFu64) * 0x3FFF + q % 0x3FFFu64) by (nonlinear_arith);
}

/// The table of live pointers.
pub struct PointerTable {
    buckets: IndexMap<u64, Indices, RandomState>,
}

/// Whether the bucket `b` holds the low part `s`.
pub open spec fn bucket_holds(b: (Seq<u16>, Seq<usize>), s: u16) -> bool {
    b.0.contains(s)
}

/// What a bucket holds in the table `m` for pointer `p`.
pub open spec fn table_holds(m: Map<u64, (Seq<u16>, Seq<usize>)>, p: u64) -> bool {
    m.contains_key(p / PAGE_SIZE) && bucket_holds(m[p / PAGE_SIZE], (p % PAGE_SIZE) as u16)
}

impl PointerTable {
    pub closed spec fn held(&self) -> Map<u64, (Seq<u16>, Seq<usize>)> {
        buckets_held(self.buckets)
    }

    /// Each bucket is non-empty, its two sequences are of one length, and its
    /// low parts are distinct offsets.
    pub closed spec fn wf(&self) -> bool {
        forall|big: u64|
            #![trigger self.held()[big]]
            self.held().contains_key(big) ==> {
                let b = self.held()[big];
                &&& b.0.len() == b.1.len()
                &&& b.0.len() > 0
                &&& b.0.no_duplicates()
                &&& forall|i: int| 0 <= i < b.0.len() ==> b.0[i] < PAGE_SIZE
            }
    }

    /// The live pointers, each with the index of its allocation signature.
    pub closed spec fn view(&self) -> Map<u64, usize> {
        Map::new(
            |p: u64| table_holds(self.held(), p),
            |p: u64|
                {
                    let b = self.held()[p / PAGE_SIZE];
                    b.1[b.0.index_of((p % PAGE_SIZE) as u16)]
                },
        )
    }

    pub fn new() -> (r: Self)
        ensures
            r.wf(),
            r@ == Map::<u64, usize>::empty(),
    {
        let r = PointerTable { buckets: new_buckets() };
        assert(r@ =~= Map::<u64, usize>::empty());
        r
    }

    /// Position of `small` in `parts`, by a linear scan.
    fn position(parts: &Vec<u16>, small: u16) -> (r: Option<usize>)
        ensures
            r is None <==> !parts@.contains(small),
            r is Some ==> r->0 < parts@.len() && parts@[r->0 as int] == small,
    {
        let mut i: usize = 0;
        while i < parts.len()
            invariant
                i <= parts@.len(),
                forall|j: int| 0 <= j < i ==> parts@[j] != small,
            decreases parts@.len() - i,
        {
            if parts[i] == small {
                return Some(i);
            }
            i = i + 1;
        }
        None
    }

    /// Records that `ptr` is live with allocation signature `allocation_idx`;
    /// a pointer already live is overwritten.
    pub fn add_pointer(&mut self, ptr: u64, allocation_idx: usize)
        requires
            old(self).wf(),
        ensures
            final(self).wf(),
            final(self)@ == old(self)@.insert(ptr, allocation_idx),
    {
        let pointer = SplitPointer::new(ptr);
        let ghost before = self.held();
        let mut indices = match remove_bucket(&mut self.buckets, pointer.big) {
            Some(b) => b,
            None => Indices { small_ptr_parts: Vec::new(), allocation_indices: Vec::new() },
        };
        let ghost b0 = bucket_view(indices);
        match Self::position(&indices.small_ptr_parts, pointer.small) {
            None => {
                indices.small_ptr_parts.push(pointer.small);
                indices.allocation_indices.push(allocation_idx);
                assert(indices.small_ptr_parts@[b0.0.len() as int] == pointer.small);
                assert(indices.allocation_indices@.subrange(0, b0.1.len() as int) =~= b0.1);
            },
            Some(i) => {
                indices.allocation_indices.set(i, allocation_idx);
                assert(indices.small_ptr_parts@[i as int] == pointer.small);
            },
        }
        let ghost b1 = bucket_view(indices);
        insert_bucket(&mut self.buckets, pointer.big, indices);
        proof {
            assert(self.held() == before.insert(pointer.big, b1));
            assert(b1.0.no_duplicates()) by {
                if !b0.0.contains(pointer.small) {
                    assert forall|i: int, j: int|
                        0 <= i < b1.0.len() && 0 <= j < b1.0.len() && i != j implies b1.0[i]
                        != b1.0[j] by {
                        if i == b0.0.len() as int {
                            assert(b0.0.contains(b0.0[j]));
                        } else if j == b0.0.len() as int {
                            assert(b0.0.contains(b0.0[i]));
                        }
                    }
                }
            }
            assert(b1.0.contains(pointer.small));
            b1.0.index_of_first(pointer.small);
            assert forall|p: u64| #[trigger] table_holds(self.held(), p) implies {
                let b = self.held()[p / PAGE_SIZE];
                &&& old(self)@.insert(ptr, allocation_idx).contains_key(p)
                &&& b.1[b.0.index_of((p % PAGE_SIZE) as u16)] == old(self)@.insert(ptr, allocation_idx)[p]
            } by {
                if p / PAGE_SIZE == ptr / PAGE_SIZE {
                    if p % PAGE_SIZE == ptr % PAGE_SIZE {
                        lemma_split_injective(p, ptr);
                    } else {
                        Self::lemma_other_offset(b0, b1, p, ptr);
                    }
                }
            }
            assert forall|p: u64| #[trigger] old(self)@.insert(ptr, allocation_idx).contains_key(p)
                implies table_holds(self.held(), p) by {
                if p != ptr && p / PAGE_SIZE == ptr / PAGE_SIZE {
                    assert(p % PAGE_SIZE != ptr % PAGE_SIZE) by {
                        if p % PAGE_SIZE == ptr % PAGE_SIZE {
                            lemma_split_injective(p, ptr);
                        }
                    }
                    Self::lemma_other_offset(b0, b1, p, ptr);
                }
            }
            assert(self@ =~= old(self)@.insert(ptr, allocation_idx));
        }
    }

    /// Removes `ptr`; returns its allocation signature where it was live.
    pub fn take_pointer(&mut self, ptr: u64) -> (r: Option<usize>)
        requires
            old(self).wf(),
        ensures
            final(self).wf(),
            final(self)@ == old(self)@.remove(ptr),
            old(self)@.contains_key(ptr) <==> r is Some,
            r is Some ==> r->0 == old(self)@[ptr],
    {
        let pointer = SplitPointer::new(ptr);
        let mut indices = match remove_bucket(&mut self.buckets, pointer.big) {
            Some(b) => b,
            None => {
                proof {
                    assert(self@ =~= old(self)@.remove(ptr));
                }
                return None;
            },
        };
        let ghost b0 = bucket_view(indices);
        let i = match Self::position(&indices.small_ptr_parts, pointer.small) {
            Some(i) => i,
            None => {
                insert_bucket(&mut self.buckets, pointer.big, indices);
                proof {
                    assert(self.held() =~= old(self).held());
                    assert(self@ =~= old(self)@.remove(ptr));
                }
                return None;
            },
        };
        proof {
            b0.0.index_of_first(pointer.small);
            assert(b0.0.index_of(pointer.small) == i) by {
                if b0.0.index_of(pointer.small) != i as int {
                    assert(b0.0[b0.0.index_of(pointer.small)] == b0.0[i as int]);
                }
            }
        }
        let allocation_idx = indices.allocation_indices[i];
        indices.small_ptr_parts.swap_remove(i);
        indices.allocation_indices.swap_remove(i);
        let ghost b1 = bucket_view(indices);
        if indices.allocation_indices.len() > 0 {
            insert_bucket(&mut self.buckets, pointer.big, indices);
        }
        proof {
            Self::lemma_swap_remove_distinct(b0.0, i as int);
            assert forall|p: u64| p != ptr implies
                (#[trigger] table_holds(self.held(), p) <==> table_holds(old(self).held(), p))
                && (table_holds(self.held(), p) ==> self@[p] == old(self)@[p]) by {
                if p / PAGE_SIZE == ptr / PAGE_SIZE {
                    assert(p % PAGE_SIZE != ptr % PAGE_SIZE) by {
                        if p % PAGE_SIZE == ptr % PAGE_SIZE {
                            lemma_split_injective(p, ptr);
                        }
                    }
                    Self::lemma_swap_remove_lookup(b0, b1, i as int, (p % PAGE_SIZE) as u16);
                }
            }
            assert(!table_holds(self.held(), ptr)) by {
                if b1.0.len() > 0 {
                    Self::lemma_swap_remove_lookup(b0, b1, i as int, pointer.small);
                }
            }
            assert(self@ =~= old(self)@.remove(ptr));
        }
        Some(allocation_idx)
    }

    /// Appending or overwriting the entry of one offset leaves another offset's
    /// entry as it was.
    proof fn lemma_other_offset(b0: (Seq<u16>, Seq<usize>), b1: (Seq<u16>, Seq<usize>), p: u64, ptr: u64)
        requires
            b0.0.len() == b0.1.len(),
            b1.0.len() == b1.1.len(),
            p % PAGE_SIZE != ptr % PAGE_SIZE,
            b1.0.no_duplicates(),
            b0.0.contains((ptr % PAGE_SIZE) as u16) ==> b1.0 == b0.0 && b1.1.len() == b0.1.len()
                && forall|j: int| 0 <= j < b0.1.len() && b0.0[j] != (ptr % PAGE_SIZE) as u16
                    ==> b1.1[j] == b0.1[j],
            !b0.0.contains((ptr % PAGE_SIZE) as u16) ==> b1.0 == b0.0.push((ptr % PAGE_SIZE) as u16)
                && b1.1.subrange(0, b0.1.len() as int) == b0.1,
        ensures
            b1.0.contains((p % PAGE_SIZE) as u16) <==> b0.0.contains((p % PAGE_SIZE) as u16),
            b1.0.contains((p % PAGE_SIZE) as u16) ==> b1.1[b1.0.index_of((p % PAGE_SIZE) as u16)]
                == b0.1[b0.0.index_of((p % PAGE_SIZE) as u16)],
    {
        let s = (p % PAGE_SIZE) as u16;
        assert(s != (ptr % PAGE_SIZE) as u16);
        if b0.0.contains(s) {
            b0.0.index_of_first(s);
            let k = b0.0.index_of(s);
            assert(b1.0[k] == s);
            assert(b1.0.contains(s));
            b1.0.index_of_first(s);
            assert(b1.0.index_of(s) == k) by {
                if b1.0.index_of(s) != k {
                    assert(b1.0[b1.0.index_of(s)] == b1.0[k]);
                }
            }
            if !b0.0.contains((ptr % PAGE_SIZE) as u16) {
                assert(b1.1[k] == b1.1.subrange(0, b0.1.len() as int)[k]);
            }
        } else if b1.0.contains(s) {
            let k = choose|k: int| 0 <= k < b1.0.len() && b1.0[k] == s;
            if k < b0.0.len() {
                assert(b0.0[k] == s);
            }
        }
    }

    /// Removing one entry by swapping in the last keeps the entries distinct.
    proof fn lemma_swap_remove_distinct(s: Seq<u16>, i: int)
        requires
            0 <= i < s.len(),
            s.no_duplicates(),
        ensures
            s.update(i, s.last()).drop_last().no_duplicates(),
            !s.update(i, s.last()).drop_last().contains(s[i]),
    {
        let t = s.update(i, s.last()).drop_last();
        assert forall|a: int, b: int| 0 <= a < t.len() && 0 <= b < t.len() && a != b implies t[a]
            != t[b] by {
            let ia = if a == i { s.len() - 1 } else { a };
            let ib = if b == i { s.len() - 1 } else { b };
            assert(t[a] == s[ia] && t[b] == s[ib]);
        }
        if t.contains(s[i]) {
            let k = choose|k: int| 0 <= k < t.len() && t[k] == s[i];
            let ik = if k == i { s.len() - 1 } else { k };
            assert(t[k] == s[ik]);
        }
    }

    /// After a swap-remove at `i`, each other offset keeps its entry.
    proof fn lemma_swap_remove_lookup(b0: (Seq<u16>, Seq<usize>), b1: (Seq<u16>, Seq<usize>), i: int, s: u16)
        requires
            b0.0.len() == b0.1.len(),
            0 <= i < b0.0.len(),
            b0.0.no_duplicates(),
            b1.0 == b0.0.update(i, b0.0.last()).drop_last(),
            b1.1 == b0.1.update(i, b0.1.last()).drop_last(),
        ensures
            s != b0.0[i] ==> (b1.0.contains(s) <==> b0.0.contains(s)),
            s != b0.0[i] && b1.0.contains(s) ==> b1.1[b1.0.index_of(s)] == b0.1[b0.0.index_of(s)],
            !b1.0.contains(b0.0[i]),
    {
        Self::lemma_swap_remove_distinct(b0.0, i);
        if s != b0.0[i] && b0.0.contains(s) {
            b0.0.index_of_first(s);
            let k = b0.0.index_of(s);
            assert(k != i);
            let k1 = if k == b0.0.len() - 1 { i } else { k };
            assert(b1.0[k1] == s);
            assert(b1.0.contains(s));
            b1.0.index_of_first(s);
            assert(b1.0.index_of(s) == k1) by {
                if b1.0.index_of(s) != k1 {
                    assert(b1.0[b1.0.index_of(s)] == b1.0[k1]);
                }
            }
        } else if s != b0.0[i] && b1.0.contains(s) {
            let k = choose|k: int| 0 <= k < b1.0.len() && b1.0[k] == s;
            let k0 = if k == i { b0.0.len() - 1 } else { k };
            assert(b0.0[k0] == s);
        }
    }
}

} // verus!
