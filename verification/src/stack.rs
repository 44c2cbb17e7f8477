//! Lock-free-style descriptor stacks.
//!
//! Empty superblocks are found through a global free list, and partially
//! used superblocks through one partial list per size class. Both are
//! Treiber stacks of descriptor indices: the top is the only mutated
//! location, and it carries a monotonically advancing generation tag so that
//! a compare-and-swap on the (top, generation) pair cannot mistake a stack
//! whose top was popped and pushed back for an unchanged one. Descriptors
//! are named by index into the fixed descriptor table, never by address, so
//! membership moves between the named collections and nothing aliases.

use vstd::prelude::*;

verus! {

/// The global stack of empty superblocks' descriptor indices.
pub struct SuperBlockFreeList {
    entries: Vec<usize>,
    generation: u64,
}

/// A per-size-class stack of partially used superblocks' descriptor indices.
pub struct PartialList {
    entries: Vec<usize>,
    generation: u64,
}

impl SuperBlockFreeList {
    /// The stack's contents, bottom first; the last element is the top.
    pub closed spec fn entries(&self) -> Seq<usize> {
        self.entries@
    }

    /// The ABA generation tag.
    pub closed spec fn generation(&self) -> u64 {
        self.generation
    }

    /// An empty free list.
    pub fn new() -> (r: SuperBlockFreeList)
        ensures
            r.entries() == Seq::<usize>::empty(),
    {
        SuperBlockFreeList { entries: Vec::new(), generation: 0 }
    }

    /// Push a descriptor index on top of the stack.
    pub fn push(&mut self, d: usize)
        ensures
            final(self).entries() == old(self).entries().push(d),
            final(self).generation()
                == ((old(self).generation() + 1) % 0x1_0000_0000_0000_0000) as u64,
    {
        self.entries.push(d);
        self.generation = self.generation.wrapping_add(1);
    }

    /// Pop the top descriptor index; `None` exactly when the stack is empty.
    pub fn pop(&mut self) -> (r: Option<usize>)
        ensures
            old(self).entries().len() == 0 ==> r is None
                && final(self).entries() == old(self).entries(),
            old(self).entries().len() > 0 ==> r == Some(old(self).entries().last())
                && final(self).entries() == old(self).entries().drop_last()
                && final(self).generation()
                    == ((old(self).generation() + 1) % 0x1_0000_0000_0000_0000) as u64,
    {
        let r = self.entries.pop();
        if r.is_some() {
            self.generation = self.generation.wrapping_add(1);
        }
        r
    }

    /// Number of descriptors on the stack.
    pub fn len(&self) -> (r: usize)
        ensures
            r == self.entries().len(),
    {
        self.entries.len()
    }
}

impl PartialList {
    /// The stack's contents, bottom first; the last element is the top.
    pub closed spec fn entries(&self) -> Seq<usize> {
        self.entries@
    }

    /// The ABA generation tag.
    pub closed spec fn generation(&self) -> u64 {
        self.generation
    }

    /// An empty partial list.
    pub fn new() -> (r: PartialList)
        ensures
            r.entries() == Seq::<usize>::empty(),
    {
        PartialList { entries: Vec::new(), generation: 0 }
    }

    /// Push a descriptor index on top of the stack.
    pub fn push(&mut self, d: usize)
        ensures
            final(self).entries() == old(self).entries().push(d),
            final(self).generation()
                == ((old(self).generation() + 1) % 0x1_0000_0000_0000_0000) as u64,
    {
        self.entries.push(d);
        self.generation = self.generation.wrapping_add(1);
    }

    /// Pop the top descriptor index; `None` exactly when the stack is empty.
    pub fn pop(&mut self) -> (r: Option<usize>)
        ensures
            old(self).entries().len() == 0 ==> r is None
                && final(self).entries() == old(self).entries(),
            old(self).entries().len() > 0 ==> r == Some(old(self).entries().last())
                && final(self).entries() == old(self).entries().drop_last()
                && final(self).generation()
                    == ((old(self).generation() + 1) % 0x1_0000_0000_0000_0000) as u64,
    {
        let r = self.entries.pop();
        if r.is_some() {
            self.generation = self.generation.wrapping_add(1);
        }
        r
    }

    /// Number of descriptors on the stack.
    pub fn len(&self) -> (r: usize)
        ensures
            r == self.entries().len(),
    {
        self.entries.len()
    }

    /// Unlink the first occurrence of a descriptor index, wherever it sits
    /// in the stack; a no-op when the index is absent. Deallocation uses
    /// this when a partially used superblock becomes entirely empty and must
    /// move to the global free list.
    pub fn remove(&mut self, d: usize)
        ensures
            final(self).entries() == old(self).entries().remove_value(d),
    {
        let ghost entries0 = self.entries@;
        let n = self.entries.len();
        let mut k: usize = 0;
        while k < n
            invariant
                n == entries0.len(),
                entries0 == old(self).entries(),
                self.entries@ == entries0,
                0 <= k <= n,
                forall|j: int| 0 <= j < k ==> entries0[j] != d,
            decreases n - k,
        {
            if self.entries[k] == d {
                self.entries.remove(k);
                self.generation = self.generation.wrapping_add(1);
                proof {
                    entries0.index_of_first_ensures(d);
                    assert(entries0.index_of_first(d) == Some(k as int));
                    assert(self.entries@ == entries0.remove(k as int));
                    assert(entries0.remove_value(d) == entries0.remove(k as int));
                }
                return ;
            }
            k = k + 1;
        }
        proof {
            entries0.index_of_first_ensures(d);
            assert(!entries0.contains(d));
        }
    }
}

/// What unlinking a value does to a duplicate-free stack: the value is
/// gone, everything else is kept, and no duplicates appear.
pub proof fn lemma_remove_value_props(s: Seq<usize>, d: usize)
    requires
        s.no_duplicates(),
    ensures
        s.remove_value(d).no_duplicates(),
        !s.remove_value(d).contains(d),
        forall|x: usize| x != d ==> (s.remove_value(d).contains(x) == s.contains(x)),
        s.contains(d) ==> s.remove_value(d).len() == s.len() - 1,
        !s.contains(d) ==> s.remove_value(d) == s,
{
    s.index_of_first_ensures(d);
    let r = s.remove_value(d);
    match s.index_of_first(d) {
        Some(k) => {
            assert(r =~= s.subrange(0, k) + s.subrange(k + 1, s.len() as int));
            assert forall|x: usize| x != d implies (r.contains(x) == s.contains(x)) by {
                if s.contains(x) {
                    let j = choose|j: int| 0 <= j < s.len() && s[j] == x;
                    if j < k {
                        assert(r[j] == x);
                    } else {
                        assert(j != k);
                        assert(r[j - 1] == x);
                    }
                }
                if r.contains(x) {
                    let j = choose|j: int| 0 <= j < r.len() && r[j] == x;
                    if j < k {
                        assert(s[j] == x);
                    } else {
                        assert(s[j + 1] == x);
                    }
                }
            }
            assert forall|i: int, j: int| 0 <= i < j < r.len() implies r[i] != r[j] by {
                let si = if i < k { i } else { i + 1 };
                let sj = if j < k { j } else { j + 1 };
                assert(r[i] == s[si] && r[j] == s[sj]);
            }
            if r.contains(d) {
                let j = choose|j: int| 0 <= j < r.len() && r[j] == d;
                if j < k {
                    assert(s[j] == d);
                } else {
                    assert(s[j + 1] == d);
                }
            }
        },
        None => {},
    }
}

} // verus!
