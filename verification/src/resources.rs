use vstd::prelude::*;

verus! {

/// Hands out opaque numeric handles for values, so that an embedding can
/// refer to a live machine without holding it.
pub struct ResourceManager<T> {
    pub resources: Vec<(u32, T)>,
}

/// The handles currently given out, in insertion order.
pub open spec fn rm_ids<T>(rm: ResourceManager<T>) -> Seq<u32> {
    rm.resources@.map_values(|p: (u32, T)| p.0)
}

/// No handle is given out twice.
pub open spec fn rm_wf<T>(rm: ResourceManager<T>) -> bool {
    forall|i: int, j: int|
        0 <= i < j < rm_ids(rm).len() ==> rm_ids(rm)[i] != rm_ids(rm)[j]
}

/// Relies on `rand::random`: some value of the asked-for type comes back;
/// nothing more is promised of it. The thread-local generator behind it
/// aborts at first use if the operating system's randomness source is
/// unavailable — an environment failure no caller can rule out.
#[verifier::external_body]
fn random_u32() -> u32 {
    rand::random::<u32>()
}

impl<T> ResourceManager<T> {
    /// An empty manager: no handles given out.
    pub fn new() -> (r: Self)
        ensures
            r.resources@.len() == 0,
            rm_wf(r),
    {
        ResourceManager { resources: Vec::new() }
    }

    /// Stores a value under a fresh handle and returns the handle: a random
    /// one when it is free, otherwise the smallest free one.
    pub fn add_resource(&mut self, resource: T) -> (id: u32)
        requires
            rm_wf(*old(self)),
            old(self).resources@.len() < u32::MAX as int,
        ensures
            rm_wf(*final(self)),
            !rm_ids(*old(self)).contains(id),
            final(self).resources@ == old(self).resources@.push((id, resource)),
    {
        let candidate = random_u32();
        let id = if !self.contains_id(candidate) {
            candidate
        } else {
            self.smallest_free_id()
        };
        let ghost ids_old = rm_ids(*self);
        self.resources.push((id, resource));
        proof {
            assert(rm_ids(*self) =~= ids_old.push(id));
            assert forall|i: int, j: int|
                0 <= i < j < rm_ids(*self).len() implies rm_ids(*self)[i] != rm_ids(*self)[j] by {
                if j == rm_ids(*self).len() - 1 {
                    assert(rm_ids(*self)[i] == ids_old[i]);
                    if ids_old[i] == id {
                        assert(ids_old.contains(id));
                    }
                }
            }
        }
        id
    }

    /// Whether some value is stored under this handle.
    fn contains_id(&self, id: u32) -> (r: bool)
        ensures
            r == rm_ids(*self).contains(id),
    {
        let n = self.resources.len();
        let mut i: usize = 0;
        while i < n
            invariant
                i <= n,
                n == self.resources@.len(),
                forall|j: int| 0 <= j < i ==> (#[trigger] self.resources@[j]).0 != id,
            decreases n - i,
        {
            if self.resources[i].0 == id {
                proof {
                    assert(rm_ids(*self)[i as int] == id);
                }
                return true;
            }
            i = i + 1;
        }
        proof {
            if rm_ids(*self).contains(id) {
                let w = choose|w: int| 0 <= w < rm_ids(*self).len() && rm_ids(*self)[w] == id;
                assert(self.resources@[w].0 == id);
            }
        }
        false
    }

    /// The smallest handle not yet given out; one exists below or at the
    /// number of stored values, since distinct handles cannot crowd a
    /// longer range.
    fn smallest_free_id(&self) -> (id: u32)
        requires
            rm_wf(*self),
            self.resources@.len() < u32::MAX as int,
        ensures
            !rm_ids(*self).contains(id),
    {
        let n = self.resources.len();
        let mut c: u32 = 0;
        while c as u64 <= n as u64
            invariant
                rm_wf(*self),
                n == self.resources@.len(),
                n < u32::MAX as int,
                c as u64 <= n as u64 + 1,
                forall|v: int|
                    0 <= v < c as int ==> rm_ids(*self).contains(#[trigger] (v as u32)),
            decreases n as u64 + 1 - c as u64,
        {
            if !self.contains_id(c) {
                return c;
            }
            c = c + 1;
        }
        proof {
            // Every handle in `[0, n]` is taken: `n + 1` distinct values
            // would then sit among `n` stored handles.
            let ids = rm_ids(*self).map_values(|v: u32| v as int);
            assert forall|v: int| 0 <= v <= n implies ids.contains(v) by {
                assert(rm_ids(*self).contains(v as u32));
                let w = choose|w: int|
                    0 <= w < rm_ids(*self).len() && rm_ids(*self)[w] == v as u32;
                assert(ids[w] == v);
            }
            assert forall|v: int| 0 <= v <= n implies ids.to_set().contains(v) by {
                assert(ids.contains(v));
            }
            assert(ids.no_duplicates()) by {
                assert forall|i: int, j: int|
                    0 <= i < j < ids.len() implies ids[i] != ids[j] by {
                    assert(rm_ids(*self)[i] != rm_ids(*self)[j]);
                }
            }
            ids.unique_seq_to_set();
            vstd::set_lib::lemma_int_range(0, n as int + 1);
            assert(vstd::set_lib::set_int_range(0, n as int + 1).subset_of(ids.to_set()));
            vstd::set_lib::lemma_len_subset(
                vstd::set_lib::set_int_range(0, n as int + 1),
                ids.to_set(),
            );
            assert(false);
        }
        0
    }

    /// The value stored under a handle, if any.
    pub fn get_resource(&self, id: u32) -> (r: Option<&T>)
        ensures
            r is Some <==> rm_ids(*self).contains(id),
            r matches Some(v) ==> exists|i: int|
                0 <= i < self.resources@.len() && (#[trigger] self.resources@[i]) == (id, *v),
    {
        let n = self.resources.len();
        let mut i: usize = 0;
        while i < n
            invariant
                i <= n,
                n == self.resources@.len(),
                forall|j: int| 0 <= j < i ==> (#[trigger] self.resources@[j]).0 != id,
            decreases n - i,
        {
            if self.resources[i].0 == id {
                proof {
                    assert(rm_ids(*self)[i as int] == id);
                }
                return Some(&self.resources[i].1);
            }
            i = i + 1;
        }
        proof {
            if rm_ids(*self).contains(id) {
                let w = choose|w: int| 0 <= w < rm_ids(*self).len() && rm_ids(*self)[w] == id;
                assert(self.resources@[w].0 == id);
            }
        }
        None
    }

    /// Removes and returns the value stored under a handle, if any; every
    /// other entry keeps its place.
    pub fn remove_resource(&mut self, id: u32) -> (r: Option<T>)
        requires
            rm_wf(*old(self)),
        ensures
            rm_wf(*final(self)),
            r is Some <==> rm_ids(*old(self)).contains(id),
            r is None ==> *final(self) == *old(self),
            r is Some ==> exists|i: int|
                0 <= i < old(self).resources@.len() && (#[trigger] old(self).resources@[i]).0 == id
                    && final(self).resources@ == old(self).resources@.remove(i),
    {
        let n = self.resources.len();
        let mut i: usize = 0;
        while i < n
            invariant
                i <= n,
                n == self.resources@.len(),
                rm_wf(*self),
                *self == *old(self),
                forall|j: int| 0 <= j < i ==> (#[trigger] self.resources@[j]).0 != id,
            decreases n - i,
        {
            if self.resources[i].0 == id {
                proof {
                    assert(rm_ids(*old(self))[i as int] == id);
                }
                let entry = self.resources.remove(i);
                proof {
                    let olds = old(self).resources@;
                    assert(self.resources@ == olds.remove(i as int));
                    assert forall|p: int, q: int|
                        0 <= p < q < rm_ids(*self).len() implies rm_ids(*self)[p] != rm_ids(
                        *self,
                    )[q] by {
                        let pp = if p < i { p } else { p + 1 };
                        let qq = if q < i { q } else { q + 1 };
                        assert(self.resources@[p] == olds[pp]);
                        assert(self.resources@[q] == olds[qq]);
                        assert(rm_ids(*old(self))[pp] != rm_ids(*old(self))[qq]);
                    }
                }
                return Some(entry.1);
            }
            i = i + 1;
        }
        proof {
            if rm_ids(*old(self)).contains(id) {
                let w = choose|w: int|
                    0 <= w < rm_ids(*old(self)).len() && rm_ids(*old(self))[w] == id;
                assert(self.resources@[w].0 == id);
            }
        }
        None
    }
}

} // verus!
