//! Object rollups: per-object accumulation of record effective sizes, grouped
//! by the segment the records were placed in.

use vstd::prelude::*;
use vstd::string::StringExecFns;

use crate::fill::{add_sizes, sat_add};
use crate::lex::str_eq;

verus! {

/// Index of the first pair whose key reads `key`, or `-1`.
pub open spec fn key_index(m: Seq<(String, u64)>, key: Seq<char>) -> int
    decreases m.len(),
{
    if m.len() == 0 {
        -1
    } else if m[0].0@ == key {
        0
    } else {
        let r = key_index(m.drop_first(), key);
        if r < 0 {
            -1
        } else {
            r + 1
        }
    }
}

/// The size stored under `key`, if any.
pub open spec fn spec_lookup(m: Seq<(String, u64)>, key: Seq<char>) -> Option<u64> {
    let i = key_index(m, key);
    if i < 0 {
        None
    } else {
        Some(m[i].1)
    }
}

/// Sum of all stored sizes, capped at the largest representable value.
pub open spec fn spec_total(m: Seq<(String, u64)>) -> u64
    decreases m.len(),
{
    if m.len() == 0 {
        0
    } else {
        sat_add(spec_total(m.drop_last()), m.last().1)
    }
}

pub proof fn lemma_key_index_props(m: Seq<(String, u64)>, key: Seq<char>)
    ensures
        -1 <= key_index(m, key) < m.len(),
        key_index(m, key) >= 0 ==> m[key_index(m, key)].0@ == key,
        key_index(m, key) == -1 ==> forall|j: int| 0 <= j < m.len() ==> (#[trigger] m[j]).0@ != key,
    decreases m.len(),
{
    if m.len() > 0 && m[0].0@ != key {
        lemma_key_index_props(m.drop_first(), key);
        assert forall|j: int|
            key_index(m, key) == -1 && 0 <= j < m.len() implies (#[trigger] m[j]).0@ != key by {
            if j > 0 {
                assert(m.drop_first()[j - 1] == m[j]);
            }
        }
    }
}

/// A scan that saw no key before position `k` and a matching key at `k` (or
/// ran off the end) has found `key_index`.
pub proof fn lemma_key_index_at(m: Seq<(String, u64)>, key: Seq<char>, k: int)
    requires
        0 <= k <= m.len(),
        forall|j: int| 0 <= j < k ==> (#[trigger] m[j]).0@ != key,
        k == m.len() || m[k].0@ == key,
    ensures
        key_index(m, key) == if k == m.len() {
            -1int
        } else {
            k
        },
    decreases k,
{
    if k == 0 {
        if m.len() > 0 && m[0].0@ != key {
            lemma_key_index_props(m, key);
        }
    } else {
        lemma_key_index_at(m.drop_first(), key, k - 1);
    }
}

proof fn lemma_key_index_push_absent(m: Seq<(String, u64)>, p: (String, u64), key: Seq<char>)
    requires
        key_index(m, key) == -1,
        p.0@ == key,
    ensures
        key_index(m.push(p), key) == m.len(),
    decreases m.len(),
{
    if m.len() == 0 {
        assert(m.push(p)[0] == p);
    } else {
        assert(m.push(p).drop_first() =~= m.drop_first().push(p));
        lemma_key_index_push_absent(m.drop_first(), p, key);
    }
}

proof fn lemma_lookup_update(m: Seq<(String, u64)>, i: int, x: u64)
    requires
        0 <= i < m.len(),
        key_index(m, m[i].0@) == i,
    ensures
        spec_lookup(m.update(i, (m[i].0, x)), m[i].0@) == Some(x),
    decreases i,
{
    let key = m[i].0@;
    let u = m.update(i, (m[i].0, x));
    if i == 0 {
        assert(u[0].0@ == key);
    } else {
        assert(u.drop_first() =~= m.drop_first().update(i - 1, (m[i].0, x)));
        assert(m.drop_first()[i - 1] == m[i]);
        lemma_lookup_update(m.drop_first(), i - 1, x);
        assert(u[0].0@ != key);
        let ud = u.drop_first();
        let r = key_index(ud, key);
        lemma_key_index_props(ud, key);
        assert(r >= 0 && ud[r].1 == x);
        assert(key_index(u, key) == r + 1);
        assert(u[r + 1] == ud[r]);
    }
}

/// Object rollup aggregation: storing a first size `s1` under a segment name
/// not yet present, then accumulating `s2` under the same name, leaves that
/// name mapped to the sum of the two sizes.
pub proof fn lemma_rollup_accumulates(m: Seq<(String, u64)>, n: String, s1: u64, s2: u64)
    requires
        key_index(m, n@) == -1,
    ensures
        ({
            let m1 = m.push((n, s1));
            let i = key_index(m1, n@);
            &&& i == m.len()
            &&& spec_lookup(m1.update(i, (m1[i].0, sat_add(m1[i].1, s2))), n@) == Some(
                sat_add(s1, s2),
            )
        }),
{
    let m1 = m.push((n, s1));
    lemma_key_index_push_absent(m, (n, s1), n@);
    let i = key_index(m1, n@);
    assert(m1[i] == (n, s1));
    lemma_lookup_update(m1, i, sat_add(s1, s2));
}

/// Rollup of one object: the sum of record effective sizes it contributed,
/// keyed by segment name, with the keys unique.
pub struct Object {
    /// Object file name.
    pub name: String,
    /// Accumulated size per segment name, in first-seen order.
    pub segment_size: Vec<(String, u64)>,
}

impl Object {
    /// Key uniqueness: each segment name is stored at most once.
    pub open spec fn wf(&self) -> bool {
        forall|i: int, j: int|
            0 <= i < j < self.segment_size@.len() ==> (#[trigger] self.segment_size@[i]).0@ != (
            #[trigger] self.segment_size@[j]).0@
    }

    /// Creates an empty rollup for one object name.
    pub fn new(name: &str) -> (r: Object)
        ensures
            r.name@ == name@,
            r.segment_size@ == Seq::<(String, u64)>::empty(),
            r.wf(),
    {
        Object { name: String::from_str(name), segment_size: Vec::new() }
    }

    pub fn get_name(&self) -> (r: &str)
        ensures
            r@ == self.name@,
    {
        self.name.as_str()
    }

    /// Sum of the accumulated sizes over all segments.
    pub fn get_total_size(&self) -> (r: u64)
        ensures
            r == spec_total(self.segment_size@),
    {
        let n = self.segment_size.len();
        let mut acc: u64 = 0;
        let mut i: usize = 0;
        while i < n
            invariant
                i <= n == self.segment_size@.len(),
                acc == spec_total(self.segment_size@.take(i as int)),
            decreases n - i,
        {
            proof {
                let m = self.segment_size@;
                assert(m.take(i + 1).drop_last() =~= m.take(i as int));
                assert(m.take(i + 1).last() == m[i as int]);
            }
            acc = add_sizes(acc, self.segment_size[i].1);
            i = i + 1;
        }
        proof {
            assert(self.segment_size@.take(n as int) =~= self.segment_size@);
        }
        acc
    }

    /// Accumulates `size` under `name`: an existing key's value grows by
    /// `size`, a new key is appended with `size`.
    pub fn update_segment_size(&mut self, name: &str, size: u64)
        ensures
            final(self).name == old(self).name,
            ({
                let m = old(self).segment_size@;
                let i = key_index(m, name@);
                if i >= 0 {
                    final(self).segment_size@ == m.update(i, (m[i].0, sat_add(m[i].1, size)))
                } else {
                    &&& final(self).segment_size@.len() == m.len() + 1
                    &&& final(self).segment_size@.take(m.len() as int) == m
                    &&& final(self).segment_size@.last().0@ == name@
                    &&& final(self).segment_size@.last().1 == size
                }
            }),
            old(self).wf() ==> final(self).wf(),
    {
        let ghost m = self.segment_size@;
        let n = self.segment_size.len();
        let mut i: usize = 0;
        while i < n
            invariant
                i <= n == m.len(),
                *self == *old(self),
                m == self.segment_size@,
                forall|j: int| 0 <= j < i ==> (#[trigger] m[j]).0@ != name@,
            decreases n - i,
        {
            if str_eq(self.segment_size[i].0.as_str(), name) {
                proof {
                    lemma_key_index_at(m, name@, i as int);
                }
                let key = self.segment_size[i].0.clone();
                let val = self.segment_size[i].1;
                let grown = add_sizes(val, size);
                self.segment_size.remove(i);
                self.segment_size.insert(i, (key, grown));
                proof {
                    assert(self.segment_size@ =~= m.update(i as int, (m[i as int].0, sat_add(
                        m[i as int].1,
                        size,
                    ))));
                    assert forall|a: int, b: int|
                        old(self).wf() && 0 <= a < b < self.segment_size@.len() implies (
                        #[trigger] self.segment_size@[a]).0@ != (
                        #[trigger] self.segment_size@[b]).0@ by {
                        assert(self.segment_size@[a].0@ == m[a].0@);
                        assert(self.segment_size@[b].0@ == m[b].0@);
                    }
                }
                return ;
            }
            i = i + 1;
        }
        proof {
            lemma_key_index_at(m, name@, n as int);
        }
        self.segment_size.push((String::from_str(name), size));
        proof {
            assert(self.segment_size@.take(m.len() as int) =~= m);
            assert forall|a: int, b: int|
                old(self).wf() && 0 <= a < b < self.segment_size@.len() implies (
                #[trigger] self.segment_size@[a]).0@ != (#[trigger] self.segment_size@[b]).0@ by {
                if b < m.len() {
                    assert(self.segment_size@[a] == m[a] && self.segment_size@[b] == m[b]);
                } else {
                    assert(self.segment_size@[a] == m[a]);
                    assert(self.segment_size@[b].0@ == name@);
                }
            }
        }
    }

    /// The accumulated size for one segment name, if present.
    pub fn get_segment_size(&self, name: &str) -> (r: Option<u64>)
        ensures
            r == spec_lookup(self.segment_size@, name@),
    {
        let ghost m = self.segment_size@;
        let n = self.segment_size.len();
        let mut i: usize = 0;
        while i < n
            invariant
                i <= n == m.len(),
                m == self.segment_size@,
                forall|j: int| 0 <= j < i ==> (#[trigger] m[j]).0@ != name@,
            decreases n - i,
        {
            if str_eq(self.segment_size[i].0.as_str(), name) {
                proof {
                    lemma_key_index_at(m, name@, i as int);
                }
                return Some(self.segment_size[i].1);
            }
            i = i + 1;
        }
        proof {
            lemma_key_index_at(m, name@, n as int);
        }
        None
    }

    /// All segment names with an accumulated size, in first-seen order.
    pub fn get_all_segments(&self) -> (r: Vec<&str>)
        ensures
            r@.len() == self.segment_size@.len(),
            forall|k: int| 0 <= k < r@.len() ==> (#[trigger] r@[k])@ == self.segment_size@[k].0@,
    {
        let n = self.segment_size.len();
        let mut r: Vec<&str> = Vec::new();
        let mut i: usize = 0;
        while i < n
            invariant
                i <= n == self.segment_size@.len(),
                r@.len() == i,
                forall|k: int| 0 <= k < i ==> (#[trigger] r@[k])@ == self.segment_size@[k].0@,
            decreases n - i,
        {
            r.push(self.segment_size[i].0.as_str());
            i = i + 1;
        }
        r
    }
}

} // verus!
