use vstd::prelude::*;

use crate::scan::{bytes_eq, copy_range};

verus! {

/// The value stored under key `k` by the entry list `s`, where a later entry
/// for the same key overrides an earlier one.
pub open spec fn entries_get(s: Seq<(Vec<u8>, Vec<u8>)>, k: Seq<u8>) -> Option<Seq<u8>>
    decreases s.len(),
{
    if s.len() == 0 {
        None
    } else if s.last().0@ == k {
        Some(s.last().1@)
    } else {
        entries_get(s.drop_last(), k)
    }
}

/// The header mapping: field names to field values, both as bytes.  Writing a
/// key that is already present overwrites its value.
pub struct Metadata {
    entries: Vec<(Vec<u8>, Vec<u8>)>,
}

impl View for Metadata {
    type V = Map<Seq<u8>, Seq<u8>>;

    closed spec fn view(&self) -> Map<Seq<u8>, Seq<u8>> {
        Map::new(
            |k: Seq<u8>| entries_get(self.entries@, k) is Some,
            |k: Seq<u8>| entries_get(self.entries@, k).unwrap(),
        )
    }
}

impl Metadata {
    pub fn new() -> (r: Metadata)
        ensures
            r@ == Map::<Seq<u8>, Seq<u8>>::empty(),
    {
        let r = Metadata { entries: Vec::new() };
        proof {
            assert(r@ =~= Map::<Seq<u8>, Seq<u8>>::empty());
        }
        r
    }

    /// Stores `v` under `k`; an earlier value under `k` is overwritten.
    pub fn insert(&mut self, k: Vec<u8>, v: Vec<u8>)
        ensures
            final(self)@ == old(self)@.insert(k@, v@),
    {
        let ghost s0 = self.entries@;
        let ghost kv = k@;
        let ghost vv = v@;
        self.entries.push((k, v));
        proof {
            let s1 = self.entries@;
            assert(s1.last().0@ == kv && s1.last().1@ == vv);
            assert(s1.drop_last() =~= s0);
            assert forall|q: Seq<u8>| true implies entries_get(s1, q) == (if q == kv {
                Some(vv)
            } else {
                entries_get(s0, q)
            }) by {
                assert(entries_get(s1, q) == (if s1.last().0@ == q {
                    Some(s1.last().1@)
                } else {
                    entries_get(s1.drop_last(), q)
                }));
            }
            assert(self@ =~= old(self)@.insert(kv, vv));
        }
    }

    /// Whether some value is stored under `k`.
    pub fn contains_key(&self, k: &[u8]) -> (r: bool)
        ensures
            r == self@.contains_key(k@),
    {
        self.get(k).is_some()
    }

    /// The value stored under `k`, if any.
    pub fn get(&self, k: &[u8]) -> (r: Option<&Vec<u8>>)
        ensures
            match r {
                Some(v) => self@.contains_key(k@) && v@ == self@[k@],
                None => !self@.contains_key(k@),
            },
    {
        let n = self.entries.len();
        proof {
            assert(self.entries@.subrange(0, n as int) =~= self.entries@);
        }
        let mut i: usize = n;
        while i > 0
            invariant
                i <= n == self.entries@.len(),
                entries_get(self.entries@, k@) == entries_get(
                    self.entries@.subrange(0, i as int),
                    k@,
                ),
            decreases i,
        {
            let e = &self.entries[i - 1];
            if bytes_eq(e.0.as_slice(), k) {
                proof {
                    let t = self.entries@.subrange(0, i as int);
                    assert(t.last() == self.entries@[i - 1]);
                    assert(entries_get(self.entries@, k@) == Some(e.1@));
                }
                return Some(&e.1);
            }
            proof {
                let t = self.entries@.subrange(0, i as int);
                assert(t.last() == self.entries@[i - 1]);
                assert(t.drop_last() =~= self.entries@.subrange(0, i - 1));
            }
            i = i - 1;
        }
        proof {
            assert(self.entries@.subrange(0, 0) =~= Seq::<(Vec<u8>, Vec<u8>)>::empty());
            assert(entries_get(self.entries@, k@) is None);
        }
        None
    }

    /// The stored field names, one entry per distinct key: every handed-out
    /// key is mapped, every mapped key is handed out, and no key repeats.
    pub fn keys(&self) -> (r: Vec<Vec<u8>>)
        ensures
            forall|a: int| 0 <= a < r@.len() ==> self@.contains_key(#[trigger] r@[a]@),
            forall|k: Seq<u8>|
                self@.contains_key(k) ==> exists|a: int|
                    0 <= a < r@.len() && (#[trigger] r@[a])@ == k,
            forall|a: int, b: int| 0 <= a < b < r@.len() ==> r@[a]@ != r@[b]@,
    {
        let ghost s = self.entries@;
        let n = self.entries.len();
        let mut out: Vec<Vec<u8>> = Vec::new();
        // ghost bookkeeping: which entry each handed-out key came from, and
        // where the key of each retained entry went
        let ghost mut src: Seq<int> = Seq::empty();
        let ghost mut pos: Map<int, int> = Map::empty();
        let mut i: usize = 0;
        while i < n
            invariant
                i <= n == s.len(),
                s == self.entries@,
                src.len() == out@.len(),
                forall|a: int|
                    0 <= a < out@.len() ==> 0 <= #[trigger] src[a] < i && last_occurrence(
                        s,
                        src[a],
                    ) && out@[a]@ == s[src[a]].0@,
                forall|a: int, b: int| 0 <= a < b < src.len() ==> src[a] < src[b],
                forall|e: int|
                    0 <= e < i && #[trigger] last_occurrence(s, e) ==> pos.contains_key(e) && 0
                        <= pos[e] < out@.len() && out@[pos[e]]@ == s[e].0@,
            decreases n - i,
        {
            let e = &self.entries[i];
            let mut last = true;
            let mut j: usize = i + 1;
            while j < n
                invariant
                    i < j <= n == s.len(),
                    s == self.entries@,
                    e.0@ == s[i as int].0@,
                    last ==> forall|q: int| i < q < j ==> (#[trigger] s[q].0@) != s[i as int].0@,
                    !last ==> !last_occurrence(s, i as int),
                decreases n - j,
            {
                if bytes_eq(self.entries[j].0.as_slice(), e.0.as_slice()) {
                    last = false;
                    proof {
                        assert(s[j as int].0@ == s[i as int].0@);
                        assert(!last_occurrence(s, i as int));
                    }
                    j = n;
                } else {
                    proof {
                        assert(s[j as int].0@ != s[i as int].0@);
                    }
                    j = j + 1;
                }
            }
            if last {
                let key = copy_range(e.0.as_slice(), 0, e.0.len());
                proof {
                    assert(key@ =~= s[i as int].0@);
                    assert(last_occurrence(s, i as int));
                    pos = pos.insert(i as int, out@.len() as int);
                    src = src.push(i as int);
                }
                out.push(key);
            }
            i = i + 1;
        }
        proof {
            assert forall|a: int| 0 <= a < out@.len() implies self@.contains_key(
                #[trigger] out@[a]@,
            ) by {
                lemma_entries_get_at(s, src[a], s[src[a]].0@);
            }
            assert forall|k: Seq<u8>| self@.contains_key(k) implies exists|a: int|
                0 <= a < out@.len() && (#[trigger] out@[a])@ == k by {
                lemma_entries_get_last_occurrence(s, k);
                let e = choose|e: int|
                    0 <= e < s.len() && (#[trigger] s[e].0@) == k && last_occurrence(s, e);
                assert(0 <= pos[e] < out@.len() && (#[trigger] out@[pos[e]])@ == k);
            }
            assert forall|a: int, b: int| 0 <= a < b < out@.len() implies out@[a]@
                != out@[b]@ by {
                assert(src[a] < src[b] < s.len());
                assert(last_occurrence(s, src[a]));
                if out@[a]@ == out@[b]@ {
                    assert(s[src[b]].0@ == s[src[a]].0@);
                }
            }
        }
        out
    }
}

/// Whether no later entry writes the same key as entry `i`.
pub open spec fn last_occurrence(s: Seq<(Vec<u8>, Vec<u8>)>, i: int) -> bool {
    forall|j: int| i < j < s.len() ==> (#[trigger] s[j].0@) != s[i].0@
}

/// An entry that no later entry overwrites is the one whose value the list
/// stores under its key.
pub proof fn lemma_entries_get_at(s: Seq<(Vec<u8>, Vec<u8>)>, i: int, k: Seq<u8>)
    requires
        0 <= i < s.len(),
        s[i].0@ == k,
        forall|j: int| i < j < s.len() ==> (#[trigger] s[j].0@) != k,
    ensures
        entries_get(s, k) == Some(s[i].1@),
    decreases s.len(),
{
    if i == s.len() - 1 {
        assert(s.last() == s[i]);
    } else {
        assert(s.last().0@ != k);
        assert(s.drop_last()[i] == s[i]);
        lemma_entries_get_at(s.drop_last(), i, k);
    }
}

/// Every stored key has a last entry that wrote it.
pub proof fn lemma_entries_get_last_occurrence(s: Seq<(Vec<u8>, Vec<u8>)>, k: Seq<u8>)
    requires
        entries_get(s, k) is Some,
    ensures
        exists|i: int| 0 <= i < s.len() && (#[trigger] s[i].0@) == k && last_occurrence(s, i),
    decreases s.len(),
{
    if s.len() > 0 {
        if s.last().0@ == k {
            assert(s[s.len() - 1].0@ == k && last_occurrence(s, s.len() - 1));
        } else {
            lemma_entries_get_last_occurrence(s.drop_last(), k);
            let i = choose|i: int|
                0 <= i < s.drop_last().len() && (#[trigger] s.drop_last()[i].0@) == k
                    && last_occurrence(s.drop_last(), i);
            assert(s[i] == s.drop_last()[i]);
            assert forall|j: int| i < j < s.len() implies (#[trigger] s[j].0@) != s[i].0@ by {
                if j < s.len() - 1 {
                    assert(s.drop_last()[j] == s[j]);
                }
            }
            assert(s[i].0@ == k && last_occurrence(s, i));
        }
    }
}

} // verus!
