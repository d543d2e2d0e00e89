//! The coordination store: a shared file tree, used as an out-of-band
//! rendezvous point, modelled as a whole-file-atomic map from relative
//! paths to contents. Writes append to an internal log; the view is the
//! last-writer-wins map over that log.

use vstd::prelude::*;

use crate::codec::{bytes_eq, copy_bytes};
use crate::errors::GenesisError;

verus! {

/// An in-memory coordination store.
pub struct CoordinationStore {
    entries: Vec<(Vec<u8>, Vec<u8>)>,
}

/// The map a write log denotes: later writes to a path win.
pub open spec fn log_map(s: Seq<(Vec<u8>, Vec<u8>)>) -> Map<Seq<u8>, Seq<u8>>
    decreases s.len(),
{
    if s.len() == 0 {
        Map::empty()
    } else {
        log_map(s.drop_last()).insert(s.last().0@, s.last().1@)
    }
}

/// A path in the log that nothing after position `i` overwrites reads the
/// same through the whole log as through its first `i` entries.
proof fn lemma_log_map_unaffected(s: Seq<(Vec<u8>, Vec<u8>)>, i: int, k: Seq<u8>)
    requires
        0 <= i <= s.len(),
        forall|j: int| i <= j < s.len() ==> (#[trigger] s[j]).0@ != k,
    ensures
        log_map(s).contains_key(k) == log_map(s.take(i)).contains_key(k),
        log_map(s).contains_key(k) ==> log_map(s)[k] == log_map(s.take(i))[k],
    decreases s.len() - i,
{
    if i == s.len() {
        assert(s.take(i) =~= s);
    } else {
        assert(s.drop_last().take(i) =~= s.take(i));
        lemma_log_map_unaffected(s.drop_last(), i, k);
    }
}

/// A key is in the log's map exactly when some entry bears it.
pub proof fn lemma_log_map_contains(s: Seq<(Vec<u8>, Vec<u8>)>, k: Seq<u8>)
    ensures
        log_map(s).contains_key(k) <==> exists|i: int| 0 <= i < s.len() && (#[trigger] s[i]).0@ == k,
    decreases s.len(),
{
    if s.len() > 0 {
        lemma_log_map_contains(s.drop_last(), k);
        if s.last().0@ == k {
            assert(s[s.len() - 1].0@ == k);
        } else {
            if log_map(s).contains_key(k) {
                let i = choose|i: int| 0 <= i < s.drop_last().len() && (#[trigger] s.drop_last()[i]).0@ == k;
                assert(s[i].0@ == k);
            }
            if exists|i: int| 0 <= i < s.len() && (#[trigger] s[i]).0@ == k {
                let i = choose|i: int| 0 <= i < s.len() && (#[trigger] s[i]).0@ == k;
                assert(s.drop_last()[i].0@ == k);
            }
        }
    }
}

impl View for CoordinationStore {
    type V = Map<Seq<u8>, Seq<u8>>;

    closed spec fn view(&self) -> Map<Seq<u8>, Seq<u8>> {
        log_map(self.entries@)
    }
}

/// `p` is a prefix of `s`.
pub open spec fn is_prefix(p: Seq<u8>, s: Seq<u8>) -> bool {
    p.len() <= s.len() && s.take(p.len() as int) == p
}

/// Some element of `ss` views as `k`.
pub open spec fn paths_contain(ss: Seq<Vec<u8>>, k: Seq<u8>) -> bool {
    exists|i: int| 0 <= i < ss.len() && (#[trigger] ss[i])@ == k
}

fn has_prefix(s: &Vec<u8>, p: &Vec<u8>) -> (r: bool)
    ensures
        r == is_prefix(p@, s@),
{
    if s.len() < p.len() {
        return false;
    }
    let mut i: usize = 0;
    while i < p.len()
        invariant
            i <= p.len() <= s.len(),
            forall|j: int| 0 <= j < i ==> s@[j] == p@[j],
        decreases p.len() - i,
    {
        if s[i] != p[i] {
            proof {
                assert(s@.take(p@.len() as int)[i as int] != p@[i as int]);
            }
            return false;
        }
        i = i + 1;
    }
    proof {
        assert(s@.take(p@.len() as int) =~= p@);
    }
    true
}

fn contains_path(ss: &Vec<Vec<u8>>, k: &Vec<u8>) -> (r: bool)
    ensures
        r == paths_contain(ss@, k@),
{
    let mut i: usize = 0;
    while i < ss.len()
        invariant
            i <= ss.len(),
            forall|j: int| 0 <= j < i ==> (#[trigger] ss@[j])@ != k@,
        decreases ss.len() - i,
    {
        if bytes_eq(&ss[i], k) {
            return true;
        }
        i = i + 1;
    }
    false
}

impl CoordinationStore {
    /// An empty coordination root.
    pub fn new() -> (s: Self)
        ensures
            s@ == Map::<Seq<u8>, Seq<u8>>::empty(),
    {
        CoordinationStore { entries: Vec::new() }
    }

    /// Whether nothing has been written yet.
    pub fn is_empty(&self) -> (r: bool)
        ensures
            r == (self@ == Map::<Seq<u8>, Seq<u8>>::empty()),
    {
        proof {
            if self.entries@.len() > 0 {
                let k = self.entries@.last().0@;
                lemma_log_map_contains(self.entries@, k);
                assert(self@.contains_key(k));
            }
            assert(self.entries@.len() == 0 ==> self@ =~= Map::<Seq<u8>, Seq<u8>>::empty());
        }
        self.entries.len() == 0
    }

    /// Re-initializes the root: fails with `AlreadyExists` when content is
    /// present and `force` is not set; otherwise leaves the root empty.
    pub fn init(&mut self, force: bool) -> (r: Result<(), GenesisError>)
        ensures
            match r {
                Ok(()) => (old(self)@ == Map::<Seq<u8>, Seq<u8>>::empty() || force)
                    && final(self)@ == Map::<Seq<u8>, Seq<u8>>::empty(),
                Err(e) => e == GenesisError::AlreadyExists
                    && old(self)@ != Map::<Seq<u8>, Seq<u8>>::empty()
                    && !force
                    && final(self)@ == old(self)@,
            },
    {
        if self.is_empty() || force {
            self.entries.clear();
            Ok(())
        } else {
            Err(GenesisError::AlreadyExists)
        }
    }

    /// Creates or overwrites the file at `path`.
    pub fn write(&mut self, path: &Vec<u8>, data: &Vec<u8>)
        ensures
            final(self)@ == old(self)@.insert(path@, data@),
    {
        self.entries.push((copy_bytes(path), copy_bytes(data)));
        proof {
            assert(self.entries@.drop_last() =~= old(self).entries@);
        }
    }

    /// Reads the file at `path`; `None` when the path was never written.
    pub fn read(&self, path: &Vec<u8>) -> (r: Option<Vec<u8>>)
        ensures
            match r {
                Some(v) => self@.contains_key(path@) && v@ == self@[path@],
                None => !self@.contains_key(path@),
            },
    {
        let mut i: usize = self.entries.len();
        while i > 0
            invariant
                i <= self.entries.len(),
                forall|j: int| i <= j < self.entries@.len() ==> (#[trigger] self.entries@[j]).0@ != path@,
            decreases i,
        {
            if bytes_eq(&self.entries[i - 1].0, path) {
                proof {
                    assert(self.entries@.take(i as int).drop_last() =~= self.entries@.take(i - 1));
                    assert(log_map(self.entries@.take(i as int)).contains_key(path@));
                    lemma_log_map_unaffected(self.entries@, i as int, path@);
                }
                return Some(copy_bytes(&self.entries[i - 1].1));
            }
            i = i - 1;
        }
        proof {
            assert(self.entries@.take(0) =~= Seq::<(Vec<u8>, Vec<u8>)>::empty());
            lemma_log_map_unaffected(self.entries@, 0, path@);
        }
        None
    }

    /// Reads the file at `path`, failing with `NotFound` when absent.
    pub fn read_required(&self, path: &Vec<u8>) -> (r: Result<Vec<u8>, GenesisError>)
        ensures
            match r {
                Ok(v) => self@.contains_key(path@) && v@ == self@[path@],
                Err(e) => e == GenesisError::NotFound && !self@.contains_key(path@),
            },
    {
        match self.read(path) {
            Some(v) => Ok(v),
            None => Err(GenesisError::NotFound),
        }
    }

    /// The distinct live paths under `prefix`, in first-write order.
    pub fn list(&self, prefix: &Vec<u8>) -> (r: Vec<Vec<u8>>)
        ensures
            forall|k: Seq<u8>|
                #[trigger] paths_contain(r@, k) <==> self@.contains_key(k) && is_prefix(prefix@, k),
            forall|i: int, j: int| 0 <= i < j < r@.len() ==> (#[trigger] r@[i])@ != (#[trigger] r@[j])@,
    {
        let mut out: Vec<Vec<u8>> = Vec::new();
        let mut idx: usize = 0;
        while idx < self.entries.len()
            invariant
                idx <= self.entries.len(),
                forall|k: Seq<u8>| #[trigger] paths_contain(out@, k) <==> ((exists|j: int|
                    0 <= j < idx && (#[trigger] self.entries@[j]).0@ == k) && is_prefix(prefix@, k)),
                forall|i: int, j: int| 0 <= i < j < out@.len() ==> (#[trigger] out@[i])@ != (#[trigger] out@[j])@,
            decreases self.entries.len() - idx,
        {
            let key = &self.entries[idx].0;
            if has_prefix(key, prefix) && !contains_path(&out, key) {
                let ghost old_out = out@;
                out.push(copy_bytes(key));
                proof {
                    assert forall|k: Seq<u8>| #[trigger] paths_contain(out@, k) implies ((exists|j: int|
                        0 <= j < idx + 1 && (#[trigger] self.entries@[j]).0@ == k) && is_prefix(prefix@, k)) by {
                        let i = choose|i: int| 0 <= i < out@.len() && (#[trigger] out@[i])@ == k;
                        if i < old_out.len() {
                            assert(paths_contain(old_out, k));
                        } else {
                            assert(self.entries@[idx as int].0@ == k);
                        }
                    }
                    assert forall|k: Seq<u8>| ((exists|j: int|
                        0 <= j < idx + 1 && (#[trigger] self.entries@[j]).0@ == k) && is_prefix(prefix@, k))
                        implies #[trigger] paths_contain(out@, k) by {
                        let j = choose|j: int| 0 <= j < idx + 1 && (#[trigger] self.entries@[j]).0@ == k;
                        if j < idx {
                            assert(paths_contain(old_out, k));
                            let i = choose|i: int| 0 <= i < old_out.len() && (#[trigger] old_out[i])@ == k;
                            assert(out@[i]@ == k);
                        } else {
                            assert(out@[out@.len() - 1]@ == k);
                        }
                    }
                }
            } else {
                proof {
                    if is_prefix(prefix@, self.entries@[idx as int].0@) {
                        assert(paths_contain(out@, self.entries@[idx as int].0@));
                    }
                    assert forall|k: Seq<u8>| ((exists|j: int|
                        0 <= j < idx + 1 && (#[trigger] self.entries@[j]).0@ == k) && is_prefix(prefix@, k))
                        implies #[trigger] paths_contain(out@, k) by {
                        let j = choose|j: int| 0 <= j < idx + 1 && (#[trigger] self.entries@[j]).0@ == k;
                        if j == idx {
                            assert(paths_contain(out@, self.entries@[idx as int].0@));
                        }
                    }
                }
            }
            idx = idx + 1;
        }
        proof {
            assert forall|k: Seq<u8>| #[trigger] paths_contain(out@, k)
                <==> self@.contains_key(k) && is_prefix(prefix@, k) by {
                lemma_log_map_contains(self.entries@, k);
            }
        }
        out
    }
}

} // verus!
