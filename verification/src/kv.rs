//! The key-value store that holds the inverted index.
use vstd::prelude::*;

verus! {

/// A failure reported by the key-value store, with its message.
#[derive(Debug)]
pub struct KvError {
    pub message: String,
}

/// A store of byte strings under byte-string keys. `contents` is what it
/// holds; `save` writes one entry and `find` reads one. `failures` lists the
/// failures it has reported, in order: each call that fails adds its error.
pub trait KVStore: Sized {
    /// The entries of the store.
    spec fn contents(&self) -> Map<Seq<u8>, Seq<u8>>;

    /// The failures the store has reported, oldest first.
    spec fn failures(&self) -> Seq<KvError>;

    /// The store never reports a failure.
    spec fn never_fails(&self) -> bool;

    /// Opens the store kept at `file_path`.
    fn init(file_path: &str) -> Self;

    /// Stores `v` under `k`, replacing what was there. On failure the store
    /// is left as it was.
    fn save(&mut self, k: &[u8], v: &[u8]) -> (r: Result<(), KvError>)
        ensures
            r is Ok ==> final(self).contents() == old(self).contents().insert(k@, v@),
            r is Err ==> final(self).contents() == old(self).contents(),
            r is Ok ==> final(self).failures() == old(self).failures(),
            r matches Err(e) ==> final(self).failures() == old(self).failures().push(e),
            final(self).never_fails() == old(self).never_fails(),
            old(self).never_fails() ==> r is Ok,
    ;

    /// The value stored under `k`, if any. Only a failure is recorded.
    fn find(&mut self, k: &[u8]) -> (r: Result<Option<Vec<u8>>, KvError>)
        ensures
            final(self).contents() == old(self).contents(),
            r matches Ok(Some(v)) ==> old(self).contents().contains_key(k@) && old(self).contents()[k@]
                == v@,
            r matches Ok(None) ==> !old(self).contents().contains_key(k@),
            r is Ok ==> final(self).failures() == old(self).failures(),
            r matches Err(e) ==> final(self).failures() == old(self).failures().push(e),
            final(self).never_fails() == old(self).never_fails(),
            old(self).never_fails() ==> r is Ok,
    ;
}

/// The entries `m` holds after the writes of `w`, in order: later writes
/// win.
pub open spec fn apply_writes(m: Map<Seq<u8>, Seq<u8>>, w: Seq<(Seq<u8>, Seq<u8>)>) -> Map<
    Seq<u8>,
    Seq<u8>,
>
    decreases w.len(),
{
    if w.len() == 0 {
        m
    } else {
        apply_writes(m, w.drop_last()).insert(w.last().0, w.last().1)
    }
}

/// The byte strings of a list of entries.
pub open spec fn entries_view(s: Seq<(Vec<u8>, Vec<u8>)>) -> Seq<(Seq<u8>, Seq<u8>)> {
    s.map_values(|e: (Vec<u8>, Vec<u8>)| (e.0@, e.1@))
}

/// After writes whose last one under `k` is `s[i]`, `k` holds its value.
pub proof fn lemma_apply_writes_found(m: Map<Seq<u8>, Seq<u8>>, s: Seq<(Seq<u8>, Seq<u8>)>, i: int, k: Seq<u8>)
    requires
        0 <= i < s.len(),
        s[i].0 == k,
        forall|j: int| i < j < s.len() ==> s[j].0 != k,
    ensures
        apply_writes(m, s).contains_key(k),
        apply_writes(m, s)[k] == s[i].1,
    decreases s.len(),
{
    if i < s.len() - 1 {
        lemma_apply_writes_found(m, s.drop_last(), i, k);
    }
}

/// Writes that do not touch `k` leave its entry as it was.
pub proof fn lemma_apply_writes_absent(m: Map<Seq<u8>, Seq<u8>>, s: Seq<(Seq<u8>, Seq<u8>)>, k: Seq<u8>)
    requires
        forall|j: int| 0 <= j < s.len() ==> s[j].0 != k,
    ensures
        apply_writes(m, s).contains_key(k) == m.contains_key(k),
        m.contains_key(k) ==> apply_writes(m, s)[k] == m[k],
    decreases s.len(),
{
    if s.len() > 0 {
        lemma_apply_writes_absent(m, s.drop_last(), k);
    }
}

/// Whether two byte strings are equal.
fn bytes_eq(a: &[u8], b: &[u8]) -> (r: bool)
    ensures
        r == (a@ == b@),
{
    if a.len() != b.len() {
        return false;
    }
    let mut i: usize = 0;
    while i < a.len()
        invariant
            a.len() == b.len(),
            i <= a.len(),
            forall|j: int| 0 <= j < i ==> a@[j] == b@[j],
        decreases a.len() - i,
    {
        if a[i] != b[i] {
            return false;
        }
        i += 1;
    }
    assert(a@ =~= b@);
    true
}

/// The last entry of `entries` under `k`, if any.
fn find_last(entries: &Vec<(Vec<u8>, Vec<u8>)>, k: &[u8]) -> (r: Option<Vec<u8>>)
    ensures
        r matches Some(v) ==> exists|i: int|
            0 <= i < entries.len() && entries@[i].0@ == k@ && v@ == entries@[i].1@ && forall|j: int|
                i < j < entries.len() ==> entries@[j].0@ != k@,
        r is None ==> forall|j: int| 0 <= j < entries.len() ==> entries@[j].0@ != k@,
{
    let mut i = entries.len();
    while i > 0
        invariant
            i <= entries.len(),
            forall|j: int| i <= j < entries.len() ==> entries@[j].0@ != k@,
        decreases i,
    {
        i -= 1;
        if bytes_eq(entries[i].0.as_slice(), k) {
            let v = entries[i].1.clone();
            return Some(v);
        }
    }
    None
}

/// A key-value store held in memory: the entries it was loaded with, and
/// the writes made since, in order. It stands for a part of a larger store:
/// load the entries of the keys an operation reads, run the operation, then
/// make its writes, in order, in the larger store.
pub struct MemoryStore {
    loaded: Vec<(Vec<u8>, Vec<u8>)>,
    written: Vec<(Vec<u8>, Vec<u8>)>,
}

impl MemoryStore {
    /// The entries the store was loaded with.
    pub closed spec fn base(&self) -> Map<Seq<u8>, Seq<u8>> {
        apply_writes(Map::empty(), entries_view(self.loaded@))
    }

    /// The writes made since loading, in order.
    pub closed spec fn writes(&self) -> Seq<(Seq<u8>, Seq<u8>)> {
        entries_view(self.written@)
    }

    /// An empty store.
    pub fn new() -> (r: MemoryStore)
        ensures
            r.contents() == Map::<Seq<u8>, Seq<u8>>::empty(),
            r.base() == Map::<Seq<u8>, Seq<u8>>::empty(),
            r.writes() == Seq::<(Seq<u8>, Seq<u8>)>::empty(),
    {
        let r = MemoryStore { loaded: Vec::new(), written: Vec::new() };
        assert(entries_view(r.loaded@) =~= Seq::<(Seq<u8>, Seq<u8>)>::empty());
        assert(entries_view(r.written@) =~= Seq::<(Seq<u8>, Seq<u8>)>::empty());
        r
    }

    /// Loads the entry `k`, `v` (before any write).
    pub fn load(&mut self, k: &[u8], v: &[u8])
        requires
            old(self).writes().len() == 0,
        ensures
            final(self).base() == old(self).base().insert(k@, v@),
            final(self).contents() == final(self).base(),
            final(self).writes().len() == 0,
    {
        let kv = vstd::slice::slice_to_vec(k);
        let vv = vstd::slice::slice_to_vec(v);
        self.loaded.push((kv, vv));
        assert(entries_view(self.loaded@).drop_last() =~= entries_view(old(self).loaded@));
        assert(entries_view(self.written@) =~= Seq::<(Seq<u8>, Seq<u8>)>::empty());
    }

    /// The writes made since loading, in order.
    pub fn written(&self) -> (r: &Vec<(Vec<u8>, Vec<u8>)>)
        ensures
            entries_view(r@) == self.writes(),
    {
        &self.written
    }

    /// The store holds what it was loaded with, updated by its writes in
    /// order: making the same writes, in the same order, in a store that
    /// held the loaded entries leaves it holding the same entries.
    pub proof fn lemma_contents(&self)
        ensures
            self.contents() == apply_writes(self.base(), self.writes()),
    {
    }
}

impl KVStore for MemoryStore {
    closed spec fn contents(&self) -> Map<Seq<u8>, Seq<u8>> {
        apply_writes(apply_writes(Map::empty(), entries_view(self.loaded@)), entries_view(self.written@))
    }

    open spec fn failures(&self) -> Seq<KvError> {
        Seq::<KvError>::empty()
    }

    open spec fn never_fails(&self) -> bool {
        true
    }

    /// An empty store; the path is not used.
    fn init(file_path: &str) -> (r: MemoryStore)
        ensures
            r.contents() == Map::<Seq<u8>, Seq<u8>>::empty(),
            r.base() == Map::<Seq<u8>, Seq<u8>>::empty(),
            r.writes() == Seq::<(Seq<u8>, Seq<u8>)>::empty(),
    {
        MemoryStore::new()
    }

    /// The write is added to `writes`.
    fn save(&mut self, k: &[u8], v: &[u8]) -> (r: Result<(), KvError>)
        ensures
            final(self).base() == old(self).base(),
            final(self).writes() == old(self).writes().push((k@, v@)),
    {
        let kv = vstd::slice::slice_to_vec(k);
        let vv = vstd::slice::slice_to_vec(v);
        self.written.push((kv, vv));
        assert(entries_view(self.written@).drop_last() =~= entries_view(old(self).written@));
        assert(entries_view(self.written@) =~= entries_view(old(self).written@).push((k@, v@)));
        Ok(())
    }

    fn find(&mut self, k: &[u8]) -> (r: Result<Option<Vec<u8>>, KvError>) {
        let ghost base = apply_writes(Map::empty(), entries_view(self.loaded@));
        let ghost w = entries_view(self.written@);
        match find_last(&self.written, k) {
            Some(v) => {
                proof {
                    let i = choose|i: int|
                        0 <= i < self.written.len() && self.written@[i].0@ == k@ && v@
                            == self.written@[i].1@ && forall|j: int|
                            i < j < self.written.len() ==> self.written@[j].0@ != k@;
                    assert forall|j: int| i < j < w.len() implies w[j].0 != k@ by {
                        assert(w[j].0 == self.written@[j].0@);
                    }
                    lemma_apply_writes_found(base, w, i, k@);
                }
                Ok(Some(v))
            },
            None => {
                proof {
                    assert forall|j: int| 0 <= j < w.len() implies w[j].0 != k@ by {
                        assert(w[j].0 == self.written@[j].0@);
                    }
                    lemma_apply_writes_absent(base, w, k@);
                }
                let ghost l = entries_view(self.loaded@);
                match find_last(&self.loaded, k) {
                    Some(v) => {
                        proof {
                            let i = choose|i: int|
                                0 <= i < self.loaded.len() && self.loaded@[i].0@ == k@ && v@
                                    == self.loaded@[i].1@ && forall|j: int|
                                    i < j < self.loaded.len() ==> self.loaded@[j].0@ != k@;
                            assert forall|j: int| i < j < l.len() implies l[j].0 != k@ by {
                                assert(l[j].0 == self.loaded@[j].0@);
                            }
                            lemma_apply_writes_found(Map::empty(), l, i, k@);
                        }
                        Ok(Some(v))
                    },
                    None => {
                        proof {
                            assert forall|j: int| 0 <= j < l.len() implies l[j].0 != k@ by {
                                assert(l[j].0 == self.loaded@[j].0@);
                            }
                            lemma_apply_writes_absent(Map::empty(), l, k@);
                        }
                        Ok(None)
                    },
                }
            },
        }
    }
}

} // verus!
