//! Multi-version concurrency control: every committed write is kept under
//! (key, version); a transaction reads the newest version of a key that is
//! not newer than its read version (snapshot isolation).
use vstd::prelude::*;

verus! {

/// A stored value.
#[derive(Debug, Clone, PartialEq)]
pub enum Value {
    Int(i64),
    String(String),
}

/// A key at one version.
#[derive(Debug, Clone, PartialEq, Eq, PartialOrd, Ord)]
pub struct VersionedKey {
    pub key: String,
    pub version: u64,
}

/// One stored version: key, version and value (`None` for a delete).
pub type Version = (Seq<char>, u64, Option<Value>);

pub open spec fn versions_of(v: Seq<(VersionedKey, Option<Value>)>) -> Seq<Version> {
    v.map_values(|e: (VersionedKey, Option<Value>)| (e.0.key@, e.0.version, e.1))
}

/// No (key, version) is stored twice.
pub open spec fn unique_versions(s: Seq<Version>) -> bool {
    forall|i: int, j: int|
        0 <= i < s.len() && 0 <= j < s.len() && i != j ==> !(s[i].0 == s[j].0 && s[i].1 == s[j].1)
}

/// The newest stored version of `key` not newer than `read_version`:
/// its version and value.
pub open spec fn newest_visible(s: Seq<Version>, key: Seq<char>, read_version: u64) -> Option<
    (u64, Option<Value>),
>
    decreases s.len(),
{
    if s.len() == 0 {
        None
    } else {
        let r = newest_visible(s.drop_last(), key, read_version);
        let e = s.last();
        if e.0 == key && e.1 <= read_version && match r {
            Some(p) => p.0 < e.1,
            None => true,
        } {
            Some((e.1, e.2))
        } else {
            r
        }
    }
}

/// What a read of `key` at `read_version` sees.
pub open spec fn read_at(s: Seq<Version>, key: Seq<char>, read_version: u64) -> Option<Value> {
    match newest_visible(s, key, read_version) {
        Some((_, v)) => v,
        None => None,
    }
}

/// Position of the entry for (`key`, `version`), or `s.len()` if none.
pub open spec fn find_version(s: Seq<Version>, key: Seq<char>, version: u64) -> int
    decreases s.len(),
{
    if s.len() == 0 {
        0
    } else if s[0].0 == key && s[0].1 == version {
        0
    } else {
        1 + find_version(s.drop_first(), key, version)
    }
}

/// The versions after writing `value` to `key` at `version`: an existing
/// entry for that (key, version) is overwritten in place, else one is added.
pub open spec fn put_version(s: Seq<Version>, key: Seq<char>, version: u64, value: Option<Value>) -> Seq<
    Version,
> {
    let i = find_version(s, key, version);
    if i < s.len() {
        s.update(i, (key, version, value))
    } else {
        s.push((key, version, value))
    }
}

proof fn lemma_find_version(s: Seq<Version>, key: Seq<char>, version: u64)
    ensures
        0 <= find_version(s, key, version) <= s.len(),
        find_version(s, key, version) < s.len() ==> s[find_version(s, key, version)].0 == key
            && s[find_version(s, key, version)].1 == version,
        forall|j: int| 0 <= j < find_version(s, key, version) ==> !(s[j].0 == key && s[j].1 == version),
    decreases s.len(),
{
    if s.len() > 0 && !(s[0].0 == key && s[0].1 == version) {
        lemma_find_version(s.drop_first(), key, version);
        assert forall|j: int| 0 <= j < find_version(s, key, version) implies !(s[j].0 == key && s[j].1 == version) by {
            if j > 0 {
                assert(s[j] == s.drop_first()[j - 1]);
            }
        }
    }
}

proof fn lemma_find_version_unique(s: Seq<Version>, key: Seq<char>, version: u64, i: int)
    requires
        0 <= i <= s.len(),
        i < s.len() ==> s[i].0 == key && s[i].1 == version,
        forall|j: int| 0 <= j < i ==> !(s[j].0 == key && s[j].1 == version),
    ensures
        find_version(s, key, version) == i,
    decreases s.len(),
{
    if s.len() > 0 && i > 0 {
        assert forall|j: int| 0 <= j < i - 1 implies !(s.drop_first()[j].0 == key && s.drop_first()[j].1 == version) by {
            assert(s.drop_first()[j] == s[j + 1]);
        }
        lemma_find_version_unique(s.drop_first(), key, version, i - 1);
    }
}

/// The versions after committing `writes` (in order) at `version`.
pub open spec fn commit_writes(s: Seq<Version>, writes: Seq<(Seq<char>, Option<Value>)>, version: u64) -> Seq<Version>
    decreases writes.len(),
{
    if writes.len() == 0 {
        s
    } else {
        let w = writes.last();
        put_version(commit_writes(s, writes.drop_last(), version), w.0, version, w.1)
    }
}

/// The store of all committed versions.
pub struct MvccStore {
    data: Vec<(VersionedKey, Option<Value>)>,
    next_version: u64,
}

/// A transaction: reads at `read_version`, buffers writes for `write_version`.
pub struct Transaction {
    pub read_version: u64,
    pub write_version: u64,
    writes: Vec<(String, Option<Value>)>,
}

impl MvccStore {
    /// The committed versions.
    pub closed spec fn versions(&self) -> Seq<Version> {
        versions_of(self.data@)
    }

    /// The version the next transaction gets.
    pub closed spec fn next(&self) -> u64 {
        self.next_version
    }

    pub open spec fn wf(&self) -> bool {
        unique_versions(self.versions())
    }

    /// An empty store; the first transaction gets version 1.
    pub fn new() -> (s: MvccStore)
        ensures
            s.wf(),
            s.versions() == Seq::<Version>::empty(),
            s.next() == 1,
    {
        let s = MvccStore { data: Vec::new(), next_version: 1 };
        proof {
            assert(s.versions() =~= Seq::<Version>::empty());
        }
        s
    }

    /// Starts a transaction that reads and writes at the next version.
    pub fn begin(&mut self) -> (t: Transaction)
        requires
            old(self).next() < u64::MAX,
        ensures
            t.reads_at() == old(self).next(),
            t.writes_at() == old(self).next(),
            t.pending() == Seq::<(Seq<char>, Option<Value>)>::empty(),
            final(self).next() == old(self).next() + 1,
            final(self).versions() == old(self).versions(),
    {
        let version = self.next_version;
        self.next_version = self.next_version + 1;
        let t = Transaction { read_version: version, write_version: version, writes: Vec::new() };
        proof {
            assert(t.pending() =~= Seq::<(Seq<char>, Option<Value>)>::empty());
        }
        t
    }

    /// Stores the transaction's writes, in order, at its write version.
    pub fn commit(&mut self, txn: Transaction)
        requires
            old(self).wf(),
        ensures
            final(self).wf(),
            final(self).versions() == commit_writes(
                old(self).versions(),
                txn.pending(),
                txn.writes_at(),
            ),
            final(self).next() == old(self).next(),
    {
        let ghost w = txn.pending();
        let ghost s0 = self.versions();
        let version = txn.write_version;
        let mut writes = txn.writes;
        let ghost mut done: int = 0;
        proof {
            assert(w.take(0) =~= Seq::<(Seq<char>, Option<Value>)>::empty());
            assert(w.skip(0) =~= w);
        }
        while writes.len() > 0
            invariant
                0 <= done <= w.len(),
                writes@.map_values(|e: (String, Option<Value>)| (e.0@, e.1)) == w.skip(done),
                unique_versions(self.versions()),
                self.versions() == commit_writes(s0, w.take(done), version),
                self.next() == old(self).next(),
            decreases writes@.len(),
        {
            let ghost rest = writes@;
            proof {
                assert(rest.map_values(|e: (String, Option<Value>)| (e.0@, e.1)).len() == rest.len());
                assert(w.skip(done).len() == w.len() - done);
                assert(done < w.len());
                assert(w.skip(done)[0] == w[done]);
            }
            let (key, value) = writes.remove(0);
            proof {
                assert(rest[0] == (key, value));
                assert(rest.map_values(|e: (String, Option<Value>)| (e.0@, e.1))[0] == (key@, value));
                assert(w.skip(done)[0] == (key@, value));
                assert(w[done] == (key@, value));
                assert(w.take(done + 1).drop_last() =~= w.take(done));
                assert(w.take(done + 1).last() == (key@, value));
                assert(writes@ =~= rest.subrange(1, rest.len() as int));
                let m = writes@.map_values(|e: (String, Option<Value>)| (e.0@, e.1));
                assert forall|j: int| 0 <= j < writes@.len() implies #[trigger] m[j] == w.skip(done + 1)[j] by {
                    assert(writes@[j] == rest[j + 1]);
                    assert(rest.map_values(|e: (String, Option<Value>)| (e.0@, e.1))[j + 1] == w.skip(done)[j + 1]);
                    assert(w.skip(done)[j + 1] == w[done + 1 + j]);
                }
                assert(writes@.map_values(|e: (String, Option<Value>)| (e.0@, e.1)) =~= w.skip(done + 1));
            }
            self.put(key, version, value);
            proof {
                done = done + 1;
            }
        }
        proof {
            assert(w.skip(done).len() == 0);
            assert(w.take(done) =~= w);
        }
    }

    fn put(&mut self, key: String, version: u64, value: Option<Value>)
        requires
            unique_versions(old(self).versions()),
        ensures
            unique_versions(final(self).versions()),
            final(self).versions() == put_version(old(self).versions(), key@, version, value),
            final(self).next() == old(self).next(),
    {
        let ghost s0 = self.versions();
        let mut i: usize = 0;
        while i < self.data.len()
            invariant
                i <= self.data@.len(),
                self.versions() == s0,
                s0 == old(self).versions(),
                unique_versions(s0),
                self.next_version == old(self).next_version,
                forall|j: int| 0 <= j < i ==> !(s0[j].0 == key@ && s0[j].1 == version),
            decreases self.data@.len() - i,
        {
            proof {
                assert(s0[i as int] == (self.data@[i as int].0.key@, self.data@[i as int].0.version, self.data@[i as int].1));
            }
            if self.data[i].0.version == version && self.data[i].0.key == key {
                let ghost kv = key@;
                assert(s0[i as int].0 == kv && s0[i as int].1 == version);
                proof {
                    lemma_find_version_unique(s0, kv, version, i as int);
                }
                let vk = VersionedKey { key, version };
                self.data.set(i, (vk, value));
                proof {
                    let nv = self.versions();
                    assert(nv =~= s0.update(i as int, (kv, version, value)));
                    assert(nv.len() == s0.len());
                    assert forall|a: int| 0 <= a < s0.len() implies nv[a].0 == s0[a].0 && nv[a].1 == s0[a].1 by {
                        if a == i as int {
                        }
                    }
                    assert(unique_versions(nv)) by {
                        assert forall|a: int, b: int| 0 <= a < nv.len() && 0 <= b < nv.len() && a != b implies !(
                            nv[a].0 == nv[b].0 && nv[a].1 == nv[b].1) by {
                            assert(nv[a].0 == s0[a].0 && nv[a].1 == s0[a].1);
                            assert(nv[b].0 == s0[b].0 && nv[b].1 == s0[b].1);
                        }
                    }
                    assert(put_version(s0, kv, version, value) == s0.update(i as int, (kv, version, value)));
                }
                return ;
            }
            i = i + 1;
        }
        let ghost kv = key@;
        proof {
            lemma_find_version_unique(s0, kv, version, i as int);
        }
        self.data.push((VersionedKey { key, version }, value));
        proof {
            assert(self.versions() =~= s0.push((kv, version, value)));
        }
    }
}

impl Transaction {
    /// The version this transaction reads at.
    pub closed spec fn reads_at(&self) -> u64 {
        self.read_version
    }

    /// The version this transaction's writes are committed at.
    pub closed spec fn writes_at(&self) -> u64 {
        self.write_version
    }

    /// The buffered writes, in order.
    pub closed spec fn pending(&self) -> Seq<(Seq<char>, Option<Value>)> {
        self.writes@.map_values(|e: (String, Option<Value>)| (e.0@, e.1))
    }

    /// Reads `key` as of this transaction's read version: the value of the
    /// newest committed version not newer than it (`None` when that is a
    /// delete or there is none). The transaction's own writes are not seen.
    pub fn get<'a>(&self, store: &'a MvccStore, key: &str) -> (r: Option<&'a Value>)
        requires
            store.wf(),
        ensures
            r == match read_at(store.versions(), key@, self.reads_at()) {
                Some(v) => Some(&v),
                None => None::<&Value>,
            },
    {
        let ghost s = store.versions();
        let k = String::from_str(key);
        let mut best: Option<usize> = None;
        let mut i: usize = 0;
        while i < store.data.len()
            invariant
                i <= store.data@.len(),
                s == store.versions(),
                k@ == key@,
                match newest_visible(s.take(i as int), key@, self.read_version) {
                    None => best is None,
                    Some((ver, val)) => best matches Some(b) && b < i && s[b as int].1 == ver && s[b as int].2 == val,
                },
            decreases store.data@.len() - i,
        {
            proof {
                assert(s.take(i + 1).drop_last() =~= s.take(i as int));
                assert(s.take(i + 1).last() == s[i as int]);
            }
            let vk = &store.data[i].0;
            if vk.version <= self.read_version && vk.key == k {
                let better = match best {
                    None => true,
                    Some(b) => store.data[b].0.version < vk.version,
                };
                if better {
                    best = Some(i);
                }
            }
            i = i + 1;
        }
        proof {
            assert(s.take(i as int) =~= s);
        }
        match best {
            None => None,
            Some(b) => match &store.data[b].1 {
                Some(v) => Some(v),
                None => None,
            },
        }
    }

    /// Buffers a write of `value` to `key`.
    pub fn set(&mut self, key: &str, value: Value)
        ensures
            final(self).pending() == old(self).pending().push((key@, Some(value))),
            final(self).reads_at() == old(self).reads_at(),
            final(self).writes_at() == old(self).writes_at(),
    {
        self.writes.push((String::from_str(key), Some(value)));
        proof {
            assert(self.pending() =~= old(self).pending().push((key@, Some(value))));
        }
    }

    /// Buffers a delete of `key`.
    pub fn delete(&mut self, key: &str)
        ensures
            final(self).pending() == old(self).pending().push((key@, None)),
            final(self).reads_at() == old(self).reads_at(),
            final(self).writes_at() == old(self).writes_at(),
    {
        self.writes.push((String::from_str(key), None));
        proof {
            assert(self.pending() =~= old(self).pending().push((key@, None)));
        }
    }
}

proof fn lemma_newest_bound(s: Seq<Version>, key: Seq<char>, rv: u64)
    ensures
        newest_visible(s, key, rv) matches Some((v, _)) ==> v <= rv,
    decreases s.len(),
{
    if s.len() > 0 {
        lemma_newest_bound(s.drop_last(), key, rv);
    }
}

/// Writing a version newer than `rv` does not change what a read at `rv`
/// sees.
proof fn lemma_put_invisible(s: Seq<Version>, key: Seq<char>, k: Seq<char>, version: u64, value: Option<Value>, rv: u64)
    requires
        version > rv,
    ensures
        newest_visible(put_version(s, k, version, value), key, rv) == newest_visible(s, key, rv),
    decreases s.len(),
{
    lemma_find_version(s, k, version);
    let i = find_version(s, k, version);
    if i < s.len() {
        lemma_update_invisible(s, i, (k, version, value), key, rv);
    } else {
        assert(s.push((k, version, value)).drop_last() =~= s);
    }
}

proof fn lemma_update_invisible(s: Seq<Version>, i: int, e: Version, key: Seq<char>, rv: u64)
    requires
        0 <= i < s.len(),
        s[i].1 > rv,
        e.1 > rv,
    ensures
        newest_visible(s.update(i, e), key, rv) == newest_visible(s, key, rv),
    decreases s.len(),
{
    let u = s.update(i, e);
    if i == s.len() - 1 {
        assert(u.drop_last() =~= s.drop_last());
    } else {
        lemma_update_invisible(s.drop_last(), i, e, key, rv);
        assert(u.drop_last() =~= s.drop_last().update(i, e));
    }
}

/// Snapshot isolation: committing a transaction whose write version is
/// newer than a reader's read version changes nothing that reader sees.
pub proof fn lemma_snapshot_isolation(
    s: Seq<Version>,
    writes: Seq<(Seq<char>, Option<Value>)>,
    version: u64,
    key: Seq<char>,
    read_version: u64,
)
    requires
        version > read_version,
    ensures
        read_at(commit_writes(s, writes, version), key, read_version) == read_at(s, key, read_version),
    decreases writes.len(),
{
    if writes.len() > 0 {
        lemma_snapshot_isolation(s, writes.drop_last(), version, key, read_version);
        let w = writes.last();
        lemma_put_invisible(commit_writes(s, writes.drop_last(), version), key, w.0, version, w.1, read_version);
    }
}

/// A reader at or after a commit's version sees the last value that the
/// commit wrote to a key, provided no newer version of it exists.
pub proof fn lemma_read_own_commit(s: Seq<Version>, key: Seq<char>, version: u64, value: Option<Value>, read_version: u64)
    requires
        unique_versions(s),
        version <= read_version,
        forall|i: int| 0 <= i < s.len() && s[i].0 == key ==> s[i].1 <= version,
    ensures
        read_at(put_version(s, key, version, value), key, read_version) == value,
{
    lemma_newest_below(s, key, version, read_version);
    lemma_find_version(s, key, version);
    let i = find_version(s, key, version);
    if i < s.len() {
        lemma_update_newest(s, i, value, key, version, read_version);
    } else {
        let u = s.push((key, version, value));
        assert(u.drop_last() =~= s);
        lemma_newest_bound(s, key, read_version);
        lemma_newest_version_exists(s, key, read_version);
    }
}

proof fn lemma_newest_below(s: Seq<Version>, key: Seq<char>, version: u64, rv: u64)
    requires
        forall|i: int| 0 <= i < s.len() && s[i].0 == key ==> s[i].1 <= version,
    ensures
        newest_visible(s, key, rv) matches Some((v, _)) ==> v <= version,
    decreases s.len(),
{
    if s.len() > 0 {
        lemma_newest_below(s.drop_last(), key, version, rv);
    }
}

proof fn lemma_newest_version_exists(s: Seq<Version>, key: Seq<char>, rv: u64)
    ensures
        newest_visible(s, key, rv) matches Some((v, _)) ==> exists|i: int| 0 <= i < s.len() && s[i].0 == key && s[i].1 == v,
    decreases s.len(),
{
    if s.len() > 0 {
        lemma_newest_version_exists(s.drop_last(), key, rv);
        let r = newest_visible(s.drop_last(), key, rv);
        if let Some((v, _)) = r {
            if exists|i: int| 0 <= i < s.len() - 1 && s.drop_last()[i].0 == key && s.drop_last()[i].1 == v {
                let i = choose|i: int| 0 <= i < s.len() - 1 && s.drop_last()[i].0 == key && s.drop_last()[i].1 == v;
                assert(s[i] == s.drop_last()[i]);
            }
        }
    }
}

proof fn lemma_update_newest(s: Seq<Version>, i: int, value: Option<Value>, key: Seq<char>, version: u64, rv: u64)
    requires
        unique_versions(s),
        0 <= i < s.len(),
        s[i].0 == key,
        s[i].1 == version,
        version <= rv,
        forall|j: int| 0 <= j < s.len() && s[j].0 == key ==> s[j].1 <= version,
    ensures
        newest_visible(s.update(i, (key, version, value)), key, rv) == Some((version, value)),
    decreases s.len(),
{
    let u = s.update(i, (key, version, value));
    if i == s.len() - 1 {
        assert(u.drop_last() =~= s.drop_last());
        lemma_newest_below(s.drop_last(), key, version, rv);
        let r = newest_visible(s.drop_last(), key, rv);
        if let Some((v, _)) = r {
            lemma_newest_version_exists(s.drop_last(), key, rv);
            let j = choose|j: int| 0 <= j < s.len() - 1 && s.drop_last()[j].0 == key && s.drop_last()[j].1 == v;
            assert(s[j] == s.drop_last()[j]);
            assert(v != version);
        }
    } else {
        let t = s.drop_last();
        assert(u.drop_last() =~= t.update(i, (key, version, value)));
        assert(unique_versions(t)) by {
            assert forall|a: int, b: int| 0 <= a < t.len() && 0 <= b < t.len() && a != b implies !(t[a].0 == t[b].0 && t[a].1 == t[b].1) by {
                assert(t[a] == s[a] && t[b] == s[b]);
            }
        }
        lemma_update_newest(t, i, value, key, version, rv);
        assert(s.last() == s[s.len() - 1]);
        assert(!(s.last().0 == key && s.last().1 == version));
    }
}

} // verus!
