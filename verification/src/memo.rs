//! Memoisation within one render: tool versions, looked up at most once, and
//! the git facts of each repository.
use vstd::prelude::*;
use vstd::string::*;
use std::sync::Arc;

verus! {

/// A shared handle to the same string (`Arc::clone`).
#[verifier::external_body]
fn share(value: &Arc<String>) -> (r: Arc<String>)
    ensures
        r == *value,
{
    Arc::clone(value)
}

/// A slot that remembers the outcome of one version lookup, including its
/// failure.
pub struct VersionSlot {
    value: Option<Option<Arc<String>>>,
}

/// The characters of a looked-up version.
pub open spec fn version_view(v: Option<Arc<String>>) -> Option<Seq<char>> {
    match v {
        Some(s) => Some((*s)@),
        None => None,
    }
}

/// The string behind a shared version.
pub open spec fn unshared(v: Option<Arc<String>>) -> Option<String> {
    match v {
        Some(s) => Some(*s),
        None => None,
    }
}

impl View for VersionSlot {
    /// `None` while nothing has been looked up; otherwise the remembered outcome.
    type V = Option<Option<Seq<char>>>;

    closed spec fn view(&self) -> Option<Option<Seq<char>>> {
        match self.value {
            Some(v) => Some(version_view(v)),
            None => None,
        }
    }
}

impl VersionSlot {
    pub fn new() -> (r: VersionSlot)
        ensures
            r@ is None,
    {
        VersionSlot { value: None }
    }
}

/// One lookup through a slot: a remembered outcome is returned and kept;
/// otherwise the fetched outcome is returned and remembered.
pub open spec fn version_lookup(slot: Option<Option<Seq<char>>>, fetched: Option<Seq<char>>) -> (
    Option<Seq<char>>,
    Option<Option<Seq<char>>>,
) {
    match slot {
        Some(v) => (v, slot),
        None => (fetched, Some(fetched)),
    }
}

/// The remembered version, running `fetch` only when the slot is still empty;
/// its outcome, found or not, is then remembered.
pub fn memoized_version<F>(slot: &mut VersionSlot, fetch: F) -> (r: Option<Arc<String>>) where
    F: FnOnce() -> Option<String>,

    requires
        old(slot)@ is None ==> fetch.requires(()),
    ensures
        (version_view(r), final(slot)@) == version_lookup(old(slot)@, version_view(r)),
        old(slot)@ matches Some(v) ==> version_view(r) == v,
        old(slot)@ is None ==> fetch.ensures((), unshared(r)),
{
    if let Some(value) = &slot.value {
        let r = match value {
            Some(v) => Some(share(v)),
            None => None,
        };
        return r;
    }
    let fetched = fetch();
    let value = match fetched {
        Some(v) => Some(Arc::new(v)),
        None => None,
    };
    let stored = match &value {
        Some(v) => Some(share(v)),
        None => None,
    };
    slot.value = Some(stored);
    value
}

/// What is known of one git repository: its branch and its change flags.
pub struct GitInfo {
    pub branch: String,
    pub has_changes: bool,
    pub has_staged: bool,
    pub has_untracked: bool,
}

impl Clone for GitInfo {
    fn clone(&self) -> (r: GitInfo)
        ensures
            r == *self,
    {
        GitInfo {
            branch: self.branch.clone(),
            has_changes: self.has_changes,
            has_staged: self.has_staged,
            has_untracked: self.has_untracked,
        }
    }
}

/// The facts gathered about git repositories during one render, by the bytes
/// of the repository's path. The entries are kept in a vector with distinct
/// keys: vstd specifies the lookups of a std hash map only for keys whose
/// hashing it models (integers and the like), and a path is not one.
pub struct GitMemo {
    entries: Vec<(Vec<u8>, GitInfo)>,
}

/// The map that a list of entries denotes; later entries win.
pub open spec fn entries_map(es: Seq<(Vec<u8>, GitInfo)>) -> Map<Seq<u8>, GitInfo>
    decreases es.len(),
{
    if es.len() == 0 {
        Map::empty()
    } else {
        entries_map(es.drop_last()).insert(es.last().0@, es.last().1)
    }
}

pub open spec fn distinct_keys(es: Seq<(Vec<u8>, GitInfo)>) -> bool {
    forall|i: int, j: int| 0 <= i < j < es.len() ==> es[i].0@ != es[j].0@
}

proof fn lemma_entries_map(es: Seq<(Vec<u8>, GitInfo)>)
    requires
        distinct_keys(es),
    ensures
        forall|k: Seq<u8>|
            #![trigger entries_map(es).dom().contains(k)]
            entries_map(es).dom().contains(k) <==> exists|i: int|
                0 <= i < es.len() && es[i].0@ == k,
        forall|i: int| 0 <= i < es.len() ==> entries_map(es)[#[trigger] es[i].0@] == es[i].1,
    decreases es.len(),
{
    if es.len() > 0 {
        let init = es.drop_last();
        lemma_entries_map(init);
        assert forall|k: Seq<u8>|
            #![trigger entries_map(es).dom().contains(k)]
            entries_map(es).dom().contains(k) implies exists|i: int|
                0 <= i < es.len() && es[i].0@ == k by {
            if k == es.last().0@ {
                assert(es[es.len() - 1].0@ == k);
            } else {
                assert(entries_map(init).dom().contains(k));
                let i = choose|i: int| 0 <= i < init.len() && init[i].0@ == k;
                assert(es[i] == init[i]);
                assert(es[i].0@ == k);
            }
        }
        assert forall|k: Seq<u8>|
            #![trigger entries_map(es).dom().contains(k)]
            (exists|i: int| 0 <= i < es.len() && es[i].0@ == k) implies entries_map(
                es,
            ).dom().contains(k) by {
            let i = choose|i: int| 0 <= i < es.len() && es[i].0@ == k;
            if i < es.len() - 1 {
                assert(init[i] == es[i]);
                assert(entries_map(init).dom().contains(k));
            }
        }
        assert forall|i: int| 0 <= i < es.len() implies entries_map(es)[#[trigger] es[i].0@]
            == es[i].1 by {
            if i < es.len() - 1 {
                assert(init[i] == es[i]);
                assert(es[i].0@ != es[es.len() - 1].0@);
            }
        }
    }
}

/// Whether two byte strings are equal.
fn bytes_eq(a: &Vec<u8>, b: &[u8]) -> (r: bool)
    ensures
        r == (a@ == b@),
{
    if a.len() != b.len() {
        return false;
    }
    let mut i: usize = 0;
    while i < a.len()
        invariant
            a@.len() == b@.len(),
            i <= a@.len(),
            forall|k: int| 0 <= k < i ==> a@[k] == b@[k],
        decreases a@.len() - i,
    {
        if a[i] != b[i] {
            return false;
        }
        i = i + 1;
    }
    assert(a@ =~= b@);
    true
}

impl GitMemo {
    #[verifier::type_invariant]
    spec fn keys_are_distinct(self) -> bool {
        distinct_keys(self.entries@)
    }

    /// The remembered facts by repository path.
    pub closed spec fn contents(self) -> Map<Seq<u8>, GitInfo> {
        entries_map(self.entries@)
    }

    pub fn new() -> (r: GitMemo)
        ensures
            r.contents() == Map::<Seq<u8>, GitInfo>::empty(),
    {
        GitMemo { entries: Vec::new() }
    }

    fn position(&self, path: &[u8]) -> (r: Option<usize>)
        ensures
            match r {
                Some(i) => i < self.entries@.len() && self.entries@[i as int].0@ == path@,
                None => forall|i: int| 0 <= i < self.entries@.len() ==> self.entries@[i].0@ != path@,
            },
    {
        let mut i: usize = 0;
        while i < self.entries.len()
            invariant
                i <= self.entries@.len(),
                forall|k: int| 0 <= k < i ==> self.entries@[k].0@ != path@,
            decreases self.entries@.len() - i,
        {
            if bytes_eq(&self.entries[i].0, path) {
                return Some(i);
            }
            i = i + 1;
        }
        None
    }

    /// The facts remembered for `path`.
    pub fn get(&self, path: &[u8]) -> (r: Option<GitInfo>)
        ensures
            r == (if self.contents().dom().contains(path@) {
                Some(self.contents()[path@])
            } else {
                None
            }),
    {
        proof {
            use_type_invariant(self);
            lemma_entries_map(self.entries@);
        }
        match self.position(path) {
            Some(i) => Some(self.entries[i].1.clone()),
            None => None,
        }
    }

    /// Remembers `info` for `path`, replacing what was remembered for it.
    pub fn insert(&mut self, path: Vec<u8>, info: GitInfo)
        ensures
            final(self).contents() == old(self).contents().insert(path@, info),
    {
        proof {
            use_type_invariant(&*self);
        }
        let ghost before = self.entries@;
        match self.position(path.as_slice()) {
            Some(i) => {
                let ghost key = self.entries@[i as int].0;
                let mut entries = Vec::new();
                std::mem::swap(&mut entries, &mut self.entries);
                entries.set(i, (path, info));
                let ghost after = entries@;
                proof {
                    assert(distinct_keys(after)) by {
                        assert forall|a: int, b: int| 0 <= a < b < after.len() implies after[a].0@
                            != after[b].0@ by {
                            if a != i as int && b != i as int {
                                assert(after[a] == before[a] && after[b] == before[b]);
                            } else if a == i as int {
                                assert(after[b] == before[b]);
                                assert(before[a].0@ != before[b].0@);
                            } else {
                                assert(after[a] == before[a]);
                                assert(before[a].0@ != before[b].0@);
                            }
                        }
                    }
                    lemma_entries_map(before);
                    lemma_entries_map(after);
                    assert(entries_map(after) =~= entries_map(before).insert(path@, info)) by {
                        assert forall|k: Seq<u8>|
                            entries_map(after).dom().contains(k) <==> entries_map(
                                before,
                            ).insert(path@, info).dom().contains(k) by {
                            if entries_map(after).dom().contains(k) {
                                let x = choose|x: int| 0 <= x < after.len() && after[x].0@ == k;
                                if x != i as int {
                                    assert(after[x] == before[x]);
                                }
                            }
                            if entries_map(before).dom().contains(k) {
                                let x = choose|x: int| 0 <= x < before.len() && before[x].0@ == k;
                                if x != i as int {
                                    assert(after[x] == before[x]);
                                } else {
                                    assert(after[x].0@ == k);
                                }
                            }
                            if k == path@ {
                                assert(after[i as int].0@ == k);
                            }
                        }
                        assert forall|k: Seq<u8>| #[trigger]
                            entries_map(after).dom().contains(k) implies entries_map(after)[k]
                            == entries_map(before).insert(path@, info)[k] by {
                            let x = choose|x: int| 0 <= x < after.len() && after[x].0@ == k;
                            if x != i as int {
                                assert(after[x] == before[x]);
                            }
                        }
                    }
                }
                self.entries = entries;
            },
            None => {
                let ghost k = path@;
                let mut entries = Vec::new();
                std::mem::swap(&mut entries, &mut self.entries);
                entries.push((path, info));
                proof {
                    let after = entries@;
                    assert(after.drop_last() =~= before);
                    assert forall|a: int, b: int| 0 <= a < b < after.len() implies after[a].0@
                        != after[b].0@ by {
                        if b < after.len() - 1 {
                            assert(after[a] == before[a] && after[b] == before[b]);
                        } else {
                            assert(after[a] == before[a]);
                        }
                    }
                }
                self.entries = entries;
            },
        }
    }
}

/// Once a slot has been filled, every later lookup gives the outcome of the
/// first one, whatever a new fetch would find, and leaves the slot as it is.
pub proof fn lemma_version_lookup_is_cached(
    slot: Option<Option<Seq<char>>>,
    first: Option<Seq<char>>,
    later: Option<Seq<char>>,
)
    ensures
        version_lookup(version_lookup(slot, first).1, later).0 == version_lookup(slot, first).0,
        version_lookup(version_lookup(slot, first).1, later).1 == version_lookup(slot, first).1,
{
}

/// What a read of the memo gives for `path`.
pub open spec fn memo_lookup(m: Map<Seq<u8>, GitInfo>, path: Seq<u8>) -> Option<GitInfo> {
    if m.dom().contains(path) {
        Some(m[path])
    } else {
        None
    }
}

/// A read gives back what the last write for the same path wrote, and a write
/// for one path leaves every other path as it was.
pub proof fn lemma_memo_read_after_write(
    m: Map<Seq<u8>, GitInfo>,
    written: Seq<u8>,
    info: GitInfo,
    read: Seq<u8>,
)
    ensures
        memo_lookup(m.insert(written, info), read) == (if read == written {
            Some(info)
        } else {
            memo_lookup(m, read)
        }),
{
}

} // verus!
