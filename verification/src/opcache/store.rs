//! The cache directory: the names of its entries, how a lookup is
//! classified, and which entries eviction removes to fit a byte limit.

use vstd::prelude::*;
use super::{ArtifactKind, artifact_extension, CacheKey};
use crate::modules::{last_index_before, last_index_of};
use crate::text::{chars_are, chars_of, copy_chars, push_chars, push_str, string_of};

verus! {

broadcast use vstd::std_specs::vec::group_vec_axioms;

/// A cache directory.
#[derive(Debug)]
pub struct Store {
    directory: std::path::PathBuf,
}

impl Store {
    /// The directory the store was made for.
    pub closed spec fn dir(&self) -> std::path::PathBuf {
        self.directory
    }

    pub fn new(directory: std::path::PathBuf) -> (store: Store)
        ensures
            store.dir() == directory,
    {
        Store { directory }
    }

    pub fn directory(&self) -> (directory: &std::path::PathBuf)
        ensures
            *directory == self.dir(),
    {
        &self.directory
    }
}

/// The file name of a cached program: the key and `.thpbc`.
pub open spec fn entry_file_name(key: Seq<char>) -> Seq<char> {
    key + ".thpbc"@
}

/// The file name of an artifact: the key, `.` and the extension.
pub open spec fn artifact_file_name(key: Seq<char>, extension: Seq<char>) -> Seq<char> {
    key + "."@ + extension
}

/// The file name under which a program with `key` is cached.
pub fn entry_name(key: &CacheKey) -> (name: String)
    ensures
        name@ == entry_file_name(key@),
{
    let mut out = chars_of(key.as_str());
    push_str(&mut out, ".thpbc");
    string_of(out.as_slice())
}

/// The file name under which an artifact with `key` and `extension` is
/// stored; frozen manifests use the extension `thpm`.
pub fn artifact_name(key: &CacheKey, extension: &str) -> (name: String)
    ensures
        name@ == artifact_file_name(key@, extension@),
{
    let mut out = chars_of(key.as_str());
    push_str(&mut out, ".");
    let ext = chars_of(extension);
    push_chars(&mut out, ext.as_slice());
    string_of(out.as_slice())
}

/// The file name of a module artifact of a kind.
pub fn module_artifact_name(key: &CacheKey, kind: ArtifactKind) -> (name: String)
    ensures
        name@ == artifact_file_name(key@, artifact_extension(kind)),
{
    artifact_name(key, kind.extension())
}

/// What a lookup found.
#[derive(Clone, Copy, Debug, PartialEq, Eq, Structural)]
pub enum CacheStatus {
    Hit,
    Miss,
    Corrupt,
}

impl CacheStatus {
    /// A missing entry is a miss; an entry that decodes is a hit, and one
    /// that does not is corrupt and never used.
    pub fn of_lookup(found: bool, decodes: bool) -> (status: CacheStatus)
        ensures
            !found ==> status == CacheStatus::Miss,
            found && decodes ==> status == CacheStatus::Hit,
            found && !decodes ==> status == CacheStatus::Corrupt,
    {
        if !found {
            CacheStatus::Miss
        } else if decodes {
            CacheStatus::Hit
        } else {
            CacheStatus::Corrupt
        }
    }
}

/// The extension of a file name: what follows its last `.`, unless that
/// `.` begins the name.
pub open spec fn file_extension(name: Seq<char>) -> Option<Seq<char>> {
    match last_index_before(name, '.', name.len() as int) {
        Some(k) => if k == 0 {
            None
        } else {
            Some(name.subrange(k + 1, name.len() as int))
        },
        None => None,
    }
}

/// Files of the cache's own kinds: programs, interfaces, objects and
/// manifests.
pub open spec fn is_cache_file(name: Seq<char>) -> bool {
    match file_extension(name) {
        Some(e) => e == "thpi"@ || e == "thpo"@ || e == "thpbc"@ || e == "thpm"@,
        None => false,
    }
}

/// Whether a file in the cache directory is one of the cache's files.
pub fn cache_file(name: &str) -> (is_cache: bool)
    ensures
        is_cache == is_cache_file(name@),
{
    let chars = chars_of(name);
    let text = chars.as_slice();
    match last_index_of(text, '.') {
        Some(k) => {
            assert(last_index_before(text@, '.', text@.len() as int) is Some);
            assert(k < text.len());
            if k == 0 {
                return false;
            }
            let ext = copy_chars(text, k + 1, text.len());
            chars_are(ext.as_slice(), "thpi") || chars_are(ext.as_slice(), "thpo") || chars_are(ext.as_slice(), "thpbc")
                || chars_are(ext.as_slice(), "thpm")
        },
        None => false,
    }
}

/// One file in the cache directory: its name, its size, and when it was
/// last modified, in nanoseconds from the Unix epoch (before it negative).
#[derive(Clone, Debug, PartialEq, Eq)]
pub struct CacheEntry {
    pub name: String,
    pub bytes: u64,
    pub modified_nanos: i128,
}

/// What an eviction removed and how much remains.
#[derive(Clone, Copy, Debug, PartialEq, Eq, Structural)]
pub struct PruneResult {
    pub removed_entries: usize,
    pub removed_bytes: u64,
    pub remaining_bytes: u64,
}

impl Default for PruneResult {
    /// Nothing removed, nothing remaining.
    fn default() -> (result: Self)
        ensures
            result.removed_entries == 0,
            result.removed_bytes == 0,
            result.remaining_bytes == 0,
    {
        PruneResult { removed_entries: 0, removed_bytes: 0, remaining_bytes: 0 }
    }
}

/// Entry `i` was modified before entry `j`, or at the same time and is
/// listed first.
pub open spec fn older(es: Seq<CacheEntry>, i: int, j: int) -> bool {
    es[i].modified_nanos < es[j].modified_nanos || (es[i].modified_nanos == es[j].modified_nanos && i < j)
}

/// `order` lists the cache's own files among the first `n` entries, each
/// once, oldest first.
pub open spec fn oldest_first_upto(es: Seq<CacheEntry>, order: Seq<usize>, n: int) -> bool {
    &&& forall|a: int| 0 <= a < order.len() ==> (#[trigger] order[a] as int) < n && is_cache_file(es[order[a] as int].name@)
    &&& forall|a: int, b: int| 0 <= a < b < order.len() ==> older(es, #[trigger] order[a] as int, #[trigger] order[b] as int)
    &&& forall|i: int| 0 <= i < n && is_cache_file(#[trigger] es[i].name@) ==> order.contains(i as usize)
}

/// `order` lists the cache's own files among `es`, each once, oldest
/// first.
pub open spec fn oldest_first(es: Seq<CacheEntry>, order: Seq<usize>) -> bool {
    oldest_first_upto(es, order, es.len() as int)
}

/// The bytes of the cache's own files among the first `n` entries.
pub open spec fn cache_bytes(es: Seq<CacheEntry>, n: int) -> int
    decreases n,
{
    if n <= 0 {
        0
    } else {
        cache_bytes(es, n - 1) + if is_cache_file(es[n - 1].name@) {
            es[n - 1].bytes as int
        } else {
            0
        }
    }
}

/// The bytes of the listed entries.
pub open spec fn listed_bytes(es: Seq<CacheEntry>, s: Seq<usize>) -> int
    decreases s.len(),
{
    if s.len() == 0 {
        0
    } else {
        listed_bytes(es, s.drop_last()) + es[s.last() as int].bytes as int
    }
}

/// Eviction removes the `count` oldest files: the fewest, from the
/// oldest, that bring what remains within `maximum`, or all of them.
pub open spec fn evicts(es: Seq<CacheEntry>, order: Seq<usize>, maximum: u64, count: int) -> bool {
    let total = cache_bytes(es, es.len() as int);
    &&& 0 <= count <= order.len()
    &&& forall|a: int| 0 <= a < count ==> total - listed_bytes(es, #[trigger] order.subrange(0, a)) > maximum
    &&& count == order.len() || total - listed_bytes(es, order.subrange(0, count)) <= maximum
}

/// Which files an eviction removes, in order, and its result.
pub struct PrunePlan {
    /// The cache's own files, oldest first, as positions in the listing.
    pub by_age: Vec<usize>,
    /// The files to remove, in the order to remove them.
    pub remove: Vec<usize>,
    pub result: PruneResult,
}

proof fn lemma_listed_prefix(es: Seq<CacheEntry>, s: Seq<usize>, c: int)
    requires
        0 <= c <= s.len(),
    ensures
        0 <= listed_bytes(es, s.subrange(0, c)) <= listed_bytes(es, s),
    decreases s.len(),
{
    if c == s.len() {
        assert(s.subrange(0, c) =~= s);
        lemma_listed_prefix_nonneg(es, s);
    } else {
        assert(s.subrange(0, c) =~= s.drop_last().subrange(0, c));
        lemma_listed_prefix(es, s.drop_last(), c);
    }
}

proof fn lemma_listed_prefix_nonneg(es: Seq<CacheEntry>, s: Seq<usize>)
    ensures
        listed_bytes(es, s) >= 0,
    decreases s.len(),
{
    if s.len() > 0 {
        lemma_listed_prefix_nonneg(es, s.drop_last());
    }
}

proof fn lemma_listed_remove(es: Seq<CacheEntry>, s: Seq<usize>, k: int)
    requires
        0 <= k < s.len(),
    ensures
        listed_bytes(es, s) == listed_bytes(es, s.remove(k)) + es[s[k] as int].bytes as int,
    decreases s.len(),
{
    if k == s.len() - 1 {
        assert(s.remove(k) =~= s.drop_last());
    } else {
        let t = s.remove(k);
        assert(t.drop_last() =~= s.drop_last().remove(k));
        assert(t.last() == s.last());
        lemma_listed_remove(es, s.drop_last(), k);
    }
}

/// Listing each of the cache's files once gives their total, in any order.
proof fn lemma_listed_all(es: Seq<CacheEntry>, s: Seq<usize>, n: int)
    requires
        0 <= n <= es.len(),
        es.len() <= usize::MAX,
        s.no_duplicates(),
        forall|a: int| 0 <= a < s.len() ==> (#[trigger] s[a] as int) < n && is_cache_file(es[s[a] as int].name@),
        forall|i: int| 0 <= i < n && is_cache_file(#[trigger] es[i].name@) ==> s.contains(i as usize),
    ensures
        listed_bytes(es, s) == cache_bytes(es, n),
    decreases n,
{
    if n == 0 {
        if s.len() > 0 {
            assert(s[0] < 0);
        }
    } else if is_cache_file(es[n - 1].name@) {
        assert(s.contains((n - 1) as usize));
        let k = choose|k: int| 0 <= k < s.len() && s[k] == (n - 1) as usize;
        let t = s.remove(k);
        lemma_listed_remove(es, s, k);
        assert forall|a: int| 0 <= a < t.len() implies (#[trigger] t[a] as int) < n - 1 && is_cache_file(es[t[a] as int].name@) by {
            if a < k {
                assert(t[a] == s[a]);
                assert(s[a] != s[k]);
            } else {
                assert(t[a] == s[a + 1]);
                assert(s[a + 1] != s[k]);
            }
        }
        assert forall|i: int| 0 <= i < n - 1 && is_cache_file(#[trigger] es[i].name@) implies t.contains(i as usize) by {
            assert(s.contains(i as usize));
            let j = choose|j: int| 0 <= j < s.len() && s[j] == i as usize;
            if j < k {
                assert(t[j] == i as usize);
            } else if j > k {
                assert(t[j - 1] == i as usize);
            }
        }
        assert(t.no_duplicates()) by {
            assert forall|a: int, b: int| 0 <= a < t.len() && 0 <= b < t.len() && a != b implies t[a] != t[b] by {
                let a2 = if a < k { a } else { a + 1 };
                let b2 = if b < k { b } else { b + 1 };
                assert(t[a] == s[a2]);
                assert(t[b] == s[b2]);
            }
        }
        lemma_listed_all(es, t, n - 1);
    } else {
        assert forall|a: int| 0 <= a < s.len() implies (#[trigger] s[a] as int) < n - 1 && is_cache_file(es[s[a] as int].name@) by {
            if s[a] as int == n - 1 {
                assert(is_cache_file(es[n - 1].name@));
            }
        }
        lemma_listed_all(es, s, n - 1);
    }
}

proof fn lemma_cache_bytes_grow(es: Seq<CacheEntry>, i: int, n: int)
    requires
        0 <= i <= n,
    ensures
        cache_bytes(es, i) <= cache_bytes(es, n),
    decreases n - i,
{
    if i < n {
        lemma_cache_bytes_grow(es, i, n - 1);
    }
}

/// The cache's own files, oldest first.
fn files_by_age(entries: &Vec<CacheEntry>) -> (order: Vec<usize>)
    ensures
        oldest_first(entries@, order@),
{
    let ghost es = entries@;
    let mut order: Vec<usize> = Vec::new();
    let mut i: usize = 0;
    while i < entries.len()
        invariant
            i <= es.len(),
            es == entries@,
            oldest_first_upto(es, order@, i as int),
        decreases entries.len() - i,
    {
        if cache_file(entries[i].name.as_str()) {
            let t = entries[i].modified_nanos;
            let mut k: usize = 0;
            while k < order.len()
                invariant
                    k <= order@.len(),
                    i < es.len(),
                    es == entries@,
                    t == es[i as int].modified_nanos,
                    oldest_first_upto(es, order@, i as int),
                    forall|a: int| 0 <= a < k ==> es[#[trigger] order@[a] as int].modified_nanos <= t,
                ensures
                    k <= order@.len(),
                    forall|a: int| 0 <= a < k ==> es[#[trigger] order@[a] as int].modified_nanos <= t,
                    k < order@.len() ==> es[order@[k as int] as int].modified_nanos > t,
                decreases order.len() - k,
            {
                if entries[order[k]].modified_nanos > t {
                    break;
                }
                k = k + 1;
            }
            let ghost before = order@;
            order.insert(k, i);
            proof {
                assert(order@ =~= before.insert(k as int, i));
                assert forall|a: int, b: int| 0 <= a < b < order@.len() implies older(es, #[trigger] order@[a] as int, #[trigger] order@[b] as int) by {
                    if b < k {
                        assert(older(es, before[a] as int, before[b] as int));
                    } else if b == k {
                        assert(es[before[a] as int].modified_nanos <= t);
                        assert(before[a] < i);
                    } else if a < k {
                        assert(older(es, before[a] as int, before[b - 1] as int));
                    } else if a == k {
                        if b - 1 > k {
                            assert(older(es, before[k as int] as int, before[b - 1] as int));
                        }
                        assert(es[before[k as int] as int].modified_nanos > t);
                    } else {
                        assert(older(es, before[a - 1] as int, before[b - 1] as int));
                    }
                }
                assert forall|j: int| 0 <= j < i + 1 && is_cache_file(#[trigger] es[j].name@) implies order@.contains(j as usize) by {
                    if j < i {
                        assert(before.contains(j as usize));
                        let x = choose|x: int| 0 <= x < before.len() && before[x] == j as usize;
                        if x < k {
                            assert(order@[x] == j as usize);
                        } else {
                            assert(order@[x + 1] == j as usize);
                        }
                    } else {
                        assert(order@[k as int] == j as usize);
                    }
                }
            }
        } else {
            proof {
                assert forall|j: int| 0 <= j < i + 1 && is_cache_file(#[trigger] es[j].name@) implies order@.contains(j as usize) by {
                    if j == i {
                        assert(!is_cache_file(es[i as int].name@));
                    }
                }
            }
        }
        i = i + 1;
    }
    order
}

/// Plans an eviction that brings the cache within `maximum_bytes`: the
/// oldest of the cache's files go first, until what remains fits.
pub fn plan_prune(entries: &Vec<CacheEntry>, maximum_bytes: u64) -> (plan: PrunePlan)
    requires
        cache_bytes(entries@, entries@.len() as int) <= u64::MAX,
    ensures
        oldest_first(entries@, plan.by_age@),
        evicts(entries@, plan.by_age@, maximum_bytes, plan.remove@.len() as int),
        plan.remove@ == plan.by_age@.subrange(0, plan.remove@.len() as int),
        plan.result.removed_entries == plan.remove@.len(),
        plan.result.removed_bytes == listed_bytes(entries@, plan.remove@),
        plan.result.remaining_bytes == cache_bytes(entries@, entries@.len() as int) - listed_bytes(entries@, plan.remove@),
{
    let ghost es = entries@;
    let ghost n = es.len() as int;
    let order = files_by_age(entries);
    let mut total: u64 = 0;
    let mut i: usize = 0;
    while i < entries.len()
        invariant
            i <= es.len(),
            es == entries@,
            n == es.len(),
            cache_bytes(es, n) <= u64::MAX,
            total == cache_bytes(es, i as int),
        decreases entries.len() - i,
    {
        proof {
            lemma_cache_bytes_grow(es, i as int + 1, n);
        }
        if cache_file(entries[i].name.as_str()) {
            total = total + entries[i].bytes;
        }
        i = i + 1;
    }
    proof {
        assert(order@.no_duplicates()) by {
            assert forall|a: int, b: int| 0 <= a < order@.len() && 0 <= b < order@.len() && a != b implies order@[a] != order@[b] by {
                if a < b {
                    assert(older(es, order@[a] as int, order@[b] as int));
                } else {
                    assert(older(es, order@[b] as int, order@[a] as int));
                }
            }
        }
        lemma_listed_all(es, order@, n);
    }
    let mut bytes: u64 = total;
    let mut removed_bytes: u64 = 0;
    let mut remove: Vec<usize> = Vec::new();
    assert(remove@ =~= order@.subrange(0, 0));
    while remove.len() < order.len()
        invariant
            es == entries@,
            n == es.len(),
            oldest_first(es, order@),
            total == cache_bytes(es, n),
            listed_bytes(es, order@) == total,
            remove@.len() <= order@.len(),
            remove@ == order@.subrange(0, remove@.len() as int),
            removed_bytes == listed_bytes(es, remove@),
            bytes == total - removed_bytes,
            forall|a: int| 0 <= a < remove@.len() ==> total - listed_bytes(es, #[trigger] order@.subrange(0, a)) > maximum_bytes,
        ensures
            remove@.len() <= order@.len(),
            remove@ == order@.subrange(0, remove@.len() as int),
            removed_bytes == listed_bytes(es, remove@),
            bytes == total - removed_bytes,
            forall|a: int| 0 <= a < remove@.len() ==> total - listed_bytes(es, #[trigger] order@.subrange(0, a)) > maximum_bytes,
            remove@.len() == order@.len() || bytes <= maximum_bytes,
        decreases order.len() - remove.len(),
    {
        if bytes <= maximum_bytes {
            break;
        }
        let c = remove.len();
        let e = order[c];
        proof {
            let next = order@.subrange(0, c as int + 1);
            assert(next.drop_last() =~= remove@);
            assert(next.last() == e);
            lemma_listed_prefix(es, order@, c as int + 1);
            assert(e < es.len());
        }
        bytes = bytes - entries[e].bytes;
        removed_bytes = removed_bytes + entries[e].bytes;
        remove.push(e);
        proof {
            assert(remove@ =~= order@.subrange(0, c as int + 1));
        }
    }
    let result = PruneResult { removed_entries: remove.len(), removed_bytes, remaining_bytes: bytes };
    PrunePlan { by_age: order, remove, result }
}

} // verus!
