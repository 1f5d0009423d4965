//! The fingerprint store and the staleness decision.
//!
//! A store maps path keys to cache entries behind one of two backends: a
//! local in-memory map persisted to a file on `flush`, or a remote
//! key-value service where every `set` is immediately durable. Read
//! failures on the remote backend degrade to a cache miss, never to stale
//! data; the staleness oracle then decides from the cached and live file
//! metadata whether a fingerprint must be recomputed.

use vstd::prelude::*;
use vstd::string::*;

use crate::semantic_hash::{SemanticHash, SemanticHashModel};
use crate::strutil::str_eq;

verus! {

/// One cached fingerprint record: the fingerprint itself (when one was
/// computed) and the file size and modification time it was computed
/// against.
#[derive(Debug, Clone, PartialEq, Eq)]
pub struct CacheEntry {
    pub semantic_hash: Option<SemanticHash>,
    pub file_size: u64,
    pub modified: u64,
}

/// Mathematical model of a [`CacheEntry`].
pub ghost struct CacheEntryModel {
    pub semantic_hash: Option<SemanticHashModel>,
    pub file_size: u64,
    pub modified: u64,
}

impl View for CacheEntry {
    type V = CacheEntryModel;

    open spec fn view(&self) -> CacheEntryModel {
        CacheEntryModel {
            semantic_hash: match self.semantic_hash {
                Some(h) => Some(h@),
                None => None,
            },
            file_size: self.file_size,
            modified: self.modified,
        }
    }
}

/// The store could not be opened: the remote backend's address was not
/// accepted.
#[derive(Debug, Clone, Copy, PartialEq, Eq, Structural)]
pub enum StoreInitError {
    BackendUnreachable,
}

/// An entry could not be persisted.
#[derive(Debug, Clone, Copy, PartialEq, Eq, Structural)]
pub enum StoreWriteError {
    /// The key cannot be carried by the store's text encoding.
    UnencodableKey,
    /// The remote backend refused or never received the write.
    BackendWrite,
}

/// Backend selector: a local file path, or a remote connection string.
#[derive(Debug, Clone)]
pub enum CacheBackend {
    File(String),
    Redis(String),
}

/// Exact byte copy of a byte vector.
pub fn copy_bytes(v: &Vec<u8>) -> (r: Vec<u8>)
    ensures
        r@ == v@,
{
    let mut out: Vec<u8> = Vec::new();
    let n = v.len();
    let mut i: usize = 0;
    while i < n
        invariant
            i <= n,
            n == v@.len(),
            out@ =~= v@.take(i as int),
        decreases n - i,
    {
        out.push(v[i]);
        i += 1;
    }
    proof {
        assert(v@.take(n as int) =~= v@);
    }
    out
}

/// Deep copy of a cache entry, equal to the original in the model.
pub fn clone_entry(e: &CacheEntry) -> (r: CacheEntry)
    ensures
        r@ == e@,
{
    let semantic_hash = match &e.semantic_hash {
        Some(h) => Some(
            SemanticHash {
                perceptual: match &h.perceptual {
                    Some(v) => Some(copy_bytes(v)),
                    None => None,
                },
                content: h.content,
            },
        ),
        None => None,
    };
    CacheEntry { semantic_hash, file_size: e.file_size, modified: e.modified }
}

/// The map that an association list of path keys and entries denotes;
/// later pairs win.
pub open spec fn assoc_view<V: View>(s: Seq<(String, V)>) -> Map<Seq<char>, <V as View>::V>
    decreases s.len(),
{
    if s.len() == 0 {
        Map::empty()
    } else {
        assoc_view(s.drop_last()).insert(s.last().0@, s.last().1@)
    }
}

/// No two pairs share a key.
pub open spec fn unique_keys<V>(s: Seq<(String, V)>) -> bool {
    forall|i: int, j: int| 0 <= i < j < s.len() ==> s[i].0@ != s[j].0@
}

pub proof fn lemma_assoc_view_dom<V: View>(s: Seq<(String, V)>)
    ensures
        forall|k: Seq<char>|
            assoc_view(s).contains_key(k) <==> exists|i: int| 0 <= i < s.len() && s[i].0@ == k,
    decreases s.len(),
{
    if s.len() > 0 {
        lemma_assoc_view_dom(s.drop_last());
        assert forall|k: Seq<char>| assoc_view(s).contains_key(k) implies exists|i: int|
            0 <= i < s.len() && s[i].0@ == k by {
            if k == s.last().0@ {
                assert(s[s.len() - 1].0@ == k);
            } else {
                assert(assoc_view(s.drop_last()).contains_key(k));
                let i = choose|i: int| 0 <= i < s.drop_last().len() && s.drop_last()[i].0@ == k;
                assert(s.drop_last()[i] == s[i]);
                assert(s[i].0@ == k);
            }
        }
        assert forall|k: Seq<char>| (exists|i: int| 0 <= i < s.len() && s[i].0@ == k) implies
            assoc_view(s).contains_key(k) by {
            let i = choose|i: int| 0 <= i < s.len() && s[i].0@ == k;
            if i < s.len() - 1 {
                assert(s.drop_last()[i] == s[i]);
                assert(exists|j: int| 0 <= j < s.drop_last().len() && s.drop_last()[j].0@ == k);
                assert(assoc_view(s.drop_last()).contains_key(k));
            }
        }
    }
}

pub proof fn lemma_assoc_view_at<V: View>(s: Seq<(String, V)>, i: int)
    requires
        unique_keys(s),
        0 <= i < s.len(),
    ensures
        assoc_view(s).contains_key(s[i].0@),
        assoc_view(s)[s[i].0@] == s[i].1@,
    decreases s.len(),
{
    if i == s.len() - 1 {
    } else {
        assert(s.drop_last()[i] == s[i]);
        assert(unique_keys(s.drop_last())) by {
            assert forall|a: int, b: int| 0 <= a < b < s.len() - 1 implies s.drop_last()[a].0@
                != s.drop_last()[b].0@ by {
                assert(s[a].0@ != s[b].0@);
            }
        }
        lemma_assoc_view_at(s.drop_last(), i);
        assert(s[i].0@ != s.last().0@);
    }
}

/// Look a key up in an association list with unique keys.
pub fn assoc_get<'a, V: View>(s: &'a Vec<(String, V)>, key: &str) -> (r: Option<&'a V>)
    requires
        unique_keys(s@),
    ensures
        match r {
            Some(e) => assoc_view(s@).contains_key(key@) && e@ == assoc_view(s@)[key@],
            None => !assoc_view(s@).contains_key(key@),
        },
{
    proof {
        lemma_assoc_view_dom(s@);
    }
    let n = s.len();
    let mut i: usize = 0;
    while i < n
        invariant
            i <= n,
            n == s@.len(),
            unique_keys(s@),
            forall|j: int| 0 <= j < i ==> s@[j].0@ != key@,
        decreases n - i,
    {
        if str_eq(s[i].0.as_str(), key) {
            proof {
                lemma_assoc_view_at(s@, i as int);
            }
            return Some(&s[i].1);
        }
        i += 1;
    }
    proof {
        lemma_assoc_view_dom(s@);
    }
    None
}

pub proof fn lemma_assoc_update<V: View>(s: Seq<(String, V)>, i: int, p: (String, V))
    requires
        unique_keys(s),
        0 <= i < s.len(),
        p.0@ == s[i].0@,
    ensures
        assoc_view(s.update(i, p)) == assoc_view(s).insert(p.0@, p.1@),
        unique_keys(s.update(i, p)),
    decreases s.len(),
{
    let s2 = s.update(i, p);
    assert forall|a: int, b: int| 0 <= a < b < s2.len() implies s2[a].0@ != s2[b].0@ by {
        assert(s[a].0@ != s[b].0@);
    }
    if i == s.len() - 1 {
        assert(s2.drop_last() =~= s.drop_last());
        assert(s2.last() == p);
        assert(assoc_view(s).insert(p.0@, p.1@) =~= assoc_view(s.drop_last()).insert(
            s.last().0@,
            s.last().1@,
        ).insert(p.0@, p.1@));
        assert(assoc_view(s.drop_last()).insert(p.0@, p.1@) =~= assoc_view(s.drop_last()).insert(
            s.last().0@,
            s.last().1@,
        ).insert(p.0@, p.1@));
    } else {
        assert(unique_keys(s.drop_last())) by {
            assert forall|a: int, b: int| 0 <= a < b < s.len() - 1 implies s.drop_last()[a].0@
                != s.drop_last()[b].0@ by {
                assert(s[a].0@ != s[b].0@);
            }
        }
        assert(s.drop_last()[i] == s[i]);
        lemma_assoc_update(s.drop_last(), i, p);
        assert(s2.drop_last() =~= s.drop_last().update(i, p));
        assert(s2.last() == s.last());
        assert(s[i].0@ != s.last().0@);
        assert(assoc_view(s2) =~= assoc_view(s.drop_last()).insert(p.0@, p.1@).insert(
            s.last().0@,
            s.last().1@,
        ));
        assert(assoc_view(s.drop_last()).insert(p.0@, p.1@).insert(s.last().0@, s.last().1@)
            =~= assoc_view(s.drop_last()).insert(s.last().0@, s.last().1@).insert(p.0@, p.1@));
    }
}

/// Insert or overwrite a key in an association list with unique keys.
pub fn assoc_set<V: View>(s: &mut Vec<(String, V)>, key: &str, entry: V)
    requires
        unique_keys(old(s)@),
    ensures
        unique_keys(final(s)@),
        assoc_view(final(s)@) == assoc_view(old(s)@).insert(key@, entry@),
{
    let n = s.len();
    let mut i: usize = 0;
    while i < n
        invariant
            i <= n,
            n == s@.len(),
            unique_keys(s@),
            s@ == old(s)@,
            forall|j: int| 0 <= j < i ==> s@[j].0@ != key@,
        decreases n - i,
    {
        if str_eq(s[i].0.as_str(), key) {
            let owned = key.to_owned();
            proof {
                lemma_assoc_update(s@, i as int, (owned, entry));
            }
            s.set(i, (owned, entry));
            return ;
        }
        i += 1;
    }
    proof {
        lemma_assoc_view_dom(s@);
    }
    let ghost before = s@;
    s.push((key.to_owned(), entry));
    proof {
        assert(s@.drop_last() =~= before);
        assert forall|a: int, b: int| 0 <= a < b < s@.len() implies s@[a].0@ != s@[b].0@ by {
            if b < s@.len() - 1 {
                assert(before[a].0@ != before[b].0@);
            } else {
                assert(before[a].0@ != key@);
            }
        }
    }
}

/// The staleness decision over a cached record and the live metadata:
/// recompute when the live metadata is unreadable, when nothing is cached,
/// or when the observed size or modification time differs from the live
/// one.
pub open spec fn stale_decision_spec(
    cached: Option<CacheEntryModel>,
    live: Option<(u64, u64)>,
) -> bool {
    match live {
        None => true,
        Some(l) => match cached {
            None => true,
            Some(e) => e.file_size != l.0 || e.modified != l.1,
        },
    }
}

/// The staleness decision for key `k` against a whole store map.
pub open spec fn stale_on(
    m: Map<Seq<char>, CacheEntryModel>,
    k: Seq<char>,
    live: Option<(u64, u64)>,
) -> bool {
    stale_decision_spec(
        if m.contains_key(k) {
            Some(m[k])
        } else {
            None
        },
        live,
    )
}

/// The pure staleness oracle: one boolean decision from the cached record
/// and the live file metadata.
pub fn stale_decision(cached: Option<&CacheEntry>, live: Option<(u64, u64)>) -> (r: bool)
    ensures
        r == stale_decision_spec(
            match cached {
                Some(e) => Some(e@),
                None => None,
            },
            live,
        ),
{
    match live {
        None => true,
        Some((size, mtime)) => match cached {
            None => true,
            Some(e) => e.file_size != size || e.modified != mtime,
        },
    }
}

#[verifier::external_type_specification]
#[verifier::external_body]
pub struct ExRedisClient(redis::Client);

/// Whether the remote client accepts a connection string: a pure function
/// of the address alone, decided without touching the network.
pub uninterp spec fn redis_addr_accepted(url: Seq<char>) -> bool;

/// Relies on redis::Client::open: it only checks and stores the connection
/// parameters — a pure function of the address string, no connection is
/// opened yet — so its acceptance carries the name above.
#[verifier::external_body]
fn redis_client_open(url: &str) -> (r: Option<redis::Client>)
    ensures
        r is Some <==> redis_addr_accepted(url@),
{
    redis::Client::open(url).ok()
}

/// Relies on redis::Client::get_connection and the GET command: one remote
/// read; a connection or protocol failure is reported as absence, and
/// nothing is promised of a value some writer stored.
#[verifier::external_body]
fn redis_get_raw(client: &redis::Client, key: &str) -> (r: Option<String>) {
    match client.get_connection() {
        Ok(mut conn) => redis::cmd("GET").arg(key).query::<String>(&mut conn).ok(),
        Err(_) => None,
    }
}

/// Relies on redis::Client::get_connection and the SET command: one remote
/// write, durable on the server when it reports success.
#[verifier::external_body]
fn redis_set_raw(client: &redis::Client, key: &str, payload: &str) -> (r: bool) {
    match client.get_connection() {
        Ok(mut conn) => redis::cmd("SET").arg(key).arg(payload).query::<()>(&mut conn).is_ok(),
        Err(_) => false,
    }
}

/// A fresh, empty entry list for the local backend.
fn empty_store() -> (r: Vec<(String, CacheEntry)>)
    ensures
        unique_keys(r@),
        assoc_view(r@) == Map::<Seq<char>, CacheEntryModel>::empty(),
        forall|k: Seq<char>| !assoc_view(r@).contains_key(k),
{
    let v: Vec<(String, CacheEntry)> = Vec::new();
    proof {
        assert(assoc_view(v@) =~= Map::<Seq<char>, CacheEntryModel>::empty());
    }
    v
}

/// The fingerprint store: an in-memory map persisted to a file for the
/// local backend, or a handle to a remote key-value service.
pub struct EnhancedCache {
    backend: CacheBackend,
    redis_client: Option<redis::Client>,
    file_cache: Option<Vec<(String, CacheEntry)>>,
}

impl EnhancedCache {
    /// Exactly one backend's state is present, and the local map keeps its
    /// keys unique and encodable.
    pub closed spec fn wf(&self) -> bool {
        match self.backend {
            CacheBackend::File(_) => (self.file_cache matches Some(cs) && unique_keys(cs@) && (
            forall|k: Seq<char>|
                assoc_view(cs@).contains_key(k) ==> crate::store_codec::key_encodable(k)))
                && self.redis_client is None,
            CacheBackend::Redis(_) => self.redis_client is Some && self.file_cache is None,
        }
    }

    pub closed spec fn is_local(&self) -> bool {
        self.backend matches CacheBackend::File(_)
    }

    /// The key-entry list the local backend holds.
    pub closed spec fn entries_model(&self) -> Seq<(Seq<char>, CacheEntryModel)>
        recommends
            self.is_local(),
    {
        crate::store_codec::models_of(self.file_cache.unwrap()@)
    }

    /// The map the local backend denotes.
    pub closed spec fn view_map(&self) -> Map<Seq<char>, CacheEntryModel>
        recommends
            self.is_local(),
    {
        assoc_view(self.file_cache.unwrap()@)
    }

    /// Opens a store. For the local backend the caller hands over the
    /// backing file's current text, if the file exists; text that does not
    /// parse yields an empty store by design, never an error. For the
    /// remote backend a client handle is built from the address; no data
    /// is read eagerly.
    pub fn new(backend: CacheBackend, local_contents: Option<&str>) -> (r: Result<
        Self,
        StoreInitError,
    >)
        ensures
            backend matches CacheBackend::File(_) ==> (r matches Ok(c) && c.wf() && c.is_local()
                && c.view_map() == match local_contents {
                Some(s) => match crate::store_codec::parse_store_spec(s@) {
                    Some(ms) => crate::store_codec::model_map(ms),
                    None => Map::<Seq<char>, CacheEntryModel>::empty(),
                },
                None => Map::<Seq<char>, CacheEntryModel>::empty(),
            }),
            backend matches CacheBackend::Redis(_) ==> (r matches Ok(c) ==> c.wf()
                && !c.is_local()),
            backend matches CacheBackend::Redis(u) ==> (r is Ok <==> redis_addr_accepted(u@)),
            r matches Err(e) ==> e == StoreInitError::BackendUnreachable && backend
                matches CacheBackend::Redis(_),
    {
        match &backend {
            CacheBackend::File(_) => {
                let cache: Vec<(String, CacheEntry)> = match local_contents {
                    Some(s) => match crate::store_codec::parse_store_text(s) {
                        Some(cs) => cs,
                        None => empty_store(),
                    },
                    None => empty_store(),
                };
                Ok(EnhancedCache { backend, redis_client: None, file_cache: Some(cache) })
            },
            CacheBackend::Redis(url) => {
                match redis_client_open(url.as_str()) {
                    Some(client) => Ok(
                        EnhancedCache { backend, redis_client: Some(client), file_cache: None },
                    ),
                    None => Err(StoreInitError::BackendUnreachable),
                }
            },
        }
    }

    /// Reads the cached entry for a key. On the local backend this is the
    /// in-memory lookup, exactly; on the remote backend any read or decode
    /// failure degrades to absence, so an unreachable cache can only cost
    /// recomputation, never correctness.
    pub fn get(&self, key: &str) -> (r: Option<CacheEntry>)
        requires
            self.wf(),
        ensures
            self.is_local() ==> (match r {
                Some(e) => self.view_map().contains_key(key@) && e@ == self.view_map()[key@],
                None => !self.view_map().contains_key(key@),
            }),
    {
        match &self.backend {
            CacheBackend::File(_) => match &self.file_cache {
                Some(cs) => match assoc_get(cs, key) {
                    Some(e) => Some(clone_entry(e)),
                    None => None,
                },
                None => vstd::pervasive::unreached(),
            },
            CacheBackend::Redis(_) => match &self.redis_client {
                Some(client) => match redis_get_raw(client, key) {
                    Some(payload) => crate::store_codec::parse_entry_text(payload.as_str()),
                    None => None,
                },
                None => vstd::pervasive::unreached(),
            },
        }
    }

    /// Stores an entry under a key, overwriting any previous record whole.
    /// On the local backend the write is in-memory only until `flush`; a
    /// key the text encoding cannot carry is refused. On the remote
    /// backend the write is immediately durable, or reported failed.
    pub fn set(&mut self, key: &str, entry: CacheEntry) -> (r: Result<(), StoreWriteError>)
        requires
            old(self).wf(),
        ensures
            final(self).wf(),
            final(self).is_local() == old(self).is_local(),
            old(self).is_local() ==> (match r {
                Ok(_) => crate::store_codec::key_encodable(key@) && final(self).view_map() == old(
                    self,
                ).view_map().insert(key@, entry@),
                Err(e) => e == StoreWriteError::UnencodableKey && !crate::store_codec::key_encodable(
                    key@,
                ) && *final(self) == *old(self),
            }),
            !old(self).is_local() ==> (*final(self) == *old(self) && (r matches Err(e) ==> e
                == StoreWriteError::BackendWrite)),
    {
        let is_file = matches!(&self.backend, CacheBackend::File(_));
        if is_file {
            if !crate::store_codec::key_is_encodable(key) {
                return Err(StoreWriteError::UnencodableKey);
            }
            match &mut self.file_cache {
                Some(cs) => {
                    assoc_set(cs, key, entry);
                    proof {
                        assert forall|k: Seq<char>| assoc_view(cs@).contains_key(k) implies
                            crate::store_codec::key_encodable(k) by {
                            if k != key@ {
                                assert(old(self).view_map().contains_key(k));
                            }
                        }
                    }
                    Ok(())
                },
                None => vstd::pervasive::unreached(),
            }
        } else {
            match &self.redis_client {
                Some(client) => {
                    let payload = crate::store_codec::render_entry_exec(&entry);
                    if redis_set_raw(client, key, payload.as_str()) {
                        Ok(())
                    } else {
                        Err(StoreWriteError::BackendWrite)
                    }
                },
                None => vstd::pervasive::unreached(),
            }
        }
    }

    /// The durability point of the local backend: yields the full store
    /// text, which the caller must write over the backing file; the text
    /// parses back to exactly this store's map, so a reload agrees with it
    /// on every key. The remote backend already persisted every `set`, so
    /// there is nothing to yield.
    pub fn flush(&self) -> (r: Result<Option<String>, StoreWriteError>)
        requires
            self.wf(),
        ensures
            r is Ok,
            self.is_local() ==> (r matches Ok(p) && p matches Some(text) && text@
                == crate::store_codec::render_store(self.entries_model())
                && (crate::store_codec::parse_store_spec(text@) matches Some(ms)
                && crate::store_codec::model_map(ms) == self.view_map())),
            !self.is_local() ==> r == Ok::<Option<String>, StoreWriteError>(None),
    {
        match &self.backend {
            CacheBackend::File(_) => match &self.file_cache {
                Some(cs) => {
                    proof {
                        lemma_assoc_view_dom(cs@);
                        assert forall|j: int|
                            0 <= j < crate::store_codec::models_of(cs@).len() implies
                            crate::store_codec::key_encodable(
                                #[trigger] crate::store_codec::models_of(cs@)[j].0,
                            ) by {
                            assert(crate::store_codec::models_of(cs@)[j].0 == cs@[j].0@);
                            assert(exists|i: int| 0 <= i < cs@.len() && cs@[i].0@ == cs@[j].0@);
                            assert(assoc_view(cs@).contains_key(cs@[j].0@));
                        }
                        crate::store_codec::lemma_store_round_trip(
                            crate::store_codec::models_of(cs@),
                        );
                        crate::store_codec::lemma_assoc_view_is_model_map(cs@);
                    }
                    Ok(Some(crate::store_codec::render_store_exec(cs)))
                },
                None => vstd::pervasive::unreached(),
            },
            CacheBackend::Redis(_) => Ok(None),
        }
    }

    /// The staleness oracle: true when the fingerprint under `key` must be
    /// recomputed, given the live file metadata (`None` when the file's
    /// metadata could not be read). Unreadable metadata, a missing entry,
    /// and a size or modification time that differs each force
    /// recomputation; the oracle never compares content itself.
    pub fn should_recompute(&self, key: &str, live: Option<(u64, u64)>) -> (r: bool)
        requires
            self.wf(),
        ensures
            self.is_local() ==> r == stale_on(self.view_map(), key@, live),
            live is None ==> r,
    {
        let cached = self.get(key);
        match cached {
            Some(e) => stale_decision(Some(&e), live),
            None => stale_decision(None, live),
        }
    }
}

/// On a store that never saw a key — in particular a fresh, empty one —
/// the oracle always asks for recomputation.
pub proof fn lemma_recompute_when_absent(
    m: Map<Seq<char>, CacheEntryModel>,
    k: Seq<char>,
    live: Option<(u64, u64)>,
)
    requires
        !m.contains_key(k),
    ensures
        stale_on(m, k, live),
{
}

/// After caching the observed size and modification time, an untouched
/// file is not recomputed.
pub proof fn lemma_fresh_after_set(
    m: Map<Seq<char>, CacheEntryModel>,
    k: Seq<char>,
    e: CacheEntryModel,
)
    ensures
        !stale_on(m.insert(k, e), k, Some((e.file_size, e.modified))),
{
}

/// A change of the file's size or of its modification time alone makes the
/// oracle ask for recomputation, whatever the content digest would say.
pub proof fn lemma_stale_on_metadata_change(
    m: Map<Seq<char>, CacheEntryModel>,
    k: Seq<char>,
    size: u64,
    mtime: u64,
)
    requires
        m.contains_key(k),
        m[k].file_size != size || m[k].modified != mtime,
    ensures
        stale_on(m, k, Some((size, mtime))),
{
}

} // verus!
