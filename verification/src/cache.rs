//! The content-keyed upload cache: maps a stable image identity to its
//! mirrored URL, performing the remote mirror upload at most once per
//! identity and persisting the result across runs.
//!
//! Two layers share the work. The persistent store (an embedded key-value
//! database) prevents duplicate uploads across process runs: once an identity
//! is recorded, every later `resolve` is a pure read. Within a run, `resolve`
//! writes the store before returning, so a later call for the same identity
//! never uploads again. An entry, once written, is never overwritten.
//!
//! Resolution runs through `&mut self`, one call at a time: exclusive access
//! stands in for a per-key in-flight coordination token, and the at-most-once
//! guarantee rests on the check-then-write discipline the contracts state.

use vstd::prelude::*;

use crate::item::ShopItem;
use crate::urlext::{ext_from_url, spec_ext_of};

verus! {

/// Why a cache operation failed. Every such failure aborts the whole cycle.
#[derive(Clone, Copy, Debug, PartialEq, Eq, Structural)]
pub enum CacheError {
    /// No file extension could be derived from the source URL.
    UnknownExtension,
    /// A network request failed, returned a non-success status, or the remote
    /// response could not be read.
    Transport,
    /// The persistent store could not be opened, read, written or flushed.
    Persistence,
}

#[verifier::external_type_specification]
#[verifier::external_body]
pub struct ExSledDb(sled::Db);

#[verifier::external_type_specification]
#[verifier::external_body]
pub struct ExReqwestClient(reqwest::blocking::Client);

/// The mirrored-URL entries the persistent store holds, keyed by image
/// identity.
pub uninterp spec fn db_entries(db: sled::Db) -> Map<int, Seq<char>>;

/// Relies on sled's `Db::get`: reads the value stored under the key, without
/// writing anything.
#[verifier::external_body]
fn db_get(db: &sled::Db, key: usize) -> (r: Result<Option<String>, CacheError>)
    ensures
        r matches Ok(Some(s)) ==> db_entries(*db).contains_key(key as int) && s@ == db_entries(
            *db,
        )[key as int],
        r matches Ok(None) ==> !db_entries(*db).contains_key(key as int),
        r matches Err(e) ==> e == CacheError::Persistence,
{
    match db.get(key.to_le_bytes()) {
        Ok(Some(v)) => match std::str::from_utf8(&v) {
            Ok(s) => Ok(Some(s.to_string())),
            Err(_) => Err(CacheError::Persistence),
        },
        Ok(None) => Ok(None),
        Err(_) => Err(CacheError::Persistence),
    }
}

/// Relies on sled's `Db::insert`: sets the one given key to the given value;
/// a failed insert touches no other key.
#[verifier::external_body]
fn db_insert(db: &mut sled::Db, key: usize, value: &str) -> (r: Result<(), CacheError>)
    ensures
        r is Ok ==> db_entries(*final(db)) == db_entries(*old(db)).insert(key as int, value@),
        r is Err ==> db_entries(*final(db)).remove(key as int) == db_entries(*old(db)).remove(
            key as int,
        ),
        r matches Err(e) ==> e == CacheError::Persistence,
{
    match db.insert(key.to_le_bytes(), value.as_bytes()) {
        Ok(_) => Ok(()),
        Err(_) => Err(CacheError::Persistence),
    }
}

/// Relies on sled's `Db::flush`: synchronously fsyncs all dirty buffers, so
/// that every previous write survives a crash; it changes no entry.
#[verifier::external_body]
fn db_flush(db: &mut sled::Db) -> (r: Result<(), CacheError>)
    ensures
        db_entries(*final(db)) == db_entries(*old(db)),
        r matches Err(e) ==> e == CacheError::Persistence,
{
    match db.flush() {
        Ok(_) => Ok(()),
        Err(_) => Err(CacheError::Persistence),
    }
}

/// Relies on sled's `Config::open` with a storage path; automatic flushing is
/// off, the cache flushes once per cycle instead. What the store on disk
/// already holds is unknown here.
#[verifier::external_body]
fn db_open_at(path: &str) -> (r: Result<sled::Db, CacheError>)
    ensures
        r matches Err(e) ==> e == CacheError::Persistence,
{
    match sled::Config::new().path(path).flush_every_ms(None).open() {
        Ok(db) => Ok(db),
        Err(_) => Err(CacheError::Persistence),
    }
}

/// Relies on sled's `Config::open` with `temporary(true)`: the store starts
/// empty and its files are removed when the handle drops.
#[verifier::external_body]
fn db_open_temporary() -> (r: Result<sled::Db, CacheError>)
    ensures
        match r {
            Ok(db) => db_entries(db) == Map::<int, Seq<char>>::empty(),
            Err(e) => e == CacheError::Persistence,
        },
{
    match sled::Config::new().temporary(true).flush_every_ms(None).open() {
        Ok(db) => Ok(db),
        Err(_) => Err(CacheError::Persistence),
    }
}

/// Relies on reqwest's blocking `ClientBuilder`: builds a client that sends
/// the session cookie and user agent on every request, follows no redirects,
/// and gives up on a request after ten seconds. Fails on a cookie that is no
/// valid header value.
#[verifier::external_body]
fn build_client(cookie: &str, user_agent: &str) -> (r: Result<
    reqwest::blocking::Client,
    CacheError,
>)
    ensures
        r matches Err(e) ==> e == CacheError::Transport,
{
    let mut headers = reqwest::header::HeaderMap::new();
    let cookie_value = match cookie.parse::<reqwest::header::HeaderValue>() {
        Ok(v) => v,
        Err(_) => return Err(CacheError::Transport),
    };
    headers.insert(reqwest::header::COOKIE, cookie_value);
    reqwest::blocking::Client::builder()
        .user_agent(user_agent)
        .default_headers(headers)
        .redirect(reqwest::redirect::Policy::none())
        .timeout(std::time::Duration::from_secs(10))
        .build()
        .map_err(|_| CacheError::Transport)
}

/// Relies on reqwest's blocking `get`: downloads the body bytes of the URL;
/// any transport failure or 4xx/5xx status is an error (redirects are off,
/// so a redirect response comes back as its own body). What comes back is
/// whatever the remote side serves.
#[verifier::external_body]
fn http_get_bytes(client: &reqwest::blocking::Client, url: &str) -> (r: Result<Vec<u8>, CacheError>)
    ensures
        r matches Err(e) ==> e == CacheError::Transport,
{
    let resp = match client.get(url).send() {
        Ok(resp) => resp,
        Err(_) => return Err(CacheError::Transport),
    };
    let resp = match resp.error_for_status() {
        Ok(resp) => resp,
        Err(_) => return Err(CacheError::Transport),
    };
    match resp.bytes() {
        Ok(b) => Ok(b.to_vec()),
        Err(_) => Err(CacheError::Transport),
    }
}

/// The mirror API endpoint files are uploaded to.
pub const MIRROR_ENDPOINT: &'static str = "https://cdn.hackclub.com/api/file";

/// The bearer token the mirror API expects.
pub const MIRROR_TOKEN: &'static str = "beans";

/// The state a resolve call starts from or ends in: the persistent entries
/// and how many remote mirror uploads have been attempted this run.
pub ghost struct CacheState {
    pub entries: Map<int, Seq<char>>,
    pub uploads: nat,
}

/// The content-keyed upload cache: the persistent store, the HTTP client the
/// remote calls go through, and the count of upload attempts this run.
pub struct UploadCache {
    db: sled::Db,
    client: reqwest::blocking::Client,
    uploads: Ghost<nat>,
}

impl View for UploadCache {
    type V = CacheState;

    closed spec fn view(&self) -> CacheState {
        CacheState { entries: db_entries(self.db), uploads: self.uploads@ }
    }
}

/// What one `resolve` call does to the cache state. A hit leaves the state
/// untouched and returns the stored URL; a miss that succeeds attempts one
/// upload and records the result before returning. A failure attempts at most
/// one upload, caches nothing — no failure is ever written — and never
/// touches another key's entry; only a failed store write itself can leave
/// the resolved key's entry open.
pub open spec fn resolve_transition(
    pre: CacheState,
    post: CacheState,
    key: int,
    r: Result<Seq<char>, CacheError>,
) -> bool {
    match r {
        Ok(url) => if pre.entries.contains_key(key) {
            &&& post == pre
            &&& url == pre.entries[key]
        } else {
            &&& post.entries == pre.entries.insert(key, url)
            &&& post.uploads == pre.uploads + 1
        },
        Err(e) => {
            &&& post.entries.remove(key) == pre.entries.remove(key)
            &&& post.uploads <= pre.uploads + 1
            &&& e != CacheError::Persistence ==> post.entries == pre.entries
            &&& pre.entries.contains_key(key) ==> (post == pre && e == CacheError::Persistence)
        },
    }
}

impl UploadCache {
    /// Open the cache over the persistent store at a path. What the store
    /// already holds carries over from earlier runs.
    pub fn open(path: &str, cookie: &str, user_agent: &str) -> (r: Result<UploadCache, CacheError>)
        ensures
            r matches Ok(c) ==> c@.uploads == 0,
    {
        let db = match db_open_at(path) {
            Ok(db) => db,
            Err(e) => {
                return Err(e);
            },
        };
        let client = match build_client(cookie, user_agent) {
            Ok(c) => c,
            Err(e) => {
                return Err(e);
            },
        };
        Ok(UploadCache { db, client, uploads: Ghost(0) })
    }

    /// Open the cache over a fresh, empty, temporary store.
    pub fn open_temporary(cookie: &str, user_agent: &str) -> (r: Result<UploadCache, CacheError>)
        ensures
            r matches Ok(c) ==> c@.uploads == 0 && c@.entries == Map::<int, Seq<char>>::empty(),
    {
        let db = match db_open_temporary() {
            Ok(db) => db,
            Err(e) => {
                return Err(e);
            },
        };
        let client = match build_client(cookie, user_agent) {
            Ok(c) => c,
            Err(e) => {
                return Err(e);
            },
        };
        Ok(UploadCache { db, client, uploads: Ghost(0) })
    }

    /// Read the entry for an image identity, with no side effect.
    pub fn lookup(&self, image_id: usize) -> (r: Result<Option<String>, CacheError>)
        ensures
            r matches Ok(Some(u)) ==> self@.entries.contains_key(image_id as int) && u@
                == self@.entries[image_id as int],
            r matches Ok(None) ==> !self@.entries.contains_key(image_id as int),
            r matches Err(e) ==> e == CacheError::Persistence,
    {
        db_get(&self.db, image_id)
    }

    /// Record a mirrored URL for an image identity directly.
    pub fn record(&mut self, image_id: usize, mirrored_url: &str) -> (r: Result<(), CacheError>)
        ensures
            final(self)@.uploads == old(self)@.uploads,
            r is Ok ==> final(self)@.entries == old(self)@.entries.insert(
                image_id as int,
                mirrored_url@,
            ),
            r is Err ==> final(self)@.entries.remove(image_id as int) == old(
                self,
            )@.entries.remove(image_id as int),
            r matches Err(e) ==> e == CacheError::Persistence,
    {
        db_insert(&mut self.db, image_id, mirrored_url)
    }

    /// Relies on reqwest's blocking multipart POST to the mirror API and on
    /// serde_json to read the `url` field of its JSON response. One call is
    /// one remote upload attempt, which the upload count records; the store
    /// is not touched.
    #[verifier::external_body]
    fn mirror_upload(&mut self, endpoint: &str, token: &str, file: Vec<u8>, filename: &str) -> (r:
        Result<String, CacheError>)
        ensures
            final(self)@.uploads == old(self)@.uploads + 1,
            final(self)@.entries == old(self)@.entries,
            r matches Err(e) ==> e == CacheError::Transport,
    {
        let part = reqwest::blocking::multipart::Part::bytes(file).file_name(filename.to_string());
        let form = reqwest::blocking::multipart::Form::new().part("file", part);
        let sent = self.client.post(endpoint).multipart(form).bearer_auth(token).send();
        let parsed: Result<serde_json::Value, reqwest::Error> = sent.and_then(
            |r| r.error_for_status(),
        ).and_then(|r| r.json());
        match parsed.ok().and_then(|v| v.get("url").and_then(|u| u.as_str()).map(String::from)) {
            Some(url) => Ok(url),
            None => Err(CacheError::Transport),
        }
    }

    /// Return the mirrored URL for an image identity. A cached identity is
    /// answered from the store with no remote traffic. Otherwise the source
    /// bytes are downloaded, uploaded to the mirror once, and the resulting
    /// URL is written to the store before the call returns. A miss on a URL
    /// with no derivable extension never succeeds, and that failure leaves
    /// the cache exactly as it was: no upload, no write.
    pub fn resolve(&mut self, image_id: usize, image_url: &str) -> (r: Result<String, CacheError>)
        ensures
            r matches Ok(u) ==> resolve_transition(old(self)@, final(self)@, image_id as int, Ok(u@)),
            r matches Err(e) ==> resolve_transition(
                old(self)@,
                final(self)@,
                image_id as int,
                Err(e),
            ),
            r == Err::<String, _>(CacheError::UnknownExtension) ==> spec_ext_of(image_url@) is None,
            r == Err::<String, _>(CacheError::UnknownExtension) ==> final(self)@ == old(self)@,
            !old(self)@.entries.contains_key(image_id as int) && spec_ext_of(image_url@) is None
                ==> r is Err,
    {
        match db_get(&self.db, image_id) {
            Ok(Some(url)) => {
                return Ok(url);
            },
            Ok(None) => {},
            Err(e) => {
                return Err(e);
            },
        }
        let file = match http_get_bytes(&self.client, image_url) {
            Ok(b) => b,
            Err(e) => {
                return Err(e);
            },
        };
        let ext = match ext_from_url(image_url) {
            Some(e) => e,
            None => {
                return Err(CacheError::UnknownExtension);
            },
        };
        let mut filename = String::from_str("image.");
        filename.append(ext.as_str());
        let url = match self.mirror_upload(MIRROR_ENDPOINT, MIRROR_TOKEN, file, filename.as_str()) {
            Ok(u) => u,
            Err(e) => {
                return Err(e);
            },
        };
        match db_insert(&mut self.db, image_id, url.as_str()) {
            Ok(_) => {},
            Err(e) => {
                return Err(e);
            },
        }
        Ok(url)
    }

    /// Durably flush the store's pending writes; called once at the end of a
    /// cycle, after all resolves, rather than after every write.
    pub fn flush(&mut self) -> (r: Result<(), CacheError>)
        ensures
            final(self)@ == old(self)@,
            r matches Err(e) ==> e == CacheError::Persistence,
    {
        db_flush(&mut self.db)
    }
}

/// How one item relates to its pre-resolution value: all fields are kept but
/// the image URL, which becomes the mirrored URL its image identity maps to.
pub open spec fn resolved_item(
    b: crate::item::ItemModel,
    a: crate::item::ItemModel,
    entries: Map<int, Seq<char>>,
) -> bool {
    &&& a.id == b.id
    &&& a.title == b.title
    &&& a.description == b.description
    &&& a.prices == b.prices
    &&& a.image_id == b.image_id
    &&& entries.contains_key(b.image_id)
    &&& a.image_url == entries[b.image_id]
}

/// A failed pass over the items stopped at some position: everything below
/// it is resolved against the entries, everything from it on is untouched.
pub open spec fn resolved_prefix(
    before: Seq<crate::item::ItemModel>,
    after: Seq<crate::item::ItemModel>,
    entries: Map<int, Seq<char>>,
    p: int,
) -> bool {
    &&& 0 <= p <= before.len()
    &&& after.len() == before.len()
    &&& forall|k: int| 0 <= k < p ==> resolved_item(before[k], #[trigger] after[k], entries)
    &&& forall|k: int| p <= k < before.len() ==> #[trigger] after[k] == before[k]
}

impl UploadCache {
    /// Resolve every item's image through the cache, replacing each image URL
    /// by its mirrored URL. All other fields are left as they are. Any single
    /// failure aborts at the failing item: the already-resolved prefix stands,
    /// the rest is untouched; entries already in the store are never touched
    /// either way.
    pub fn resolve_all(&mut self, items: &mut Vec<ShopItem>) -> (r: Result<(), CacheError>)
        requires
            crate::diff::all_wf(old(items)@),
        ensures
            final(items)@.len() == old(items)@.len(),
            crate::diff::all_wf(final(items)@),
            forall|k: int|
                #[trigger] old(self)@.entries.contains_key(k)
                    ==> final(self)@.entries.contains_key(k)
                    && final(self)@.entries[k] == old(self)@.entries[k],
            r is Ok ==> forall|k: int|
                0 <= k < old(items)@.len() ==> resolved_item(
                    old(items).deep_view()[k],
                    #[trigger] final(items).deep_view()[k],
                    final(self)@.entries,
                ),
            r is Err ==> exists|p: int|
                #[trigger] resolved_prefix(
                    old(items).deep_view(),
                    final(items).deep_view(),
                    final(self)@.entries,
                    p,
                ),
    {
        let ghost items0 = items.deep_view();
        let ghost e0 = self@.entries;
        let n = items.len();
        let mut i: usize = 0;
        while i < n
            invariant
                items0 == old(items).deep_view(),
                e0 == old(self)@.entries,
                n == old(items)@.len(),
                n == items@.len(),
                items0.len() == n,
                i <= n,
                crate::diff::all_wf(items@),
                forall|k: int| i <= k < n ==> #[trigger] items.deep_view()[k] == items0[k],
                forall|k: int|
                    0 <= k < i ==> resolved_item(
                        items0[k],
                        #[trigger] items.deep_view()[k],
                        self@.entries,
                    ),
                forall|k: int|
                    #[trigger] e0.contains_key(k) ==> self@.entries.contains_key(k)
                        && self@.entries[k] == e0[k],
            decreases n - i,
        {
            let ghost pre = self@;
            let image_id = items[i].image_id;
            let url = match self.resolve(image_id, items[i].image_url.as_str()) {
                Ok(u) => u,
                Err(e) => {
                    proof {
                        lemma_resolve_preserves_entries(pre, self@, image_id as int, Err(e));
                        assert forall|k: int| 0 <= k < i implies resolved_item(
                            items0[k],
                            #[trigger] items.deep_view()[k],
                            self@.entries,
                        ) by {
                            assert(resolved_item(items0[k], items.deep_view()[k], pre.entries));
                        }
                        assert(resolved_prefix(items0, items.deep_view(), self@.entries, i as int));
                    }
                    return Err(e);
                },
            };
            proof {
                lemma_resolve_preserves_entries(pre, self@, image_id as int, Ok(url@));
                if pre.entries.contains_key(image_id as int) {
                    assert(self@.entries.contains_key(image_id as int) && self@.entries[image_id as int] == url@);
                } else {
                    assert(self@.entries == pre.entries.insert(image_id as int, url@));
                }
            }
            let ghost items_exec_pre = items@;
            let ghost items_dv_pre = items.deep_view();
            let mut it = items.remove(i);
            it.image_url = url;
            items.insert(i, it);
            proof {
                assert forall|k: int| 0 <= k < n implies #[trigger] items@[k].wf() by {
                    if k != i {
                        assert(items@[k] == items_exec_pre[k]);
                    }
                }
                assert forall|k: int| i + 1 <= k < n implies #[trigger] items.deep_view()[k]
                    == items0[k] by {
                    assert(items@[k] == items_exec_pre[k]);
                    assert(items.deep_view()[k] == items@[k].deep_view());
                    assert(items_dv_pre[k] == items_exec_pre[k].deep_view());
                }
                assert(items.deep_view()[i as int] == it.deep_view());
                assert forall|k: int| 0 <= k < i + 1 implies resolved_item(
                    items0[k],
                    #[trigger] items.deep_view()[k],
                    self@.entries,
                ) by {
                    if k < i {
                        assert(items@[k] == items_exec_pre[k]);
                        assert(items.deep_view()[k] == items@[k].deep_view());
                        assert(items_dv_pre[k] == items_exec_pre[k].deep_view());
                        assert(resolved_item(items0[k], items_dv_pre[k], pre.entries));
                    } else {
                        assert(items_dv_pre[i as int] == items0[i as int]);
                        assert(items_exec_pre[i as int].deep_view() == items_dv_pre[i as int]);
                    }
                }
            }
            i = i + 1;
        }
        Ok(())
    }
}

/// Cached identities resolve with zero remote uploads: any state whose store
/// holds the key — in particular a fresh process over the same durable store
/// — is left untouched, and the stored URL is returned.
pub proof fn lemma_resolve_cached_no_upload(
    pre: CacheState,
    post: CacheState,
    key: int,
    url: Seq<char>,
)
    requires
        pre.entries.contains_key(key),
        resolve_transition(pre, post, key, Ok(url)),
    ensures
        post == pre,
        post.uploads == pre.uploads,
        url == pre.entries[key],
{
}

/// At-most-once upload per identity: across two consecutive successful
/// resolves of the same identity, at most one remote upload happens in
/// total, and both calls return the same URL.
pub proof fn lemma_resolve_at_most_once(
    s0: CacheState,
    s1: CacheState,
    s2: CacheState,
    key: int,
    u1: Seq<char>,
    u2: Seq<char>,
)
    requires
        resolve_transition(s0, s1, key, Ok(u1)),
        resolve_transition(s1, s2, key, Ok(u2)),
    ensures
        u2 == u1,
        s2.uploads <= s0.uploads + 1,
{
}

/// An entry, once written, is never overwritten: whatever one resolve call
/// does, every key already present keeps its value.
pub proof fn lemma_resolve_preserves_entries(
    pre: CacheState,
    post: CacheState,
    key: int,
    r: Result<Seq<char>, CacheError>,
)
    requires
        resolve_transition(pre, post, key, r),
    ensures
        forall|k: int|
            #[trigger] pre.entries.contains_key(k) ==> post.entries.contains_key(k)
                && post.entries[k] == pre.entries[k],
{
    assert forall|k: int| #[trigger] pre.entries.contains_key(k) implies post.entries.contains_key(
        k,
    ) && post.entries[k] == pre.entries[k] by {
        match r {
            Ok(url) => {
                if pre.entries.contains_key(key) {
                    assert(post == pre);
                } else {
                    assert(post.entries == pre.entries.insert(key, url));
                    assert(k != key);
                }
            },
            Err(e) => {
                if k != key {
                    assert(post.entries.remove(key) == pre.entries.remove(key));
                    assert(pre.entries.remove(key).contains_key(k));
                    assert(post.entries.remove(key).contains_key(k));
                    assert(post.entries[k] == post.entries.remove(key)[k]);
                    assert(pre.entries[k] == pre.entries.remove(key)[k]);
                } else {
                    assert(post == pre);
                }
            },
        }
    }
}

} // verus!
