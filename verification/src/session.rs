//! The session: an open store, the master key once unlocked, and the cache
//! of decrypted metadata.
//!
//! The session never touches the store itself. The host hands it what it
//! read from the store and carries out the requests that come back.

use vstd::prelude::*;
use std::collections::HashMap;
use crate::attachment::{attachment_len, holds_attachment, opened_attachment, MAX_BLOB_SIZE};
use crate::crypto::{
    argon2_accepts, argon2id, decrypt_as_string, derive_key, fill_random, generate_salt,
    opened_as_string, seals, KEY_SIZE, SALT_SIZE,
};
use crate::error::Error;
use crate::pad::{BlobPadMetadata, EncryptedPad, FilePadUpdate, NodeRow, Pad, PadNode, StoreRequest};
use crate::tree::{build_forest, ids_distinct, is_forest, NodeLink, NodeTree};
use crate::tree_laws::{lemma_forest_is_unique, same_forest};

verus! {

/// The base64 text of `bytes` in the standard alphabet with padding.
pub uninterp spec fn base64_standard(bytes: Seq<u8>) -> Seq<char>;

/// The media type that the `file_format` crate finds for `bytes`.
pub uninterp spec fn sniffed_media_type(bytes: Seq<u8>) -> Seq<char>;

/// `base64::engine::general_purpose::STANDARD.encode`. Trusted: the text
/// depends on the bytes alone. The call panics where the length of the text
/// does not fit a `usize`, so such input is left out.
#[verifier::external_body]
fn base64_encode(bytes: &[u8]) -> (r: String)
    requires
        (bytes@.len() / 3 + 1) * 4 <= usize::MAX,
    ensures
        r@ == base64_standard(bytes@),
{
    base64::Engine::encode(&base64::engine::general_purpose::STANDARD, bytes)
}

/// `file_format::FileFormat::from_bytes` and `media_type`. Trusted: the
/// media type depends on the bytes alone.
#[verifier::external_body]
fn media_type_of(bytes: &[u8]) -> (r: String)
    ensures
        r@ == sniffed_media_type(bytes@),
{
    file_format::FileFormat::from_bytes(bytes).media_type().to_string()
}

/// The number that bytes spell, most significant first.
pub open spec fn be_number(bytes: Seq<u8>) -> nat
    decreases bytes.len(),
{
    if bytes.len() == 0 {
        0
    } else {
        be_number(bytes.drop_last()) * 256 + bytes.last() as nat
    }
}

/// The bits of an id that say "version 4, variant of RFC 4122".
pub open spec fn is_random_id(id: u128) -> bool {
    id & 0x0000_0000_0000_F000_C000_0000_0000_0000 == 0x0000_0000_0000_4000_8000_0000_0000_0000
}

/// The id that 16 random bytes give: the bytes as one number, most
/// significant first, with the version set to 4 and the variant to that of
/// RFC 4122.
pub open spec fn random_id(random: Seq<u8>) -> u128 {
    ((be_number(random) as u128) & 0xFFFF_FFFF_FFFF_0FFF_3FFF_FFFF_FFFF_FFFF)
        | 0x0000_0000_0000_4000_8000_0000_0000_0000
}

/// `uuid::Builder::from_random_bytes`, as a number. Trusted: the id is the
/// 16 bytes, most significant first, with only the version and variant bits
/// replaced.
#[verifier::external_body]
fn uuid_from_random_bytes(random: &[u8; 16]) -> (id: u128)
    ensures
        id == random_id(random@),
{
    uuid::Builder::from_random_bytes(*random).into_uuid().as_u128()
}

/// The id of a new pad, made of 16 bytes that the caller has drawn.
pub fn pad_id_from_random(random: &[u8; 16]) -> (id: u128)
    ensures
        id == random_id(random@),
        is_random_id(id),
{
    let id = uuid_from_random_bytes(random);
    proof {
        let x = be_number(random@) as u128;
        assert(((x & 0xFFFF_FFFF_FFFF_0FFF_3FFF_FFFF_FFFF_FFFF)
            | 0x0000_0000_0000_4000_8000_0000_0000_0000)
            & 0x0000_0000_0000_F000_C000_0000_0000_0000
            == 0x0000_0000_0000_4000_8000_0000_0000_0000) by (bit_vector);
    }
    id
}

/// The master key's salt to use: the stored one, or a fresh one where the
/// store holds none yet. The flag says whether the salt is new and has to
/// be stored.
pub fn salt_or_new(stored: Option<[u8; SALT_SIZE]>) -> (r: Result<([u8; SALT_SIZE], bool), Error>)
    ensures
        match r {
            Ok((salt, fresh)) => match stored {
                Some(kept) => salt == kept && !fresh,
                None => fresh,
            },
            Err(e) => e == Error::CryptoFailure && stored is None,
        },
{
    match stored {
        Some(salt) => Ok((salt, false)),
        None => match generate_salt() {
            Ok(salt) => Ok((salt, true)),
            Err(e) => Err(e),
        },
    }
}

/// The decrypted metadata of all pads, by id.
pub struct PadMap {
    pub pads: HashMap<u128, EncryptedPad>,
}

impl PadMap {
    /// The empty cache.
    pub fn new() -> (r: Self)
        ensures
            r.pads@ == Map::<u128, EncryptedPad>::empty(),
    {
        PadMap { pads: HashMap::new() }
    }
}

/// The three states of a session.
#[derive(Clone, Copy, Debug, PartialEq, Eq, Structural)]
pub enum SessionState {
    /// No store is open.
    Fresh,
    /// A store is open and the master key is not known.
    Locked,
    /// A store is open and the master key is known.
    Unlocked,
}

/// A session over a store that the host holds as a value of type `S`.
pub struct Cipherpad<S> {
    pub pool: Option<S>,
    pub pad_map: PadMap,
    pub master_key: Option<[u8; KEY_SIZE]>,
}

/// What `unlock` does to a session and hands back.
///
/// It succeeds exactly on a locked session, a password and a salt that
/// Argon2id accepts, and rows that all open under the key these give. Then
/// the session is unlocked by that key. Otherwise store, key and state stay
/// as they were. A session that is not locked, or a password or salt that
/// Argon2id refuses, leaves the cache as it was; rows that are refused leave
/// it empty.
pub open spec fn unlock_outcome<S>(
    before: Cipherpad<S>,
    after: Cipherpad<S>,
    r: Result<NodeTree, Error>,
    password: Seq<char>,
    salt: Seq<u8>,
    rows: Seq<NodeRow>,
) -> bool {
    let accepted = argon2_accepts(
        vstd::utf8::encode_utf8(password).len(),
        salt.len(),
        KEY_SIZE as nat,
    );
    let derived = argon2id(vstd::utf8::encode_utf8(password), salt, KEY_SIZE as nat);
    &&& after.pool == before.pool
    &&& r is Ok <==> before.state() == SessionState::Locked && accepted && derived is Some
        && rebuild_error(rows, derived->0) is None
    &&& match r {
        Ok(tree) => after.unlocked_by(tree, password, salt, rows),
        Err(e) => {
            &&& after.master_key == before.master_key
            &&& after.state() == before.state()
            &&& match before.state() {
                SessionState::Fresh => e == Error::StoreUnavailable && after.pad_map
                    == before.pad_map,
                SessionState::Unlocked => e == Error::AlreadyUnlocked && after.pad_map
                    == before.pad_map,
                SessionState::Locked => if accepted {
                    &&& derived is Some
                    &&& rebuild_error(rows, derived->0) == Some(e)
                    &&& after.pad_map.pads@ == Map::<u128, EncryptedPad>::empty()
                } else {
                    &&& e == Error::CryptoFailure
                    &&& after.pad_map == before.pad_map
                },
            }
        },
    }
}

/// The structural part of the rows, in row order.
pub open spec fn links_of(rows: Seq<NodeRow>) -> Seq<NodeLink> {
    Seq::new(rows.len(), |i: int| NodeLink { id: rows[i].id, parent_id: rows[i].parent_id })
}

/// The metadata of every row opens as text under `master_key`.
pub open spec fn all_open(rows: Seq<NodeRow>, master_key: Seq<u8>) -> bool {
    forall|i: int|
        0 <= i < rows.len() ==> opened_as_string((#[trigger] rows[i]).pad_metadata@, master_key)
            is Ok
}

/// `pads` is the cache of `rows`: it has an entry for the id of each row
/// and for nothing else, and the entry holds the row's id and parent and
/// the text that the row's metadata opens to.
pub open spec fn caches(
    pads: Map<u128, EncryptedPad>,
    rows: Seq<NodeRow>,
    master_key: Seq<u8>,
) -> bool {
    &&& forall|id: u128|
        pads.dom().contains(id) <==> exists|i: int|
            0 <= i < rows.len() && (#[trigger] rows[i]).id == id
    &&& forall|i: int|
        0 <= i < rows.len() ==> {
            let pad = pads[(#[trigger] rows[i]).id];
            &&& pad.id == rows[i].id
            &&& pad.parent_id == rows[i].parent_id
            &&& opened_as_string(rows[i].pad_metadata@, master_key) == Ok::<Seq<char>, Error>(
                pad.metadata@,
            )
        }
}

/// The error with which rebuilding the forest under `master_key` ends, if
/// it does: rows that repeat an id are a `StoreError`, metadata that does
/// not open is a `CryptoFailure`.
pub open spec fn rebuild_error(rows: Seq<NodeRow>, master_key: Seq<u8>) -> Option<Error> {
    if !ids_distinct(links_of(rows)) {
        Some(Error::StoreError)
    } else if !all_open(rows, master_key) {
        Some(Error::CryptoFailure)
    } else {
        None
    }
}

impl<S> Cipherpad<S> {
    /// The state that the session is in.
    pub open spec fn state(&self) -> SessionState {
        if self.pool is None {
            SessionState::Fresh
        } else if self.master_key is None {
            SessionState::Locked
        } else {
            SessionState::Unlocked
        }
    }

    /// The error that a content command meets in this state, if any.
    pub open spec fn content_error(&self) -> Option<Error> {
        match self.state() {
            SessionState::Fresh => Some(Error::StoreUnavailable),
            SessionState::Locked => Some(Error::Locked),
            SessionState::Unlocked => None,
        }
    }

    /// The session is unlocked, holds the key that password and salt give,
    /// and `tree` and the cache are those of `rows` under that key.
    pub open spec fn unlocked_by(
        &self,
        tree: NodeTree,
        password: Seq<char>,
        salt: Seq<u8>,
        rows: Seq<NodeRow>,
    ) -> bool {
        &&& self.state() == SessionState::Unlocked
        &&& argon2id(vstd::utf8::encode_utf8(password), salt, KEY_SIZE as nat) == Some(
            self.master_key->0@,
        )
        &&& rebuild_error(rows, self.master_key->0@) is None
        &&& is_forest(links_of(rows), tree.nodes@)
        &&& caches(self.pad_map.pads@, rows, self.master_key->0@)
    }

    /// A fresh session: no store, no key, nothing cached.
    pub fn new() -> (r: Self)
        ensures
            r.state() == SessionState::Fresh,
            r.master_key is None,
            r.pad_map.pads@ == Map::<u128, EncryptedPad>::empty(),
    {
        Cipherpad { pool: None, pad_map: PadMap::new(), master_key: None }
    }

    pub fn is_connected(&self) -> (r: bool)
        ensures
            r == self.pool is Some,
    {
        self.pool.is_some()
    }

    /// The state that the session is in.
    pub fn current_state(&self) -> (r: SessionState)
        ensures
            r == self.state(),
    {
        if self.pool.is_none() {
            SessionState::Fresh
        } else if self.master_key.is_none() {
            SessionState::Locked
        } else {
            SessionState::Unlocked
        }
    }

    /// Takes an opened store. A fresh session becomes locked; a later one
    /// keeps its key and its cache and goes on with the new store.
    pub fn open(&mut self, pool: S)
        ensures
            final(self).pool == Some(pool),
            final(self).master_key == old(self).master_key,
            final(self).pad_map == old(self).pad_map,
            final(self).state() == if old(self).master_key is None {
                SessionState::Locked
            } else {
                SessionState::Unlocked
            },
    {
        self.pool = Some(pool);
    }

    /// The master key, for a command that works on content.
    pub fn content_key(&self) -> (r: Result<&[u8; KEY_SIZE], Error>)
        ensures
            match r {
                Ok(key) => self.state() == SessionState::Unlocked && Some(*key) == self.master_key,
                Err(e) => self.content_error() == Some(e),
            },
    {
        if self.pool.is_none() {
            return Err(Error::StoreUnavailable);
        }
        match &self.master_key {
            Some(key) => Ok(key),
            None => Err(Error::Locked),
        }
    }

    /// Derives the master key from the password and the store's salt and
    /// keeps it. Without a store there is nothing to unlock. With one, it
    /// succeeds exactly where Argon2id accepts password and salt, as it
    /// does for every password of ordinary length and the store's 16-byte
    /// salt.
    pub fn derive_master_key(&mut self, password: &str, salt: &[u8]) -> (r: Result<(), Error>)
        ensures
            final(self).pool == old(self).pool,
            final(self).pad_map == old(self).pad_map,
            r is Ok <==> old(self).pool is Some && argon2_accepts(
                vstd::utf8::encode_utf8(password@).len(),
                salt@.len(),
                KEY_SIZE as nat,
            ),
            match r {
                Ok(()) => {
                    &&& old(self).pool is Some
                    &&& final(self).master_key is Some
                    &&& argon2id(vstd::utf8::encode_utf8(password@), salt@, KEY_SIZE as nat) == Some(
                        final(self).master_key->0@,
                    )
                },
                Err(e) => {
                    &&& final(self).master_key == old(self).master_key
                    &&& e == if old(self).pool is None {
                        Error::StoreUnavailable
                    } else {
                        Error::CryptoFailure
                    }
                    &&& old(self).pool is Some ==> argon2id(
                        vstd::utf8::encode_utf8(password@),
                        salt@,
                        KEY_SIZE as nat,
                    ) is None
                },
            },
    {
        if self.pool.is_none() {
            return Err(Error::StoreUnavailable);
        }
        let mut master_key = [0u8; KEY_SIZE];
        match derive_key(password.as_bytes(), salt, &mut master_key) {
            Ok(()) => {
                self.master_key = Some(master_key);
                Ok(())
            },
            Err(e) => Err(e),
        }
    }
}

/// Reads the structural part of the rows.
fn collect_links(rows: &[NodeRow]) -> (links: Vec<NodeLink>)
    ensures
        links@ == links_of(rows@),
{
    let mut links: Vec<NodeLink> = Vec::new();
    let mut i: usize = 0;
    while i < rows.len()
        invariant
            i <= rows@.len(),
            links@.len() == i,
            forall|k: int| 0 <= k < i ==> (#[trigger] links@[k]) == links_of(rows@)[k],
        decreases rows@.len() - i,
    {
        links.push(NodeLink { id: rows[i].id, parent_id: rows[i].parent_id });
        i += 1;
    }
    assert(links@ =~= links_of(rows@));
    links
}

/// Opens the metadata of every row into a cache.
fn open_rows(rows: &[NodeRow], master_key: &[u8]) -> (r: Result<HashMap<u128, EncryptedPad>, Error>)
    requires
        ids_distinct(links_of(rows@)),
    ensures
        match r {
            Ok(pads) => all_open(rows@, master_key@) && caches(pads@, rows@, master_key@),
            Err(e) => e == Error::CryptoFailure && !all_open(rows@, master_key@),
        },
{
    let mut pads: HashMap<u128, EncryptedPad> = HashMap::new();
    let mut i: usize = 0;
    while i < rows.len()
        invariant
            i <= rows@.len(),
            ids_distinct(links_of(rows@)),
            all_open(rows@.take(i as int), master_key@),
            caches(pads@, rows@.take(i as int), master_key@),
        decreases rows@.len() - i,
    {
        let ghost done = rows@.take(i as int);
        let ghost next = rows@.take(i + 1);
        let ghost before = pads@;
        let row = &rows[i];
        match EncryptedPad::new(row.id, row.parent_id, row.pad_metadata.clone(), master_key) {
            Ok(pad) => {
                pads.insert(row.id, pad);
                proof {
                    assert forall|k: int| 0 <= k < next.len() implies opened_as_string(
                        (#[trigger] next[k]).pad_metadata@,
                        master_key@,
                    ) is Ok by {
                        if k < i {
                            assert(next[k] == done[k]);
                        }
                    }
                    assert forall|id: u128| pads@.dom().contains(id) <==> exists|k: int|
                        0 <= k < next.len() && (#[trigger] next[k]).id == id by {
                        if pads@.dom().contains(id) {
                            if id == row.id {
                                assert(next[i as int].id == id);
                            } else {
                                assert(before.dom().contains(id));
                                let k = choose|k: int|
                                    0 <= k < done.len() && (#[trigger] done[k]).id == id;
                                assert(next[k].id == id);
                            }
                        }
                        if exists|k: int| 0 <= k < next.len() && (#[trigger] next[k]).id == id {
                            let k = choose|k: int|
                                0 <= k < next.len() && (#[trigger] next[k]).id == id;
                            if k < i {
                                assert(done[k].id == id);
                            }
                        }
                    }
                    assert forall|k: int| 0 <= k < next.len() implies {
                        let pad = pads@[(#[trigger] next[k]).id];
                        &&& pad.id == next[k].id
                        &&& pad.parent_id == next[k].parent_id
                        &&& opened_as_string(next[k].pad_metadata@, master_key@) == Ok::<
                            Seq<char>,
                            Error,
                        >(pad.metadata@)
                    } by {
                        if k < i {
                            assert(next[k] == done[k]);
                            assert(links_of(rows@)[k].id != links_of(rows@)[i as int].id);
                        }
                    }
                }
            },
            Err(_) => {
                return Err(Error::CryptoFailure);
            },
        }
        i += 1;
    }
    assert(rows@.take(i as int) =~= rows@);
    Ok(pads)
}

impl<S> Cipherpad<S> {
    /// Rebuilds the cache and the forest from the rows of the store.
    ///
    /// The command needs an unlocked session. The cache is rebuilt from
    /// nothing: where the rows are refused it is left empty.
    pub fn get_node_tree(&mut self, rows: &[NodeRow]) -> (r: Result<NodeTree, Error>)
        ensures
            final(self).pool == old(self).pool,
            final(self).master_key == old(self).master_key,
            old(self).content_error() is Some ==> final(self).pad_map == old(self).pad_map,
            match r {
                Ok(tree) => {
                    &&& old(self).state() == SessionState::Unlocked
                    &&& rebuild_error(rows@, old(self).master_key->0@) is None
                    &&& is_forest(links_of(rows@), tree.nodes@)
                    &&& caches(final(self).pad_map.pads@, rows@, old(self).master_key->0@)
                },
                Err(e) => match old(self).content_error() {
                    Some(refused) => e == refused,
                    None => {
                        &&& rebuild_error(rows@, old(self).master_key->0@) == Some(e)
                        &&& final(self).pad_map.pads@ == Map::<u128, EncryptedPad>::empty()
                    },
                },
            },
    {
        if self.pool.is_none() {
            return Err(Error::StoreUnavailable);
        }
        let master_key = match self.master_key {
            Some(key) => key,
            None => {
                return Err(Error::Locked);
            },
        };
        self.pad_map.pads = HashMap::new();
        let links = collect_links(rows);
        let tree = match build_forest(links.as_slice()) {
            Ok(tree) => tree,
            Err(e) => {
                return Err(e);
            },
        };
        match open_rows(rows, &master_key) {
            Ok(pads) => {
                self.pad_map.pads = pads;
                Ok(tree)
            },
            Err(e) => Err(e),
        }
    }

    /// Unlocks a locked session with the password.
    ///
    /// The key that password and salt give is accepted if and only if the
    /// metadata of every row opens under it. Where it is not, the key is
    /// dropped again, the session stays locked and the cache is left empty.
    /// A session that is not locked is refused and keeps its cache.
    pub fn unlock(&mut self, password: &str, salt: &[u8], rows: &[NodeRow]) -> (r: Result<
        NodeTree,
        Error,
    >)
        ensures
            unlock_outcome(*old(self), *final(self), r, password@, salt@, rows@),
    {
        if self.pool.is_none() {
            return Err(Error::StoreUnavailable);
        }
        if self.master_key.is_some() {
            return Err(Error::AlreadyUnlocked);
        }
        match self.derive_master_key(password, salt) {
            Ok(()) => {},
            Err(e) => {
                return Err(e);
            },
        }
        match self.get_node_tree(rows) {
            Ok(tree) => Ok(tree),
            Err(e) => {
                self.master_key = None;
                Err(e)
            },
        }
    }
}

impl<S> Cipherpad<S> {
    /// The cache of decrypted metadata.
    pub fn get_pad_map(&self) -> (r: Result<&PadMap, Error>)
        ensures
            match r {
                Ok(pad_map) => self.content_error() is None && *pad_map == self.pad_map,
                Err(e) => self.content_error() == Some(e),
            },
    {
        match self.content_key() {
            Ok(_) => Ok(&self.pad_map),
            Err(e) => Err(e),
        }
    }

    /// The cached pad with the given id.
    pub fn find_pad(&self, id: u128) -> (r: Result<&EncryptedPad, Error>)
        ensures
            match r {
                Ok(pad) => {
                    &&& self.content_error() is None
                    &&& self.pad_map.pads@.dom().contains(id)
                    &&& *pad == self.pad_map.pads@[id]
                },
                Err(e) => match self.content_error() {
                    Some(refused) => e == refused,
                    None => e == Error::NotFound && !self.pad_map.pads@.dom().contains(id),
                },
            },
    {
        match self.content_key() {
            Ok(_) => match self.pad_map.pads.get(&id) {
                Some(pad) => Ok(pad),
                None => Err(Error::NotFound),
            },
            Err(e) => Err(e),
        }
    }

    /// Seals a new pad under the given id and asks the store to insert it.
    pub fn create_pad_with_id(&self, id: u128, pad: Pad) -> (r: Result<StoreRequest, Error>)
        ensures
            match r {
                Ok(StoreRequest::InsertNode { id: row_id, parent_id, pad_metadata, pad_data }) => {
                    &&& self.content_error() is None
                    &&& row_id == id
                    &&& parent_id == pad.parent_id
                    &&& seals(
                        pad_metadata@,
                        vstd::utf8::encode_utf8(pad.pad_metadata@),
                        self.master_key->0@,
                    )
                    &&& seals(
                        pad_data@,
                        vstd::utf8::encode_utf8(pad.pad_data@),
                        self.master_key->0@,
                    )
                },
                Ok(_) => false,
                Err(e) => match self.content_error() {
                    Some(refused) => e == refused,
                    None => e == Error::CryptoFailure,
                },
            },
    {
        match self.content_key() {
            Ok(master_key) => PadNode::new(id, pad).create_node(master_key),
            Err(e) => Err(e),
        }
    }

    /// Seals a new pad under a fresh random id and asks the store to insert
    /// it. The id is that of the request.
    pub fn create_pad(&self, pad: Pad) -> (r: Result<StoreRequest, Error>)
        ensures
            match r {
                Ok(StoreRequest::InsertNode { id, parent_id, pad_metadata, pad_data }) => {
                    &&& self.content_error() is None
                    &&& is_random_id(id)
                    &&& parent_id == pad.parent_id
                    &&& seals(
                        pad_metadata@,
                        vstd::utf8::encode_utf8(pad.pad_metadata@),
                        self.master_key->0@,
                    )
                    &&& seals(
                        pad_data@,
                        vstd::utf8::encode_utf8(pad.pad_data@),
                        self.master_key->0@,
                    )
                },
                Ok(_) => false,
                Err(e) => match self.content_error() {
                    Some(refused) => e == refused,
                    None => e == Error::CryptoFailure,
                },
            },
    {
        match self.content_key() {
            Ok(_) => {},
            Err(e) => {
                return Err(e);
            },
        }
        let mut random = [0u8; 16];
        if fill_random(&mut random).is_err() {
            return Err(Error::CryptoFailure);
        }
        self.create_pad_with_id(pad_id_from_random(&random), pad)
    }

    /// Seals a changed pad and asks the store to replace its row.
    pub fn update_pad(&self, pad_node: &PadNode) -> (r: Result<StoreRequest, Error>)
        ensures
            match r {
                Ok(StoreRequest::UpdateNode { id, parent_id, pad_metadata, pad_data }) => {
                    &&& self.content_error() is None
                    &&& id == pad_node.id
                    &&& parent_id == pad_node.pad.parent_id
                    &&& seals(
                        pad_metadata@,
                        vstd::utf8::encode_utf8(pad_node.pad.pad_metadata@),
                        self.master_key->0@,
                    )
                    &&& seals(
                        pad_data@,
                        vstd::utf8::encode_utf8(pad_node.pad.pad_data@),
                        self.master_key->0@,
                    )
                },
                Ok(_) => false,
                Err(e) => match self.content_error() {
                    Some(refused) => e == refused,
                    None => e == Error::CryptoFailure,
                },
            },
    {
        match self.content_key() {
            Ok(master_key) => pad_node.encrypt_and_save(master_key),
            Err(e) => Err(e),
        }
    }

    /// Asks the store to delete the pad with the given id. Only a pad that
    /// the cache knows can be deleted.
    pub fn delete_pad(&self, id: u128) -> (r: Result<StoreRequest, Error>)
        ensures
            match r {
                Ok(request) => {
                    &&& self.content_error() is None
                    &&& self.pad_map.pads@.dom().contains(id)
                    &&& request == (StoreRequest::DeleteNode { id: self.pad_map.pads@[id].id })
                },
                Err(e) => match self.content_error() {
                    Some(refused) => e == refused,
                    None => e == Error::NotFound && !self.pad_map.pads@.dom().contains(id),
                },
            },
    {
        match self.find_pad(id) {
            Ok(pad) => Ok(pad.delete_node()),
            Err(e) => Err(e),
        }
    }

    /// Opens the body of a text pad. `stored` is what the store holds as the
    /// pad's data, or `None` where the store has no node with the pad's id.
    /// The cache is not asked: a pad can be read as soon as it is stored.
    pub fn decrypt_pad(&self, stored: Option<&[u8]>) -> (r: Result<String, Error>)
        ensures
            match r {
                Ok(text) => {
                    &&& self.content_error() is None
                    &&& stored is Some
                    &&& opened_as_string(stored->0@, self.master_key->0@) == Ok::<Seq<char>, Error>(
                        text@,
                    )
                },
                Err(e) => match self.content_error() {
                    Some(refused) => e == refused,
                    None => match stored {
                        Some(pad_data) => opened_as_string(pad_data@, self.master_key->0@) == Err::<
                            Seq<char>,
                            Error,
                        >(e),
                        None => e == Error::NotFound,
                    },
                },
            },
    {
        let master_key = match self.content_key() {
            Ok(master_key) => master_key,
            Err(e) => {
                return Err(e);
            },
        };
        match stored {
            Some(pad_data) => decrypt_as_string(pad_data, master_key),
            None => Err(Error::NotFound),
        }
    }

    /// Seals a file, held in memory, into the blob of a file pad.
    pub fn encrypt_file_to_pad(
        &self,
        encrypted_pad: &EncryptedPad,
        metadata: BlobPadMetadata,
        file: &[u8],
    ) -> (r: Result<FilePadUpdate, Error>)
        ensures
            match r {
                Ok(update) => {
                    &&& self.content_error() is None
                    &&& attachment_len(file@.len()) < MAX_BLOB_SIZE
                    &&& update.id == encrypted_pad.id
                    &&& update.metadata == (BlobPadMetadata {
                        encrypted_data_offset: update.metadata.encrypted_data_offset,
                        ..metadata
                    })
                    &&& holds_attachment(
                        update.pad_data@,
                        update.metadata.encrypted_data_offset as nat,
                        file@,
                        self.master_key->0@,
                    )
                },
                Err(e) => match self.content_error() {
                    Some(refused) => e == refused,
                    None => if attachment_len(file@.len()) >= MAX_BLOB_SIZE {
                        e == Error::FileTooLarge
                    } else {
                        e == Error::CryptoFailure
                    },
                },
            },
    {
        match self.content_key() {
            Ok(master_key) => encrypted_pad.encrypt_file_to_pad(metadata, master_key, file),
            Err(e) => Err(e),
        }
    }

    /// Decrypts the blob of a file pad, held in memory, and hands the file
    /// back as base64 text together with its media type.
    ///
    /// A blob of `MAX_BLOB_SIZE` bytes or more cannot have been stored and
    /// is refused as a corrupt attachment.
    pub fn decrypt_pad_to_blob(
        &self,
        encrypted_pad: &EncryptedPad,
        metadata: &BlobPadMetadata,
        pad_data: &[u8],
    ) -> (r: Result<(String, String), Error>)
        ensures
            match r {
                Ok((text, media_type)) => {
                    &&& self.content_error() is None
                    &&& pad_data@.len() < MAX_BLOB_SIZE
                    &&& match opened_attachment(
                        pad_data@,
                        metadata.encrypted_data_offset as nat,
                        self.master_key->0@,
                    ) {
                        Ok(file) => text@ == base64_standard(file) && media_type@
                            == sniffed_media_type(file),
                        Err(_) => false,
                    }
                },
                Err(e) => match self.content_error() {
                    Some(refused) => e == refused,
                    None => if pad_data@.len() >= MAX_BLOB_SIZE {
                        e == Error::CorruptAttachment
                    } else {
                        opened_attachment(
                            pad_data@,
                            metadata.encrypted_data_offset as nat,
                            self.master_key->0@,
                        ) == Err::<Seq<u8>, Error>(e)
                    },
                },
            },
    {
        let master_key = match self.content_key() {
            Ok(master_key) => master_key,
            Err(e) => {
                return Err(e);
            },
        };
        if pad_data.len() >= MAX_BLOB_SIZE {
            return Err(Error::CorruptAttachment);
        }
        match encrypted_pad.decrypt_pad_to_blob(metadata, master_key, pad_data) {
            Ok(file) => {
                let text = base64_encode(file.as_slice());
                let media_type = media_type_of(file.as_slice());
                Ok((text, media_type))
            },
            Err(e) => Err(e),
        }
    }
}

/// The cache depends on the rows and the key alone: rebuilt from the same
/// rows under the same key it has the same entries with the same text.
pub proof fn lemma_cache_is_unique(
    rows: Seq<NodeRow>,
    master_key: Seq<u8>,
    first: Map<u128, EncryptedPad>,
    second: Map<u128, EncryptedPad>,
    id: u128,
)
    requires
        caches(first, rows, master_key),
        caches(second, rows, master_key),
    ensures
        first.dom().contains(id) == second.dom().contains(id),
        first.dom().contains(id) ==> {
            &&& first[id].id == second[id].id
            &&& first[id].parent_id == second[id].parent_id
            &&& first[id].metadata@ == second[id].metadata@
        },
{
    if first.dom().contains(id) {
        let i = choose|i: int| 0 <= i < rows.len() && (#[trigger] rows[i]).id == id;
        assert(opened_as_string(rows[i].pad_metadata@, master_key) == Ok::<Seq<char>, Error>(
            first[id].metadata@,
        ));
        assert(opened_as_string(rows[i].pad_metadata@, master_key) == Ok::<Seq<char>, Error>(
            second[id].metadata@,
        ));
    }
}

/// Persistence: what a session shows depends on the password, the salt and
/// the rows alone. Two sessions unlocked with the same password over the
/// same store hold the same key, show the same forest, and cache the same
/// text for every pad.
pub proof fn lemma_unlock_is_repeatable<S, T>(
    first: Cipherpad<S>,
    first_tree: NodeTree,
    second: Cipherpad<T>,
    second_tree: NodeTree,
    password: Seq<char>,
    salt: Seq<u8>,
    rows: Seq<NodeRow>,
    id: u128,
)
    requires
        first.unlocked_by(first_tree, password, salt, rows),
        second.unlocked_by(second_tree, password, salt, rows),
    ensures
        first.master_key->0@ == second.master_key->0@,
        same_forest(first_tree.nodes@, second_tree.nodes@),
        first.pad_map.pads@.dom().contains(id) == second.pad_map.pads@.dom().contains(id),
        first.pad_map.pads@.dom().contains(id) ==> {
            &&& first.pad_map.pads@[id].id == second.pad_map.pads@[id].id
            &&& first.pad_map.pads@[id].parent_id == second.pad_map.pads@[id].parent_id
            &&& first.pad_map.pads@[id].metadata@ == second.pad_map.pads@[id].metadata@
        },
{
    lemma_forest_is_unique(links_of(rows), first_tree.nodes@, second_tree.nodes@);
    lemma_cache_is_unique(
        rows,
        first.master_key->0@,
        first.pad_map.pads@,
        second.pad_map.pads@,
        id,
    );
}

/// Wrong password: where the key that a password gives does not open the
/// metadata of every row, `unlock` fails and leaves the session locked,
/// without a key and with its store.
pub proof fn lemma_wrong_password_stays_locked<S>(
    before: Cipherpad<S>,
    after: Cipherpad<S>,
    r: Result<NodeTree, Error>,
    password: Seq<char>,
    salt: Seq<u8>,
    rows: Seq<NodeRow>,
)
    requires
        before.state() == SessionState::Locked,
        unlock_outcome(before, after, r, password, salt, rows),
        argon2id(vstd::utf8::encode_utf8(password), salt, KEY_SIZE as nat) matches Some(key)
            ==> !all_open(rows, key),
    ensures
        r is Err,
        after.state() == SessionState::Locked,
        after.master_key is None,
        after.pool == before.pool,
{
}

} // verus!
