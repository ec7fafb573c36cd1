//! Pads as they are cached, as they arrive from the user, and as they go to
//! the store.

use vstd::prelude::*;
use crate::attachment::{
    attachment_len, decrypt_pad_to_bytes, encrypt_file_to_pad, holds_attachment,
    opened_attachment, MAX_BLOB_SIZE,
};
use crate::crypto::{decrypt_as_string, encrypt, opened_as_string, seals};
use crate::error::Error;

verus! {

/// `serde_json::Value`, carried through as an opaque value.
#[verifier::external_type_specification]
#[verifier::external_body]
pub struct ExJsonValue(serde_json::Value);

/// A stored row as far as the session reads it: id, parent and the envelope
/// of the metadata.
pub struct NodeRow {
    pub id: u128,
    pub parent_id: Option<u128>,
    pub pad_metadata: Vec<u8>,
}

/// What the host is to do to the store.
pub enum StoreRequest {
    /// Insert a new row.
    InsertNode { id: u128, parent_id: Option<u128>, pad_metadata: Vec<u8>, pad_data: Vec<u8> },
    /// Replace metadata and data of a row; with a parent, move the row too.
    UpdateNode { id: u128, parent_id: Option<u128>, pad_metadata: Vec<u8>, pad_data: Vec<u8> },
    /// Delete a row; the store deletes its descendants with it.
    DeleteNode { id: u128 },
    /// Set the data of a row to a blob of length zero.
    ClearPadData { id: u128 },
}

/// A pad as the session caches it: the metadata in plain text, never the body.
#[derive(Clone)]
pub struct EncryptedPad {
    pub id: u128,
    pub parent_id: Option<u128>,
    pub metadata: String,
}

/// A pad as the user hands it in: metadata and body in plain text.
#[derive(Clone)]
pub struct Pad {
    pub parent_id: Option<u128>,
    pub pad_metadata: String,
    pub pad_data: String,
}

/// A pad together with the id of its row.
#[derive(Clone)]
pub struct PadNode {
    pub id: u128,
    pub pad: Pad,
}

/// The metadata of a file pad. The two times are carried as they came.
pub struct BlobPadMetadata {
    pub pad_type: String,
    pub name: String,
    pub created_at: serde_json::Value,
    pub last_modified_at: serde_json::Value,
    pub file_name: String,
    pub encrypted_data_offset: usize,
}

/// A file pad ready to be stored: the blob, and the metadata that names
/// the length of the sidecar envelope in front of it.
pub struct FilePadUpdate {
    pub id: u128,
    pub metadata: BlobPadMetadata,
    pub pad_data: Vec<u8>,
}

/// Text that was sealed opens to the same text.
pub proof fn lemma_text_round_trip(envelope: Seq<u8>, text: Seq<char>, master_key: Seq<u8>)
    requires
        seals(envelope, vstd::utf8::encode_utf8(text), master_key),
    ensures
        opened_as_string(envelope, master_key) == Ok::<Seq<char>, Error>(text),
{
    vstd::utf8::encode_utf8_valid_utf8(text);
    vstd::utf8::encode_utf8_decode_utf8(text);
}

impl BlobPadMetadata {
    /// The same metadata for a blob whose sidecar envelope is `header`.
    pub fn for_sidecar(self, header: &[u8]) -> (r: Self)
        ensures
            r == (BlobPadMetadata { encrypted_data_offset: header@.len() as usize, ..self }),
    {
        let mut metadata = self;
        metadata.encrypted_data_offset = header.len();
        metadata
    }
}

impl EncryptedPad {
    /// Opens the metadata envelope of a row and caches the text.
    pub fn new(
        id: u128,
        parent_id: Option<u128>,
        pad_metadata_encrypted: Vec<u8>,
        master_key: &[u8],
    ) -> (r: Result<Self, Error>)
        ensures
            match r {
                Ok(pad) => {
                    &&& pad.id == id
                    &&& pad.parent_id == parent_id
                    &&& opened_as_string(pad_metadata_encrypted@, master_key@) == Ok::<
                        Seq<char>,
                        Error,
                    >(pad.metadata@)
                },
                Err(e) => opened_as_string(pad_metadata_encrypted@, master_key@) == Err::<
                    Seq<char>,
                    Error,
                >(e),
            },
    {
        match decrypt_as_string(pad_metadata_encrypted.as_slice(), master_key) {
            Ok(metadata) => Ok(EncryptedPad { id, parent_id, metadata }),
            Err(e) => Err(e),
        }
    }

    /// Opens the body of a text pad, given the envelope stored as its data.
    pub fn decrypt_pad_data(&self, master_key: &[u8], pad_data: &[u8]) -> (r: Result<String, Error>)
        ensures
            match r {
                Ok(text) => opened_as_string(pad_data@, master_key@) == Ok::<Seq<char>, Error>(
                    text@,
                ),
                Err(e) => opened_as_string(pad_data@, master_key@) == Err::<Seq<char>, Error>(e),
            },
    {
        decrypt_as_string(pad_data, master_key)
    }

    /// The request that deletes this pad's row.
    pub fn delete_node(&self) -> (r: StoreRequest)
        ensures
            r == (StoreRequest::DeleteNode { id: self.id }),
    {
        StoreRequest::DeleteNode { id: self.id }
    }

    /// The request that empties this pad's data.
    pub fn clear_pad_data(&self) -> (r: StoreRequest)
        ensures
            r == (StoreRequest::ClearPadData { id: self.id }),
    {
        StoreRequest::ClearPadData { id: self.id }
    }

    /// Seals a file into this pad's blob and notes the length of the sidecar
    /// envelope in the metadata. Nothing else of the metadata changes.
    pub fn encrypt_file_to_pad(
        &self,
        metadata: BlobPadMetadata,
        master_key: &[u8],
        file: &[u8],
    ) -> (r: Result<FilePadUpdate, Error>)
        ensures
            attachment_len(file@.len()) >= MAX_BLOB_SIZE <==> r == Err::<FilePadUpdate, Error>(
                Error::FileTooLarge,
            ),
            match r {
                Ok(update) => {
                    &&& update.id == self.id
                    &&& update.metadata == (BlobPadMetadata {
                        encrypted_data_offset: update.metadata.encrypted_data_offset,
                        ..metadata
                    })
                    &&& update.metadata.encrypted_data_offset > 0
                    &&& holds_attachment(
                        update.pad_data@,
                        update.metadata.encrypted_data_offset as nat,
                        file@,
                        master_key@,
                    )
                },
                Err(e) => e == Error::FileTooLarge || e == Error::CryptoFailure,
            },
    {
        match encrypt_file_to_pad(file, master_key) {
            Ok(sealed) => {
                let mut metadata = metadata;
                metadata.encrypted_data_offset = sealed.encrypted_data_offset;
                Ok(FilePadUpdate { id: self.id, metadata, pad_data: sealed.pad_data })
            },
            Err(e) => Err(e),
        }
    }

    /// Decrypts this pad's blob, held in memory, to the bytes of the file.
    pub fn decrypt_pad_to_blob(
        &self,
        metadata: &BlobPadMetadata,
        master_key: &[u8],
        pad_data: &[u8],
    ) -> (r: Result<Vec<u8>, Error>)
        ensures
            match r {
                Ok(file) => opened_attachment(
                    pad_data@,
                    metadata.encrypted_data_offset as nat,
                    master_key@,
                ) == Ok::<Seq<u8>, Error>(file@) && file@.len() <= pad_data@.len(),
                Err(e) => opened_attachment(
                    pad_data@,
                    metadata.encrypted_data_offset as nat,
                    master_key@,
                ) == Err::<Seq<u8>, Error>(e),
            },
    {
        decrypt_pad_to_bytes(pad_data, metadata.encrypted_data_offset, master_key)
    }
}

impl PadNode {
    pub fn new(id: u128, pad: Pad) -> (r: Self)
        ensures
            r.id == id,
            r.pad == pad,
    {
        PadNode { id, pad }
    }

    /// Seals metadata and body and asks the store to replace them in this
    /// pad's row. Where the pad names a parent the row is moved under it;
    /// where it names none the row stays where it is.
    pub fn encrypt_and_save(&self, master_key: &[u8]) -> (r: Result<StoreRequest, Error>)
        ensures
            match r {
                Ok(StoreRequest::UpdateNode { id, parent_id, pad_metadata, pad_data }) => {
                    &&& id == self.id
                    &&& parent_id == self.pad.parent_id
                    &&& seals(pad_metadata@, vstd::utf8::encode_utf8(self.pad.pad_metadata@), master_key@)
                    &&& seals(pad_data@, vstd::utf8::encode_utf8(self.pad.pad_data@), master_key@)
                },
                Ok(_) => false,
                Err(e) => e == Error::CryptoFailure,
            },
    {
        let pad_metadata = match encrypt(self.pad.pad_metadata.as_str().as_bytes(), master_key) {
            Ok(envelope) => envelope,
            Err(e) => {
                return Err(e);
            },
        };
        let pad_data = match encrypt(self.pad.pad_data.as_str().as_bytes(), master_key) {
            Ok(envelope) => envelope,
            Err(e) => {
                return Err(e);
            },
        };
        Ok(
            StoreRequest::UpdateNode {
                id: self.id,
                parent_id: self.pad.parent_id,
                pad_metadata,
                pad_data,
            },
        )
    }

    /// Seals metadata and body and asks the store to insert them as a new
    /// row under the pad's parent.
    pub fn create_node(&self, master_key: &[u8]) -> (r: Result<StoreRequest, Error>)
        ensures
            match r {
                Ok(StoreRequest::InsertNode { id, parent_id, pad_metadata, pad_data }) => {
                    &&& id == self.id
                    &&& parent_id == self.pad.parent_id
                    &&& seals(pad_metadata@, vstd::utf8::encode_utf8(self.pad.pad_metadata@), master_key@)
                    &&& seals(pad_data@, vstd::utf8::encode_utf8(self.pad.pad_data@), master_key@)
                },
                Ok(_) => false,
                Err(e) => e == Error::CryptoFailure,
            },
    {
        let pad_metadata = match encrypt(self.pad.pad_metadata.as_str().as_bytes(), master_key) {
            Ok(envelope) => envelope,
            Err(e) => {
                return Err(e);
            },
        };
        let pad_data = match encrypt(self.pad.pad_data.as_str().as_bytes(), master_key) {
            Ok(envelope) => envelope,
            Err(e) => {
                return Err(e);
            },
        };
        Ok(
            StoreRequest::InsertNode {
                id: self.id,
                parent_id: self.pad.parent_id,
                pad_metadata,
                pad_data,
            },
        )
    }
}

} // verus!
