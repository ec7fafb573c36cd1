//! Chunked attachment format.
//!
//! A file pad's blob is `E ‖ c0 ‖ c1 ‖ …`: each `ci` is the envelope of one
//! chunk of the file, of at most `CHUNK_SIZE` bytes, and `E` is the envelope
//! of the sidecar, which lists the length of every `ci` as a big-endian
//! 64-bit number. The length of `E` is kept in the pad's metadata.

use vstd::prelude::*;
use crate::error::Error;
use crate::crypto::{decrypt, encrypt, opened, seals, ENVELOPE_OVERHEAD};

verus! {

/// Bytes of a file that go into one chunk envelope.
pub const CHUNK_SIZE: usize = 4096;

/// A blob must stay below this length.
pub const MAX_BLOB_SIZE: usize = 1_000_000_000;

/// Width of one entry of the sidecar.
pub const SIZE_WIDTH: usize = 8;

/// The eight bytes of `x`, most significant first.
pub open spec fn be_bytes(x: u64) -> Seq<u8> {
    seq![
        (x / 0x100_0000_0000_0000) as u8,
        ((x / 0x1_0000_0000_0000) % 256) as u8,
        ((x / 0x100_0000_0000) % 256) as u8,
        ((x / 0x1_0000_0000) % 256) as u8,
        ((x / 0x100_0000) % 256) as u8,
        ((x / 0x1_0000) % 256) as u8,
        ((x / 0x100) % 256) as u8,
        (x % 256) as u8,
    ]
}

/// The number that eight bytes spell, most significant first.
pub open spec fn be_value(bytes: Seq<u8>) -> int
    recommends
        bytes.len() == SIZE_WIDTH,
{
    bytes[0] * 0x100_0000_0000_0000 + bytes[1] * 0x1_0000_0000_0000 + bytes[2] * 0x100_0000_0000
        + bytes[3] * 0x1_0000_0000 + bytes[4] * 0x100_0000 + bytes[5] * 0x1_0000 + bytes[6] * 0x100
        + bytes[7]
}

/// The sidecar of a list of sizes: eight bytes for each, in order.
pub open spec fn encode_sizes(sizes: Seq<u64>) -> Seq<u8> {
    Seq::new(sizes.len() * 8, |i: int| be_bytes(sizes[i / 8])[i % 8])
}

/// The sizes that a sidecar lists. Meant for a sidecar whose length is a
/// multiple of eight.
pub open spec fn decode_sizes(bytes: Seq<u8>) -> Seq<u64> {
    Seq::new(
        bytes.len() / 8,
        |i: int| be_value(bytes.subrange(8 * i, 8 * i + 8)) as u64,
    )
}

/// Reading back what `be_bytes` wrote gives the number again.
pub proof fn lemma_be_round_trip(x: u64)
    ensures
        be_bytes(x).len() == SIZE_WIDTH,
        be_value(be_bytes(x)) == x,
{
    assert(x == (x / 0x100_0000_0000_0000) * 0x100_0000_0000_0000 + ((x / 0x1_0000_0000_0000)
        % 256) * 0x1_0000_0000_0000 + ((x / 0x100_0000_0000) % 256) * 0x100_0000_0000 + ((x
        / 0x1_0000_0000) % 256) * 0x1_0000_0000 + ((x / 0x100_0000) % 256) * 0x100_0000 + ((x
        / 0x1_0000) % 256) * 0x1_0000 + ((x / 0x100) % 256) * 0x100 + x % 256) by (bit_vector);
    assert(x / 0x100_0000_0000_0000 < 256) by (bit_vector);
}

/// Decoding an encoded list of sizes gives the list again.
pub proof fn lemma_sizes_round_trip(sizes: Seq<u64>)
    ensures
        encode_sizes(sizes).len() == sizes.len() * SIZE_WIDTH,
        decode_sizes(encode_sizes(sizes)) == sizes,
{
    let bytes = encode_sizes(sizes);
    assert(bytes.len() / SIZE_WIDTH as nat == sizes.len());
    assert forall|i: int| 0 <= i < sizes.len() implies #[trigger] decode_sizes(bytes)[i]
        == sizes[i] by {
        let group = bytes.subrange(8 * i, 8 * i + 8);
        assert forall|j: int| 0 <= j < 8 implies group[j] == be_bytes(sizes[i])[j] by {
            assert(group[j] == bytes[8 * i + j]);
            assert((8 * i + j) / 8 == i);
            assert((8 * i + j) % 8 == j);
        }
        assert(group =~= be_bytes(sizes[i]));
        lemma_be_round_trip(sizes[i]);
    }
    assert(decode_sizes(bytes) =~= sizes);
}

/// Appends the eight big-endian bytes of `x` to `out`.
fn push_be_bytes(out: &mut Vec<u8>, x: u64)
    ensures
        final(out)@ == old(out)@ + be_bytes(x),
{
    out.push((x / 0x100_0000_0000_0000) as u8);
    out.push(((x / 0x1_0000_0000_0000) % 256) as u8);
    out.push(((x / 0x100_0000_0000) % 256) as u8);
    out.push(((x / 0x1_0000_0000) % 256) as u8);
    out.push(((x / 0x100_0000) % 256) as u8);
    out.push(((x / 0x1_0000) % 256) as u8);
    out.push(((x / 0x100) % 256) as u8);
    out.push((x % 256) as u8);
    assert(out@ =~= old(out)@ + be_bytes(x));
}

/// Reads the big-endian number at `bytes[at..at + 8]`.
fn read_be_value(bytes: &[u8], at: usize) -> (x: u64)
    requires
        at + SIZE_WIDTH <= bytes@.len(),
    ensures
        x == be_value(bytes@.subrange(at as int, at + 8)),
{
    let ghost group = bytes@.subrange(at as int, at + 8);
    assert(forall|j: int| 0 <= j < 8 ==> group[j] == bytes@[at + j]);
    let b0 = bytes[at] as u64;
    let b1 = bytes[at + 1] as u64;
    let b2 = bytes[at + 2] as u64;
    let b3 = bytes[at + 3] as u64;
    let b4 = bytes[at + 4] as u64;
    let b5 = bytes[at + 5] as u64;
    let b6 = bytes[at + 6] as u64;
    let b7 = bytes[at + 7] as u64;
    b0 * 0x100_0000_0000_0000 + b1 * 0x1_0000_0000_0000 + b2 * 0x100_0000_0000 + b3
        * 0x1_0000_0000 + b4 * 0x100_0000 + b5 * 0x1_0000 + b6 * 0x100 + b7
}

/// Writes the sidecar of `sizes`.
pub fn encode_chunk_sizes(sizes: &[u64]) -> (r: Vec<u8>)
    ensures
        r@ == encode_sizes(sizes@),
{
    let mut out: Vec<u8> = Vec::new();
    let mut i: usize = 0;
    while i < sizes.len()
        invariant
            i <= sizes@.len(),
            out@ == encode_sizes(sizes@.take(i as int)),
        decreases sizes@.len() - i,
    {
        let ghost before = out@;
        push_be_bytes(&mut out, sizes[i]);
        proof {
            let next = sizes@.take(i + 1);
            assert forall|k: int| 0 <= k < out@.len() implies out@[k] == encode_sizes(next)[k] by {
                if k < 8 * i {
                    assert(before[k] == be_bytes(sizes@.take(i as int)[k / 8])[k % 8]);
                } else {
                    assert(k / 8 == i as int);
                    assert(k % 8 == k - 8 * i);
                }
            }
            assert(out@ =~= encode_sizes(next));
        }
        i += 1;
    }
    assert(sizes@.take(i as int) =~= sizes@);
    out
}

/// Reads a sidecar. Its length must be a multiple of eight; any other
/// length is a corrupt attachment.
pub fn parse_chunk_sizes(bytes: &[u8]) -> (r: Result<Vec<u64>, Error>)
    ensures
        match r {
            Ok(sizes) => bytes@.len() % SIZE_WIDTH as nat == 0 && sizes@ == decode_sizes(bytes@),
            Err(e) => e == Error::CorruptAttachment && bytes@.len() % SIZE_WIDTH as nat != 0,
        },
{
    if bytes.len() % SIZE_WIDTH != 0 {
        return Err(Error::CorruptAttachment);
    }
    let count = bytes.len() / SIZE_WIDTH;
    let mut sizes: Vec<u64> = Vec::new();
    let mut i: usize = 0;
    while i < count
        invariant
            i <= count,
            count * SIZE_WIDTH == bytes@.len(),
            bytes@.len() <= usize::MAX,
            sizes@.len() == i,
            forall|k: int| 0 <= k < i ==> sizes@[k] == #[trigger] decode_sizes(bytes@)[k],
        decreases count - i,
    {
        let x = read_be_value(bytes, i * SIZE_WIDTH);
        sizes.push(x);
        i += 1;
    }
    assert(sizes@ =~= decode_sizes(bytes@));
    Ok(sizes)
}

/// The sum of a list of sizes.
pub open spec fn sum_sizes(sizes: Seq<u64>) -> nat
    decreases sizes.len(),
{
    if sizes.len() == 0 {
        0
    } else {
        sum_sizes(sizes.drop_last()) + sizes.last() as nat
    }
}

/// The length of the envelope of a sidecar of `count` entries.
pub open spec fn sidecar_envelope_len(count: nat) -> nat {
    (count * SIZE_WIDTH + ENVELOPE_OVERHEAD) as nat
}

/// The chunk rule for the sizes of chunk envelopes: every chunk is
/// `CHUNK_SIZE` bytes long but the last, which may be shorter, and no chunk
/// is empty. A size is a chunk's length and the envelope's overhead.
pub open spec fn obeys_chunk_rule(sizes: Seq<u64>) -> bool {
    forall|i: int|
        0 <= i < sizes.len() ==> {
            &&& ENVELOPE_OVERHEAD < (#[trigger] sizes[i]) <= CHUNK_SIZE + ENVELOPE_OVERHEAD
            &&& i + 1 < sizes.len() ==> sizes[i] == CHUNK_SIZE + ENVELOPE_OVERHEAD
        }
}

/// A chunk of `len` bytes may follow the chunks with the sizes `sizes`: it
/// is not empty and not longer than `CHUNK_SIZE`, and no shorter chunk has
/// gone before it.
pub open spec fn takes_chunk(sizes: Seq<u64>, len: nat) -> bool {
    &&& 0 < len <= CHUNK_SIZE
    &&& sizes.len() > 0 ==> sizes.last() == CHUNK_SIZE + ENVELOPE_OVERHEAD
}

/// The sealed sidecar of a file, and the length of the whole blob that it
/// goes in front of.
pub struct SealedSidecar {
    pub header: Vec<u8>,
    pub blob_len: usize,
}

/// Collects the sidecar while the chunks of one file are sealed one by one.
///
/// The caller reads the file piece by piece, hands each piece to
/// `push_chunk` and stores the envelope that comes back; `finish` then seals
/// the sidecar, which goes in front of the stored envelopes.
pub struct AttachmentWriter {
    sizes: Vec<u64>,
    total: usize,
}

impl View for AttachmentWriter {
    type V = Seq<u64>;

    /// The lengths of the chunk envelopes made so far.
    closed spec fn view(&self) -> Seq<u64> {
        self.sizes@
    }
}

impl AttachmentWriter {
    #[verifier::type_invariant]
    spec fn well_formed(self) -> bool {
        &&& self.total == sum_sizes(self.sizes@)
        &&& self.total < MAX_BLOB_SIZE
        &&& self.sizes@.len() * ENVELOPE_OVERHEAD <= self.total
        &&& obeys_chunk_rule(self.sizes@)
    }

    /// A writer that has sealed nothing yet.
    pub fn new() -> (r: Self)
        ensures
            r@ == Seq::<u64>::empty(),
    {
        AttachmentWriter { sizes: Vec::new(), total: 0 }
    }

    /// The lengths of the chunk envelopes made so far. They obey the chunk
    /// rule.
    pub fn chunk_sizes(&self) -> (r: &[u64])
        ensures
            r@ == self@,
            obeys_chunk_rule(self@),
    {
        proof {
            use_type_invariant(self);
        }
        self.sizes.as_slice()
    }

    /// Seals one chunk and records the length of its envelope. The writer
    /// comes back with the envelope, which the caller stores.
    ///
    /// The chunks of a file are `CHUNK_SIZE` bytes each, the last one
    /// shorter where the file's length is no multiple of it. A chunk that
    /// breaks this rule is refused as `CorruptAttachment`: an empty one, one
    /// that is too long, or one that follows a shorter chunk. Once the chunk
    /// envelopes alone would reach `MAX_BLOB_SIZE` the chunk is refused as
    /// `FileTooLarge`.
    pub fn push_chunk(self, chunk: &[u8], master_key: &[u8]) -> (r: Result<
        (AttachmentWriter, Vec<u8>),
        Error,
    >)
        ensures
            obeys_chunk_rule(self@),
            !takes_chunk(self@, chunk@.len()) ==> r == Err::<(AttachmentWriter, Vec<u8>), Error>(
                Error::CorruptAttachment,
            ),
            takes_chunk(self@, chunk@.len()) && sum_sizes(self@) + chunk@.len() + ENVELOPE_OVERHEAD
                >= MAX_BLOB_SIZE ==> r == Err::<(AttachmentWriter, Vec<u8>), Error>(
                Error::FileTooLarge,
            ),
            match r {
                Ok((writer, envelope)) => {
                    &&& seals(envelope@, chunk@, master_key@)
                    &&& writer@ == self@.push(envelope@.len() as u64)
                    &&& obeys_chunk_rule(writer@)
                    &&& sum_sizes(writer@) == sum_sizes(self@) + envelope@.len()
                    &&& sum_sizes(writer@) < MAX_BLOB_SIZE
                },
                Err(e) => {
                    &&& e == Error::CorruptAttachment || e == Error::FileTooLarge || e
                        == Error::CryptoFailure
                    &&& e == Error::CorruptAttachment ==> !takes_chunk(self@, chunk@.len())
                    &&& e == Error::FileTooLarge ==> sum_sizes(self@) + chunk@.len()
                        + ENVELOPE_OVERHEAD >= MAX_BLOB_SIZE
                },
            },
    {
        proof {
            use_type_invariant(&self);
        }
        if chunk.len() == 0 || chunk.len() > CHUNK_SIZE {
            return Err(Error::CorruptAttachment);
        }
        let count = self.sizes.len();
        if count > 0 && self.sizes[count - 1] != (CHUNK_SIZE + ENVELOPE_OVERHEAD) as u64 {
            return Err(Error::CorruptAttachment);
        }
        if self.total >= MAX_BLOB_SIZE - ENVELOPE_OVERHEAD || chunk.len() >= MAX_BLOB_SIZE
            - ENVELOPE_OVERHEAD - self.total {
            return Err(Error::FileTooLarge);
        }
        match encrypt(chunk, master_key) {
            Ok(envelope) => {
                let total = self.total + envelope.len();
                let mut sizes = self.sizes;
                let ghost before = sizes@;
                sizes.push(envelope.len() as u64);
                proof {
                    assert(sizes@.drop_last() =~= before);
                    assert forall|i: int| 0 <= i < sizes@.len() implies {
                        &&& ENVELOPE_OVERHEAD < (#[trigger] sizes@[i]) <= CHUNK_SIZE
                            + ENVELOPE_OVERHEAD
                        &&& i + 1 < sizes@.len() ==> sizes@[i] == CHUNK_SIZE + ENVELOPE_OVERHEAD
                    } by {
                        if i < before.len() {
                            assert(sizes@[i] == before[i]);
                        }
                    }
                }
                Ok((AttachmentWriter { sizes, total }, envelope))
            },
            Err(_) => Err(Error::CryptoFailure),
        }
    }

    /// The sum of the lengths of the chunk envelopes made so far.
    pub fn body_len(&self) -> (r: usize)
        ensures
            r == sum_sizes(self@),
            r < MAX_BLOB_SIZE,
    {
        proof {
            use_type_invariant(self);
        }
        self.total
    }

    /// Seals the sidecar. The blob is the sidecar's envelope followed by
    /// the chunk envelopes; where that would reach `MAX_BLOB_SIZE` the file
    /// is refused as `FileTooLarge`.
    pub fn finish(&self, master_key: &[u8]) -> (r: Result<SealedSidecar, Error>)
        ensures
            obeys_chunk_rule(self@),
            sidecar_envelope_len(self@.len()) + sum_sizes(self@) >= MAX_BLOB_SIZE ==> r == Err::<
                SealedSidecar,
                Error,
            >(Error::FileTooLarge),
            match r {
                Ok(sidecar) => {
                    &&& seals(sidecar.header@, encode_sizes(self@), master_key@)
                    &&& sidecar.header@.len() == sidecar_envelope_len(self@.len())
                    &&& sidecar.blob_len == sidecar.header@.len() + sum_sizes(self@)
                    &&& sidecar.blob_len < MAX_BLOB_SIZE
                },
                Err(e) => {
                    &&& e == Error::FileTooLarge || e == Error::CryptoFailure
                    &&& e == Error::FileTooLarge ==> sidecar_envelope_len(self@.len()) + sum_sizes(
                        self@,
                    ) >= MAX_BLOB_SIZE
                },
            },
    {
        proof {
            use_type_invariant(self);
        }
        let header_len = self.sizes.len() * SIZE_WIDTH + ENVELOPE_OVERHEAD;
        if header_len >= MAX_BLOB_SIZE - self.total {
            return Err(Error::FileTooLarge);
        }
        let sidecar = encode_chunk_sizes(self.sizes.as_slice());
        match encrypt(sidecar.as_slice(), master_key) {
            Ok(header) => {
                let blob_len = header.len() + self.total;
                Ok(SealedSidecar { header, blob_len })
            },
            Err(_) => Err(Error::CryptoFailure),
        }
    }
}

/// What opening the sidecar envelope `header` gives: the chunk sizes.
pub open spec fn opened_sidecar(header: Seq<u8>, master_key: Seq<u8>) -> Result<Seq<u64>, Error> {
    match opened(header, master_key) {
        Ok(sidecar) => if sidecar.len() % 8 == 0 {
            Ok(decode_sizes(sidecar))
        } else {
            Err(Error::CorruptAttachment)
        },
        Err(e) => Err(e),
    }
}

/// What opening one chunk gives, where `stored` is what could be read of the
/// `size` bytes that the sidecar announces for it.
pub open spec fn opened_chunk(stored: Seq<u8>, size: u64, master_key: Seq<u8>) -> Result<
    Seq<u8>,
    Error,
> {
    if stored.len() != size {
        Err(Error::CorruptAttachment)
    } else {
        opened(stored, master_key)
    }
}

/// What could be read of `size` bytes of `pad_data` from position `at` on.
pub open spec fn stored_chunk(pad_data: Seq<u8>, at: int, size: u64) -> Seq<u8> {
    if at + size <= pad_data.len() {
        pad_data.subrange(at, at + size)
    } else {
        pad_data.subrange(at, pad_data.len() as int)
    }
}

/// What opening the chunks gives that lie one after another in `pad_data`
/// from position `at` on, with the lengths `sizes`: their plaintexts in
/// order, or the first error.
pub open spec fn opened_chunks(
    pad_data: Seq<u8>,
    at: int,
    sizes: Seq<u64>,
    master_key: Seq<u8>,
) -> Result<Seq<u8>, Error>
    decreases sizes.len(),
{
    if sizes.len() == 0 {
        Ok(Seq::empty())
    } else {
        match opened_chunk(stored_chunk(pad_data, at, sizes[0]), sizes[0], master_key) {
            Ok(first) => match opened_chunks(
                pad_data,
                at + sizes[0],
                sizes.drop_first(),
                master_key,
            ) {
                Ok(rest) => Ok(first + rest),
                Err(e) => Err(e),
            },
            Err(e) => Err(e),
        }
    }
}

/// What decrypting a file pad's blob gives, where `offset` is the length of
/// the sidecar envelope in front of it.
pub open spec fn opened_attachment(pad_data: Seq<u8>, offset: nat, master_key: Seq<u8>) -> Result<
    Seq<u8>,
    Error,
> {
    if offset > pad_data.len() {
        Err(Error::CorruptAttachment)
    } else {
        match opened_sidecar(pad_data.subrange(0, offset as int), master_key) {
            Ok(sizes) => opened_chunks(pad_data, offset as int, sizes, master_key),
            Err(e) => Err(e),
        }
    }
}

/// Opens the sidecar envelope and reads the chunk sizes from it.
pub fn open_sidecar(header: &[u8], master_key: &[u8]) -> (r: Result<Vec<u64>, Error>)
    ensures
        match r {
            Ok(sizes) => opened_sidecar(header@, master_key@) == Ok::<Seq<u64>, Error>(sizes@),
            Err(e) => opened_sidecar(header@, master_key@) == Err::<Seq<u64>, Error>(e),
        },
{
    match decrypt(header, master_key) {
        Ok(sidecar) => parse_chunk_sizes(sidecar.as_slice()),
        Err(e) => Err(e),
    }
}

/// What opening the sidecar gives where `header` is what could be read of
/// the `offset` bytes that the metadata announces for its envelope.
pub open spec fn opened_sidecar_of(header: Seq<u8>, offset: nat, master_key: Seq<u8>) -> Result<
    Seq<u64>,
    Error,
> {
    if header.len() != offset {
        Err(Error::CorruptAttachment)
    } else {
        opened_sidecar(header, master_key)
    }
}

/// Opens the sidecar envelope of a blob. `header` is what was read for it;
/// fewer or more bytes than the `offset` that the metadata announces is a
/// corrupt attachment.
pub fn open_sidecar_of(header: &[u8], offset: usize, master_key: &[u8]) -> (r: Result<
    Vec<u64>,
    Error,
>)
    ensures
        match r {
            Ok(sizes) => opened_sidecar_of(header@, offset as nat, master_key@) == Ok::<
                Seq<u64>,
                Error,
            >(sizes@),
            Err(e) => opened_sidecar_of(header@, offset as nat, master_key@) == Err::<
                Seq<u64>,
                Error,
            >(e),
        },
{
    if header.len() != offset {
        return Err(Error::CorruptAttachment);
    }
    open_sidecar(header, master_key)
}

/// Opens one chunk envelope. `stored` is what was read for it; fewer or more
/// bytes than the `size` that the sidecar announces is a corrupt attachment.
pub fn open_chunk(stored: &[u8], size: u64, master_key: &[u8]) -> (r: Result<Vec<u8>, Error>)
    ensures
        match r {
            Ok(plaintext) => opened_chunk(stored@, size, master_key@) == Ok::<Seq<u8>, Error>(
                plaintext@,
            ) && plaintext@.len() + ENVELOPE_OVERHEAD == stored@.len(),
            Err(e) => opened_chunk(stored@, size, master_key@) == Err::<Seq<u8>, Error>(e),
        },
{
    if stored.len() as u64 != size {
        return Err(Error::CorruptAttachment);
    }
    decrypt(stored, master_key)
}

/// Decrypts a whole file pad held in memory: reads the sidecar from the
/// first `offset` bytes, then opens the chunks one after another.
pub fn decrypt_pad_to_bytes(pad_data: &[u8], offset: usize, master_key: &[u8]) -> (r: Result<
    Vec<u8>,
    Error,
>)
    ensures
        match r {
            Ok(file) => opened_attachment(pad_data@, offset as nat, master_key@) == Ok::<
                Seq<u8>,
                Error,
            >(file@) && file@.len() <= pad_data@.len(),
            Err(e) => opened_attachment(pad_data@, offset as nat, master_key@) == Err::<
                Seq<u8>,
                Error,
            >(e),
        },
{
    if offset > pad_data.len() {
        return Err(Error::CorruptAttachment);
    }
    let sizes = match open_sidecar(vstd::slice::slice_subrange(pad_data, 0, offset), master_key) {
        Ok(sizes) => sizes,
        Err(e) => {
            return Err(e);
        },
    };
    let ghost whole = opened_chunks(pad_data@, offset as int, sizes@, master_key@);
    let mut file: Vec<u8> = Vec::new();
    let mut at: usize = offset;
    let mut i: usize = 0;
    proof {
        assert(sizes@.skip(0) =~= sizes@);
        match whole {
            Ok(rest) => {
                assert(file@ + rest =~= rest);
            },
            Err(_) => {},
        }
    }
    while i < sizes.len()
        invariant
            i <= sizes@.len(),
            offset <= at <= pad_data@.len(),
            file@.len() <= at - offset,
            whole == opened_attachment(pad_data@, offset as nat, master_key@),
            whole == (match opened_chunks(pad_data@, at as int, sizes@.skip(i as int), master_key@) {
                Ok(rest) => Ok::<Seq<u8>, Error>(file@ + rest),
                Err(e) => Err::<Seq<u8>, Error>(e),
            }),
        decreases sizes@.len() - i,
    {
        let size = sizes[i];
        let ghost remaining = sizes@.skip(i as int);
        assert(remaining[0] == size);
        assert(remaining.drop_first() =~= sizes@.skip(i + 1));
        let left = pad_data.len() - at;
        let end = if size > left as u64 {
            pad_data.len()
        } else {
            at + size as usize
        };
        let stored = vstd::slice::slice_subrange(pad_data, at, end);
        assert(stored@ == stored_chunk(pad_data@, at as int, size));
        match open_chunk(stored, size, master_key) {
            Ok(plaintext) => {
                let ghost before = file@;
                file.extend_from_slice(plaintext.as_slice());
                proof {
                    assert(file@ =~= before + plaintext@);
                    match opened_chunks(pad_data@, at + size, sizes@.skip(i + 1), master_key@) {
                        Ok(rest) => {
                            assert(before + (plaintext@ + rest) =~= file@ + rest);
                        },
                        Err(_) => {},
                    }
                }
                at = end;
            },
            Err(e) => {
                return Err(e);
            },
        }
        i += 1;
    }
    assert(sizes@.skip(i as int) =~= Seq::<u64>::empty());
    assert(file@ + Seq::<u8>::empty() =~= file@);
    Ok(file)
}

/// The number of chunks of a file of `len` bytes: `len / CHUNK_SIZE`,
/// rounded up.
pub open spec fn chunk_count(len: nat) -> nat {
    ((len + CHUNK_SIZE - 1) / CHUNK_SIZE as int) as nat
}

/// The length of chunk `i` of a file of `len` bytes: `CHUNK_SIZE`, or what
/// is left of the file where that is less.
pub open spec fn chunk_len(len: nat, i: int) -> int {
    if (i + 1) * CHUNK_SIZE <= len {
        CHUNK_SIZE as int
    } else {
        len - i * CHUNK_SIZE
    }
}

/// Chunk `i` of a file.
pub open spec fn chunk_of(file: Seq<u8>, i: int) -> Seq<u8> {
    file.subrange(i * CHUNK_SIZE, i * CHUNK_SIZE + chunk_len(file.len(), i))
}

/// The sizes that the sidecar of a file of `len` bytes lists: for each chunk
/// its length and the envelope's overhead.
pub open spec fn chunk_envelope_sizes(len: nat) -> Seq<u64> {
    Seq::new(chunk_count(len), |i: int| (chunk_len(len, i) + ENVELOPE_OVERHEAD) as u64)
}

/// The length of the blob of a file of `len` bytes.
pub open spec fn attachment_len(len: nat) -> nat {
    (sidecar_envelope_len(chunk_count(len)) + len + chunk_count(len) * ENVELOPE_OVERHEAD) as nat
}

/// Where the envelope of chunk `i` starts in a blob whose sidecar envelope
/// is `offset` bytes long.
pub open spec fn chunk_start(offset: nat, i: int) -> int {
    offset + i * (CHUNK_SIZE + ENVELOPE_OVERHEAD)
}

/// `pad_data` is a blob of `file` under `master_key`, with a sidecar
/// envelope of `offset` bytes: the sidecar envelope holds the sizes of the
/// file's chunk envelopes, and these follow one after another, each holding
/// its chunk.
pub open spec fn holds_attachment(
    pad_data: Seq<u8>,
    offset: nat,
    file: Seq<u8>,
    master_key: Seq<u8>,
) -> bool {
    let sizes = chunk_envelope_sizes(file.len());
    &&& offset == sidecar_envelope_len(sizes.len())
    &&& pad_data.len() == attachment_len(file.len())
    &&& seals(pad_data.subrange(0, offset as int), encode_sizes(sizes), master_key)
    &&& forall|i: int|
        0 <= i < sizes.len() ==> seals(
            #[trigger] pad_data.subrange(chunk_start(offset, i), chunk_start(offset, i) + sizes[i]),
            chunk_of(file, i),
            master_key,
        )
}

/// A file pad's blob and the length of the sidecar envelope in front of it.
pub struct SealedFile {
    pub pad_data: Vec<u8>,
    pub encrypted_data_offset: usize,
}

/// The sidecar of a file of `len` bytes has one entry for every
/// `CHUNK_SIZE` bytes, the last one for what is left, and each entry is the
/// chunk's length plus nonce, info and tag.
pub proof fn lemma_chunk_envelope_sizes(len: nat)
    ensures
        chunk_envelope_sizes(len).len() == chunk_count(len),
        chunk_count(len) * CHUNK_SIZE >= len,
        len > 0 ==> (chunk_count(len) - 1) * CHUNK_SIZE < len,
        len == 0 ==> chunk_count(len) == 0,
        forall|i: int|
            0 <= i < chunk_count(len) ==> {
                &&& 0 < chunk_len(len, i) <= CHUNK_SIZE
                &&& chunk_len(len, i) == if len - i * CHUNK_SIZE < CHUNK_SIZE {
                    len - i * CHUNK_SIZE
                } else {
                    CHUNK_SIZE as int
                }
                &&& #[trigger] chunk_envelope_sizes(len)[i] == chunk_len(len, i) + ENVELOPE_OVERHEAD
            },
{
}

/// In a blob of `file`, the chunks from the `i`-th on open to the file from
/// that chunk's first byte on.
proof fn lemma_chunks_open(
    pad_data: Seq<u8>,
    offset: nat,
    file: Seq<u8>,
    master_key: Seq<u8>,
    i: int,
)
    requires
        holds_attachment(pad_data, offset, file, master_key),
        0 <= i < chunk_count(file.len()),
    ensures
        opened_chunks(
            pad_data,
            chunk_start(offset, i),
            chunk_envelope_sizes(file.len()).skip(i),
            master_key,
        ) == Ok::<Seq<u8>, Error>(file.subrange(i * CHUNK_SIZE, file.len() as int)),
    decreases chunk_count(file.len()) - i,
{
    let len = file.len();
    let sizes = chunk_envelope_sizes(len);
    let at = chunk_start(offset, i);
    lemma_chunk_envelope_sizes(len);
    let remaining = sizes.skip(i);
    assert(remaining[0] == sizes[i]);
    assert(remaining.drop_first() =~= sizes.skip(i + 1));
    let stored = pad_data.subrange(at, at + sizes[i]);
    assert(seals(stored, chunk_of(file, i), master_key));
    assert(at + sizes[i] <= pad_data.len()) by {
        assert(i * CHUNK_SIZE + chunk_len(len, i) <= len);
        assert((i + 1) * ENVELOPE_OVERHEAD <= chunk_count(len) * ENVELOPE_OVERHEAD);
    }
    assert(stored_chunk(pad_data, at, sizes[i]) == stored);
    assert(opened_chunk(stored, sizes[i], master_key) == Ok::<Seq<u8>, Error>(chunk_of(file, i)));
    let tail = file.subrange(i * CHUNK_SIZE + chunk_len(len, i), len as int);
    if i + 1 < chunk_count(len) {
        lemma_chunks_open(pad_data, offset, file, master_key, i + 1);
        assert(at + sizes[i] == chunk_start(offset, i + 1));
    } else {
        assert(sizes.skip(i + 1) =~= Seq::<u64>::empty());
        assert(tail =~= Seq::<u8>::empty());
    }
    assert(opened_chunks(pad_data, at + sizes[i], remaining.drop_first(), master_key) == Ok::<
        Seq<u8>,
        Error,
    >(tail));
    assert(chunk_of(file, i) + tail =~= file.subrange(i * CHUNK_SIZE, len as int));
}

/// Chunks keep their places: in a blob of a file the `i`-th chunk envelope
/// opens to the `i`-th chunk of the file.
pub proof fn lemma_chunk_identity(
    pad_data: Seq<u8>,
    offset: nat,
    file: Seq<u8>,
    master_key: Seq<u8>,
    i: int,
)
    requires
        holds_attachment(pad_data, offset, file, master_key),
        0 <= i < chunk_count(file.len()),
    ensures
        opened_chunk(
            stored_chunk(
                pad_data,
                chunk_start(offset, i),
                chunk_envelope_sizes(file.len())[i],
            ),
            chunk_envelope_sizes(file.len())[i],
            master_key,
        ) == Ok::<Seq<u8>, Error>(chunk_of(file, i)),
{
    let len = file.len();
    let sizes = chunk_envelope_sizes(len);
    let at = chunk_start(offset, i);
    lemma_chunk_envelope_sizes(len);
    let stored = pad_data.subrange(at, at + sizes[i]);
    assert(seals(stored, chunk_of(file, i), master_key));
    assert(at + sizes[i] <= pad_data.len()) by {
        assert(i * CHUNK_SIZE + chunk_len(len, i) <= len);
        assert((i + 1) * ENVELOPE_OVERHEAD <= chunk_count(len) * ENVELOPE_OVERHEAD);
    }
}

/// Round trip of an attachment: a blob of a file under a key decrypts to
/// exactly the file's bytes under the same key.
pub proof fn lemma_attachment_round_trip(
    pad_data: Seq<u8>,
    offset: nat,
    file: Seq<u8>,
    master_key: Seq<u8>,
)
    requires
        holds_attachment(pad_data, offset, file, master_key),
    ensures
        opened_attachment(pad_data, offset, master_key) == Ok::<Seq<u8>, Error>(file),
{
    let sizes = chunk_envelope_sizes(file.len());
    lemma_sizes_round_trip(sizes);
    lemma_chunk_envelope_sizes(file.len());
    assert(opened_sidecar(pad_data.subrange(0, offset as int), master_key) == Ok::<
        Seq<u64>,
        Error,
    >(sizes));
    if chunk_count(file.len()) > 0 {
        lemma_chunks_open(pad_data, offset, file, master_key, 0);
        assert(sizes.skip(0) =~= sizes);
        assert(file.subrange(0, file.len() as int) =~= file);
    } else {
        assert(file =~= Seq::<u8>::empty());
    }
}

/// The length of the blob of a file of `len` bytes, or `None` where it
/// would reach `MAX_BLOB_SIZE`.
pub fn blob_len(len: usize) -> (r: Option<usize>)
    ensures
        match r {
            Some(total) => total == attachment_len(len as nat) && total < MAX_BLOB_SIZE,
            None => attachment_len(len as nat) >= MAX_BLOB_SIZE,
        },
{
    if len >= MAX_BLOB_SIZE {
        return None;
    }
    let count = if len % CHUNK_SIZE == 0 {
        len / CHUNK_SIZE
    } else {
        len / CHUNK_SIZE + 1
    };
    let total = count * SIZE_WIDTH + ENVELOPE_OVERHEAD + len + count * ENVELOPE_OVERHEAD;
    if total >= MAX_BLOB_SIZE {
        None
    } else {
        Some(total)
    }
}

/// Seals a whole file held in memory into a file pad's blob.
///
/// The file is cut into chunks of `CHUNK_SIZE` bytes, the last one shorter
/// where the length is no multiple of it. A file whose blob would reach
/// `MAX_BLOB_SIZE` is refused as `FileTooLarge` before anything is sealed;
/// the only other error is `CryptoFailure`.
pub fn encrypt_file_to_pad(file: &[u8], master_key: &[u8]) -> (r: Result<SealedFile, Error>)
    ensures
        attachment_len(file@.len()) >= MAX_BLOB_SIZE <==> r == Err::<SealedFile, Error>(
            Error::FileTooLarge,
        ),
        match r {
            Ok(sealed) => holds_attachment(
                sealed.pad_data@,
                sealed.encrypted_data_offset as nat,
                file@,
                master_key@,
            ),
            Err(e) => e == Error::FileTooLarge || e == Error::CryptoFailure,
        },
{
    let len = file.len();
    if blob_len(len).is_none() {
        return Err(Error::FileTooLarge);
    }
    let ghost sizes = chunk_envelope_sizes(len as nat);
    proof {
        lemma_chunk_envelope_sizes(len as nat);
    }
    let mut writer = AttachmentWriter::new();
    let mut body: Vec<u8> = Vec::new();
    let mut at: usize = 0;
    let mut i: usize = 0;
    assert(writer@ =~= sizes.take(0));
    while at < len
        invariant
            len == file@.len(),
            attachment_len(len as nat) < MAX_BLOB_SIZE,
            sizes == chunk_envelope_sizes(len as nat),
            at <= len,
            at == len || at == i * CHUNK_SIZE,
            i <= chunk_count(len as nat),
            at == len ==> i == chunk_count(len as nat),
            writer@ == sizes.take(i as int),
            sum_sizes(writer@) == at + i * ENVELOPE_OVERHEAD,
            body@.len() == at + i * ENVELOPE_OVERHEAD,
            forall|j: int|
                0 <= j < i ==> seals(
                    #[trigger] body@.subrange(
                        j * (CHUNK_SIZE + ENVELOPE_OVERHEAD),
                        j * (CHUNK_SIZE + ENVELOPE_OVERHEAD) + sizes[j],
                    ),
                    chunk_of(file@, j),
                    master_key@,
                ),
        decreases len - at,
    {
        proof {
            lemma_chunk_envelope_sizes(len as nat);
        }
        let end = if len - at > CHUNK_SIZE {
            at + CHUNK_SIZE
        } else {
            len
        };
        let chunk = vstd::slice::slice_subrange(file, at, end);
        assert(chunk@ == chunk_of(file@, i as int));
        match writer.push_chunk(chunk, master_key) {
            Ok((next, envelope)) => {
                let ghost before = body@;
                body.extend_from_slice(envelope.as_slice());
                proof {
                    assert(body@ =~= before + envelope@);
                    assert(envelope@.len() as u64 == sizes[i as int]);
                    assert(next@ =~= sizes.take(i + 1));
                    assert forall|j: int| 0 <= j < i + 1 implies seals(
                        #[trigger] body@.subrange(
                            j * (CHUNK_SIZE + ENVELOPE_OVERHEAD),
                            j * (CHUNK_SIZE + ENVELOPE_OVERHEAD) + sizes[j],
                        ),
                        chunk_of(file@, j),
                        master_key@,
                    ) by {
                        let from = j * (CHUNK_SIZE + ENVELOPE_OVERHEAD);
                        if j < i {
                            assert((j + 1) * (CHUNK_SIZE + ENVELOPE_OVERHEAD) <= i * (CHUNK_SIZE
                                + ENVELOPE_OVERHEAD));
                            assert(body@.subrange(from, from + sizes[j]) =~= before.subrange(
                                from,
                                from + sizes[j],
                            ));
                        } else {
                            assert(body@.subrange(from, from + sizes[j]) =~= envelope@);
                        }
                    }
                }
                writer = next;
                at = end;
                i += 1;
            },
            Err(e) => {
                assert(e == Error::CryptoFailure);
                return Err(Error::CryptoFailure);
            },
        }
    }
    assert(sizes.take(i as int) =~= sizes);
    match writer.finish(master_key) {
        Ok(sidecar) => {
            let header = sidecar.header;
            let offset = header.len();
            let mut pad_data = header;
            pad_data.extend_from_slice(body.as_slice());
            proof {
                assert(pad_data@ =~= header@ + body@);
                assert(pad_data@.subrange(0, offset as int) =~= header@);
                assert forall|j: int| 0 <= j < sizes.len() implies seals(
                    #[trigger] pad_data@.subrange(
                        chunk_start(offset as nat, j),
                        chunk_start(offset as nat, j) + sizes[j],
                    ),
                    chunk_of(file@, j),
                    master_key@,
                ) by {
                    let from = j * (CHUNK_SIZE + ENVELOPE_OVERHEAD);
                    assert(from + sizes[j] <= body@.len()) by {
                        assert(j * CHUNK_SIZE + chunk_len(len as nat, j) <= len);
                    }
                    assert(pad_data@.subrange(
                        chunk_start(offset as nat, j),
                        chunk_start(offset as nat, j) + sizes[j],
                    ) =~= body@.subrange(from, from + sizes[j]));
                }
            }
            Ok(SealedFile { pad_data, encrypted_data_offset: offset })
        },
        Err(e) => {
            assert(e == Error::CryptoFailure);
            Err(Error::CryptoFailure)
        },
    }
}

} // verus!
