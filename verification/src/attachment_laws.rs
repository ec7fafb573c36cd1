//! What holds of a blob that is written piece by piece: the sidecar's
//! envelope followed by the envelopes of the pieces is a blob of the pieces
//! laid end to end, and decrypts to them.

use vstd::prelude::*;
use crate::attachment::{
    attachment_len, chunk_count, chunk_envelope_sizes, chunk_len, chunk_of, chunk_start,
    encode_sizes, holds_attachment, lemma_attachment_round_trip, obeys_chunk_rule,
    opened_attachment, sidecar_envelope_len, sum_sizes, CHUNK_SIZE,
};
use crate::crypto::{seals, ENVELOPE_OVERHEAD};
use crate::error::Error;

verus! {

/// The parts laid end to end.
pub open spec fn joined(parts: Seq<Seq<u8>>) -> Seq<u8>
    decreases parts.len(),
{
    if parts.len() == 0 {
        Seq::empty()
    } else {
        joined(parts.drop_last()) + parts.last()
    }
}

/// The lengths of the parts, as the sidecar lists them.
pub open spec fn lengths(parts: Seq<Seq<u8>>) -> Seq<u64> {
    Seq::new(parts.len(), |i: int| parts[i].len() as u64)
}

/// The chunk rule for the pieces of a file: every piece is `CHUNK_SIZE`
/// bytes long but the last, which may be shorter, and no piece is empty.
pub open spec fn pieces_obey_chunk_rule(pieces: Seq<Seq<u8>>) -> bool {
    forall|i: int|
        0 <= i < pieces.len() ==> {
            &&& 0 < (#[trigger] pieces[i]).len() <= CHUNK_SIZE
            &&& i + 1 < pieces.len() ==> pieces[i].len() == CHUNK_SIZE
        }
}

/// Where all parts but the last are `width` long, part `i` lies at
/// `i * width` in the parts laid end to end.
proof fn lemma_joined_part(parts: Seq<Seq<u8>>, width: int, i: int)
    requires
        0 <= i < parts.len(),
        0 <= width,
        forall|k: int| 0 <= k < parts.len() - 1 ==> (#[trigger] parts[k]).len() == width,
    ensures
        joined(parts).len() == (parts.len() - 1) * width + parts.last().len(),
        joined(parts).subrange(i * width, i * width + parts[i].len()) == parts[i],
    decreases parts.len(),
{
    let front = parts.drop_last();
    assert(joined(parts) == joined(front) + parts.last());
    assert(parts.last() == parts[parts.len() - 1]);
    assert(joined(front).len() == (parts.len() - 1) * width) by {
        if front.len() > 0 {
            assert(front.last() == parts[parts.len() - 2]);
            assert forall|k: int| 0 <= k < front.len() - 1 implies (#[trigger] front[k]).len()
                == width by {
                assert(front[k] == parts[k]);
            }
            lemma_joined_part(front, width, 0);
            assert((front.len() - 1) * width + width == (parts.len() - 1) * width)
                by (nonlinear_arith)
                requires
                    front.len() == parts.len() - 1,
            ;
        }
    }
    if i == parts.len() - 1 {
        assert(joined(parts).subrange(i * width, i * width + parts[i].len()) =~= parts[i]);
    } else {
        assert forall|k: int| 0 <= k < front.len() - 1 implies (#[trigger] front[k]).len()
            == width by {
            assert(front[k] == parts[k]);
        }
        lemma_joined_part(front, width, i);
        assert(front[i] == parts[i]);
        assert((i + 1) * width <= (parts.len() - 1) * width) by (nonlinear_arith)
            requires
                i + 1 <= parts.len() - 1,
                0 <= width,
        ;
        assert(i * width + parts[i].len() == (i + 1) * width) by (nonlinear_arith)
            requires
                parts[i].len() == width,
        ;
        assert(joined(parts).subrange(i * width, i * width + parts[i].len()) =~= joined(
            front,
        ).subrange(i * width, i * width + front[i].len()));
    }
}

/// The sum of sizes that obey the chunk rule: the full size for each but
/// the last, and the last.
proof fn lemma_sum_under_chunk_rule(sizes: Seq<u64>)
    requires
        obeys_chunk_rule(sizes),
        sizes.len() > 0,
    ensures
        sum_sizes(sizes) == (sizes.len() - 1) * 4140 + sizes.last(),
    decreases sizes.len(),
{
    let front = sizes.drop_last();
    assert(sum_sizes(sizes) == sum_sizes(front) + sizes.last());
    if front.len() > 0 {
        assert forall|i: int| 0 <= i < front.len() implies {
            &&& ENVELOPE_OVERHEAD < (#[trigger] front[i]) <= CHUNK_SIZE + ENVELOPE_OVERHEAD
            &&& i + 1 < front.len() ==> front[i] == CHUNK_SIZE + ENVELOPE_OVERHEAD
        } by {
            assert(front[i] == sizes[i]);
        }
        lemma_sum_under_chunk_rule(front);
        assert(front.last() == sizes[sizes.len() - 2]);
        assert(sizes[sizes.len() - 2] == 4140);
    } else {
        assert(sum_sizes(front) == 0);
    }
}

/// Chunk count under the chunk rule: sizes that obey the rule are the sizes
/// of a file cut into chunks. Where `len` is what the sizes sum to, less
/// the envelopes' overhead, they are `chunk_envelope_sizes(len)`: one entry
/// for every `CHUNK_SIZE` bytes, the last for what is left.
pub proof fn lemma_chunk_rule_gives_the_sizes(sizes: Seq<u64>)
    requires
        obeys_chunk_rule(sizes),
    ensures
        sum_sizes(sizes) >= sizes.len() * ENVELOPE_OVERHEAD,
        sizes == chunk_envelope_sizes(
            (sum_sizes(sizes) - sizes.len() * ENVELOPE_OVERHEAD) as nat,
        ),
{
    if sizes.len() == 0 {
        assert(sizes =~= chunk_envelope_sizes(0));
    } else {
        lemma_sum_under_chunk_rule(sizes);
        let count = sizes.len() as int;
        let len = (sum_sizes(sizes) - count * ENVELOPE_OVERHEAD) as nat;
        assert(len == (count - 1) * CHUNK_SIZE + (sizes.last() - ENVELOPE_OVERHEAD));
        assert(chunk_count(len) == count);
        assert forall|i: int| 0 <= i < count implies sizes[i] == #[trigger] chunk_envelope_sizes(
            len,
        )[i] by {
            if i + 1 < count {
                assert((i + 1) * CHUNK_SIZE <= len);
            } else {
                assert(chunk_len(len, i) == sizes.last() - ENVELOPE_OVERHEAD);
            }
        }
        assert(sizes =~= chunk_envelope_sizes(len));
    }
}

/// How the pieces and their envelopes lie: the envelopes' lengths are the
/// sizes of the pieces laid end to end, piece `i` is chunk `i` of them, and
/// envelope `i` lies at `i` full envelopes into the envelopes laid end to
/// end.
proof fn lemma_pieces_lie_as_chunks(
    envelopes: Seq<Seq<u8>>,
    pieces: Seq<Seq<u8>>,
    master_key: Seq<u8>,
)
    requires
        envelopes.len() == pieces.len(),
        pieces_obey_chunk_rule(pieces),
        forall|i: int|
            0 <= i < pieces.len() ==> seals(#[trigger] envelopes[i], pieces[i], master_key),
    ensures
        chunk_count(joined(pieces).len()) == pieces.len(),
        lengths(envelopes) == chunk_envelope_sizes(joined(pieces).len()),
        joined(envelopes).len() == joined(pieces).len() + pieces.len() * 44,
        forall|i: int|
            0 <= i < pieces.len() ==> {
                &&& chunk_of(joined(pieces), i) == #[trigger] pieces[i]
                &&& i * 4140 + envelopes[i].len() <= joined(envelopes).len()
                &&& joined(envelopes).subrange(i * 4140, i * 4140 + envelopes[i].len())
                    == envelopes[i]
            },
{
    let count = pieces.len() as int;
    let file = joined(pieces);
    let body = joined(envelopes);
    let sizes = lengths(envelopes);
    if count == 0 {
        assert(file =~= Seq::<u8>::empty());
        assert(body =~= Seq::<u8>::empty());
        assert(sizes =~= chunk_envelope_sizes(0));
    } else {
        assert forall|k: int| 0 <= k < count implies (#[trigger] envelopes[k]).len()
            == pieces[k].len() + 44 by {
            assert(seals(envelopes[k], pieces[k], master_key));
        }
        assert forall|k: int| 0 <= k < count - 1 implies (#[trigger] pieces[k]).len()
            == 4096 by {}
        assert forall|k: int| 0 <= k < count - 1 implies (#[trigger] envelopes[k]).len()
            == 4140 by {
            assert(pieces[k].len() == 4096);
        }
        lemma_joined_part(pieces, 4096, 0);
        lemma_joined_part(envelopes, 4140, 0);
        let len = file.len();
        assert(len == (count - 1) * 4096 + pieces[count - 1].len());
        assert(0 < pieces[count - 1].len() <= 4096);
        assert(chunk_count(len) == count);
        assert forall|i: int| 0 <= i < count implies sizes[i] == #[trigger] chunk_envelope_sizes(
            len,
        )[i] by {
            assert(envelopes[i].len() == pieces[i].len() + 44);
            if i + 1 < count {
                assert(pieces[i].len() == 4096);
            }
        }
        assert(sizes =~= chunk_envelope_sizes(len));
        assert forall|i: int| 0 <= i < count implies {
            &&& chunk_of(file, i) == #[trigger] pieces[i]
            &&& i * 4140 + envelopes[i].len() <= body.len()
            &&& body.subrange(i * 4140, i * 4140 + envelopes[i].len()) == envelopes[i]
        } by {
            lemma_joined_part(pieces, 4096, i);
            lemma_joined_part(envelopes, 4140, i);
            if i + 1 < count {
                assert(pieces[i].len() == 4096);
                assert(envelopes[i].len() == 4140);
            }
            assert(chunk_len(len, i) == pieces[i].len());
        }
    }
}

/// The header followed by the envelopes is a blob of the pieces laid end
/// to end.
proof fn lemma_written_blob_is_attachment(
    header: Seq<u8>,
    envelopes: Seq<Seq<u8>>,
    pieces: Seq<Seq<u8>>,
    master_key: Seq<u8>,
)
    requires
        envelopes.len() == pieces.len(),
        pieces_obey_chunk_rule(pieces),
        forall|i: int|
            0 <= i < pieces.len() ==> seals(#[trigger] envelopes[i], pieces[i], master_key),
        seals(header, encode_sizes(lengths(envelopes)), master_key),
    ensures
        lengths(envelopes) == chunk_envelope_sizes(joined(pieces).len()),
        holds_attachment(header + joined(envelopes), header.len(), joined(pieces), master_key),
{
    let file = joined(pieces);
    let body = joined(envelopes);
    let blob = header + body;
    let offset = header.len();
    let sizes = lengths(envelopes);
    lemma_pieces_lie_as_chunks(envelopes, pieces, master_key);
    assert(encode_sizes(sizes).len() == sizes.len() * 8);
    assert(offset == sidecar_envelope_len(sizes.len()));
    assert(blob.subrange(0, offset as int) =~= header);
    assert(blob.len() == attachment_len(file.len()));
    assert forall|i: int| 0 <= i < sizes.len() implies seals(
        #[trigger] blob.subrange(chunk_start(offset, i), chunk_start(offset, i) + sizes[i]),
        chunk_of(file, i),
        master_key,
    ) by {
        assert(chunk_of(file, i) == pieces[i]);
        assert(seals(envelopes[i], pieces[i], master_key));
        assert(sizes[i] == envelopes[i].len());
        assert(blob.subrange(chunk_start(offset, i), chunk_start(offset, i) + sizes[i])
            =~= body.subrange(i * 4140, i * 4140 + envelopes[i].len()));
    }
}

/// Round trip of a blob written piece by piece. Let the pieces obey the
/// chunk rule, let each envelope hold its piece, and let the header hold the
/// sidecar of the envelopes' lengths. Then the header followed by the
/// envelopes is a blob of the pieces laid end to end, and decrypts to
/// exactly them.
pub proof fn lemma_written_blob_holds_the_pieces(
    header: Seq<u8>,
    envelopes: Seq<Seq<u8>>,
    pieces: Seq<Seq<u8>>,
    master_key: Seq<u8>,
)
    requires
        envelopes.len() == pieces.len(),
        pieces_obey_chunk_rule(pieces),
        forall|i: int|
            0 <= i < pieces.len() ==> seals(#[trigger] envelopes[i], pieces[i], master_key),
        seals(header, encode_sizes(lengths(envelopes)), master_key),
    ensures
        lengths(envelopes) == chunk_envelope_sizes(joined(pieces).len()),
        holds_attachment(header + joined(envelopes), header.len(), joined(pieces), master_key),
        opened_attachment(header + joined(envelopes), header.len(), master_key) == Ok::<
            Seq<u8>,
            Error,
        >(joined(pieces)),
{
    lemma_written_blob_is_attachment(header, envelopes, pieces, master_key);
    lemma_attachment_round_trip(
        header + joined(envelopes),
        header.len(),
        joined(pieces),
        master_key,
    );
}

} // verus!
