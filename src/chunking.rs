//! Fixed-size chunking of documents, with overlap between neighbours.
use vstd::prelude::*;
use vstd::string::StringSliceAdditionalSpecFns;
use vstd::utf8::{decode_utf8, encode_utf8, is_char_boundary};
use vstd::string::StringExecFns;
use crate::rag::{Chunk, ChunkMetadata, Document};
use crate::text::{decimal, decimal_string};

verus! {

/// The byte spans, from `start` on, that fixed-size chunking cuts from a text
/// of `len` bytes: each span is `size` long (the last may be shorter), and
/// each next span begins `overlap` bytes before the previous one ends.
pub open spec fn spans_from(len: int, size: int, overlap: int, start: int) -> Seq<(int, int)>
    decreases len - start,
    when 0 <= overlap < size && 0 <= start
{
    if start >= len {
        Seq::empty()
    } else {
        let end = if start + size < len { start + size } else { len };
        if end >= len {
            seq![(start, end)]
        } else {
            seq![(start, end)] + spans_from(len, size, overlap, end - overlap)
        }
    }
}

/// All spans of a text of `len` bytes.
pub open spec fn fixed_spans(len: int, size: int, overlap: int) -> Seq<(int, int)> {
    spans_from(len, size, overlap, 0)
}

/// The identifier of chunk `index` of document `doc_id`: `<doc_id>_<index>`.
pub open spec fn chunk_id(doc_id: Seq<char>, index: nat) -> Seq<char> {
    doc_id + seq!['_'] + decimal(index)
}

/// The time stamp given to new chunks.
pub open spec fn chunk_timestamp() -> Seq<char> {
    "2025-01-01T00:00:00Z"@
}

/// The identifier of chunk `index` of document `doc_id`.
fn make_chunk_id(doc_id: &String, index: usize) -> (r: String)
    ensures
        r@ == chunk_id(doc_id@, index as nat),
{
    let mut id = doc_id.clone();
    id.append("_");
    let digits = decimal_string(index);
    id.append(digits.as_str());
    proof {
        reveal_strlit("_");
        assert(id@ =~= chunk_id(doc_id@, index as nat));
    }
    id
}

/// The UTF-8 bytes of a document's text.
pub open spec fn content_bytes(document: Document) -> Seq<u8> {
    encode_utf8(document.content@)
}

/// `c` is chunk `i` of the document `doc_id` named `doc_name`, whose text
/// has the bytes `bytes`, cut at the span `sp`.
pub open spec fn is_chunk_at<E>(
    c: Chunk<E>,
    doc_id: Seq<char>,
    doc_name: Seq<char>,
    bytes: Seq<u8>,
    i: int,
    sp: (int, int),
) -> bool {
    &&& c.id@ == chunk_id(doc_id, i as nat)
    &&& c.content@ == decode_utf8(bytes.subrange(sp.0, sp.1))
    &&& c.embedding is None
    &&& c.metadata.document_id@ == doc_id
    &&& c.metadata.document_name@ == doc_name
    &&& c.metadata.chunk_index == i
    &&& c.metadata.start_char == sp.0
    &&& c.metadata.end_char == sp.1
    &&& c.metadata.created_at@ == chunk_timestamp()
}

/// There are no more spans than bytes left to cover.
proof fn lemma_spans_from_len(len: int, size: int, overlap: int, start: int)
    requires
        0 <= overlap < size,
        0 <= start,
    ensures
        spans_from(len, size, overlap, start).len() <= if start < len { len - start } else { 0 },
    decreases len - start,
{
    if start < len {
        let end = if start + size < len { start + size } else { len };
        if end < len {
            lemma_spans_from_len(len, size, overlap, end - overlap);
        }
    }
}

/// Every span of `fixed_spans(len, size, overlap)` begins and ends on a
/// character boundary of `bytes`.
pub open spec fn spans_on_boundaries(bytes: Seq<u8>, size: int, overlap: int) -> bool {
    forall|i: int|
        0 <= i < fixed_spans(bytes.len() as int, size, overlap).len() ==> {
            let sp = #[trigger] fixed_spans(bytes.len() as int, size, overlap)[i];
            is_char_boundary(bytes, sp.0) && is_char_boundary(bytes, sp.1)
        }
}

/// Cuts `document` into chunks of `size` bytes, each next one starting
/// `overlap` bytes before the previous one ends. A chunk boundary must not
/// fall inside a character.
pub fn chunk_fixed_size<E>(document: &Document, size: usize, overlap: usize) -> (chunks: Vec<Chunk<E>>)
    requires
        overlap < size,
        content_bytes(*document).len() <= usize::MAX,
        spans_on_boundaries(content_bytes(*document), size as int, overlap as int),
    ensures
        chunks@.len() == fixed_spans(content_bytes(*document).len() as int, size as int, overlap as int).len(),
        forall|i: int|
            0 <= i < chunks@.len() ==> is_chunk_at(
                #[trigger] chunks@[i],
                document.id@,
                document.name@,
                content_bytes(*document),
                i,
                fixed_spans(content_bytes(*document).len() as int, size as int, overlap as int)[i],
            ),
{
    broadcast use vstd::utf8::encode_utf8_valid_utf8, vstd::utf8::encode_utf8_decode_utf8;

    let text = document.content.as_str();
    let len = text.len();
    let ghost bytes = content_bytes(*document);
    let ghost all = fixed_spans(len as int, size as int, overlap as int);
    assert(text.spec_bytes() == bytes);
    proof {
        vstd::utf8::encode_utf8_valid_utf8(document.content@);
        reveal_strlit("2025-01-01T00:00:00Z");
    }
    proof {
        lemma_spans_from_len(len as int, size as int, overlap as int, 0);
    }
    let mut chunks: Vec<Chunk<E>> = Vec::new();
    let mut start: usize = 0;
    let mut index: usize = 0;
    let mut done = len == 0;
    proof {
        if !done {
            assert(all.subrange(0, all.len() as int) =~= all);
        }
    }
    while !done
        invariant
            overlap < size,
            len == bytes.len(),
            bytes == content_bytes(*document),
            vstd::utf8::valid_utf8(bytes),
            text.spec_bytes() == bytes,
            all == fixed_spans(len as int, size as int, overlap as int),
            spans_on_boundaries(bytes, size as int, overlap as int),
            start <= len,
            chunks@.len() == index,
            index <= all.len(),
            all.len() <= len,
            !done ==> start < len && index < all.len() && all.subrange(index as int, all.len() as int)
                == spans_from(len as int, size as int, overlap as int, start as int),
            done ==> index == all.len(),
            forall|i: int|
                0 <= i < index ==> is_chunk_at(
                    #[trigger] chunks@[i],
                    document.id@,
                    document.name@,
                    bytes,
                    i,
                    all[i],
                ),
        decreases len - start + if done { 0int } else { 1int },
    {
        let end: usize = if size < len - start { start + size } else { len };
        let ghost rest = all.subrange(index as int, all.len() as int);
        proof {
            assert(rest[0] == all[index as int]);
            assert(all[index as int] == (start as int, end as int));
            assert(is_char_boundary(bytes, start as int) && is_char_boundary(bytes, end as int));
            vstd::utf8::valid_utf8_split(bytes, end as int);
            let head = bytes.subrange(0, end as int);
            if start > 0 {
                vstd::utf8::is_char_boundary_iff_not_is_continuation_byte(bytes, start as int);
                vstd::utf8::is_char_boundary_iff_not_is_continuation_byte(head, start as int);
            }
        }
        let (head, _) = text.split_at(end);
        let (_, piece) = head.split_at(start);
        proof {
            assert(piece.spec_bytes() =~= bytes.subrange(start as int, end as int));
            vstd::utf8::encode_utf8_decode_utf8(piece@);
            assert(decode_utf8(bytes.subrange(start as int, end as int)) == piece@);
        }
        let chunk = Chunk {
            id: make_chunk_id(&document.id, index),
            content: piece.to_owned(),
            embedding: None,
            metadata: ChunkMetadata {
                document_id: document.id.clone(),
                document_name: document.name.clone(),
                chunk_index: index,
                start_char: start,
                end_char: end,
                created_at: "2025-01-01T00:00:00Z".to_owned(),
            },
        };
        chunks.push(chunk);
        proof {
            assert(is_chunk_at(chunks@[index as int], document.id@, document.name@, bytes, index as int, all[index as int]));
        }
        if end >= len {
            assert(rest.len() == 1);
            done = true;
        } else {
            proof {
                let next = spans_from(len as int, size as int, overlap as int, end - overlap);
                assert(rest == seq![(start as int, end as int)] + next);
                assert(all.subrange(index as int + 1, all.len() as int) =~= rest.subrange(1, rest.len() as int));
                assert(rest.subrange(1, rest.len() as int) =~= next);
                assert(next.len() > 0);
            }
            start = end - overlap;
        }
        index = index + 1;
    }
    chunks
}

/// Whether every span that fixed-size chunking would cut from `text` begins
/// and ends on a character boundary.
pub fn fixed_spans_fit(text: &str, size: usize, overlap: usize) -> (fits: bool)
    requires
        overlap < size,
        encode_utf8(text@).len() <= usize::MAX,
    ensures
        fits == spans_on_boundaries(encode_utf8(text@), size as int, overlap as int),
{
    let len = text.len();
    let ghost bytes = encode_utf8(text@);
    let ghost all = fixed_spans(len as int, size as int, overlap as int);
    proof {
        lemma_spans_from_len(len as int, size as int, overlap as int, 0);
        if len > 0 {
            assert(all.subrange(0, all.len() as int) =~= all);
        }
    }
    let mut start: usize = 0;
    let mut index: usize = 0;
    let mut done = len == 0;
    while !done
        invariant
            overlap < size,
            len == bytes.len(),
            bytes == encode_utf8(text@),
            text.spec_bytes() == bytes,
            all == fixed_spans(len as int, size as int, overlap as int),
            start <= len,
            index <= all.len(),
            all.len() <= len,
            !done ==> start < len && index < all.len() && all.subrange(index as int, all.len() as int)
                == spans_from(len as int, size as int, overlap as int, start as int),
            done ==> index == all.len(),
            forall|i: int|
                0 <= i < index ==> is_char_boundary(bytes, (#[trigger] all[i]).0) && is_char_boundary(
                    bytes,
                    all[i].1,
                ),
        decreases len - start + if done { 0int } else { 1int },
    {
        let end: usize = if size < len - start { start + size } else { len };
        let ghost rest = all.subrange(index as int, all.len() as int);
        assert(rest[0] == all[index as int]);
        assert(all[index as int] == (start as int, end as int));
        if !text.is_char_boundary(start) || !text.is_char_boundary(end) {
            return false;
        }
        if end >= len {
            assert(rest.len() == 1);
            done = true;
        } else {
            proof {
                let next = spans_from(len as int, size as int, overlap as int, end - overlap);
                assert(rest == seq![(start as int, end as int)] + next);
                assert(all.subrange(index as int + 1, all.len() as int) =~= rest.subrange(1, rest.len() as int));
                assert(rest.subrange(1, rest.len() as int) =~= next);
            }
            start = end - overlap;
        }
        index = index + 1;
    }
    true
}

} // verus!
