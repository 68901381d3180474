//! Documents, chunks and the in-memory store of indexed chunks.
//!
//! The store is generic over the embedding type `E`: it keeps candidates in
//! insertion order and answers questions about their grouping by document;
//! scoring them against a query is left to the caller, who hands the scores
//! back as order keys (see `ranking`).
use vstd::prelude::*;
use vstd::string::StringSliceAdditionalSpecFns;
use vstd::string::StringExecFns;
use vstd::utf8::encode_utf8;
use crate::text::{decimal, decimal_string};

verus! {

/// Where a chunk comes from.
#[derive(Debug, Clone)]
pub struct ChunkMetadata {
    pub document_id: String,
    pub document_name: String,
    pub chunk_index: usize,
    pub start_char: usize,
    pub end_char: usize,
    pub created_at: String,
}

/// A piece of a document, with its embedding once one has been computed.
#[derive(Debug, Clone)]
pub struct Chunk<E> {
    pub id: String,
    pub content: String,
    pub embedding: Option<E>,
    pub metadata: ChunkMetadata,
}

/// What is known about a document besides its text.
#[derive(Debug, Clone)]
pub struct DocumentMetadata {
    pub file_type: String,
    pub size_bytes: usize,
    pub uploaded_at: String,
    pub num_chunks: usize,
}

/// A document handed in for indexing.
#[derive(Debug, Clone)]
pub struct Document {
    pub id: String,
    pub name: String,
    pub content: String,
    pub metadata: DocumentMetadata,
}

/// Counts over an indexed collection.
#[derive(Debug, Clone)]
pub struct RagStats {
    pub total_chunks: usize,
    pub total_documents: usize,
}

/// The chunk belongs to the document `doc`.
pub open spec fn in_document<E>(c: Chunk<E>, doc: Seq<char>) -> bool {
    c.metadata.document_id@ == doc
}

/// Selects the chunks of `doc`.
pub open spec fn of_document<E>(doc: Seq<char>) -> spec_fn(Chunk<E>) -> bool {
    |c: Chunk<E>| in_document(c, doc)
}

/// Selects the chunks of every document but `doc`.
pub open spec fn not_of_document<E>(doc: Seq<char>) -> spec_fn(Chunk<E>) -> bool {
    |c: Chunk<E>| !in_document(c, doc)
}

/// The chunks of `s` that do not belong to `doc`, in their order.
pub open spec fn without_document<E>(s: Seq<Chunk<E>>, doc: Seq<char>) -> Seq<Chunk<E>> {
    s.filter(not_of_document(doc))
}

/// The number of chunks of `s` that belong to `doc`.
pub open spec fn document_count<E>(s: Seq<Chunk<E>>, doc: Seq<char>) -> nat {
    s.filter(of_document(doc)).len()
}

/// `a` sorts before `b` at position `i`: the two agree before `i`, and there
/// `a` ends while `b` goes on, or `a` has the smaller byte.
pub open spec fn bytes_lt_at(a: Seq<u8>, b: Seq<u8>, i: int) -> bool {
    &&& 0 <= i <= a.len()
    &&& i <= b.len()
    &&& forall|t: int| 0 <= t < i ==> a[t] == b[t]
    &&& (i == a.len() && i < b.len()) || (i < a.len() && i < b.len() && a[i] < b[i])
}

/// `a` sorts strictly before `b` in byte-wise lexicographic order, the order
/// of `str`.
pub open spec fn bytes_lt(a: Seq<u8>, b: Seq<u8>) -> bool {
    exists|i: int| bytes_lt_at(a, b, i)
}

/// The UTF-8 bytes of the text `s`.
pub open spec fn text_bytes(s: Seq<char>) -> Seq<u8> {
    encode_utf8(s)
}

/// Byte-wise lexicographic order is transitive.
pub proof fn lemma_bytes_lt_transitive(a: Seq<u8>, b: Seq<u8>, c: Seq<u8>)
    requires
        bytes_lt(a, b),
        bytes_lt(b, c),
    ensures
        bytes_lt(a, c),
{
    let i = choose|i: int| bytes_lt_at(a, b, i);
    let j = choose|j: int| bytes_lt_at(b, c, j);
    if i < j {
        assert(bytes_lt_at(a, c, i));
    } else if j < i {
        assert(a[j] == b[j]);
        assert(bytes_lt_at(a, c, j));
    } else {
        assert(bytes_lt_at(a, c, i));
    }
}

/// Compares two byte strings: negative when `a` sorts first, zero when they
/// are equal, positive when `b` sorts first.
fn compare_bytes(a: &[u8], b: &[u8]) -> (r: i8)
    ensures
        r == 0 ==> a@ == b@,
        r < 0 ==> bytes_lt(a@, b@),
        r > 0 ==> bytes_lt(b@, a@),
{
    let mut i: usize = 0;
    while i < a.len() && i < b.len() && a[i] == b[i]
        invariant
            i <= a@.len(),
            i <= b@.len(),
            forall|t: int| 0 <= t < i ==> a@[t] == b@[t],
        decreases a@.len() - i,
    {
        i = i + 1;
    }
    if i < a.len() && i < b.len() {
        if a[i] < b[i] {
            assert(bytes_lt_at(a@, b@, i as int));
            -1
        } else {
            assert(bytes_lt_at(b@, a@, i as int));
            1
        }
    } else if i == a.len() && i == b.len() {
        assert(a@ =~= b@);
        0
    } else if i == a.len() {
        assert(bytes_lt_at(a@, b@, i as int));
        -1
    } else {
        assert(bytes_lt_at(b@, a@, i as int));
        1
    }
}

/// The identifiers are listed in strictly ascending byte-wise order.
pub open spec fn sorted_ids(ids: Seq<String>) -> bool {
    forall|i: int, j: int|
        0 <= i < j < ids.len() ==> bytes_lt(text_bytes(#[trigger] ids[i]@), text_bytes(#[trigger] ids[j]@))
}

proof fn lemma_insert_keeps_sorted(old_ids: Seq<String>, p: int, xs: String)
    requires
        0 <= p <= old_ids.len(),
        sorted_ids(old_ids),
        forall|q: int| 0 <= q < p ==> bytes_lt(text_bytes(#[trigger] old_ids[q]@), text_bytes(xs@)),
        p < old_ids.len() ==> bytes_lt(text_bytes(xs@), text_bytes(old_ids[p]@)),
    ensures
        sorted_ids(old_ids.insert(p, xs)),
{
    let new_ids = old_ids.insert(p, xs);
    assert forall|a: int, b: int| 0 <= a < b < new_ids.len() implies bytes_lt(
        text_bytes(#[trigger] new_ids[a]@),
        text_bytes(#[trigger] new_ids[b]@),
    ) by {
        if b < p {
            assert(new_ids[a] == old_ids[a] && new_ids[b] == old_ids[b]);
        } else if b == p {
            assert(new_ids[a] == old_ids[a]);
        } else if a < p {
            assert(new_ids[a] == old_ids[a] && new_ids[b] == old_ids[b - 1]);
            assert(bytes_lt(text_bytes(old_ids[a]@), text_bytes(xs@)));
            assert(bytes_lt(text_bytes(xs@), text_bytes(old_ids[p]@)));
            if b - 1 > p {
                assert(bytes_lt(text_bytes(old_ids[p]@), text_bytes(old_ids[b - 1]@)));
                lemma_bytes_lt_transitive(text_bytes(xs@), text_bytes(old_ids[p]@), text_bytes(old_ids[b - 1]@));
            }
            lemma_bytes_lt_transitive(text_bytes(old_ids[a]@), text_bytes(xs@), text_bytes(old_ids[b - 1]@));
        } else if a == p {
            assert(new_ids[b] == old_ids[b - 1]);
            if b - 1 > p {
                assert(bytes_lt(text_bytes(old_ids[p]@), text_bytes(old_ids[b - 1]@)));
                lemma_bytes_lt_transitive(text_bytes(xs@), text_bytes(old_ids[p]@), text_bytes(old_ids[b - 1]@));
            }
        } else {
            assert(new_ids[a] == old_ids[a - 1] && new_ids[b] == old_ids[b - 1]);
        }
    }
}

/// The identifiers of the documents that `chunks` come from.
pub open spec fn document_ids<E>(chunks: Seq<Chunk<E>>) -> Set<Seq<char>> {
    Set::new(|d: Seq<char>| exists|k: int| 0 <= k < chunks.len() && (#[trigger] chunks[k]).metadata.document_id@ == d)
}

/// The texts listed in `ids`.
pub open spec fn listed_texts(ids: Seq<String>) -> Set<Seq<char>> {
    Set::new(|d: Seq<char>| exists|j: int| 0 <= j < ids.len() && (#[trigger] ids[j])@ == d)
}

proof fn lemma_document_ids_push<E>(chunks: Seq<Chunk<E>>, c: Chunk<E>)
    ensures
        document_ids(chunks.push(c)) == document_ids(chunks).insert(c.metadata.document_id@),
{
    let cs = chunks.push(c);
    assert forall|d: Seq<char>| #[trigger] document_ids(cs).contains(d) <==> document_ids(chunks).insert(
        c.metadata.document_id@,
    ).contains(d) by {
        if document_ids(cs).contains(d) {
            let k = choose|k: int| 0 <= k < cs.len() && (#[trigger] cs[k]).metadata.document_id@ == d;
            if k < chunks.len() {
                assert(chunks[k] == cs[k]);
            }
        }
        if document_ids(chunks).contains(d) {
            let k = choose|k: int| 0 <= k < chunks.len() && (#[trigger] chunks[k]).metadata.document_id@ == d;
            assert(chunks[k] == cs[k]);
        }
        if d == c.metadata.document_id@ {
            assert(cs[chunks.len() as int] == c);
        }
    }
    assert(document_ids(cs) =~= document_ids(chunks).insert(c.metadata.document_id@));
}

proof fn lemma_listed_texts_insert(ids: Seq<String>, p: int, xs: String)
    requires
        0 <= p <= ids.len(),
    ensures
        listed_texts(ids.insert(p, xs)) == listed_texts(ids).insert(xs@),
{
    let ns = ids.insert(p, xs);
    assert forall|d: Seq<char>| #[trigger] listed_texts(ns).contains(d) <==> listed_texts(ids).insert(xs@).contains(d) by {
        if listed_texts(ns).contains(d) {
            let j = choose|j: int| 0 <= j < ns.len() && (#[trigger] ns[j])@ == d;
            if j < p {
                assert(ids[j] == ns[j]);
            } else if j > p {
                assert(ids[j - 1] == ns[j]);
            }
        }
        if listed_texts(ids).contains(d) {
            let j = choose|j: int| 0 <= j < ids.len() && (#[trigger] ids[j])@ == d;
            if j < p {
                assert(ids[j] == ns[j]);
            } else {
                assert(ids[j] == ns[j + 1]);
            }
        }
        if d == xs@ {
            assert(ns[p] == xs);
        }
    }
    assert(listed_texts(ns) =~= listed_texts(ids).insert(xs@));
}

/// Where `x` belongs in the sorted list `ids`: the first position whose
/// identifier does not sort before `x`, and whether that one equals `x`.
fn find_slot(ids: &Vec<String>, x: &String) -> (r: (usize, bool))
    ensures
        r.0 <= ids@.len(),
        forall|q: int| 0 <= q < r.0 ==> bytes_lt(text_bytes(#[trigger] ids@[q]@), text_bytes(x@)),
        r.1 ==> r.0 < ids@.len() && ids@[r.0 as int]@ == x@,
        !r.1 && r.0 < ids@.len() ==> bytes_lt(text_bytes(x@), text_bytes(ids@[r.0 as int]@)),
{
    let xb = x.as_str().as_bytes();
    let mut p: usize = 0;
    while p < ids.len()
        invariant
            p <= ids@.len(),
            xb@ == text_bytes(x@),
            forall|q: int| 0 <= q < p ==> bytes_lt(text_bytes(#[trigger] ids@[q]@), xb@),
        decreases ids@.len() - p,
    {
        let cmp = compare_bytes(ids[p].as_str().as_bytes(), xb);
        if cmp == 0 {
            proof {
                vstd::utf8::encode_utf8_decode_utf8(ids@[p as int]@);
                vstd::utf8::encode_utf8_decode_utf8(x@);
            }
            return (p, true);
        } else if cmp > 0 {
            return (p, false);
        }
        p = p + 1;
    }
    (p, false)
}

/// The listing of result number `n` (counting from 1) in a context text.
pub open spec fn context_entry(n: nat, name: Seq<char>, content: Seq<char>) -> Seq<char> {
    "Document "@ + decimal(n) + ": "@ + name + "\n"@ + "Content: "@ + content + "\n\n"@
}

/// The listings of all of `results`, in order.
pub open spec fn context_entries<E>(results: Seq<Chunk<E>>) -> Seq<char>
    decreases results.len(),
{
    if results.len() == 0 {
        Seq::empty()
    } else {
        context_entries(results.drop_last()) + context_entry(
            results.len() as nat,
            results.last().metadata.document_name@,
            results.last().content@,
        )
    }
}

/// The context text handed to the language model for `results`.
pub open spec fn context_text<E>(results: Seq<Chunk<E>>) -> Seq<char> {
    "Relevant context:\n\n"@ + context_entries(results)
}

/// Writes retrieved chunks as context for the language model: a heading,
/// then each chunk's document name and content, numbered from 1.
pub fn format_context<E>(results: &Vec<Chunk<E>>) -> (text: String)
    ensures
        text@ == context_text(results@),
{
    let mut text = "Relevant context:\n\n".to_owned();
    let mut i: usize = 0;
    proof {
        assert(results@.take(0) =~= Seq::<Chunk<E>>::empty());
    }
    while i < results.len()
        invariant
            i <= results@.len(),
            text@ == "Relevant context:\n\n"@ + context_entries(results@.take(i as int)),
        decreases results@.len() - i,
    {
        let c = &results[i];
        let ghost before = text@;
        text.append("Document ");
        let n = decimal_string(i + 1);
        text.append(n.as_str());
        text.append(": ");
        text.append(c.metadata.document_name.as_str());
        text.append("\n");
        text.append("Content: ");
        text.append(c.content.as_str());
        text.append("\n\n");
        proof {
            let t = results@.take(i as int + 1);
            assert(t.drop_last() =~= results@.take(i as int));
            assert(t.last() == results@[i as int]);
            assert(text@ =~= before + context_entry(
                (i + 1) as nat,
                c.metadata.document_name@,
                c.content@,
            ));
        }
        i = i + 1;
    }
    proof {
        assert(results@.take(i as int) =~= results@);
    }
    text
}

/// Indexed chunks, in the order they were added.
#[derive(Clone)]
pub struct VectorDatabase<E> {
    chunks: Vec<Chunk<E>>,
}

impl<E> View for VectorDatabase<E> {
    type V = Seq<Chunk<E>>;

    closed spec fn view(&self) -> Seq<Chunk<E>> {
        self.chunks@
    }
}

impl<E> Default for VectorDatabase<E> {
    fn default() -> (db: Self)
        ensures
            db@ == Seq::<Chunk<E>>::empty(),
    {
        Self::new()
    }
}

impl<E> VectorDatabase<E> {
    /// An empty store.
    pub fn new() -> (db: Self)
        ensures
            db@ == Seq::<Chunk<E>>::empty(),
    {
        VectorDatabase { chunks: Vec::new() }
    }

    /// Appends a chunk, with or without an embedding.
    pub fn add_chunk(&mut self, chunk: Chunk<E>)
        ensures
            final(self)@ == old(self)@.push(chunk),
    {
        self.chunks.push(chunk);
    }

    /// Appends chunks in the order given.
    pub fn add_chunks(&mut self, chunks: Vec<Chunk<E>>)
        ensures
            final(self)@ == old(self)@ + chunks@,
    {
        let mut rest = chunks;
        let ghost start = self.chunks@;
        let ghost all = rest@;
        let n = rest.len();
        let mut i: usize = 0;
        while rest.len() > 0
            invariant
                all.len() == n,
                i <= all.len(),
                rest@ == all.subrange(i as int, all.len() as int),
                self.chunks@ == start + all.subrange(0, i as int),
            decreases rest@.len(),
        {
            let c = rest.remove(0);
            self.chunks.push(c);
            proof {
                assert(all.subrange(0, i as int + 1) =~= all.subrange(0, i as int).push(c));
                assert(rest@ =~= all.subrange(i as int + 1, all.len() as int));
            }
            i = i + 1;
        }
        proof {
            assert(all.subrange(0, i as int) =~= all);
        }
    }

    /// The stored chunks, in insertion order.
    pub fn chunks(&self) -> (cs: &[Chunk<E>])
        ensures
            cs@ == self@,
    {
        self.chunks.as_slice()
    }

    /// The positions of the stored chunks that carry an embedding, in
    /// insertion order; only these take part in a similarity search.
    pub fn embedded_positions(&self) -> (pos: Vec<usize>)
        ensures
            forall|i: int|
                0 <= i < pos@.len() ==> pos@[i] < self@.len() && self@[#[trigger] pos@[i] as int].embedding is Some,
            forall|i: int, j: int| 0 <= i < j < pos@.len() ==> #[trigger] pos@[i] < #[trigger] pos@[j],
            forall|k: usize| k < self@.len() && (#[trigger] self@[k as int]).embedding is Some ==> pos@.contains(k),
    {
        let mut pos: Vec<usize> = Vec::new();
        let mut k: usize = 0;
        while k < self.chunks.len()
            invariant
                k <= self.chunks@.len(),
                forall|i: int|
                    0 <= i < pos@.len() ==> pos@[i] < k && self.chunks@[#[trigger] pos@[i] as int].embedding is Some,
                forall|i: int, j: int| 0 <= i < j < pos@.len() ==> #[trigger] pos@[i] < #[trigger] pos@[j],
                forall|q: usize| q < k && (#[trigger] self.chunks@[q as int]).embedding is Some ==> pos@.contains(q),
            decreases self.chunks@.len() - k,
        {
            if self.chunks[k].embedding.is_some() {
                let ghost old_pos = pos@;
                pos.push(k);
                proof {
                    assert forall|q: usize| q < k + 1 && (#[trigger] self.chunks@[q as int]).embedding is Some implies pos@.contains(q) by {
                        if q == k {
                            assert(pos@[old_pos.len() as int] == q);
                        } else {
                            let i = choose|i: int| 0 <= i < old_pos.len() && old_pos[i] == q;
                            assert(pos@[i] == q);
                        }
                    }
                }
            }
            k = k + 1;
        }
        pos
    }

    /// The number of stored chunks.
    pub fn count(&self) -> (n: usize)
        ensures
            n == self@.len(),
    {
        self.chunks.len()
    }

    /// Removes every chunk.
    pub fn clear(&mut self)
        ensures
            final(self)@ == Seq::<Chunk<E>>::empty(),
    {
        self.chunks.clear();
    }

    /// Removes the chunks of one document, keeping the others in order, and
    /// returns how many were removed.
    pub fn delete_by_document(&mut self, document_id: &String) -> (removed: usize)
        ensures
            final(self)@ == without_document(old(self)@, document_id@),
            removed == old(self)@.len() - final(self)@.len(),
            removed == document_count(old(self)@, document_id@),
    {
        let ghost doc = document_id@;
        let ghost orig = self.chunks@;
        let mut rest: Vec<Chunk<E>> = Vec::new();
        std::mem::swap(&mut self.chunks, &mut rest);
        let n = rest.len();
        let mut removed: usize = 0;
        let mut i: usize = 0;
        while rest.len() > 0
            invariant
                orig.len() == n,
                i <= orig.len(),
                self.chunks@.len() + removed == i,
                rest@ == orig.subrange(i as int, orig.len() as int),
                self.chunks@ == without_document(orig.subrange(0, i as int), doc),
                removed == document_count(orig.subrange(0, i as int), doc),
                removed <= i,
                doc == document_id@,
            decreases rest@.len(),
        {
            let c = rest.remove(0);
            let ghost pre = orig.subrange(0, i as int);
            proof {
                assert(orig.subrange(0, i as int + 1) =~= pre + seq![c]);
                assert(rest@ =~= orig.subrange(i as int + 1, orig.len() as int));
                Seq::filter_distributes_over_add(pre, seq![c], not_of_document(doc));
                Seq::filter_distributes_over_add(pre, seq![c], of_document(doc));
                reveal_with_fuel(Seq::filter, 2);
            }
            if c.metadata.document_id == *document_id {
                proof {
                    assert(seq![c].filter(of_document(doc)) =~= seq![c]);
                    assert(without_document(seq![c], doc) =~= Seq::<Chunk<E>>::empty());
                }
                removed = removed + 1;
            } else {
                proof {
                    assert(seq![c].filter(of_document(doc)) =~= Seq::<Chunk<E>>::empty());
                    assert(without_document(seq![c], doc) =~= seq![c]);
                }
                self.chunks.push(c);
            }
            i = i + 1;
        }
        proof {
            assert(orig.subrange(0, i as int) =~= orig);
            assert(i == orig.len());
        }
        removed
    }
    /// The number of stored chunks of one document.
    pub fn count_by_document(&self, document_id: &String) -> (n: usize)
        ensures
            n == document_count(self@, document_id@),
    {
        let ghost doc = document_id@;
        let mut n: usize = 0;
        let mut i: usize = 0;
        while i < self.chunks.len()
            invariant
                i <= self.chunks@.len(),
                n <= i,
                n == document_count(self.chunks@.subrange(0, i as int), doc),
                doc == document_id@,
            decreases self.chunks@.len() - i,
        {
            let ghost pre = self.chunks@.subrange(0, i as int);
            let ghost c = self.chunks@[i as int];
            proof {
                assert(self.chunks@.subrange(0, i as int + 1) =~= pre + seq![c]);
                Seq::filter_distributes_over_add(pre, seq![c], of_document(doc));
                reveal_with_fuel(Seq::filter, 2);
            }
            if self.chunks[i].metadata.document_id == *document_id {
                proof {
                    assert(seq![c].filter(of_document(doc)) =~= seq![c]);
                }
                n = n + 1;
            } else {
                proof {
                    assert(seq![c].filter(of_document(doc)) =~= Seq::<Chunk<E>>::empty());
                }
            }
            i = i + 1;
        }
        proof {
            assert(self.chunks@.subrange(0, i as int) =~= self.chunks@);
        }
        n
    }
    /// The distinct document identifiers of the stored chunks, in ascending
    /// byte-wise order.
    pub fn get_document_ids(&self) -> (ids: Vec<String>)
        ensures
            sorted_ids(ids@),
            listed_texts(ids@) == document_ids(self@),
    {
        let mut ids: Vec<String> = Vec::new();
        let mut k: usize = 0;
        proof {
            assert(listed_texts(ids@) =~= document_ids(self.chunks@.subrange(0, 0)));
        }
        while k < self.chunks.len()
            invariant
                k <= self.chunks@.len(),
                sorted_ids(ids@),
                listed_texts(ids@) == document_ids(self.chunks@.subrange(0, k as int)),
            decreases self.chunks@.len() - k,
        {
            let x = &self.chunks[k].metadata.document_id;
            let (p, present) = find_slot(&ids, x);
            let ghost old_ids = ids@;
            proof {
                let pre = self.chunks@.subrange(0, k as int);
                assert(self.chunks@.subrange(0, k as int + 1) =~= pre.push(self.chunks@[k as int]));
                lemma_document_ids_push(pre, self.chunks@[k as int]);
            }
            if present {
                proof {
                    assert(listed_texts(old_ids).contains(x@)) by {
                        assert(old_ids[p as int]@ == x@);
                    }
                    assert(listed_texts(old_ids).insert(x@) =~= listed_texts(old_ids));
                }
            } else {
                let xs = x.clone();
                ids.insert(p, xs);
                proof {
                    lemma_insert_keeps_sorted(old_ids, p as int, xs);
                    lemma_listed_texts_insert(old_ids, p as int, xs);
                }
            }
            k = k + 1;
        }
        proof {
            assert(self.chunks@.subrange(0, k as int) =~= self@);
        }
        ids
    }
}

} // verus!
