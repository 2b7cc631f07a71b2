use vstd::prelude::*;

use vstd::string::StringSliceAdditionalSpecFns;

use crate::bytes::{be_bytes, be_val, lemma_be_val_of_be_bytes, read_be_u32};
use crate::chunk::{spec_parse_chunk, lemma_chunk_round_trip, Chunk, ChunkModel};
use crate::chunk_type::ChunkType;
use crate::error::PngError;

verus! {

/// The fixed 8-byte magic header that begins every container.
pub open spec fn spec_header() -> Seq<u8> {
    seq![137u8, 80u8, 78u8, 71u8, 13u8, 10u8, 26u8, 10u8]
}

/// The mathematical content of a container: its header bytes and the models
/// of its chunks, in order.
pub ghost struct PngModel {
    pub header: Seq<u8>,
    pub chunks: Seq<ChunkModel>,
}

/// The concatenation of the serialized forms of a sequence of chunk models.
pub open spec fn chunks_bytes(cs: Seq<ChunkModel>) -> Seq<u8>
    decreases cs.len(),
{
    if cs.len() == 0 {
        Seq::empty()
    } else {
        cs[0].spec_bytes() + chunks_bytes(cs.drop_first())
    }
}

impl PngModel {
    /// A model is well formed when its header is the standard magic and each
    /// chunk model is well formed.
    pub open spec fn wf(self) -> bool {
        self.header == spec_header() && (forall|i: int|
            0 <= i < self.chunks.len() ==> (#[trigger] self.chunks[i]).wf())
    }

    /// The serialized image: the header, then each chunk's bytes in order.
    pub open spec fn spec_bytes(self) -> Seq<u8> {
        self.header + chunks_bytes(self.chunks)
    }
}

/// What parsing a byte buffer as a chunk sequence yields: chunks back to
/// back, each spanning 12 bytes plus its declared length, until no bytes
/// remain; a buffer that ends mid-chunk is a format error.
pub open spec fn spec_parse_chunks(b: Seq<u8>) -> Result<Seq<ChunkModel>, PngError>
    decreases b.len(),
{
    if b.len() == 0 {
        Ok(Seq::empty())
    } else if b.len() < 12 {
        Err(PngError::FormatError)
    } else {
        let l = be_val(b.subrange(0, 4));
        if b.len() < 12 + l {
            Err(PngError::FormatError)
        } else {
            match spec_parse_chunk(b.subrange(0, 12 + l)) {
                Ok(m) => match spec_parse_chunks(b.subrange(12 + l, b.len() as int)) {
                    Ok(rest) => Ok(seq![m] + rest),
                    Err(e) => Err(e),
                },
                Err(e) => Err(e),
            }
        }
    }
}

/// What parsing a byte buffer as a whole container yields; the spec-level
/// counterpart of Png::parse.
pub open spec fn spec_parse_png(b: Seq<u8>) -> Result<PngModel, PngError> {
    if b.len() < 8 || b.subrange(0, 8) != spec_header() {
        Err(PngError::FormatError)
    } else {
        match spec_parse_chunks(b.subrange(8, b.len() as int)) {
            Ok(cs) => Ok(PngModel { header: spec_header(), chunks: cs }),
            Err(e) => Err(e),
        }
    }
}

/// The outcome of a chunk-sequence parse with `ms` already parsed in front.
pub open spec fn prepend_parsed(ms: Seq<ChunkModel>, r: Result<Seq<ChunkModel>, PngError>)
    -> Result<Seq<ChunkModel>, PngError> {
    match r {
        Ok(rest) => Ok(ms + rest),
        Err(e) => Err(e),
    }
}

proof fn lemma_prepend_parsed_nil(r: Result<Seq<ChunkModel>, PngError>)
    ensures
        prepend_parsed(Seq::empty(), r) == r,
{
    match r {
        Ok(rest) => {
            assert(Seq::<ChunkModel>::empty() + rest =~= rest);
        },
        Err(_) => {
        },
    }
}

proof fn lemma_prepend_parsed_push(
    ms: Seq<ChunkModel>,
    m: ChunkModel,
    r: Result<Seq<ChunkModel>, PngError>,
)
    ensures
        prepend_parsed(ms, prepend_parsed(seq![m], r)) == prepend_parsed(ms.push(m), r),
{
    match r {
        Ok(rest) => {
            assert(ms + (seq![m] + rest) =~= ms.push(m) + rest);
        },
        Err(_) => {
        },
    }
}

proof fn lemma_spec_parse_chunks_step(b: Seq<u8>)
    requires
        b.len() >= 12,
        12 + be_val(b.subrange(0, 4)) <= b.len(),
    ensures
        spec_parse_chunks(b) == (match spec_parse_chunk(
            b.subrange(0, 12 + be_val(b.subrange(0, 4))),
        ) {
            Ok(m) => prepend_parsed(
                seq![m],
                spec_parse_chunks(b.subrange(12 + be_val(b.subrange(0, 4)), b.len() as int)),
            ),
            Err(e) => Err(e),
        }),
{
}

/// The position of the first chunk in `cs` whose tag bytes equal `tag`.
pub open spec fn spec_find(cs: Seq<Chunk>, tag: Seq<u8>) -> Option<int>
    decreases cs.len(),
{
    if cs.len() == 0 {
        None
    } else if cs[0].chunk_type.bytes@ == tag {
        Some(0int)
    } else {
        match spec_find(cs.drop_first(), tag) {
            Some(i) => Some(i + 1),
            None => None,
        }
    }
}

proof fn lemma_spec_find_some(cs: Seq<Chunk>, tag: Seq<u8>, i: int)
    requires
        0 <= i < cs.len(),
        cs[i].chunk_type.bytes@ == tag,
        forall|j: int| 0 <= j < i ==> (#[trigger] cs[j]).chunk_type.bytes@ != tag,
    ensures
        spec_find(cs, tag) == Some(i),
    decreases cs.len(),
{
    if i > 0 {
        let rest = cs.drop_first();
        assert(forall|j: int| 0 <= j < i - 1 ==> (#[trigger] rest[j]).chunk_type.bytes@ != tag);
        lemma_spec_find_some(rest, tag, i - 1);
    }
}

proof fn lemma_spec_find_none(cs: Seq<Chunk>, tag: Seq<u8>)
    requires
        forall|j: int| 0 <= j < cs.len() ==> (#[trigger] cs[j]).chunk_type.bytes@ != tag,
    ensures
        spec_find(cs, tag) is None,
    decreases cs.len(),
{
    if cs.len() > 0 {
        lemma_spec_find_none(cs.drop_first(), tag);
    }
}

fn tag_matches(t: &ChunkType, query: &[u8]) -> (r: bool)
    ensures
        r == (t.bytes@ == query@),
{
    if query.len() != 4 {
        return false;
    }
    let m = t.bytes[0] == query[0] && t.bytes[1] == query[1] && t.bytes[2] == query[2]
        && t.bytes[3] == query[3];
    proof {
        if m {
            assert(t.bytes@ =~= query@);
        }
    }
    m
}

/// An ordered sequence of chunks behind the fixed magic header.
#[derive(Debug)]
pub struct Png {
    pub header: [u8; 8],
    pub chunks: Vec<Chunk>,
}

impl View for Png {
    type V = PngModel;

    open spec fn view(&self) -> PngModel {
        PngModel {
            header: self.header@,
            chunks: Seq::new(self.chunks@.len(), |i: int| self.chunks@[i]@),
        }
    }
}

/// The concatenation of the raw serialized forms of a chunk sequence.
pub open spec fn chunks_serialized(cs: Seq<Chunk>) -> Seq<u8>
    decreases cs.len(),
{
    if cs.len() == 0 {
        Seq::empty()
    } else {
        cs[0].spec_serialized() + chunks_serialized(cs.drop_first())
    }
}

proof fn lemma_chunks_serialized_snoc(cs: Seq<Chunk>, i: int)
    requires
        0 <= i < cs.len(),
    ensures
        chunks_serialized(cs.subrange(0, i + 1)) == chunks_serialized(cs.subrange(0, i))
            + cs[i].spec_serialized(),
    decreases i,
{
    let pre = cs.subrange(0, i + 1);
    assert(pre[0] == cs[0]);
    assert(chunks_serialized(pre) == pre[0].spec_serialized() + chunks_serialized(
        pre.drop_first(),
    ));
    if i == 0 {
        assert(pre.drop_first() =~= Seq::<Chunk>::empty());
        assert(chunks_serialized(pre.drop_first()) == Seq::<u8>::empty());
        assert(chunks_serialized(cs.subrange(0, 0)) == Seq::<u8>::empty());
        assert(cs[0].spec_serialized() + Seq::<u8>::empty() =~= cs[0].spec_serialized());
        assert(Seq::<u8>::empty() + cs[0].spec_serialized() =~= cs[0].spec_serialized());
    } else {
        lemma_chunks_serialized_snoc(cs.drop_first(), i - 1);
        assert(pre.drop_first() =~= cs.drop_first().subrange(0, i));
        assert(cs.subrange(0, i).drop_first() =~= cs.drop_first().subrange(0, i - 1));
        assert(cs.subrange(0, i).len() > 0);
        assert(cs.subrange(0, i)[0] == cs[0]);
        assert(cs.drop_first()[i - 1] == cs[i]);
        assert(chunks_serialized(cs.subrange(0, i)) == cs[0].spec_serialized()
            + chunks_serialized(cs.drop_first().subrange(0, i - 1)));
        assert(cs[0].spec_serialized() + (chunks_serialized(cs.drop_first().subrange(0, i - 1))
            + cs[i].spec_serialized()) =~= (cs[0].spec_serialized() + chunks_serialized(
            cs.drop_first().subrange(0, i - 1),
        )) + cs[i].spec_serialized());
    }
}

impl Png {
    /// The container invariant: the header is the standard magic and every
    /// chunk satisfies its own invariant.
    pub open spec fn wf(self) -> bool {
        self.header@ == spec_header() && (forall|i: int|
            0 <= i < self.chunks@.len() ==> (#[trigger] self.chunks@[i]).wf())
    }

    /// The fixed 8-byte magic header as a value.
    pub fn standard_header() -> (r: [u8; 8])
        ensures
            r@ == spec_header(),
    {
        let h: [u8; 8] = [137, 80, 78, 71, 13, 10, 26, 10];
        proof {
            assert(h@ =~= spec_header());
        }
        h
    }

    /// Builds a container from a chunk sequence, stamping the standard header.
    pub fn from_chunks(chunks: Vec<Chunk>) -> (r: Png)
        ensures
            r.header@ == spec_header(),
            r.chunks@ == chunks@,
    {
        Png { header: Self::standard_header(), chunks }
    }

    /// Appends a chunk at the end; chunks of equal type may coexist.
    pub fn append_chunk(&mut self, chunk: Chunk)
        ensures
            final(self).header == old(self).header,
            final(self).chunks@ == old(self).chunks@.push(chunk),
    {
        self.chunks.push(chunk);
    }

    /// The container's header bytes.
    pub fn header(&self) -> (r: &[u8; 8])
        ensures
            r@ == self.header@,
    {
        &self.header
    }

    /// The chunks, in sequence order.
    pub fn chunks(&self) -> (r: &[Chunk])
        ensures
            r@ == self.chunks@,
    {
        self.chunks.as_slice()
    }

    /// The first chunk (in sequence order) whose tag bytes equal the query
    /// text's bytes, if any.
    pub fn chunk_by_type(&self, chunk_type: &str) -> (r: Option<&Chunk>)
        ensures
            match r {
                Some(c) => spec_find(self.chunks@, chunk_type.spec_bytes()) matches Some(i)
                    && *c == self.chunks@[i],
                None => spec_find(self.chunks@, chunk_type.spec_bytes()) is None,
            },
    {
        let query = chunk_type.as_bytes();
        let n = self.chunks.len();
        let mut i: usize = 0;
        while i < n
            invariant
                i <= n,
                n == self.chunks@.len(),
                query@ == chunk_type.spec_bytes(),
                forall|j: int| 0 <= j < i ==> (#[trigger] self.chunks@[j]).chunk_type.bytes@
                    != query@,
            decreases n - i,
        {
            if tag_matches(&self.chunks[i].chunk_type, query) {
                proof {
                    lemma_spec_find_some(self.chunks@, query@, i as int);
                }
                return Some(&self.chunks[i]);
            }
            i = i + 1;
        }
        proof {
            lemma_spec_find_none(self.chunks@, query@);
        }
        None
    }

    /// Removes and returns the first chunk whose tag bytes equal the query
    /// text's bytes, keeping the relative order of the rest; when no chunk
    /// matches, fails and leaves the container unchanged.
    pub fn remove_first_chunk(&mut self, chunk_type: &str) -> (r: Result<Chunk, PngError>)
        ensures
            final(self).header == old(self).header,
            match spec_find(old(self).chunks@, chunk_type.spec_bytes()) {
                Some(i) => r matches Ok(c) && c == old(self).chunks@[i] && final(self).chunks@
                    == old(self).chunks@.remove(i),
                None => r == Err::<Chunk, PngError>(PngError::NotFoundError)
                    && final(self).chunks@ == old(self).chunks@,
            },
    {
        let query = chunk_type.as_bytes();
        let n = self.chunks.len();
        let mut i: usize = 0;
        while i < n
            invariant
                i <= n,
                self == old(self),
                n == self.chunks@.len(),
                query@ == chunk_type.spec_bytes(),
                forall|j: int| 0 <= j < i ==> (#[trigger] self.chunks@[j]).chunk_type.bytes@
                    != query@,
            decreases n - i,
        {
            if tag_matches(&self.chunks[i].chunk_type, query) {
                proof {
                    lemma_spec_find_some(self.chunks@, query@, i as int);
                }
                return Ok(self.chunks.remove(i));
            }
            i = i + 1;
        }
        proof {
            lemma_spec_find_none(self.chunks@, query@);
        }
        Err(PngError::NotFoundError)
    }

    /// Serializes the container: the standard header, then every chunk's
    /// serialized form in sequence order.
    pub fn as_bytes(&self) -> (r: Vec<u8>)
        ensures
            r@ == spec_header() + chunks_serialized(self.chunks@),
    {
        let mut out: Vec<u8> = Vec::new();
        let header = Self::standard_header();
        out.push(header[0]);
        out.push(header[1]);
        out.push(header[2]);
        out.push(header[3]);
        out.push(header[4]);
        out.push(header[5]);
        out.push(header[6]);
        out.push(header[7]);
        proof {
            assert(chunks_serialized(self.chunks@.subrange(0, 0)) =~= Seq::<u8>::empty());
            assert(out@ =~= spec_header() + chunks_serialized(self.chunks@.subrange(0, 0)));
        }
        let n = self.chunks.len();
        let mut i: usize = 0;
        while i < n
            invariant
                i <= n,
                n == self.chunks@.len(),
                out@ == spec_header() + chunks_serialized(self.chunks@.subrange(0, i as int)),
            decreases n - i,
        {
            let mut chunk_bytes = self.chunks[i].as_bytes();
            out.append(&mut chunk_bytes);
            i = i + 1;
            proof {
                lemma_chunks_serialized_snoc(self.chunks@, i - 1);
                assert(out@ =~= spec_header() + chunks_serialized(
                    self.chunks@.subrange(0, i as int),
                ));
            }
        }
        proof {
            assert(self.chunks@.subrange(0, self.chunks@.len() as int) =~= self.chunks@);
        }
        out
    }

    /// Parses a whole buffer as a container: the 8-byte magic header, then
    /// chunks back to back until the buffer ends. A wrong or missing header,
    /// a buffer that ends mid-chunk, and any chunk-level failure reject the
    /// whole buffer.
    pub fn parse(bytes: &[u8]) -> (r: Result<Png, PngError>)
        ensures
            r matches Ok(p) ==> p.wf() && spec_parse_png(bytes@) == Ok::<PngModel, PngError>(p@),
            r matches Err(e) ==> spec_parse_png(bytes@) == Err::<PngModel, PngError>(e),
    {
        let n = bytes.len();
        if n < 8 {
            return Err(PngError::FormatError);
        }
        let header = Self::standard_header();
        if !(bytes[0] == header[0] && bytes[1] == header[1] && bytes[2] == header[2] && bytes[3]
            == header[3] && bytes[4] == header[4] && bytes[5] == header[5] && bytes[6] == header[6]
            && bytes[7] == header[7]) {
            proof {
                assert(bytes@.subrange(0, 8) != spec_header());
            }
            return Err(PngError::FormatError);
        }
        proof {
            assert(bytes@.subrange(0, 8) =~= spec_header());
        }
        let mut chunks: Vec<Chunk> = Vec::new();
        let mut idx: usize = 8;
        proof {
            lemma_prepend_parsed_nil(spec_parse_chunks(bytes@.subrange(8, n as int)));
            assert(Seq::new(chunks@.len(), |i: int| chunks@[i]@) =~= Seq::<ChunkModel>::empty());
        }
        while idx < n
            invariant
                8 <= idx <= n,
                n == bytes@.len(),
                bytes@.subrange(0, 8) == spec_header(),
                forall|j: int| 0 <= j < chunks@.len() ==> (#[trigger] chunks@[j]).wf(),
                spec_parse_chunks(bytes@.subrange(8, n as int)) == prepend_parsed(
                    Seq::new(chunks@.len(), |i: int| chunks@[i]@),
                    spec_parse_chunks(bytes@.subrange(idx as int, n as int)),
                ),
            decreases n - idx,
        {
            let ghost pending = bytes@.subrange(idx as int, n as int);
            let ghost old_models = Seq::new(chunks@.len(), |i: int| chunks@[i]@);
            let remaining = n - idx;
            if remaining < 12 {
                return Err(PngError::FormatError);
            }
            let length = read_be_u32(bytes, idx);
            let l = length as usize;
            proof {
                assert(pending.subrange(0, 4) =~= bytes@.subrange(idx as int, idx as int + 4));
            }
            if remaining - 12 < l {
                return Err(PngError::FormatError);
            }
            let span_end = idx + 12 + l;
            let span = vstd::slice::slice_subrange(bytes, idx, span_end);
            proof {
                assert(span@ =~= pending.subrange(0, 12 + l as int));
                lemma_spec_parse_chunks_step(pending);
            }
            let parsed = Chunk::parse(span);
            match parsed {
                Ok(c) => {
                    proof {
                        lemma_prepend_parsed_push(
                            old_models,
                            c@,
                            spec_parse_chunks(pending.subrange(12 + l as int, pending.len() as int)),
                        );
                    }
                    chunks.push(c);
                    idx = span_end;
                    proof {
                        assert(bytes@.subrange(idx as int, n as int) =~= pending.subrange(
                            12 + l as int,
                            pending.len() as int,
                        ));
                        assert(Seq::new(chunks@.len(), |i: int| chunks@[i]@) =~= old_models.push(
                            c@,
                        ));
                    }
                },
                Err(e) => {
                    return Err(e);
                },
            }
        }
        proof {
            assert(bytes@.subrange(idx as int, n as int) =~= Seq::<u8>::empty());
            assert(Seq::new(chunks@.len(), |i: int| chunks@[i]@) + Seq::<ChunkModel>::empty()
                =~= Seq::new(chunks@.len(), |i: int| chunks@[i]@));
        }
        let p = Png { header, chunks };
        proof {
            assert(p@.chunks =~= Seq::new(p.chunks@.len(), |i: int| p.chunks@[i]@));
        }
        Ok(p)
    }

    /// For a well-formed container the emitted bytes are its model's bytes.
    pub proof fn lemma_serialized_is_model_bytes(self)
        requires
            self.wf(),
        ensures
            spec_header() + chunks_serialized(self.chunks@) == self@.spec_bytes(),
            self@.wf(),
    {
        lemma_chunks_serialized_models(self.chunks@);
        assert(Seq::new(self.chunks@.len(), |i: int| self.chunks@[i]@) =~= self.chunks@.map(
            |i: int, c: Chunk| c@,
        ));
    }
}

proof fn lemma_chunks_serialized_models(cs: Seq<Chunk>)
    requires
        forall|i: int| 0 <= i < cs.len() ==> (#[trigger] cs[i]).wf(),
    ensures
        chunks_serialized(cs) == chunks_bytes(cs.map(|i: int, c: Chunk| c@)),
    decreases cs.len(),
{
    let ms = cs.map(|i: int, c: Chunk| c@);
    if cs.len() == 0 {
        assert(ms.len() == 0);
    } else {
        cs[0].lemma_serialized_is_model_bytes();
        lemma_chunks_serialized_models(cs.drop_first());
        assert(ms[0] == cs[0]@);
        assert(ms.drop_first() =~= cs.drop_first().map(|i: int, c: Chunk| c@));
    }
}

/// Law: parsing the serialized concatenation of well-formed chunk models
/// recovers exactly those models, in order.
proof fn lemma_chunks_round_trip(cs: Seq<ChunkModel>)
    requires
        forall|i: int| 0 <= i < cs.len() ==> (#[trigger] cs[i]).wf(),
    ensures
        spec_parse_chunks(chunks_bytes(cs)) == Ok::<Seq<ChunkModel>, PngError>(cs),
    decreases cs.len(),
{
    let b = chunks_bytes(cs);
    if cs.len() == 0 {
        assert(cs =~= Seq::<ChunkModel>::empty());
    } else {
        let m = cs[0];
        let rest = cs.drop_first();
        lemma_be_val_of_be_bytes(m.data.len() as u32);
        assert(b.subrange(0, 4) =~= be_bytes(m.data.len() as u32));
        let l = be_val(b.subrange(0, 4));
        assert(l == m.data.len());
        assert(b.len() == 12 + l + chunks_bytes(rest).len());
        assert(b.subrange(0, 12 + l) =~= m.spec_bytes());
        lemma_chunk_round_trip(m);
        assert(b.subrange(12 + l, b.len() as int) =~= chunks_bytes(rest));
        lemma_chunks_round_trip(rest);
        assert(seq![m] + rest =~= cs);
        assert(spec_parse_chunks(b) == Ok::<Seq<ChunkModel>, PngError>(seq![m] + rest));
    }
}

/// Law: parsing the serialized form of a well-formed container succeeds and
/// recovers the same header and the same chunk sequence, in order.
pub proof fn lemma_png_round_trip(m: PngModel)
    requires
        m.wf(),
    ensures
        spec_parse_png(m.spec_bytes()) == Ok::<PngModel, PngError>(m),
{
    let b = m.spec_bytes();
    assert(b.subrange(0, 8) =~= spec_header());
    assert(b.subrange(8, b.len() as int) =~= chunks_bytes(m.chunks));
    lemma_chunks_round_trip(m.chunks);
    assert(PngModel { header: spec_header(), chunks: m.chunks } == m);
}

/// Law: for a well-formed container, parsing the exact bytes that `as_bytes`
/// emits recovers the same header and the same chunk sequence.
pub proof fn lemma_container_serialize_then_parse(p: Png)
    requires
        p.wf(),
    ensures
        spec_parse_png(spec_header() + chunks_serialized(p.chunks@)) == Ok::<PngModel, PngError>(
            p@,
        ),
{
    p.lemma_serialized_is_model_bytes();
    lemma_png_round_trip(p@);
}

proof fn lemma_chunks_bytes_cons(m: ChunkModel, s: Seq<ChunkModel>)
    ensures
        chunks_bytes(seq![m] + s) == m.spec_bytes() + chunks_bytes(s),
{
    assert((seq![m] + s)[0] == m);
    assert((seq![m] + s).drop_first() =~= s);
}

proof fn lemma_chunks_truncation_rejected(cs: Seq<ChunkModel>, n: int)
    requires
        forall|i: int| 0 <= i < cs.len() ==> (#[trigger] cs[i]).wf(),
        0 <= n <= chunks_bytes(cs).len(),
        forall|k: int| 0 <= k <= cs.len() ==> n != chunks_bytes(#[trigger] cs.take(k)).len(),
    ensures
        spec_parse_chunks(chunks_bytes(cs).subrange(0, n)) == Err::<Seq<ChunkModel>, PngError>(
            PngError::FormatError,
        ),
    decreases cs.len(),
{
    let b = chunks_bytes(cs);
    let p = b.subrange(0, n);
    assert(cs.take(0) =~= Seq::<ChunkModel>::empty());
    assert(n != 0);
    assert(cs.len() > 0);
    let m0 = cs[0];
    let rest = cs.drop_first();
    let c0len = m0.spec_bytes().len() as int;
    lemma_be_val_of_be_bytes(m0.data.len() as u32);
    assert(cs.take(1) =~= seq![m0] + Seq::<ChunkModel>::empty());
    lemma_chunks_bytes_cons(m0, Seq::<ChunkModel>::empty());
    assert(m0.spec_bytes() + Seq::<u8>::empty() =~= m0.spec_bytes());
    assert(n != c0len);
    if n < c0len {
        if n >= 12 {
            assert(p.subrange(0, 4) =~= be_bytes(m0.data.len() as u32));
            assert(p.len() < 12 + be_val(p.subrange(0, 4)));
        }
    } else {
        assert(p.subrange(0, 4) =~= be_bytes(m0.data.len() as u32));
        let l = be_val(p.subrange(0, 4));
        assert(l == m0.data.len());
        assert(p.len() >= 12 + l);
        assert(p.subrange(0, 12 + l) =~= m0.spec_bytes());
        lemma_chunk_round_trip(m0);
        assert(p.subrange(12 + l, p.len() as int) =~= chunks_bytes(rest).subrange(0, n - c0len));
        assert forall|k: int| 0 <= k <= rest.len() implies n - c0len != chunks_bytes(
            #[trigger] rest.take(k),
        ).len() by {
            assert(cs.take(k + 1) =~= seq![m0] + rest.take(k));
            lemma_chunks_bytes_cons(m0, rest.take(k));
        }
        lemma_chunks_truncation_rejected(rest, n - c0len);
    }
}

/// Law: parsing a strict prefix of a serialized well-formed container fails
/// with a format error whenever the cut does not fall exactly on a chunk
/// boundary. (A prefix that ends on a chunk boundary is itself a complete
/// container of the leading chunks and parses as such, so those cuts are
/// excluded here.)
pub proof fn lemma_png_truncation_rejected(m: PngModel, n: int)
    requires
        m.wf(),
        0 <= n < m.spec_bytes().len(),
        forall|k: int| 0 <= k <= m.chunks.len() ==> n != 8 + chunks_bytes(
            #[trigger] m.chunks.take(k),
        ).len(),
    ensures
        spec_parse_png(m.spec_bytes().subrange(0, n)) == Err::<PngModel, PngError>(
            PngError::FormatError,
        ),
{
    let b = m.spec_bytes();
    let p = b.subrange(0, n);
    assert(m.chunks.take(0) =~= Seq::<ChunkModel>::empty());
    assert(n != 8);
    if n < 8 {
        assert(p.len() < 8);
    } else {
        assert(p.subrange(0, 8) =~= spec_header());
        assert(p.subrange(8, n) =~= chunks_bytes(m.chunks).subrange(0, n - 8));
        assert forall|k: int| 0 <= k <= m.chunks.len() implies n - 8 != chunks_bytes(
            #[trigger] m.chunks.take(k),
        ).len() by {}
        lemma_chunks_truncation_rejected(m.chunks, n - 8);
    }
}

/// Law: no tag is found in an empty container.
pub proof fn lemma_find_in_empty(tag: Seq<u8>)
    ensures
        spec_find(Seq::<Chunk>::empty(), tag) is None,
{
}

/// Law: after appending a chunk to an empty container, looking up that
/// chunk's tag finds exactly the appended chunk.
pub proof fn lemma_find_after_append(c: Chunk)
    ensures
        spec_find(Seq::<Chunk>::empty().push(c), c.chunk_type.bytes@) == Some(0int),
{
    assert(Seq::<Chunk>::empty().push(c)[0] == c);
}

/// Law: with two chunks of the same tag, removing the first occurrence by
/// tag removes exactly the front one and leaves the second untouched.
pub proof fn lemma_remove_first_of_two(c1: Chunk, c2: Chunk)
    requires
        c1.chunk_type.bytes@ == c2.chunk_type.bytes@,
    ensures
        spec_find(seq![c1, c2], c1.chunk_type.bytes@) == Some(0int),
        seq![c1, c2].remove(0) == seq![c2],
{
    assert(seq![c1, c2][0] == c1);
    assert(seq![c1, c2].remove(0) =~= seq![c2]);
}

} // verus!
