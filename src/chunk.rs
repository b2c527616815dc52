//! The chunk container: frame headers, bounded content readers, lazy iteration over a
//! chunk's children, and a writer that back-patches lengths once they are known.
use crate::bytes::{le_u32_at, read_u32_at, u32_bytes, u32_le_bytes};
use crate::reader::Error;
use crate::writer::Error as WriteError;
use vstd::prelude::*;

verus! {

/// A four-byte chunk identifier, in file order.
#[derive(Clone, Copy, Debug, PartialEq, Eq, Structural)]
pub struct Tag(pub u8, pub u8, pub u8, pub u8);

/// The known chunk identifiers; any other is carried opaquely.
#[derive(Clone, Copy, Debug, PartialEq, Eq, Structural)]
pub enum ChunkId {
    Main,
    Pack,
    Size,
    Xyzi,
    Rgba,
    Matl,
    Unsupported(Tag),
}

/// The bytes of a tag, in file order.
pub open spec fn tag_bytes(t: Tag) -> Seq<u8> {
    seq![t.0, t.1, t.2, t.3]
}

/// The tag made of the four bytes at `at`.
pub open spec fn tag_at(s: Seq<u8>, at: int) -> Tag {
    Tag(s[at], s[at + 1], s[at + 2], s[at + 3])
}

pub open spec fn main_tag() -> Tag { Tag(77, 65, 73, 78) }
pub open spec fn pack_tag() -> Tag { Tag(80, 65, 67, 75) }
pub open spec fn size_tag() -> Tag { Tag(83, 73, 90, 69) }
pub open spec fn xyzi_tag() -> Tag { Tag(88, 89, 90, 73) }
pub open spec fn rgba_tag() -> Tag { Tag(82, 71, 66, 65) }
pub open spec fn matl_tag() -> Tag { Tag(77, 65, 84, 76) }

/// The identifier that a tag read from a file stands for.
pub open spec fn chunk_id_of(t: Tag) -> ChunkId {
    if t == main_tag() {
        ChunkId::Main
    } else if t == pack_tag() {
        ChunkId::Pack
    } else if t == size_tag() {
        ChunkId::Size
    } else if t == xyzi_tag() {
        ChunkId::Xyzi
    } else if t == rgba_tag() {
        ChunkId::Rgba
    } else if t == matl_tag() {
        ChunkId::Matl
    } else {
        ChunkId::Unsupported(t)
    }
}

/// The tag written for an identifier.
pub open spec fn id_tag(id: ChunkId) -> Tag {
    match id {
        ChunkId::Main => main_tag(),
        ChunkId::Pack => pack_tag(),
        ChunkId::Size => size_tag(),
        ChunkId::Xyzi => xyzi_tag(),
        ChunkId::Rgba => rgba_tag(),
        ChunkId::Matl => matl_tag(),
        ChunkId::Unsupported(t) => t,
    }
}

impl ChunkId {
    pub fn from_tag(t: Tag) -> (r: ChunkId)
        ensures
            r == chunk_id_of(t),
    {
        match t {
            Tag(77, 65, 73, 78) => ChunkId::Main,
            Tag(80, 65, 67, 75) => ChunkId::Pack,
            Tag(83, 73, 90, 69) => ChunkId::Size,
            Tag(88, 89, 90, 73) => ChunkId::Xyzi,
            Tag(82, 71, 66, 65) => ChunkId::Rgba,
            Tag(77, 65, 84, 76) => ChunkId::Matl,
            _ => ChunkId::Unsupported(t),
        }
    }

    pub fn tag(&self) -> (r: Tag)
        ensures
            r == id_tag(*self),
    {
        match self {
            ChunkId::Main => Tag(77, 65, 73, 78),
            ChunkId::Pack => Tag(80, 65, 67, 75),
            ChunkId::Size => Tag(83, 73, 90, 69),
            ChunkId::Xyzi => Tag(88, 89, 90, 73),
            ChunkId::Rgba => Tag(82, 71, 66, 65),
            ChunkId::Matl => Tag(77, 65, 84, 76),
            ChunkId::Unsupported(t) => *t,
        }
    }
}

/// A chunk header as read from a source: its identifier, where its content starts, and the
/// declared lengths of its content and of its children's region, which follows the content.
#[derive(Clone, Copy, Debug, PartialEq, Eq, Structural)]
pub struct Chunk {
    pub id: ChunkId,
    pub offset: usize,
    pub content_len: u32,
    pub children_len: u32,
}

/// Size of a chunk header: identifier and two lengths.
pub const HEADER_LEN: usize = 12;

/// The header at `pos`, if the source holds twelve bytes there.
pub open spec fn frame_at(s: Seq<u8>, pos: int) -> Option<Chunk> {
    if 0 <= pos && pos + 12 <= s.len() && pos + 12 <= usize::MAX {
        Some(
            Chunk {
                id: chunk_id_of(tag_at(s, pos)),
                offset: (pos + 12) as usize,
                content_len: le_u32_at(s, pos + 4) as u32,
                children_len: le_u32_at(s, pos + 8) as u32,
            },
        )
    } else {
        None
    }
}

/// Where the children's region of a chunk starts.
pub open spec fn children_start(c: Chunk) -> int {
    c.offset + c.content_len
}

/// Where the sibling that follows a chunk starts.
pub open spec fn next_sibling(c: Chunk) -> int {
    c.offset + c.content_len + c.children_len
}

/// The bytes that a chunk's content reader yields: its declared content, cut at the end of
/// the source.
pub open spec fn content_of(s: Seq<u8>, c: Chunk) -> Seq<u8> {
    let lo = if c.offset <= s.len() { c.offset as int } else { s.len() as int };
    let hi = if children_start(c) <= s.len() { children_start(c) } else { s.len() as int };
    s.subrange(lo, hi)
}

/// Reads the chunk header at `pos`.
pub fn read_header(data: &[u8], pos: usize) -> (r: Result<Chunk, Error>)
    ensures
        match frame_at(data@, pos as int) {
            Some(c) => r == Ok::<Chunk, Error>(c),
            None => r == Err::<Chunk, Error>(Error::Truncated),
        },
{
    if pos > data.len() || data.len() - pos < HEADER_LEN {
        return Err(Error::Truncated);
    }
    let t = Tag(data[pos], data[pos + 1], data[pos + 2], data[pos + 3]);
    let content_len = read_u32_at(data, pos + 4);
    let children_len = read_u32_at(data, pos + 8);
    Ok(Chunk { id: ChunkId::from_tag(t), offset: pos + HEADER_LEN, content_len, children_len })
}

impl Chunk {
    pub fn id(&self) -> (r: ChunkId)
        ensures
            r == self.id,
    {
        self.id
    }

    pub fn offset(&self) -> (r: usize)
        ensures
            r == self.offset,
    {
        self.offset
    }

    /// A reader of exactly this chunk's content.
    pub fn content<'a>(&self, data: &'a [u8]) -> (r: ContentReader<'a>)
        ensures
            r@ == content_of(data@, *self),
    {
        let len = data.len();
        let lo = if self.offset <= len { self.offset } else { len };
        let room = len - lo;
        let hi = if (self.content_len as usize) <= room { lo + self.content_len as usize } else { len };
        ContentReader { data, pos: lo, end: hi }
    }

    /// The direct children of this chunk, read lazily.
    pub fn children(&self) -> (r: Children)
        ensures
            r.pos() == children_start(*self),
            r.end() == next_sibling(*self),
            !r.is_done(),
    {
        let start = self.offset as u128 + self.content_len as u128;
        Children { pos: start, end: start + self.children_len as u128, done: false }
    }
}

/// A read view of a bounded range of a source; reading past its end fails.
pub struct ContentReader<'a> {
    data: &'a [u8],
    pos: usize,
    end: usize,
}

impl<'a> View for ContentReader<'a> {
    type V = Seq<u8>;

    /// The bytes that are still to be read.
    closed spec fn view(&self) -> Seq<u8> {
        self.data@.subrange(self.pos as int, self.end as int)
    }
}

impl<'a> ContentReader<'a> {
    #[verifier::type_invariant]
    spec fn inv(&self) -> bool {
        self.pos <= self.end <= self.data@.len()
    }

    /// A reader of the whole slice.
    pub fn new(data: &'a [u8]) -> (r: ContentReader<'a>)
        ensures
            r@ == data@,
    {
        let r = ContentReader { data, pos: 0, end: data.len() };
        assert(r@ =~= data@);
        r
    }

    /// How many bytes are left.
    pub fn remaining(&self) -> (r: usize)
        ensures
            r == self@.len(),
    {
        proof {
            use_type_invariant(self);
        }
        self.end - self.pos
    }

    pub fn read_u8(&mut self) -> (r: Result<u8, Error>)
        ensures
            old(self)@.len() >= 1 ==> r == Ok::<u8, Error>(old(self)@[0]) && final(self)@
                == old(self)@.skip(1),
            old(self)@.len() < 1 ==> r == Err::<u8, Error>(Error::Truncated),
    {
        proof {
            use_type_invariant(&*self);
        }
        if self.pos < self.end {
            let b = self.data[self.pos];
            self.pos = self.pos + 1;
            assert(self@ =~= old(self)@.skip(1));
            Ok(b)
        } else {
            Err(Error::Truncated)
        }
    }

    pub fn read_i8(&mut self) -> (r: Result<i8, Error>)
        ensures
            old(self)@.len() >= 1 ==> r == Ok::<i8, Error>(old(self)@[0] as i8) && final(self)@
                == old(self)@.skip(1),
            old(self)@.len() < 1 ==> r == Err::<i8, Error>(Error::Truncated),
    {
        match self.read_u8() {
            Ok(b) => Ok(b as i8),
            Err(e) => Err(e),
        }
    }

    pub fn read_u32(&mut self) -> (r: Result<u32, Error>)
        ensures
            old(self)@.len() >= 4 ==> r == Ok::<u32, Error>(le_u32_at(old(self)@, 0) as u32)
                && final(self)@ == old(self)@.skip(4),
            old(self)@.len() < 4 ==> r == Err::<u32, Error>(Error::Truncated),
    {
        proof {
            use_type_invariant(&*self);
        }
        if self.end - self.pos >= 4 {
            let v = read_u32_at(self.data, self.pos);
            self.pos = self.pos + 4;
            assert(self@ =~= old(self)@.skip(4));
            Ok(v)
        } else {
            Err(Error::Truncated)
        }
    }
}

/// A forward-only walk over the children of one chunk. Each step reads one header and then
/// moves past that child's content and children without reading them.
pub struct Children {
    pos: u128,
    end: u128,
    done: bool,
}

impl Children {
    pub closed spec fn pos(&self) -> int {
        self.pos as int
    }

    pub closed spec fn end(&self) -> int {
        self.end as int
    }

    pub closed spec fn is_done(&self) -> bool {
        self.done
    }

    #[verifier::type_invariant]
    spec fn inv(&self) -> bool {
        self.end < 0x1_0000_0000_0000_0000_0000_0000 && self.pos < 0x1_0000_0000_0000_0000_0000_0000
    }

    /// The next child, or `None` once the children's region is used up or an error was
    /// returned.
    pub fn next(&mut self, data: &[u8]) -> (r: Option<Result<Chunk, Error>>)
        ensures
            final(self).end() == old(self).end(),
            old(self).is_done() || old(self).pos() >= old(self).end() ==> r is None
                && final(self).is_done() == old(self).is_done() && final(self).pos() == old(self).pos(),
            !old(self).is_done() && old(self).pos() < old(self).end() ==> match frame_at(data@, old(self).pos()) {
                Some(c) => r == Some(Ok::<Chunk, Error>(c)) && final(self).pos() == next_sibling(c)
                    && !final(self).is_done(),
                None => r == Some(Err::<Chunk, Error>(Error::Truncated)) && final(self).is_done(),
            },
    {
        proof {
            use_type_invariant(&*self);
        }
        if self.done || self.pos >= self.end {
            return None;
        }
        if self.pos + 12 > data.len() as u128 {
            self.done = true;
            return Some(Err(Error::Truncated));
        }
        let c = read_header(data, self.pos as usize);
        match c {
            Ok(c) => {
                self.pos = c.offset as u128 + c.content_len as u128 + c.children_len as u128;
                Some(Ok(c))
            },
            Err(e) => {
                self.done = true;
                Some(Err(e))
            },
        }
    }
}

/// The bytes of a chunk: identifier, the two lengths, content, children.
pub open spec fn chunk_bytes(t: Tag, content: Seq<u8>, children: Seq<u8>) -> Seq<u8> {
    tag_bytes(t) + u32_bytes(content.len() as u32) + u32_bytes(children.len() as u32) + content
        + children
}

/// A chunk opened by a [`ChunkWriter`] and not closed yet: where its header starts, and where
/// its first child starts once one has been opened.
#[derive(Clone, Copy, Debug, PartialEq, Eq, Structural)]
pub struct PendingChunk {
    pub header: usize,
    pub children_start: Option<usize>,
}

/// The open chunks after a child chunk was opened at `at`: the innermost open chunk, if any,
/// now has children starting there unless it already had some.
pub open spec fn child_opened(fs: Seq<PendingChunk>, at: int) -> Seq<PendingChunk> {
    if fs.len() > 0 && fs.last().children_start is None {
        fs.update(
            fs.len() - 1,
            PendingChunk { header: fs.last().header, children_start: Some(at as usize) },
        )
    } else {
        fs
    }
}

/// Where the children of an open chunk start, given how much has been written.
pub open spec fn pending_children_start(f: PendingChunk, len: int) -> int {
    match f.children_start {
        Some(x) => x as int,
        None => len,
    }
}

/// Writes nested chunks into a byte buffer. Opening a chunk writes its identifier and two
/// zero lengths; closing it measures its content and children and patches the lengths in.
/// Chunks close in the reverse order of opening.
pub struct ChunkWriter {
    buf: Vec<u8>,
    stack: Vec<PendingChunk>,
}

impl ChunkWriter {
    /// Everything written so far.
    pub closed spec fn bytes(&self) -> Seq<u8> {
        self.buf@
    }

    /// The open chunks, outermost first.
    pub closed spec fn frames(&self) -> Seq<PendingChunk> {
        self.stack@
    }

    /// The open chunks lie in the buffer in order, each parent's children after its content.
    pub closed spec fn wf(&self) -> bool {
        &&& forall|k: int|
            0 <= k < self.stack@.len() ==> #[trigger] self.stack@[k].header + 12 <= self.buf@.len()
                && match self.stack@[k].children_start {
                Some(x) => self.stack@[k].header + 12 <= x <= self.buf@.len(),
                None => true,
            }
        &&& forall|k: int|
            0 <= k < self.stack@.len() - 1 ==> match #[trigger] self.stack@[k].children_start {
                Some(x) => x <= self.stack@[k + 1].header,
                None => false,
            }
    }

    /// A writer that goes on after `prefix`, with no chunk open.
    pub fn new(prefix: Vec<u8>) -> (r: ChunkWriter)
        ensures
            r.wf(),
            r.bytes() == prefix@,
            r.frames().len() == 0,
    {
        ChunkWriter { buf: prefix, stack: Vec::new() }
    }

    /// The bytes written, whether or not every chunk was closed.
    pub fn into_bytes(self) -> (r: Vec<u8>)
        ensures
            r@ == self.bytes(),
    {
        self.buf
    }

    /// Opens a chunk inside the innermost open one, or at the top level.
    pub fn open(&mut self, id: ChunkId)
        requires
            old(self).wf(),
            old(self).bytes().len() + 12 <= usize::MAX,
        ensures
            final(self).wf(),
            final(self).bytes() == old(self).bytes() + tag_bytes(id_tag(id)) + seq![0u8, 0u8, 0u8, 0u8, 0u8, 0u8, 0u8, 0u8],
            final(self).frames() == child_opened(old(self).frames(), old(self).bytes().len() as int).push(
                PendingChunk { header: old(self).bytes().len() as usize, children_start: None },
            ),
    {
        let at = self.buf.len();
        let n = self.stack.len();
        if n > 0 {
            let top = self.stack[n - 1];
            if top.children_start.is_none() {
                self.stack.set(n - 1, PendingChunk { header: top.header, children_start: Some(at) });
            }
        }
        let t = id.tag();
        self.buf.push(t.0);
        self.buf.push(t.1);
        self.buf.push(t.2);
        self.buf.push(t.3);
        let mut i: usize = 0;
        while i < 8
            invariant
                i <= 8,
                self.buf@ == old(self).buf@ + tag_bytes(t) + Seq::new(i as nat, |_j: int| 0u8),
                self.stack@ == child_opened(old(self).stack@, at as int),
                at == old(self).buf@.len(),
                at + 12 <= usize::MAX,
            decreases 8 - i,
        {
            self.buf.push(0u8);
            i = i + 1;
            assert(self.buf@ =~= old(self).buf@ + tag_bytes(t) + Seq::new(i as nat, |_j: int| 0u8));
        }
        self.stack.push(PendingChunk { header: at, children_start: None });
        assert(self.buf@ =~= old(self).buf@ + tag_bytes(id_tag(id)) + seq![0u8, 0u8, 0u8, 0u8, 0u8, 0u8, 0u8, 0u8]);
        assert(self.stack@ == child_opened(old(self).stack@, at as int).push(
            PendingChunk { header: at, children_start: None }));
    }

    /// Appends bytes to the content of the innermost open chunk, which has no children yet.
    pub fn write_content(&mut self, content: &[u8])
        requires
            old(self).wf(),
            old(self).frames().len() > 0,
            old(self).frames().last().children_start is None,
            old(self).bytes().len() + content@.len() <= usize::MAX,
        ensures
            final(self).wf(),
            final(self).bytes() == old(self).bytes() + content@,
            final(self).frames() == old(self).frames(),
    {
        let mut i: usize = 0;
        while i < content.len()
            invariant
                i <= content@.len(),
                self.buf@ == old(self).buf@ + content@.subrange(0, i as int),
                self.stack@ == old(self).stack@,
                old(self).stack@.len() > 0,
                old(self).stack@.last().children_start is None,
                old(self).buf@.len() + content@.len() <= usize::MAX,
                forall|k: int|
                    0 <= k < old(self).stack@.len() ==> #[trigger] old(self).stack@[k].header + 12 <= old(self).buf@.len()
                        && match old(self).stack@[k].children_start {
                        Some(x) => old(self).stack@[k].header + 12 <= x <= old(self).buf@.len(),
                        None => true,
                    },
                forall|k: int|
                    0 <= k < old(self).stack@.len() - 1 ==> match #[trigger] old(self).stack@[k].children_start {
                        Some(x) => x <= old(self).stack@[k + 1].header,
                        None => false,
                    },
            decreases content@.len() - i,
        {
            self.buf.push(content[i]);
            i = i + 1;
            assert(self.buf@ =~= old(self).buf@ + content@.subrange(0, i as int));
        }
        assert(content@.subrange(0, content@.len() as int) =~= content@);
    }

    /// Closes the innermost open chunk: its content is what was written before its first
    /// child, its children the rest. Both lengths are patched into its header. A length that
    /// does not fit in 32 bits is an error; the chunk is closed either way.
    pub fn close(&mut self) -> (r: Result<(), WriteError>)
        requires
            old(self).wf(),
            old(self).frames().len() > 0,
        ensures
            final(self).wf(),
            final(self).frames() == old(self).frames().drop_last(),
            ({
                let b = old(self).bytes();
                let h = old(self).frames().last().header as int;
                let cs = pending_children_start(old(self).frames().last(), b.len() as int);
                if cs - (h + 12) <= u32::MAX && b.len() - cs <= u32::MAX {
                    r is Ok && final(self).bytes() == b.subrange(0, h) + chunk_bytes(
                        tag_at(b, h),
                        b.subrange(h + 12, cs),
                        b.subrange(cs, b.len() as int),
                    )
                } else {
                    r == Err::<(), WriteError>(WriteError::Overflow) && final(self).bytes() == b
                }
            }),
    {
        let f = self.stack.pop().unwrap();
        let len = self.buf.len();
        let cs = match f.children_start {
            Some(x) => x,
            None => len,
        };
        let h = f.header;
        let content_len = cs - (h + HEADER_LEN);
        let children_len = len - cs;
        if content_len > 0xffff_ffff || children_len > 0xffff_ffff {
            return Err(WriteError::Overflow);
        }
        let a = u32_le_bytes(content_len as u32);
        let c = u32_le_bytes(children_len as u32);
        self.buf.set(h + 4, a[0]);
        self.buf.set(h + 5, a[1]);
        self.buf.set(h + 6, a[2]);
        self.buf.set(h + 7, a[3]);
        self.buf.set(h + 8, c[0]);
        self.buf.set(h + 9, c[1]);
        self.buf.set(h + 10, c[2]);
        self.buf.set(h + 11, c[3]);
        proof {
            let b = old(self).buf@;
            assert(b.subrange(h + 12, cs as int).len() == content_len);
            assert(self.buf@ =~= b.subrange(0, h as int) + chunk_bytes(
                tag_at(b, h as int),
                b.subrange(h + 12, cs as int),
                b.subrange(cs as int, b.len() as int),
            ));
        }
        Ok(())
    }

    /// Writes a whole chunk with the given content and no children inside the innermost open
    /// chunk.
    #[verifier::rlimit(60)]
    pub fn write_child(&mut self, id: ChunkId, content: &[u8]) -> (r: Result<(), WriteError>)
        requires
            old(self).wf(),
            old(self).bytes().len() + 12 + content@.len() <= usize::MAX,
        ensures
            final(self).wf(),
            final(self).frames() == child_opened(old(self).frames(), old(self).bytes().len() as int),
            content@.len() <= u32::MAX ==> r is Ok && final(self).bytes() == old(self).bytes()
                + chunk_bytes(id_tag(id), content@, Seq::empty()),
            content@.len() > u32::MAX ==> r == Err::<(), WriteError>(WriteError::Overflow),
    {
        let ghost b = self.bytes();
        self.open(id);
        self.write_content(content);
        let r = self.close();
        proof {
            let nb = b + tag_bytes(id_tag(id)) + seq![0u8, 0u8, 0u8, 0u8, 0u8, 0u8, 0u8, 0u8] + content@;
            let h = b.len() as int;
            assert(nb.subrange(0, h) =~= b);
            assert(nb.subrange(h + 12, nb.len() as int) =~= content@);
            assert(nb.subrange(nb.len() as int, nb.len() as int) =~= Seq::<u8>::empty());
            assert(tag_at(nb, h) == id_tag(id));
            assert(child_opened(old(self).frames(), h).push(
                PendingChunk { header: h as usize, children_start: None }).drop_last() =~= child_opened(old(self).frames(), h));
        }
        r
    }
}

} // verus!
