//! Decoding of a whole VOX file.
use crate::bytes::{le_u32_at, read_u32_at};
use crate::chunk::{
    children_start, content_of, frame_at, next_sibling, read_header, tag_at, Chunk, ChunkId, Tag,
};
use crate::data::{models_view, Model, ModelView, VoxData};
use crate::types::{default_colors, palette_from, Palette, vector_at, voxel_at, Color, Vector, Version, Voxel};
use vstd::prelude::*;

verus! {

/// Why a file could not be read.
#[derive(Clone, Copy, Debug, PartialEq, Eq, Structural)]
pub enum Error {
    /// The file does not start with `VOX `; the four bytes found are kept.
    InvalidMagic { got: Tag },
    /// The first chunk is not the container chunk.
    ExpectedMainChunk { got: Chunk },
    /// Two pack chunks under the container chunk.
    MultiplePackChunks { first: Chunk, second: Chunk },
    /// The numbers of size and voxel-list chunks disagree with the declared model count.
    InvalidNumberOfSizeAndXyziChunks { size_chunks: usize, xyzi_chunks: usize, num_models: usize },
    /// Two palette chunks under the container chunk.
    MultipleRgbaChunks { first: Chunk, second: Chunk },
    /// A material type byte outside the known set.
    InvalidMaterial(u8),
    /// The data ended, or a chunk's content ended, before a value was complete.
    Truncated,
}

} // verus!

verus! {

/// The magic bytes that open a file: `VOX `.
pub open spec fn magic_tag() -> Tag {
    Tag(86, 79, 88, 32)
}

/// The container chunk of a file and its version, as read from its first bytes.
pub open spec fn main_chunk_of(s: Seq<u8>) -> Result<(Chunk, u32), Error> {
    if s.len() < 4 {
        Err(Error::Truncated)
    } else if tag_at(s, 0) != magic_tag() {
        Err(Error::InvalidMagic { got: tag_at(s, 0) })
    } else if s.len() < 8 {
        Err(Error::Truncated)
    } else {
        match frame_at(s, 8) {
            None => Err(Error::Truncated),
            Some(c) => if c.id == ChunkId::Main {
                Ok((c, le_u32_at(s, 4) as u32))
            } else {
                Err(Error::ExpectedMainChunk { got: c })
            },
        }
    }
}

/// The chunks of interest found so far among the container's children.
pub struct Scan {
    pub pack: Option<Chunk>,
    pub sizes: Seq<Chunk>,
    pub xyzis: Seq<Chunk>,
    pub rgba: Option<Chunk>,
}

pub open spec fn empty_scan() -> Scan {
    Scan { pack: None, sizes: Seq::empty(), xyzis: Seq::empty(), rgba: None }
}

/// Files one child away: at most one pack and one palette chunk, any number of size and
/// voxel-list chunks, anything else skipped.
pub open spec fn scan_step(st: Scan, c: Chunk) -> Result<Scan, Error> {
    match c.id {
        ChunkId::Pack => match st.pack {
            Some(p) => Err(Error::MultiplePackChunks { first: p, second: c }),
            None => Ok(Scan { pack: Some(c), ..st }),
        },
        ChunkId::Size => Ok(Scan { sizes: st.sizes.push(c), ..st }),
        ChunkId::Xyzi => Ok(Scan { xyzis: st.xyzis.push(c), ..st }),
        ChunkId::Rgba => match st.rgba {
            Some(p) => Err(Error::MultipleRgbaChunks { first: p, second: c }),
            None => Ok(Scan { rgba: Some(c), ..st }),
        },
        _ => Ok(st),
    }
}

/// Walks the children that start at `pos`, up to `end`, from state `st`.
pub open spec fn scan_children(s: Seq<u8>, pos: int, end: int, st: Scan) -> Result<Scan, Error>
    decreases (if pos < end { end - pos } else { 0 }) via scan_children_decreases
{
    if pos >= end {
        Ok(st)
    } else {
        match frame_at(s, pos) {
            None => Err(Error::Truncated),
            Some(c) => match scan_step(st, c) {
                Err(e) => Err(e),
                Ok(st2) => scan_children(s, next_sibling(c), end, st2),
            },
        }
    }
}

#[via_fn]
proof fn scan_children_decreases(s: Seq<u8>, pos: int, end: int, st: Scan) {
    if pos < end {
        match frame_at(s, pos) {
            Some(c) => {
                assert(c.offset == pos + 12);
                assert(next_sibling(c) > pos);
            },
            None => {},
        }
    }
}

/// The extent that a size chunk holds.
pub open spec fn size_from(s: Seq<u8>, c: Chunk) -> Result<Vector, Error> {
    let t = content_of(s, c);
    if t.len() < 3 { Err(Error::Truncated) } else { Ok(vector_at(t, 0)) }
}

/// The voxels that a voxel-list chunk holds: a count, then four bytes per voxel.
pub open spec fn voxels_from(s: Seq<u8>, c: Chunk) -> Result<Seq<Voxel>, Error> {
    let t = content_of(s, c);
    if t.len() < 4 {
        Err(Error::Truncated)
    } else {
        let n = le_u32_at(t, 0);
        if t.len() < 4 + 4 * n {
            Err(Error::Truncated)
        } else {
            Ok(Seq::new(n as nat, |i: int| voxel_at(t, 4 + 4 * i)))
        }
    }
}

/// The first `k` models, each from its size chunk and its voxel-list chunk.
pub open spec fn models_from(s: Seq<u8>, sizes: Seq<Chunk>, xyzis: Seq<Chunk>, k: nat) -> Result<
    Seq<ModelView>,
    Error,
>
    decreases k,
{
    if k == 0 {
        Ok(Seq::empty())
    } else {
        match models_from(s, sizes, xyzis, (k - 1) as nat) {
            Err(e) => Err(e),
            Ok(ms) => match size_from(s, sizes[k - 1]) {
                Err(e) => Err(e),
                Ok(size) => match voxels_from(s, xyzis[k - 1]) {
                    Err(e) => Err(e),
                    Ok(vs) => Ok(ms.push(ModelView { size, voxels: vs })),
                },
            },
        }
    }
}

/// What a file decodes to: its version, its palette if it has a palette chunk, its models.
pub struct Decoded {
    pub version: u32,
    pub palette: Option<Seq<Color>>,
    pub models: Seq<ModelView>,
}

/// The palette that a palette chunk gives, or `None` without one.
pub open spec fn palette_of(s: Seq<u8>, rgba: Option<Chunk>) -> Result<Option<Seq<Color>>, Error> {
    match rgba {
        None => Ok(None),
        Some(c) => if content_of(s, c).len() < 1020 {
            Err(Error::Truncated)
        } else {
            Ok(Some(palette_from(content_of(s, c))))
        },
    }
}

/// The number of models that the pack chunk declares; one without a pack chunk.
pub open spec fn model_count_of(s: Seq<u8>, pack: Option<Chunk>) -> Result<u32, Error> {
    match pack {
        None => Ok(1),
        Some(c) => if content_of(s, c).len() < 4 {
            Err(Error::Truncated)
        } else {
            Ok(le_u32_at(content_of(s, c), 0) as u32)
        },
    }
}

/// What reading a whole file gives.
pub open spec fn decode(s: Seq<u8>) -> Result<Decoded, Error> {
    match main_chunk_of(s) {
        Err(e) => Err(e),
        Ok((main, version)) => match scan_children(
            s,
            children_start(main),
            next_sibling(main),
            empty_scan(),
        ) {
            Err(e) => Err(e),
            Ok(st) => match palette_of(s, st.rgba) {
                Err(e) => Err(e),
                Ok(palette) => match model_count_of(s, st.pack) {
                    Err(e) => Err(e),
                    Ok(n) => if n != st.sizes.len() || n != st.xyzis.len() {
                        Err(
                            Error::InvalidNumberOfSizeAndXyziChunks {
                                size_chunks: st.sizes.len() as usize,
                                xyzi_chunks: st.xyzis.len() as usize,
                                num_models: n as usize,
                            },
                        )
                    } else {
                        match models_from(s, st.sizes, st.xyzis, n as nat) {
                            Err(e) => Err(e),
                            Ok(models) => Ok(Decoded { version, palette, models }),
                        }
                    },
                },
            },
        },
    }
}

/// Reads the magic bytes, the version and the header of the container chunk.
pub fn read_main_chunk(data: &[u8]) -> (r: Result<(Chunk, Version), Error>)
    ensures
        match main_chunk_of(data@) {
            Ok((c, v)) => r == Ok::<(Chunk, Version), Error>((c, Version(v))),
            Err(e) => r == Err::<(Chunk, Version), Error>(e),
        },
{
    if data.len() < 4 {
        return Err(Error::Truncated);
    }
    let got = Tag(data[0], data[1], data[2], data[3]);
    if got != Tag(86, 79, 88, 32) {
        return Err(Error::InvalidMagic { got });
    }
    if data.len() < 8 {
        return Err(Error::Truncated);
    }
    let version = read_u32_at(data, 4);
    let c = match read_header(data, 8) {
        Ok(c) => c,
        Err(e) => return Err(e),
    };
    match c.id {
        ChunkId::Main => Ok((c, Version(version))),
        _ => Err(Error::ExpectedMainChunk { got: c }),
    }
}

/// Once a model fails to decode, decoding more models fails the same way.
proof fn lemma_models_from_err(s: Seq<u8>, sizes: Seq<Chunk>, xyzis: Seq<Chunk>, k: nat, n: nat)
    requires
        k <= n,
        models_from(s, sizes, xyzis, k) is Err,
    ensures
        models_from(s, sizes, xyzis, n) == models_from(s, sizes, xyzis, k),
    decreases n,
{
    if k < n {
        lemma_models_from_err(s, sizes, xyzis, k, (n - 1) as nat);
    }
}

/// Whether decoding gets as far as the models: the header, the walk over the container's
/// children, the palette and the model count all succeed, and the counts agree.
pub open spec fn reaches_models(s: Seq<u8>) -> bool {
    match main_chunk_of(s) {
        Err(_) => false,
        Ok((main, _)) => match scan_children(s, children_start(main), next_sibling(main), empty_scan()) {
            Err(_) => false,
            Ok(st) => palette_of(s, st.rgba) is Ok && match model_count_of(s, st.pack) {
                Ok(n) => n == st.sizes.len() && n == st.xyzis.len(),
                Err(_) => false,
            },
        },
    }
}

/// Reads the voxel list of a voxel-list chunk.
fn read_voxels(data: &[u8], c: Chunk) -> (r: Result<Vec<Voxel>, Error>)
    ensures
        match voxels_from(data@, c) {
            Ok(vs) => r is Ok && r->Ok_0@ == vs,
            Err(e) => r == Err::<Vec<Voxel>, Error>(e),
        },
{
    let mut reader = c.content(data);
    let ghost t = reader@;
    let n = match reader.read_u32() {
        Ok(n) => n,
        Err(e) => return Err(e),
    };
    let mut voxels: Vec<Voxel> = Vec::new();
    let mut j: u32 = 0;
    while j < n
        invariant
            t == content_of(data@, c),
            t.len() >= 4,
            n as int == le_u32_at(t, 0),
            j <= n,
            t.len() >= 4 + 4 * j,
            reader@ == t.skip(4 + 4 * j),
            voxels@ == Seq::new(j as nat, |i: int| voxel_at(t, 4 + 4 * i)),
        decreases n - j,
    {
        let ghost before = reader@;
        let v = match Voxel::read(&mut reader) {
            Ok(v) => v,
            Err(e) => {
                assert(t.len() < 4 + 4 * n);
                return Err(e);
            },
        };
        proof {
            assert(voxel_at(before, 0) == voxel_at(t, 4 + 4 * j));
            assert(before.skip(4) =~= t.skip(4 + 4 * (j + 1)));
        }
        voxels.push(v);
        j = j + 1;
        assert(voxels@ =~= Seq::new(j as nat, |i: int| voxel_at(t, 4 + 4 * i)));
    }
    Ok(voxels)
}

/// Reads a file, handing what it holds to `buffer`: the version, the palette if the file has
/// one, then each model in order.
pub fn read_vox_into(data: &[u8], buffer: &mut VoxData) -> (r: Result<(), Error>)
    ensures
        match decode(data@) {
            Ok(d) => r is Ok && final(buffer).version == Version(d.version) && final(buffer).palette.colors@
                == match d.palette {
                Some(p) => p,
                None => old(buffer).palette.colors@,
            } && models_view(final(buffer).models@) == models_view(old(buffer).models@) + d.models,
            Err(e) => r == Err::<(), Error>(e),
        },
        main_chunk_of(data@) is Err ==> *final(buffer) == *old(buffer),
        main_chunk_of(data@) is Ok ==> final(buffer).version == Version(main_chunk_of(data@)->Ok_0.1),
        !reaches_models(data@) ==> final(buffer).models@ == old(buffer).models@,
{
    let (main_chunk, version) = match read_main_chunk(data) {
        Ok(p) => p,
        Err(e) => return Err(e),
    };
    buffer.version = version;
    let ghost s = data@;
    assert(main_chunk_of(s) == Ok::<(Chunk, u32), Error>((main_chunk, version.0)));
    let mut pack_chunk: Option<Chunk> = None;
    let mut size_chunks: Vec<Chunk> = Vec::new();
    let mut xyzi_chunks: Vec<Chunk> = Vec::new();
    let mut rgba_chunk: Option<Chunk> = None;
    let mut children = main_chunk.children();
    let ghost whole = scan_children(s, children_start(main_chunk), next_sibling(main_chunk), empty_scan());
    loop
        invariant
            !children.is_done(),
            children.end() == next_sibling(main_chunk),
            whole == scan_children(s, children_start(main_chunk), next_sibling(main_chunk), empty_scan()),
            s == data@,
            main_chunk_of(s) == Ok::<(Chunk, u32), Error>((main_chunk, version.0)),
            whole == scan_children(
                s,
                children.pos(),
                children.end(),
                Scan { pack: pack_chunk, sizes: size_chunks@, xyzis: xyzi_chunks@, rgba: rgba_chunk },
            ),
            buffer.version == version,
            buffer.models@ == old(buffer).models@,
            buffer.palette == old(buffer).palette,
        ensures
            buffer.version == version,
            buffer.models@ == old(buffer).models@,
            buffer.palette == old(buffer).palette,
            s == data@,
            main_chunk_of(s) == Ok::<(Chunk, u32), Error>((main_chunk, version.0)),
            whole == Ok::<Scan, Error>(
                Scan { pack: pack_chunk, sizes: size_chunks@, xyzis: xyzi_chunks@, rgba: rgba_chunk },
            ),
        decreases (if children.pos() < children.end() { children.end() - children.pos() } else { 0 }),
    {
        let ghost pos = children.pos();
        let ghost st = Scan { pack: pack_chunk, sizes: size_chunks@, xyzis: xyzi_chunks@, rgba: rgba_chunk };
        let chunk = match children.next(data) {
            None => {
                assert(whole == Ok::<Scan, Error>(st));
                break;
            },
            Some(Err(e)) => {
                assert(whole == Err::<Scan, Error>(e));
                return Err(e);
            },
            Some(Ok(c)) => c,
        };
        assert(chunk.offset == pos + 12);
        match chunk.id {
            ChunkId::Pack => {
                if let Some(first) = pack_chunk {
                    assert(whole == Err::<Scan, Error>(Error::MultiplePackChunks { first, second: chunk }));
                    return Err(Error::MultiplePackChunks { first, second: chunk });
                }
                pack_chunk = Some(chunk);
            },
            ChunkId::Size => size_chunks.push(chunk),
            ChunkId::Xyzi => xyzi_chunks.push(chunk),
            ChunkId::Rgba => {
                if let Some(first) = rgba_chunk {
                    assert(whole == Err::<Scan, Error>(Error::MultipleRgbaChunks { first, second: chunk }));
                    return Err(Error::MultipleRgbaChunks { first, second: chunk });
                }
                rgba_chunk = Some(chunk);
            },
            _ => {},
        }
        assert(scan_step(st, chunk) == Ok::<Scan, Error>(
            Scan { pack: pack_chunk, sizes: size_chunks@, xyzis: xyzi_chunks@, rgba: rgba_chunk },
        ));
    }
    let ghost st = Scan { pack: pack_chunk, sizes: size_chunks@, xyzis: xyzi_chunks@, rgba: rgba_chunk };
    assert(whole == Ok::<Scan, Error>(st));
    // The palette goes first, so that a consumer has it before any voxel.
    if let Some(c) = rgba_chunk {
        let mut reader = c.content(data);
        match Palette::read(&mut reader) {
            Ok(p) => buffer.palette = p,
            Err(e) => return Err(e),
        }
    }
    let num_models: u32 = match pack_chunk {
        Some(c) => {
            let mut reader = c.content(data);
            match reader.read_u32() {
                Ok(n) => n,
                Err(e) => return Err(e),
            }
        },
        None => 1,
    };
    if num_models as usize != size_chunks.len() || num_models as usize != xyzi_chunks.len() {
        return Err(
            Error::InvalidNumberOfSizeAndXyziChunks {
                size_chunks: size_chunks.len(),
                xyzi_chunks: xyzi_chunks.len(),
                num_models: num_models as usize,
            },
        );
    }
    let ghost base = models_view(old(buffer).models@);
    let mut i: usize = 0;
    while i < size_chunks.len()
        invariant
            i <= size_chunks@.len(),
            size_chunks@.len() == xyzi_chunks@.len(),
            size_chunks@.len() == num_models,
            models_from(s, size_chunks@, xyzi_chunks@, i as nat) is Ok,
            models_view(buffer.models@) == base + models_from(s, size_chunks@, xyzi_chunks@, i as nat)->Ok_0,
            buffer.version == version,
            buffer.palette.colors@ == match palette_of(s, rgba_chunk)->Ok_0 {
                Some(p) => p,
                None => old(buffer).palette.colors@,
            },
            palette_of(s, rgba_chunk) is Ok,
            s == data@,
            base == models_view(old(buffer).models@),
            main_chunk_of(s) == Ok::<(Chunk, u32), Error>((main_chunk, version.0)),
            whole == Ok::<Scan, Error>(st),
            whole == scan_children(s, children_start(main_chunk), next_sibling(main_chunk), empty_scan()),
            st == (Scan { pack: pack_chunk, sizes: size_chunks@, xyzis: xyzi_chunks@, rgba: rgba_chunk }),
            model_count_of(s, pack_chunk) == Ok::<u32, Error>(num_models),
        decreases size_chunks@.len() - i,
    {
        let mut reader = size_chunks[i].content(data);
        let size = match Vector::read(&mut reader) {
            Ok(v) => v,
            Err(e) => {
                proof {
                    assert(models_from(s, size_chunks@, xyzi_chunks@, (i + 1) as nat) == Err::<Seq<ModelView>, Error>(e));
                    lemma_models_from_err(s, size_chunks@, xyzi_chunks@, (i + 1) as nat, num_models as nat);
                    assert(decode(s) == Err::<Decoded, Error>(e));
                }
                return Err(e);
            },
        };
        let voxels = match read_voxels(data, xyzi_chunks[i]) {
            Ok(v) => v,
            Err(e) => {
                proof {
                    assert(models_from(s, size_chunks@, xyzi_chunks@, (i + 1) as nat) == Err::<Seq<ModelView>, Error>(e));
                    lemma_models_from_err(s, size_chunks@, xyzi_chunks@, (i + 1) as nat, num_models as nat);
                    assert(decode(s) == Err::<Decoded, Error>(e));
                }
                return Err(e);
            },
        };
        let ghost prev = models_view(buffer.models@);
        let m = Model { size, voxels };
        buffer.models.push(m);
        i = i + 1;
        proof {
            assert(models_view(buffer.models@) =~= prev.push(m@));
        }
    }
    Ok(())
}

/// Reads a whole file into memory.
pub fn from_slice(slice: &[u8]) -> (r: Result<VoxData, Error>)
    ensures
        match decode(slice@) {
            Ok(d) => r is Ok && r->Ok_0.version == Version(d.version) && r->Ok_0.palette.colors@
                == match d.palette {
                Some(p) => p,
                None => default_colors(),
            } && models_view(r->Ok_0.models@) == d.models,
            Err(e) => r == Err::<VoxData, Error>(e),
        },
{
    let mut buffer = VoxData::default();
    match read_vox_into(slice, &mut buffer) {
        Ok(()) => {
            assert(models_view(Seq::<Model>::empty()) =~= Seq::<ModelView>::empty());
            Ok(buffer)
        },
        Err(e) => Err(e),
    }
}

/// Reads a whole file, handed over as its bytes.
pub fn from_reader(reader: Vec<u8>) -> (r: Result<VoxData, Error>)
    ensures
        match decode(reader@) {
            Ok(d) => r is Ok && r->Ok_0.version == Version(d.version) && r->Ok_0.palette.colors@
                == match d.palette {
                Some(p) => p,
                None => default_colors(),
            } && models_view(r->Ok_0.models@) == d.models,
            Err(e) => r == Err::<VoxData, Error>(e),
        },
{
    from_slice(reader.as_slice())
}

} // verus!
