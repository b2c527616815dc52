//! Encoding of a whole VOX file.
use crate::bytes::{push_u32, u32_bytes};
use crate::chunk::{
    child_opened, chunk_bytes, main_tag, pack_tag, rgba_tag, size_tag, tag_bytes, xyzi_tag, ChunkId,
    tag_at, ChunkWriter, PendingChunk, Tag,
};
use crate::data::{models_view, ModelView, VoxData};
use crate::reader::{magic_tag, Error as ReadError};
use crate::types::{DEFAULT_VERSION, default_colors, palette_bytes, vector_bytes, voxel_bytes, Color, Version, Voxel};
use vstd::prelude::*;

verus! {

/// Why a file could not be written.
#[derive(Clone, Copy, Debug, PartialEq, Eq, Structural)]
pub enum Error {
    /// A count or a length does not fit in its 32-bit field.
    Overflow,
    /// A file needs at least one model.
    NoModels,
    /// Reading failed while writing.
    Reader(ReadError),
}

} // verus!

verus! {

/// The content of a voxel-list chunk after its count: four bytes per voxel.
pub open spec fn voxels_bytes(vs: Seq<Voxel>) -> Seq<u8> {
    Seq::new(4 * vs.len(), |k: int| voxel_bytes(vs[k / 4])[k % 4])
}

/// The content of a voxel-list chunk.
pub open spec fn xyzi_content(vs: Seq<Voxel>) -> Seq<u8> {
    u32_bytes(vs.len() as u32) + voxels_bytes(vs)
}

/// The size and voxel-list chunks of the given models, in order, as (tag, content) pairs.
pub open spec fn model_children(ms: Seq<ModelView>) -> Seq<(Tag, Seq<u8>)>
    decreases ms.len(),
{
    if ms.len() == 0 {
        Seq::empty()
    } else {
        model_children(ms.drop_last()).push((size_tag(), vector_bytes(ms.last().size))).push(
            (xyzi_tag(), xyzi_content(ms.last().voxels)),
        )
    }
}

/// The pack chunk, present only for more than one model.
pub open spec fn pack_children(n: nat) -> Seq<(Tag, Seq<u8>)> {
    if n > 1 { seq![(pack_tag(), u32_bytes(n as u32))] } else { Seq::empty() }
}

/// The palette chunk, left out when the palette is the built-in one.
pub open spec fn palette_children(colors: Seq<Color>) -> Seq<(Tag, Seq<u8>)> {
    if colors == default_colors() { Seq::empty() } else { seq![(rgba_tag(), palette_bytes(colors))] }
}

/// The children of the container chunk: pack, then size and voxel-list per model, then
/// palette.
pub open spec fn child_list(ms: Seq<ModelView>, colors: Seq<Color>) -> Seq<(Tag, Seq<u8>)> {
    pack_children(ms.len()) + model_children(ms) + palette_children(colors)
}

/// A list of chunks without children, one after the other.
pub open spec fn flatten_chunks(cs: Seq<(Tag, Seq<u8>)>) -> Seq<u8>
    decreases cs.len(),
{
    if cs.len() == 0 {
        Seq::empty()
    } else {
        flatten_chunks(cs.drop_last()) + chunk_bytes(cs.last().0, cs.last().1, Seq::empty())
    }
}

/// The magic bytes and the version.
pub open spec fn file_header(version: u32) -> Seq<u8> {
    tag_bytes(magic_tag()) + u32_bytes(version)
}

/// A file whose container chunk holds the given childless chunks.
pub open spec fn container(version: u32, cs: Seq<(Tag, Seq<u8>)>) -> Seq<u8> {
    file_header(version) + chunk_bytes(main_tag(), Seq::empty(), flatten_chunks(cs))
}

/// The bytes of a whole file.
pub open spec fn encode(version: u32, ms: Seq<ModelView>, colors: Seq<Color>) -> Seq<u8> {
    container(version, child_list(ms, colors))
}

/// Whether every length of the file fits its field and the file fits in memory.
pub open spec fn encodable(ms: Seq<ModelView>, colors: Seq<Color>) -> bool {
    flatten_chunks(child_list(ms, colors)).len() <= u32::MAX && 20 + flatten_chunks(
        child_list(ms, colors),
    ).len() <= usize::MAX
}

/// Writes the magic bytes and the version.
pub fn write_file_header(out: &mut Vec<u8>, version: Version)
    ensures
        final(out)@ == old(out)@ + file_header(version.0),
{
    out.push(86);
    out.push(79);
    out.push(88);
    out.push(32);
    version.write(out);
    assert(out@ =~= old(out)@ + file_header(version.0));
}

/// A writer that has written the file header and opened the container chunk.
pub fn main_chunk_writer(version: Version) -> (r: ChunkWriter)
    ensures
        r.wf(),
        r.bytes() == file_header(version.0) + tag_bytes(main_tag()) + seq![0u8, 0u8, 0u8, 0u8, 0u8, 0u8, 0u8, 0u8],
        r.frames() == seq![PendingChunk { header: 8, children_start: None }],
{
    let mut header: Vec<u8> = Vec::new();
    write_file_header(&mut header, version);
    let mut w = ChunkWriter::new(header);
    w.open(ChunkId::Main);
    assert(child_opened(Seq::<PendingChunk>::empty(), 8).push(PendingChunk { header: 8, children_start: None })
        =~= seq![PendingChunk { header: 8, children_start: None }]);
    w
}

/// The bytes of two lists of chunks are the bytes of each, one after the other.
pub proof fn lemma_flatten_append(a: Seq<(Tag, Seq<u8>)>, b: Seq<(Tag, Seq<u8>)>)
    ensures
        flatten_chunks(a + b) == flatten_chunks(a) + flatten_chunks(b),
    decreases b.len(),
{
    if b.len() == 0 {
        assert(a + b =~= a);
        assert(flatten_chunks(b) =~= Seq::<u8>::empty());
        assert(flatten_chunks(a) + flatten_chunks(b) =~= flatten_chunks(a));
    } else {
        lemma_flatten_append(a, b.drop_last());
        assert((a + b).drop_last() =~= a + b.drop_last());
        assert((a + b).last() == b.last());
        assert(flatten_chunks(a + b) =~= flatten_chunks(a) + flatten_chunks(b));
    }
}

pub(crate) proof fn lemma_flatten_push(x: Seq<(Tag, Seq<u8>)>, c: (Tag, Seq<u8>))
    ensures
        flatten_chunks(x.push(c)) == flatten_chunks(x) + chunk_bytes(c.0, c.1, Seq::empty()),
        chunk_bytes(c.0, c.1, Seq::<u8>::empty()).len() == 12 + c.1.len(),
        flatten_chunks(x.push(c)).len() == flatten_chunks(x).len() + 12 + c.1.len(),
{
    assert(x.push(c).drop_last() =~= x);
}

pub(crate) proof fn lemma_model_children_take(ms: Seq<ModelView>, i: int)
    requires
        0 <= i < ms.len(),
    ensures
        model_children(ms.take(i + 1)) == model_children(ms.take(i)).push(
            (size_tag(), vector_bytes(ms[i].size)),
        ).push((xyzi_tag(), xyzi_content(ms[i].voxels))),
        flatten_chunks(model_children(ms.take(i + 1))).len() == flatten_chunks(model_children(ms.take(i))).len()
            + 31 + 4 * ms[i].voxels.len(),
{
    assert(ms.take(i + 1).drop_last() =~= ms.take(i));
    let x = model_children(ms.take(i));
    let y = x.push((size_tag(), vector_bytes(ms[i].size)));
    lemma_flatten_push(x, (size_tag(), vector_bytes(ms[i].size)));
    lemma_flatten_push(y, (xyzi_tag(), xyzi_content(ms[i].voxels)));
}

proof fn lemma_model_children_prefix(ms: Seq<ModelView>, i: int)
    requires
        0 <= i <= ms.len(),
    ensures
        flatten_chunks(model_children(ms.take(i))).len() <= flatten_chunks(model_children(ms)).len(),
    decreases ms.len(),
{
    if i == ms.len() {
        assert(ms.take(i) =~= ms);
    } else {
        lemma_model_children_prefix(ms.drop_last(), i);
        assert(ms.drop_last().take(i) =~= ms.take(i));
        lemma_model_children_take(ms, ms.len() - 1);
        assert(ms.take(ms.len() - 1) =~= ms.drop_last());
        assert(ms.take(ms.len() as int) =~= ms);
    }
}

/// The content of a voxel-list chunk for these voxels.
fn xyzi_bytes(voxels: &Vec<Voxel>) -> (r: Vec<u8>)
    requires
        voxels@.len() <= u32::MAX,
    ensures
        r@ == xyzi_content(voxels@),
{
    let mut c: Vec<u8> = Vec::new();
    push_u32(&mut c, voxels.len() as u32);
    let mut j: usize = 0;
    while j < voxels.len()
        invariant
            j <= voxels@.len(),
            c@ == u32_bytes(voxels@.len() as u32) + voxels_bytes(voxels@.take(j as int)),
        decreases voxels@.len() - j,
    {
        voxels[j].write(&mut c);
        proof {
            let vs = voxels@.take(j + 1);
            let ws = voxels@.take(j as int);
            assert forall|k: int| 0 <= k < 4 * (j + 1) implies #[trigger] voxels_bytes(vs)[k] == (
            voxels_bytes(ws) + voxel_bytes(voxels@[j as int]))[k] by {
                if k < 4 * j {
                    assert(k / 4 < j) by (nonlinear_arith) requires 0 <= k < 4 * j;
                } else {
                    assert(k / 4 == j) by (nonlinear_arith) requires 4 * j <= k < 4 * (j + 1);
                    assert(k % 4 == k - 4 * j) by (nonlinear_arith) requires 4 * j <= k < 4 * (j + 1);
                }
            }
            assert(voxels_bytes(vs) =~= voxels_bytes(ws) + voxel_bytes(voxels@[j as int]));
            assert(c@ =~= u32_bytes(voxels@.len() as u32) + voxels_bytes(vs));
        }
        j = j + 1;
    }
    assert(voxels@.take(voxels@.len() as int) =~= voxels@);
    c
}

/// The length of the container's children when `vox` is written, or `None` when it does not
/// fit in 32 bits.
fn children_len(vox: &VoxData) -> (r: Option<u32>)
    ensures
        ({
            let len = flatten_chunks(child_list(models_view(vox.models@), vox.palette.colors@)).len();
            &&& len <= u32::MAX ==> r == Some(len as u32)
            &&& len > u32::MAX ==> r is None
        }),
{
    let ghost ms = models_view(vox.models@);
    let ghost cs = vox.palette.colors@;
    let ghost pack = pack_children(ms.len());
    let n = vox.models.len();
    let mut total: u128 = if n > 1 { 16 } else { 0 };
    proof {
        if n > 1 {
            lemma_flatten_push(Seq::empty(), (pack_tag(), u32_bytes(n as u32)));
            assert(Seq::<(Tag, Seq<u8>)>::empty().push((pack_tag(), u32_bytes(n as u32))) =~= pack);
        }
        assert(flatten_chunks(Seq::<(Tag, Seq<u8>)>::empty()) =~= Seq::<u8>::empty());
        assert(ms.take(0) =~= Seq::<ModelView>::empty());
        lemma_flatten_append(pack, model_children(ms.take(0)));
    }
    let mut i: usize = 0;
    while i < n
        invariant
            n == vox.models@.len(),
            ms == models_view(vox.models@),
            pack == pack_children(ms.len()),
            cs == vox.palette.colors@,
            i <= n,
            total == flatten_chunks(pack).len() + flatten_chunks(model_children(ms.take(i as int))).len(),
            total <= 0x1_0000_0000,
        decreases n - i,
    {
        let nv = vox.models[i].voxels.len();
        proof {
            lemma_model_children_take(ms, i as int);
        }
        total = total + 31 + 4 * (nv as u128);
        if total > 0xffff_ffff {
            proof {
                lemma_model_children_prefix(ms, i + 1);
                lemma_flatten_append(pack, model_children(ms));
                lemma_flatten_append(pack + model_children(ms), palette_children(cs));
            }
            return None;
        }
        i = i + 1;
    }
    assert(ms.take(n as int) =~= ms);
    let is_default = vox.palette.is_default();
    if !is_default {
        total = total + 1032;
    }
    proof {
        lemma_flatten_append(pack, model_children(ms));
        lemma_flatten_append(pack + model_children(ms), palette_children(cs));
        if !is_default {
            lemma_flatten_push(Seq::empty(), (rgba_tag(), palette_bytes(cs)));
            assert(Seq::<(Tag, Seq<u8>)>::empty().push((rgba_tag(), palette_bytes(cs))) =~= palette_children(cs));
        } else {
            assert(flatten_chunks(palette_children(cs)) =~= Seq::<u8>::empty());
        }
    }
    if total > 0xffff_ffff {
        return None;
    }
    Some(total as u32)
}

/// Writes the size and voxel-list chunks of every model into the open container chunk.
fn write_models(w: &mut ChunkWriter, vox: &VoxData, Ghost(head): Ghost<Seq<u8>>, Ghost(pack): Ghost<Seq<(Tag, Seq<u8>)>>)
    requires
        old(w).wf(),
        head.len() == 20,
        old(w).bytes() == head + flatten_chunks(pack),
        old(w).frames().len() == 1,
        old(w).frames()[0].header == 8,
        old(w).frames()[0].children_start == Some(20usize) || (old(w).frames()[0].children_start is None && old(w).bytes().len() == 20),
        20 + flatten_chunks(pack + model_children(models_view(vox.models@))).len() <= usize::MAX,
        flatten_chunks(pack + model_children(models_view(vox.models@))).len() <= u32::MAX,
    ensures
        final(w).wf(),
        final(w).bytes() == head + flatten_chunks(pack + model_children(models_view(vox.models@))),
        final(w).frames().len() == 1,
        final(w).frames()[0].header == 8,
        final(w).frames()[0].children_start == Some(20usize) || (final(w).frames()[0].children_start is None && final(w).bytes().len() == 20),
{
    let ghost ms = models_view(vox.models@);
    let n = vox.models.len();
    proof {
        assert(ms.take(0) =~= Seq::<ModelView>::empty());
        assert(pack + model_children(ms.take(0)) =~= pack);
        lemma_flatten_append(pack, model_children(ms));
    }
    let mut i: usize = 0;
    while i < n
        invariant
            n == vox.models@.len(),
            ms == models_view(vox.models@),
            i <= n,
            w.wf(),
            head.len() == 20,
            w.bytes() == head + flatten_chunks(pack + model_children(ms.take(i as int))),
            w.frames().len() == 1,
            w.frames()[0].header == 8,
            w.frames()[0].children_start == Some(20usize) || (w.frames()[0].children_start is None && w.bytes().len() == 20),
            flatten_chunks(pack + model_children(ms)).len() == flatten_chunks(pack).len() + flatten_chunks(model_children(ms)).len(),
            20 + flatten_chunks(pack + model_children(ms)).len() <= usize::MAX,
            flatten_chunks(pack + model_children(ms)).len() <= u32::MAX,
        decreases n - i,
    {
        let m = &vox.models[i];
        let ghost before = pack + model_children(ms.take(i as int));
        let ghost sz = (size_tag(), vector_bytes(ms[i as int].size));
        let ghost xy = (xyzi_tag(), xyzi_content(ms[i as int].voxels));
        proof {
            lemma_model_children_take(ms, i as int);
            lemma_model_children_prefix(ms, i + 1);
            lemma_flatten_append(pack, model_children(ms.take(i + 1)));
            lemma_flatten_append(pack, model_children(ms.take(i as int)));
            lemma_flatten_push(before, sz);
            lemma_flatten_push(before.push(sz), xy);
            assert(before.push(sz).push(xy) =~= pack + model_children(ms.take(i + 1)));
            assert(ms[i as int] == m@);
        }
        let mut sc: Vec<u8> = Vec::new();
        m.size.write(&mut sc);
        let _ = w.write_child(ChunkId::Size, sc.as_slice());
        let xc = xyzi_bytes(&m.voxels);
        let _ = w.write_child(ChunkId::Xyzi, xc.as_slice());
        i = i + 1;
    }
    assert(ms.take(n as int) =~= ms);
}

/// Encodes a scene: the file header with the version this library writes (whatever version
/// the scene holds), then the container chunk with a pack chunk when there is more than one
/// model, a size and a voxel-list chunk per model, and a palette chunk when the palette is not
/// the built-in one.
pub fn to_vec(vox: &VoxData) -> (r: Result<Vec<u8>, Error>)
    ensures
        ({
            let ms = models_view(vox.models@);
            let cs = vox.palette.colors@;
            &&& ms.len() == 0 ==> r == Err::<Vec<u8>, Error>(Error::NoModels)
            &&& ms.len() > 0 && encodable(ms, cs) ==> r is Ok && r->Ok_0@ == encode(DEFAULT_VERSION, ms, cs)
            &&& ms.len() > 0 && !encodable(ms, cs) ==> r == Err::<Vec<u8>, Error>(Error::Overflow)
        }),
{
    let ghost ms = models_view(vox.models@);
    let ghost cs = vox.palette.colors@;
    let n = vox.models.len();
    if n == 0 {
        return Err(Error::NoModels);
    }
    let ghost list = child_list(ms, cs);
    let ghost pack = pack_children(ms.len());
    let total = match children_len(vox) {
        Some(t) => t,
        None => return Err(Error::Overflow),
    };
    if total as usize > usize::MAX - 20 {
        return Err(Error::Overflow);
    }
    proof {
        lemma_flatten_append(pack + model_children(ms), palette_children(cs));
    }
    let mut w = main_chunk_writer(Version::default());
    let ghost head = w.bytes();
    if n > 1 {
        let mut c: Vec<u8> = Vec::new();
        push_u32(&mut c, n as u32);
        let _ = w.write_child(ChunkId::Pack, c.as_slice());
        proof {
            lemma_flatten_push(Seq::empty(), (pack_tag(), u32_bytes(n as u32)));
            assert(Seq::<(Tag, Seq<u8>)>::empty().push((pack_tag(), u32_bytes(n as u32))) =~= pack);
            assert(flatten_chunks(Seq::<(Tag, Seq<u8>)>::empty()) =~= Seq::<u8>::empty());
        }
    } else {
        assert(flatten_chunks(pack) =~= Seq::<u8>::empty());
        assert(w.bytes() =~= head + flatten_chunks(pack));
    }
    write_models(&mut w, vox, Ghost(head), Ghost(pack));
    if !vox.palette.is_default() {
        let mut pc: Vec<u8> = Vec::new();
        vox.palette.write(&mut pc);
        let _ = w.write_child(ChunkId::Rgba, pc.as_slice());
        proof {
            lemma_flatten_push(Seq::empty(), (rgba_tag(), palette_bytes(cs)));
            assert(Seq::<(Tag, Seq<u8>)>::empty().push((rgba_tag(), palette_bytes(cs))) =~= palette_children(cs));
            assert(flatten_chunks(Seq::<(Tag, Seq<u8>)>::empty()) =~= Seq::<u8>::empty());
        }
    } else {
        assert(flatten_chunks(palette_children(cs)) =~= Seq::<u8>::empty());
    }
    assert(w.bytes() =~= head + flatten_chunks(list));
    let ghost b = w.bytes();
    let _ = w.close();
    proof {
        assert(b.subrange(0, 8) =~= file_header(DEFAULT_VERSION));
        assert(b.subrange(20, 20) =~= Seq::<u8>::empty());
        assert(b.subrange(20, b.len() as int) =~= flatten_chunks(list));
        assert(tag_at(b, 8) == main_tag());
        assert(w.bytes() =~= encode(DEFAULT_VERSION, ms, cs));
    }
    Ok(w.into_bytes())
}

} // verus!
