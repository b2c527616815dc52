//! What holds between encoding and decoding.
use crate::bytes::{le_u32_at, lemma_u32_bytes, u32_bytes};
use crate::chunk::{
    children_start, chunk_bytes, chunk_id_of, content_of, next_sibling, frame_at, main_tag, pack_tag, rgba_tag, size_tag,
    tag_at, tag_bytes, xyzi_tag, Chunk, ChunkId, Tag,
};
use crate::data::ModelView;
use crate::types::{
    color_at, color_bytes, default_color, default_colors, palette_bytes, palette_from, vector_at, vector_bytes,
    voxel_at, voxel_bytes, Color, Vector, Voxel,
};
use crate::reader::{
    decode, empty_scan, magic_tag, main_chunk_of, model_count_of, models_from, palette_of, scan_children, scan_step, size_from,
    voxels_from, Decoded, Error, Scan,
};
use crate::writer::{
    child_list, container, encodable, encode, flatten_chunks, lemma_flatten_append, lemma_flatten_push,
    model_children, pack_children, palette_children, voxels_bytes, xyzi_content,
};
use vstd::prelude::*;

verus! {

/// The headers of a list of childless chunks laid out one after the other from `p`.
pub open spec fn frames_from(p: int, cs: Seq<(Tag, Seq<u8>)>) -> Seq<Chunk>
    decreases cs.len(),
{
    if cs.len() == 0 {
        Seq::empty()
    } else {
        seq![
            Chunk {
                id: chunk_id_of(cs[0].0),
                offset: (p + 12) as usize,
                content_len: cs[0].1.len() as u32,
                children_len: 0,
            },
        ] + frames_from(p + 12 + cs[0].1.len(), cs.skip(1))
    }
}

/// Files the given headers one after the other, from state `st`.
pub open spec fn scan_frames(st: Scan, fs: Seq<Chunk>) -> Result<Scan, Error>
    decreases fs.len(),
{
    if fs.len() == 0 {
        Ok(st)
    } else {
        match scan_step(st, fs[0]) {
            Err(e) => Err(e),
            Ok(s2) => scan_frames(s2, fs.skip(1)),
        }
    }
}

/// Total length of a list of childless chunks: twelve header bytes plus the content, each.
pub open spec fn chunks_total(cs: Seq<(Tag, Seq<u8>)>) -> int
    decreases cs.len(),
{
    if cs.len() == 0 { 0 } else { chunks_total(cs.drop_last()) + 12 + cs.last().1.len() }
}

proof fn lemma_flatten_len(cs: Seq<(Tag, Seq<u8>)>)
    ensures
        flatten_chunks(cs).len() == chunks_total(cs),
    decreases cs.len(),
{
    if cs.len() > 0 {
        lemma_flatten_len(cs.drop_last());
        assert(cs.drop_last().push(cs.last()) =~= cs);
        lemma_flatten_push(cs.drop_last(), cs.last());
    }
}

proof fn lemma_flatten_front(cs: Seq<(Tag, Seq<u8>)>)
    requires
        cs.len() > 0,
    ensures
        flatten_chunks(cs) == chunk_bytes(cs[0].0, cs[0].1, Seq::empty()) + flatten_chunks(cs.skip(1)),
{
    lemma_flatten_append(seq![cs[0]], cs.skip(1));
    assert(seq![cs[0]] + cs.skip(1) =~= cs);
    lemma_flatten_push(Seq::empty(), cs[0]);
    assert(Seq::<(Tag, Seq<u8>)>::empty().push(cs[0]) =~= seq![cs[0]]);
    assert(flatten_chunks(Seq::<(Tag, Seq<u8>)>::empty()) =~= Seq::<u8>::empty());
    assert(Seq::<u8>::empty() + chunk_bytes(cs[0].0, cs[0].1, Seq::empty()) =~= chunk_bytes(cs[0].0, cs[0].1, Seq::empty()));
}

proof fn lemma_le_at(e: Seq<u8>, at: int, n: u32)
    requires
        0 <= at,
        at + 4 <= e.len(),
        e.subrange(at, at + 4) == u32_bytes(n),
    ensures
        le_u32_at(e, at) == n,
{
    lemma_u32_bytes(n);
    let b = u32_bytes(n);
    assert(e[at] == b[0]);
    assert(e[at + 1] == b[1]);
    assert(e[at + 2] == b[2]);
    assert(e[at + 3] == b[3]);
}

/// Walking the children region over a list of childless chunks visits exactly their headers,
/// and each header's content reader yields that chunk's content.
#[verifier::rlimit(100)]
proof fn lemma_scan_layout(e: Seq<u8>, p: int, cs: Seq<(Tag, Seq<u8>)>, st: Scan)
    requires
        0 <= p,
        p + flatten_chunks(cs).len() <= e.len(),
        e.len() <= usize::MAX,
        flatten_chunks(cs).len() <= u32::MAX,
        e.subrange(p, p + flatten_chunks(cs).len()) == flatten_chunks(cs),
    ensures
        scan_children(e, p, p + flatten_chunks(cs).len(), st) == scan_frames(st, frames_from(p, cs)),
        frames_from(p, cs).len() == cs.len(),
        forall|k: int|
            0 <= k < cs.len() ==> (#[trigger] frames_from(p, cs)[k]).id == chunk_id_of(cs[k].0)
                && content_of(e, frames_from(p, cs)[k]) == cs[k].1,
    decreases cs.len(),
{
    if cs.len() == 0 {
        assert(flatten_chunks(cs) =~= Seq::<u8>::empty());
    } else {
        lemma_flatten_front(cs);
        let x = cs[0];
        let rest = cs.skip(1);
        let n = x.1.len();
        let q = p + 12 + n;
        let cb = chunk_bytes(x.0, x.1, Seq::empty());
        let flat = flatten_chunks(cs);
        assert(cb.len() == 12 + n);
        assert(flat.len() == cb.len() + flatten_chunks(rest).len());
        assert(e.subrange(p, p + 4) =~= tag_bytes(x.0)) by {
            assert forall|i: int| 0 <= i < 4 implies #[trigger] e.subrange(p, p + 4)[i] == tag_bytes(x.0)[i] by {
                assert(e[p + i] == flat[i]);
                assert(flat[i] == cb[i]);
            }
        }
        assert(e.subrange(p + 4, p + 8) =~= u32_bytes(n as u32)) by {
            assert forall|i: int| 0 <= i < 4 implies #[trigger] e.subrange(p + 4, p + 8)[i] == u32_bytes(n as u32)[i] by {
                assert(e[p + 4 + i] == flat[4 + i]);
                assert(flat[4 + i] == cb[4 + i]);
            }
        }
        assert(e.subrange(p + 8, p + 12) =~= u32_bytes(0)) by {
            assert forall|i: int| 0 <= i < 4 implies #[trigger] e.subrange(p + 8, p + 12)[i] == u32_bytes(0)[i] by {
                assert(e[p + 8 + i] == flat[8 + i]);
                assert(flat[8 + i] == cb[8 + i]);
            }
        }
        lemma_le_at(e, p + 4, n as u32);
        lemma_le_at(e, p + 8, 0);
        assert(tag_at(e, p) == x.0) by {
            assert(e[p] == tag_bytes(x.0)[0]);
            assert(e[p + 1] == tag_bytes(x.0)[1]);
            assert(e[p + 2] == tag_bytes(x.0)[2]);
            assert(e[p + 3] == tag_bytes(x.0)[3]);
        }
        let f0 = Chunk { id: chunk_id_of(x.0), offset: (p + 12) as usize, content_len: n as u32, children_len: 0 };
        assert(frame_at(e, p) == Some(f0));
        assert(content_of(e, f0) =~= x.1) by {
            assert forall|i: int| 0 <= i < n implies #[trigger] content_of(e, f0)[i] == x.1[i] by {
                assert(e[p + 12 + i] == flat[12 + i]);
                assert(flat[12 + i] == cb[12 + i]);
            }
        }
        assert(e.subrange(q, q + flatten_chunks(rest).len()) =~= flatten_chunks(rest)) by {
            assert forall|i: int| 0 <= i < flatten_chunks(rest).len() implies #[trigger] e.subrange(q, q + flatten_chunks(rest).len())[i]
                == flatten_chunks(rest)[i] by {
                assert(e[q + i] == flat[12 + n + i]);
            }
        }
        let fs = frames_from(p, cs);
        assert(fs == seq![f0] + frames_from(q, rest));
        assert(fs[0] == f0);
        assert(fs.skip(1) =~= frames_from(q, rest));
        match scan_step(st, f0) {
            Err(_) => {
                lemma_scan_layout(e, q, rest, st);
            },
            Ok(s2) => {
                lemma_scan_layout(e, q, rest, s2);
            },
        }
        assert forall|k: int| 0 <= k < cs.len() implies (#[trigger] fs[k]).id == chunk_id_of(cs[k].0)
            && content_of(e, fs[k]) == cs[k].1 by {
            if k > 0 {
                assert(fs[k] == frames_from(q, rest)[k - 1]);
                assert(rest[k - 1] == cs[k]);
            }
        }
    }
}

proof fn lemma_scan_frames_append(st: Scan, f1: Seq<Chunk>, f2: Seq<Chunk>)
    ensures
        scan_frames(st, f1 + f2) == match scan_frames(st, f1) {
            Ok(s1) => scan_frames(s1, f2),
            Err(e) => Err(e),
        },
    decreases f1.len(),
{
    if f1.len() == 0 {
        assert(f1 + f2 =~= f2);
    } else {
        assert((f1 + f2)[0] == f1[0]);
        assert((f1 + f2).skip(1) =~= f1.skip(1) + f2);
        match scan_step(st, f1[0]) {
            Ok(s2) => lemma_scan_frames_append(s2, f1.skip(1), f2),
            Err(_) => {},
        }
    }
}

/// Size and voxel-list headers in turn are filed in order.
proof fn lemma_scan_model_frames(st: Scan, fs: Seq<Chunk>, m: nat)
    requires
        fs.len() == 2 * m,
        forall|i: int| 0 <= i < m ==> (#[trigger] fs[2 * i]).id == ChunkId::Size && fs[2 * i + 1].id == ChunkId::Xyzi,
    ensures
        scan_frames(st, fs) == Ok::<Scan, Error>(
            Scan {
                pack: st.pack,
                sizes: st.sizes + Seq::new(m, |i: int| fs[2 * i]),
                xyzis: st.xyzis + Seq::new(m, |i: int| fs[2 * i + 1]),
                rgba: st.rgba,
            },
        ),
    decreases m,
{
    if m == 0 {
        assert(st.sizes + Seq::new(m, |i: int| fs[2 * i]) =~= st.sizes);
        assert(st.xyzis + Seq::new(m, |i: int| fs[2 * i + 1]) =~= st.xyzis);
    } else {
        assert(fs[2 * 0int] == fs[0]);
        assert(fs[2 * 0int + 1] == fs[1]);
        let s1 = Scan { sizes: st.sizes.push(fs[0]), ..st };
        let s2 = Scan { xyzis: st.xyzis.push(fs[1]), ..s1 };
        let rest = fs.skip(2);
        assert(fs.skip(1).skip(1) =~= rest);
        assert(fs.skip(1)[0] == fs[1]);
        assert(scan_step(st, fs[0]) == Ok::<Scan, Error>(s1));
        assert(scan_step(s1, fs[1]) == Ok::<Scan, Error>(s2));
        assert(scan_frames(st, fs) == scan_frames(s1, fs.skip(1)));
        assert(scan_frames(s1, fs.skip(1)) == scan_frames(s2, rest));
        assert forall|i: int| 0 <= i < m - 1 implies (#[trigger] rest[2 * i]).id == ChunkId::Size && rest[2 * i + 1].id == ChunkId::Xyzi by {
            assert(rest[2 * i] == fs[2 * (i + 1)]);
            assert(rest[2 * i + 1] == fs[2 * (i + 1) + 1]);
        }
        lemma_scan_model_frames(s2, rest, (m - 1) as nat);
        assert(s2.sizes + Seq::new((m - 1) as nat, |i: int| rest[2 * i]) =~= st.sizes + Seq::new(m, |i: int| fs[2 * i]));
        assert(s2.xyzis + Seq::new((m - 1) as nat, |i: int| rest[2 * i + 1]) =~= st.xyzis + Seq::new(m, |i: int| fs[2 * i + 1]));
    }
}

proof fn lemma_model_children_index(ms: Seq<ModelView>)
    ensures
        model_children(ms).len() == 2 * ms.len(),
        forall|i: int|
            0 <= i < ms.len() ==> #[trigger] model_children(ms)[2 * i] == (size_tag(), vector_bytes(ms[i].size)),
        forall|i: int|
            0 <= i < ms.len() ==> #[trigger] model_children(ms)[2 * i + 1] == (xyzi_tag(), xyzi_content(ms[i].voxels)),
    decreases ms.len(),
{
    if ms.len() > 0 {
        lemma_model_children_index(ms.drop_last());
    }
}

proof fn lemma_content_bound(cs: Seq<(Tag, Seq<u8>)>, k: int)
    requires
        0 <= k < cs.len(),
    ensures
        12 + cs[k].1.len() <= chunks_total(cs),
    decreases cs.len(),
{
    lemma_flatten_len(cs.drop_last());
    if k < cs.len() - 1 {
        lemma_content_bound(cs.drop_last(), k);
        assert(cs.drop_last()[k] == cs[k]);
    }
}

proof fn lemma_i8_byte(x: i8)
    ensures
        (x as u8) as i8 == x,
{
    assert((x as u8) as i8 == x) by (bit_vector);
}

proof fn lemma_size_round_trip(v: Vector)
    ensures
        vector_at(vector_bytes(v), 0) == v,
{
    lemma_i8_byte(v.x);
    lemma_i8_byte(v.y);
    lemma_i8_byte(v.z);
}

proof fn lemma_voxels_round_trip(vs: Seq<Voxel>)
    requires
        4 + 4 * vs.len() <= u32::MAX,
    ensures
        ({
            let t = xyzi_content(vs);
            &&& t.len() == 4 + 4 * vs.len()
            &&& le_u32_at(t, 0) == vs.len()
            &&& Seq::new(vs.len(), |i: int| voxel_at(t, 4 + 4 * i)) == vs
        }),
{
    let t = xyzi_content(vs);
    lemma_u32_bytes(vs.len() as u32);
    assert(t.subrange(0, 4) =~= u32_bytes(vs.len() as u32));
    lemma_le_at(t, 0, vs.len() as u32);
    assert forall|i: int| 0 <= i < vs.len() implies #[trigger] voxel_at(t, 4 + 4 * i) == vs[i] by {
        assert forall|j: int| 0 <= j < 4 implies t[4 + 4 * i + j] == voxel_bytes(vs[i])[j] by {
            assert((4 * i + j) / 4 == i) by (nonlinear_arith) requires 0 <= j < 4;
            assert((4 * i + j) % 4 == j) by (nonlinear_arith) requires 0 <= j < 4;
            assert(t[4 + 4 * i + j] == voxels_bytes(vs)[4 * i + j]);
        }
        assert(t[4 + 4 * i] == voxel_bytes(vs[i])[0]);
        assert(t[4 + 4 * i + 1] == voxel_bytes(vs[i])[1]);
        assert(t[4 + 4 * i + 2] == voxel_bytes(vs[i])[2]);
        assert(t[4 + 4 * i + 3] == voxel_bytes(vs[i])[3]);
        lemma_i8_byte(vs[i].point.x);
        lemma_i8_byte(vs[i].point.y);
        lemma_i8_byte(vs[i].point.z);
    }
    assert(Seq::new(vs.len(), |i: int| voxel_at(t, 4 + 4 * i)) =~= vs);
}

proof fn lemma_palette_round_trip(cs: Seq<Color>)
    requires
        cs.len() == 256,
    ensures
        palette_from(palette_bytes(cs)) == cs.update(0, default_color(0)),
        palette_bytes(cs).len() == 1020,
{
    let pb = palette_bytes(cs);
    assert forall|i: int| 1 <= i < 256 implies #[trigger] color_at(pb, 4 * (i - 1)) == cs[i] by {
        assert forall|j: int| 0 <= j < 4 implies pb[4 * (i - 1) + j] == color_bytes(cs[i])[j] by {
            assert((4 * (i - 1) + j) / 4 + 1 == i) by (nonlinear_arith) requires 0 <= j < 4;
            assert((4 * (i - 1) + j) % 4 == j) by (nonlinear_arith) requires 0 <= j < 4;
        }
        assert(pb[4 * (i - 1)] == color_bytes(cs[i])[0]);
        assert(pb[4 * (i - 1) + 1] == color_bytes(cs[i])[1]);
        assert(pb[4 * (i - 1) + 2] == color_bytes(cs[i])[2]);
        assert(pb[4 * (i - 1) + 3] == color_bytes(cs[i])[3]);
    }
    assert(palette_from(pb) =~= cs.update(0, default_color(0)));
}

proof fn lemma_chunks_total_min(cs: Seq<(Tag, Seq<u8>)>)
    ensures
        chunks_total(cs) >= 12 * cs.len(),
    decreases cs.len(),
{
    if cs.len() > 0 {
        lemma_chunks_total_min(cs.drop_last());
    }
}

/// The file header and the container chunk's header of a file built from a list of chunks.
#[verifier::rlimit(100)]
proof fn lemma_container_header(version: u32, cs: Seq<(Tag, Seq<u8>)>)
    requires
        flatten_chunks(cs).len() <= u32::MAX,
    ensures
        ({
            let e = container(version, cs);
            let flat = flatten_chunks(cs);
            &&& e.len() == 20 + flat.len()
            &&& e.subrange(20, 20 + flat.len() as int) == flat
            &&& main_chunk_of(e) == Ok::<(Chunk, u32), Error>(
                (Chunk { id: ChunkId::Main, offset: 20, content_len: 0, children_len: flat.len() as u32 }, version),
            )
        }),
{
    let e = container(version, cs);
    let flat = flatten_chunks(cs);
    let l = flat.len() as u32;
    assert(e.subrange(20, 20 + flat.len() as int) =~= flat);
    assert(e.subrange(4, 8) =~= u32_bytes(version));
    assert(e.subrange(12, 16) =~= u32_bytes(0));
    assert(e.subrange(16, 20) =~= u32_bytes(l));
    lemma_le_at(e, 4, version);
    lemma_le_at(e, 12, 0);
    lemma_le_at(e, 16, l);
    assert(tag_at(e, 0) == magic_tag());
    assert(tag_at(e, 8) == main_tag());
}

/// The file header and the container chunk's header of an encoded scene.
proof fn lemma_encode_header(version: u32, ms: Seq<ModelView>, cs: Seq<Color>)
    requires
        encodable(ms, cs),
    ensures
        ({
            let e = encode(version, ms, cs);
            let flat = flatten_chunks(child_list(ms, cs));
            &&& e.len() == 20 + flat.len()
            &&& e.subrange(20, 20 + flat.len() as int) == flat
            &&& main_chunk_of(e) == Ok::<(Chunk, u32), Error>(
                (Chunk { id: ChunkId::Main, offset: 20, content_len: 0, children_len: flat.len() as u32 }, version),
            )
        }),
{
    lemma_container_header(version, child_list(ms, cs));
}

/// Decoding the models from the headers of their size and voxel-list chunks.
proof fn lemma_models_decode(e: Seq<u8>, sizes: Seq<Chunk>, xyzis: Seq<Chunk>, ms: Seq<ModelView>, k: nat)
    requires
        k <= ms.len(),
        sizes.len() == ms.len(),
        xyzis.len() == ms.len(),
        forall|i: int| 0 <= i < ms.len() ==> content_of(e, #[trigger] sizes[i]) == vector_bytes(ms[i].size),
        forall|i: int| 0 <= i < ms.len() ==> content_of(e, #[trigger] xyzis[i]) == xyzi_content(ms[i].voxels)
            && 4 + 4 * ms[i].voxels.len() <= u32::MAX,
    ensures
        models_from(e, sizes, xyzis, k) == Ok::<Seq<ModelView>, Error>(ms.take(k as int)),
    decreases k,
{
    if k == 0 {
        assert(ms.take(0) =~= Seq::<ModelView>::empty());
    } else {
        lemma_models_decode(e, sizes, xyzis, ms, (k - 1) as nat);
        let i = k - 1;
        let m = ms[i];
        lemma_size_round_trip(m.size);
        lemma_voxels_round_trip(m.voxels);
        assert(content_of(e, sizes[i]) == vector_bytes(m.size));
        assert(content_of(e, xyzis[i]) == xyzi_content(m.voxels));
        assert(size_from(e, sizes[i]) == Ok::<Vector, Error>(m.size));
        assert(voxels_from(e, xyzis[i]) == Ok::<Seq<Voxel>, Error>(m.voxels));
        assert(ms.take(i).push(ModelView { size: m.size, voxels: m.voxels }) =~= ms.take(k as int));
    }
}

/// Walking the children of an encoded scene files the pack chunk, the size and voxel-list
/// chunks of each model in order, and the palette chunk.
#[verifier::rlimit(100)]
proof fn lemma_scan_encoded(version: u32, ms: Seq<ModelView>, cs: Seq<Color>) -> (st: Scan)
    requires
        ms.len() >= 1,
        encodable(ms, cs),
    ensures
        ({
            let e = encode(version, ms, cs);
            let flat = flatten_chunks(child_list(ms, cs));
            &&& scan_children(e, 20, 20 + flat.len() as int, empty_scan()) == Ok::<Scan, Error>(st)
            &&& st.sizes.len() == ms.len()
            &&& st.xyzis.len() == ms.len()
            &&& forall|i: int| 0 <= i < ms.len() ==> content_of(e, #[trigger] st.sizes[i]) == vector_bytes(ms[i].size)
            &&& forall|i: int| 0 <= i < ms.len() ==> content_of(e, #[trigger] st.xyzis[i]) == xyzi_content(ms[i].voxels)
                && 4 + 4 * ms[i].voxels.len() <= u32::MAX
            &&& (ms.len() > 1) == (st.pack is Some)
            &&& st.pack is Some ==> content_of(e, st.pack->Some_0) == u32_bytes(ms.len() as u32)
            &&& ms.len() <= u32::MAX
            &&& (cs != default_colors()) == (st.rgba is Some)
            &&& st.rgba is Some ==> content_of(e, st.rgba->Some_0) == palette_bytes(cs)
        }),
{
    let e = encode(version, ms, cs);
    let list = child_list(ms, cs);
    let flat = flatten_chunks(list);
    let n = ms.len();
    let pack = pack_children(n);
    let mc = model_children(ms);
    let pal = palette_children(cs);
    let pk = pack.len() as int;
    lemma_encode_header(version, ms, cs);
    lemma_scan_layout(e, 20, list, empty_scan());
    lemma_model_children_index(ms);
    lemma_flatten_len(list);
    lemma_chunks_total_min(list);
    let fs = frames_from(20, list);
    assert(list == pack + mc + pal);
    assert(list.len() == pk + 2 * n + pal.len());
    let fa = fs.subrange(0, pk);
    let fb = fs.subrange(pk, pk + 2 * n);
    let fc = fs.subrange(pk + 2 * n, fs.len() as int);
    assert(fs =~= fa + fb + fc);
    // the pack chunk
    let sa = if n > 1 { Scan { pack: Some(fs[0]), ..empty_scan() } } else { empty_scan() };
    if n > 1 {
        assert(pk == 1);
        assert(list[0] == (pack_tag(), u32_bytes(n as u32)));
        assert(fs[0].id == chunk_id_of(list[0].0));
        assert(fa.len() == 1);
        assert(fa[0] == fs[0]);
        assert(fa[0].id == ChunkId::Pack);
        assert(fa.skip(1) =~= Seq::<Chunk>::empty());
        assert(scan_step(empty_scan(), fa[0]) == Ok::<Scan, Error>(sa));
        assert(scan_frames(sa, fa.skip(1)) == Ok::<Scan, Error>(sa));
    } else {
        assert(pk == 0);
        assert(fa =~= Seq::<Chunk>::empty());
    }
    assert(scan_frames(empty_scan(), fa) == Ok::<Scan, Error>(sa));
    // the models
    assert forall|i: int| 0 <= i < n implies (#[trigger] fb[2 * i]).id == ChunkId::Size && fb[2 * i + 1].id == ChunkId::Xyzi by {
        assert(list[pk + 2 * i] == mc[2 * i]);
        assert(list[pk + 2 * i + 1] == mc[2 * i + 1]);
    }
    lemma_scan_model_frames(sa, fb, n);
    let sb = Scan {
        pack: sa.pack,
        sizes: Seq::new(n, |i: int| fb[2 * i]),
        xyzis: Seq::new(n, |i: int| fb[2 * i + 1]),
        rgba: None,
    };
    assert(sa.sizes + Seq::new(n, |i: int| fb[2 * i]) =~= sb.sizes);
    assert(sa.xyzis + Seq::new(n, |i: int| fb[2 * i + 1]) =~= sb.xyzis);
    // the palette
    let last = fs.len() - 1;
    let sc = if cs != default_colors() { Scan { rgba: Some(fs[last]), ..sb } } else { sb };
    if cs != default_colors() {
        assert(pal.len() == 1);
        assert(last == pk + 2 * n);
        assert(list[last] == pal[0]);
        assert(list[last] == (rgba_tag(), palette_bytes(cs)));
        assert(fs[last].id == chunk_id_of(list[last].0));
        assert(fc.len() == 1);
        assert(fc[0] == fs[last]);
        assert(fc[0].id == ChunkId::Rgba);
        assert(fc.skip(1) =~= Seq::<Chunk>::empty());
        assert(scan_step(sb, fc[0]) == Ok::<Scan, Error>(sc));
        assert(scan_frames(sc, fc.skip(1)) == Ok::<Scan, Error>(sc));
    } else {
        assert(pal.len() == 0);
        assert(fc =~= Seq::<Chunk>::empty());
    }
    assert(scan_frames(sb, fc) == Ok::<Scan, Error>(sc));
    lemma_scan_frames_append(empty_scan(), fa, fb);
    lemma_scan_frames_append(empty_scan(), fa + fb, fc);
    assert forall|i: int| 0 <= i < n implies content_of(e, #[trigger] sc.sizes[i]) == vector_bytes(ms[i].size) by {
        assert(list[pk + 2 * i] == mc[2 * i]);
    }
    assert forall|i: int| 0 <= i < n implies content_of(e, #[trigger] sc.xyzis[i]) == xyzi_content(ms[i].voxels)
        && 4 + 4 * ms[i].voxels.len() <= u32::MAX by {
        assert(list[pk + 2 * i + 1] == mc[2 * i + 1]);
        lemma_content_bound(list, pk + 2 * i + 1);
    }
    sc
}

/// Decoding, given what each of its steps gives.
proof fn lemma_decode_steps(
    e: Seq<u8>,
    main: Chunk,
    version: u32,
    st: Scan,
    pal: Option<Seq<Color>>,
    n: u32,
    ms: Seq<ModelView>,
)
    requires
        main_chunk_of(e) == Ok::<(Chunk, u32), Error>((main, version)),
        scan_children(e, children_start(main), next_sibling(main), empty_scan()) == Ok::<Scan, Error>(st),
        palette_of(e, st.rgba) == Ok::<Option<Seq<Color>>, Error>(pal),
        model_count_of(e, st.pack) == Ok::<u32, Error>(n),
        st.sizes.len() == n,
        st.xyzis.len() == n,
        models_from(e, st.sizes, st.xyzis, n as nat) == Ok::<Seq<ModelView>, Error>(ms),
    ensures
        decode(e) == Ok::<Decoded, Error>(Decoded { version, palette: pal, models: ms }),
{
}

/// What each step of decoding gives on an encoded scene.
#[verifier::rlimit(100)]
proof fn lemma_encoded_steps(version: u32, ms: Seq<ModelView>, cs: Seq<Color>) -> (st: Scan)
    requires
        ms.len() >= 1,
        cs.len() == 256,
        encodable(ms, cs),
    ensures
        ({
            let e = encode(version, ms, cs);
            let main = Chunk {
                id: ChunkId::Main,
                offset: 20,
                content_len: 0,
                children_len: flatten_chunks(child_list(ms, cs)).len() as u32,
            };
            let pal = if cs == default_colors() { None } else { Some(cs.update(0, default_color(0))) };
            &&& main_chunk_of(e) == Ok::<(Chunk, u32), Error>((main, version))
            &&& scan_children(e, children_start(main), next_sibling(main), empty_scan()) == Ok::<Scan, Error>(st)
            &&& palette_of(e, st.rgba) == Ok::<Option<Seq<Color>>, Error>(pal)
            &&& model_count_of(e, st.pack) == Ok::<u32, Error>(ms.len() as u32)
            &&& st.sizes.len() == ms.len() as u32
            &&& st.xyzis.len() == ms.len() as u32
            &&& models_from(e, st.sizes, st.xyzis, (ms.len() as u32) as nat) == Ok::<Seq<ModelView>, Error>(ms)
        }),
{
    let e = encode(version, ms, cs);
    let n = ms.len();
    lemma_encode_header(version, ms, cs);
    let st = lemma_scan_encoded(version, ms, cs);
    lemma_palette_round_trip(cs);
    if let Some(p) = st.pack {
        lemma_u32_bytes(n as u32);
        assert(content_of(e, p).subrange(0, 4) =~= u32_bytes(n as u32));
        lemma_le_at(content_of(e, p), 0, n as u32);
    }
    lemma_models_decode(e, st.sizes, st.xyzis, ms, n);
    assert(ms.take(n as int) =~= ms);
    st
}

/// Encoding a scene that has at least one model and whose lengths all fit, then decoding the
/// bytes, gives back its version and its models in order. The palette comes back too, but for
/// index 0, which is never written and is read as the built-in color; a palette equal to the
/// built-in one is not written at all, and decoding then finds no palette.
pub proof fn lemma_round_trip(version: u32, ms: Seq<ModelView>, cs: Seq<Color>)
    requires
        ms.len() >= 1,
        cs.len() == 256,
        encodable(ms, cs),
    ensures
        decode(encode(version, ms, cs)) == Ok::<Decoded, Error>(
            Decoded {
                version,
                palette: if cs == default_colors() { None } else { Some(cs.update(0, default_color(0))) },
                models: ms,
            },
        ),
{
    let st = lemma_encoded_steps(version, ms, cs);
    let main = Chunk {
        id: ChunkId::Main,
        offset: 20,
        content_len: 0,
        children_len: flatten_chunks(child_list(ms, cs)).len() as u32,
    };
    let pal = if cs == default_colors() { None } else { Some(cs.update(0, default_color(0))) };
    lemma_decode_steps(encode(version, ms, cs), main, version, st, pal, ms.len() as u32, ms);
}

/// Without a palette of its own a scene is written without a palette chunk: the file holds a
/// pack chunk when there is more than one model, then the size and voxel-list chunks, and
/// nothing else; every child of the container is a pack, size or voxel-list chunk.
pub proof fn lemma_default_palette_omitted(version: u32, ms: Seq<ModelView>)
    ensures
        encode(version, ms, default_colors()) == container(version, pack_children(ms.len()) + model_children(ms)),
        forall|k: int|
            0 <= k < child_list(ms, default_colors()).len() ==> #[trigger] child_list(ms, default_colors())[k].0
                != rgba_tag(),
{
    lemma_model_children_index(ms);
    let list = child_list(ms, default_colors());
    let pack = pack_children(ms.len());
    let mc = model_children(ms);
    assert(list =~= pack + mc);
    assert(palette_children(default_colors()) =~= Seq::<(Tag, Seq<u8>)>::empty());
    assert forall|k: int| 0 <= k < list.len() implies #[trigger] list[k].0 != rgba_tag() by {
        if k >= pack.len() {
            let j = k - pack.len();
            let i = j / 2;
            assert(list[k] == mc[j]);
            if j == 2 * i {
                assert(mc[2 * i].0 == size_tag());
            } else {
                assert(j == 2 * i + 1);
                assert(mc[2 * i + 1].0 == xyzi_tag());
            }
        } else {
            assert(list[k] == pack[k]);
        }
    }
}

/// The container chunk of an encoded scene declares as its children's length the sum, over
/// its children, of each one's twelve header bytes, content and children.
pub proof fn lemma_main_children_len(version: u32, ms: Seq<ModelView>, cs: Seq<Color>)
    requires
        encodable(ms, cs),
    ensures
        main_chunk_of(encode(version, ms, cs)) == Ok::<(Chunk, u32), Error>(
            (
                Chunk {
                    id: ChunkId::Main,
                    offset: 20,
                    content_len: 0,
                    children_len: chunks_total(child_list(ms, cs)) as u32,
                },
                version,
            ),
        ),
        chunks_total(child_list(ms, cs)) <= u32::MAX,
{
    lemma_encode_header(version, ms, cs);
    lemma_flatten_len(child_list(ms, cs));
}

/// Whether the walk over the container's children keeps chunks of this kind.
pub open spec fn is_filed(id: ChunkId) -> bool {
    id == ChunkId::Pack || id == ChunkId::Size || id == ChunkId::Xyzi || id == ChunkId::Rgba
}

/// Two scan states that filed chunks of the same kinds with the same contents, each in its own
/// source.
pub open spec fn scans_match(e1: Seq<u8>, s1: Scan, e2: Seq<u8>, s2: Scan) -> bool {
    &&& (s1.pack is Some) == (s2.pack is Some)
    &&& s1.pack is Some ==> content_of(e1, s1.pack->Some_0) == content_of(e2, s2.pack->Some_0)
    &&& (s1.rgba is Some) == (s2.rgba is Some)
    &&& s1.rgba is Some ==> content_of(e1, s1.rgba->Some_0) == content_of(e2, s2.rgba->Some_0)
    &&& s1.sizes.len() == s2.sizes.len()
    &&& forall|i: int| 0 <= i < s1.sizes.len() ==> content_of(e1, #[trigger] s1.sizes[i]) == content_of(e2, s2.sizes[i])
    &&& s1.xyzis.len() == s2.xyzis.len()
    &&& forall|i: int| 0 <= i < s1.xyzis.len() ==> content_of(e1, #[trigger] s1.xyzis[i]) == content_of(e2, s2.xyzis[i])
}

proof fn lemma_scan_frames_match(e1: Seq<u8>, st1: Scan, fs1: Seq<Chunk>, e2: Seq<u8>, st2: Scan, fs2: Seq<Chunk>)
    requires
        scans_match(e1, st1, e2, st2),
        fs1.len() == fs2.len(),
        forall|k: int| 0 <= k < fs1.len() ==> (#[trigger] fs1[k]).id == fs2[k].id && content_of(e1, fs1[k]) == content_of(e2, fs2[k]),
    ensures
        (scan_frames(st1, fs1) is Ok) == (scan_frames(st2, fs2) is Ok),
        scan_frames(st1, fs1) is Ok ==> scans_match(e1, scan_frames(st1, fs1)->Ok_0, e2, scan_frames(st2, fs2)->Ok_0),
    decreases fs1.len(),
{
    if fs1.len() > 0 {
        let c1 = fs1[0];
        let c2 = fs2[0];
        assert(c1.id == c2.id);
        match (scan_step(st1, c1), scan_step(st2, c2)) {
            (Ok(n1), Ok(n2)) => {
                assert(scans_match(e1, n1, e2, n2)) by {
                    if c1.id == ChunkId::Size {
                        assert forall|i: int| 0 <= i < n1.sizes.len() implies content_of(e1, #[trigger] n1.sizes[i]) == content_of(e2, n2.sizes[i]) by {
                            if i < st1.sizes.len() {
                                assert(n1.sizes[i] == st1.sizes[i]);
                                assert(n2.sizes[i] == st2.sizes[i]);
                            }
                        }
                    }
                    if c1.id == ChunkId::Xyzi {
                        assert forall|i: int| 0 <= i < n1.xyzis.len() implies content_of(e1, #[trigger] n1.xyzis[i]) == content_of(e2, n2.xyzis[i]) by {
                            if i < st1.xyzis.len() {
                                assert(n1.xyzis[i] == st1.xyzis[i]);
                                assert(n2.xyzis[i] == st2.xyzis[i]);
                            }
                        }
                    }
                }
                assert forall|k: int| 0 <= k < fs1.skip(1).len() implies (#[trigger] fs1.skip(1)[k]).id == fs2.skip(1)[k].id
                    && content_of(e1, fs1.skip(1)[k]) == content_of(e2, fs2.skip(1)[k]) by {
                    assert(fs1.skip(1)[k] == fs1[k + 1]);
                    assert(fs2.skip(1)[k] == fs2[k + 1]);
                }
                lemma_scan_frames_match(e1, n1, fs1.skip(1), e2, n2, fs2.skip(1));
            },
            _ => {},
        }
    }
}

proof fn lemma_models_match(e1: Seq<u8>, s1: Scan, e2: Seq<u8>, s2: Scan, k: nat)
    requires
        scans_match(e1, s1, e2, s2),
        k <= s1.sizes.len(),
        k <= s1.xyzis.len(),
    ensures
        models_from(e1, s1.sizes, s1.xyzis, k) == models_from(e2, s2.sizes, s2.xyzis, k),
    decreases k,
{
    if k > 0 {
        lemma_models_match(e1, s1, e2, s2, (k - 1) as nat);
        assert(content_of(e1, s1.sizes[k - 1]) == content_of(e2, s2.sizes[k - 1]));
        assert(content_of(e1, s1.xyzis[k - 1]) == content_of(e2, s2.xyzis[k - 1]));
    }
}

/// Decoding two files whose container walks filed matching chunks gives the same result.
proof fn lemma_decode_match(e1: Seq<u8>, m1: Chunk, e2: Seq<u8>, m2: Chunk, version: u32, s1: Scan, s2: Scan)
    requires
        main_chunk_of(e1) == Ok::<(Chunk, u32), Error>((m1, version)),
        main_chunk_of(e2) == Ok::<(Chunk, u32), Error>((m2, version)),
        scan_children(e1, children_start(m1), next_sibling(m1), empty_scan()) == Ok::<Scan, Error>(s1),
        scan_children(e2, children_start(m2), next_sibling(m2), empty_scan()) == Ok::<Scan, Error>(s2),
        scans_match(e1, s1, e2, s2),
    ensures
        decode(e1) == decode(e2),
{
    assert(palette_of(e1, s1.rgba) == palette_of(e2, s2.rgba));
    assert(model_count_of(e1, s1.pack) == model_count_of(e2, s2.pack));
    match model_count_of(e1, s1.pack) {
        Ok(n) => {
            if n == s1.sizes.len() && n == s1.xyzis.len() {
                lemma_models_match(e1, s1, e2, s2, n as nat);
            }
        },
        Err(_) => {},
    }
}

/// Filing an extra chunk of an unknown kind among matching chunks keeps the walks matching.
proof fn lemma_scan_skip(e1: Seq<u8>, fs1: Seq<Chunk>, e2: Seq<u8>, fs2: Seq<Chunk>, j: int)
    requires
        0 <= j <= fs1.len(),
        fs2.len() == fs1.len() + 1,
        !is_filed(fs2[j].id),
        forall|k: int| 0 <= k < j ==> (#[trigger] fs1[k]).id == fs2[k].id && content_of(e1, fs1[k]) == content_of(e2, fs2[k]),
        forall|k: int| j <= k < fs1.len() ==> (#[trigger] fs1[k]).id == fs2[k + 1].id && content_of(e1, fs1[k]) == content_of(e2, fs2[k + 1]),
    ensures
        (scan_frames(empty_scan(), fs1) is Ok) == (scan_frames(empty_scan(), fs2) is Ok),
        scan_frames(empty_scan(), fs1) is Ok ==> scans_match(e1, scan_frames(empty_scan(), fs1)->Ok_0, e2, scan_frames(empty_scan(), fs2)->Ok_0),
{
    let p1 = fs1.subrange(0, j);
    let q1 = fs1.subrange(j, fs1.len() as int);
    let p2 = fs2.subrange(0, j);
    let mid = fs2.subrange(j, j + 1);
    let q2 = fs2.subrange(j + 1, fs2.len() as int);
    assert(fs1 =~= p1 + q1);
    assert(fs2 =~= p2 + mid + q2);
    assert forall|k: int| 0 <= k < p1.len() implies (#[trigger] p1[k]).id == p2[k].id
        && content_of(e1, p1[k]) == content_of(e2, p2[k]) by {
        assert(p1[k] == fs1[k]);
        assert(p2[k] == fs2[k]);
    }
    assert forall|k: int| 0 <= k < q1.len() implies (#[trigger] q1[k]).id == q2[k].id
        && content_of(e1, q1[k]) == content_of(e2, q2[k]) by {
        assert(q1[k] == fs1[j + k]);
        assert(q2[k] == fs2[j + k + 1]);
    }
    lemma_scan_frames_append(empty_scan(), p1, q1);
    lemma_scan_frames_append(empty_scan(), p2 + mid, q2);
    lemma_scan_frames_append(empty_scan(), p2, mid);
    lemma_scan_frames_match(e1, empty_scan(), p1, e2, empty_scan(), p2);
    assert(mid[0] == fs2[j]);
    assert(mid.skip(1) =~= Seq::<Chunk>::empty());
    match (scan_frames(empty_scan(), p1), scan_frames(empty_scan(), p2)) {
        (Ok(r1), Ok(r2)) => {
            assert(mid.len() == 1);
            assert(scan_step(r2, mid[0]) == Ok::<Scan, Error>(r2));
            assert(scan_frames(r2, mid.skip(1)) == Ok::<Scan, Error>(r2));
            assert(scan_frames(r2, mid) == Ok::<Scan, Error>(r2));
            lemma_scan_frames_match(e1, r1, q1, e2, r2, q2);
        },
        _ => {},
    }
}

proof fn lemma_frames_correspond(
    e1: Seq<u8>,
    fs1: Seq<Chunk>,
    e2: Seq<u8>,
    fs2: Seq<Chunk>,
    a: Seq<(Tag, Seq<u8>)>,
    u: (Tag, Seq<u8>),
    b: Seq<(Tag, Seq<u8>)>,
)
    requires
        !is_filed(chunk_id_of(u.0)),
        fs1.len() == (a + b).len(),
        fs2.len() == (a.push(u) + b).len(),
        forall|k: int| 0 <= k < fs1.len() ==> (#[trigger] fs1[k]).id == chunk_id_of((a + b)[k].0) && content_of(e1, fs1[k]) == (a + b)[k].1,
        forall|k: int| 0 <= k < fs2.len() ==> (#[trigger] fs2[k]).id == chunk_id_of((a.push(u) + b)[k].0) && content_of(e2, fs2[k]) == (a.push(u) + b)[k].1,
    ensures
        fs2.len() == fs1.len() + 1,
        !is_filed(fs2[a.len() as int].id),
        forall|k: int| 0 <= k < a.len() ==> (#[trigger] fs1[k]).id == fs2[k].id && content_of(e1, fs1[k]) == content_of(e2, fs2[k]),
        forall|k: int| a.len() <= k < fs1.len() ==> (#[trigger] fs1[k]).id == fs2[k + 1].id && content_of(e1, fs1[k]) == content_of(e2, fs2[k + 1]),
{
    let l1 = a + b;
    let l2 = a.push(u) + b;
    let j = a.len() as int;
    assert(l2[j] == u);
    assert(fs2[j].id == chunk_id_of(l2[j].0));
    assert forall|k: int| 0 <= k < j implies (#[trigger] fs1[k]).id == fs2[k].id && content_of(e1, fs1[k]) == content_of(e2, fs2[k]) by {
        assert(l1[k] == a[k]);
        assert(l2[k] == a[k]);
    }
    assert forall|k: int| j <= k < fs1.len() implies (#[trigger] fs1[k]).id == fs2[k + 1].id && content_of(e1, fs1[k]) == content_of(e2, fs2[k + 1]) by {
        assert(l1[k] == b[k - j]);
        assert(l2[k + 1] == b[k - j]);
    }
}

/// A chunk of a kind that the walk over the container's children does not file (anything but
/// a pack, size, voxel-list or palette chunk), put anywhere among those children, changes
/// nothing: the file decodes as it does without it.
#[verifier::rlimit(100)]
pub proof fn lemma_unknown_chunk_skipped(
    version: u32,
    a: Seq<(Tag, Seq<u8>)>,
    u: (Tag, Seq<u8>),
    b: Seq<(Tag, Seq<u8>)>,
)
    requires
        !is_filed(chunk_id_of(u.0)),
        flatten_chunks(a.push(u) + b).len() <= u32::MAX,
        20 + flatten_chunks(a.push(u) + b).len() <= usize::MAX,
    ensures
        (decode(container(version, a.push(u) + b)) is Ok) == (decode(container(version, a + b)) is Ok),
        decode(container(version, a + b)) is Ok ==> decode(container(version, a.push(u) + b)) == decode(
            container(version, a + b),
        ),
{
    let l1 = a + b;
    let l2 = a.push(u) + b;
    let e1 = container(version, l1);
    let e2 = container(version, l2);
    lemma_flatten_append(a, b);
    lemma_flatten_append(a.push(u), b);
    lemma_flatten_push(a, u);
    lemma_container_header(version, l1);
    lemma_container_header(version, l2);
    let f1 = flatten_chunks(l1);
    let f2 = flatten_chunks(l2);
    lemma_scan_layout(e1, 20, l1, empty_scan());
    lemma_scan_layout(e2, 20, l2, empty_scan());
    let fs1 = frames_from(20, l1);
    let fs2 = frames_from(20, l2);
    lemma_frames_correspond(e1, fs1, e2, fs2, a, u, b);
    lemma_scan_skip(e1, fs1, e2, fs2, a.len() as int);
    let m1 = Chunk { id: ChunkId::Main, offset: 20, content_len: 0, children_len: f1.len() as u32 };
    let m2 = Chunk { id: ChunkId::Main, offset: 20, content_len: 0, children_len: f2.len() as u32 };
    assert(children_start(m1) == 20 && next_sibling(m1) == 20 + f1.len());
    assert(children_start(m2) == 20 && next_sibling(m2) == 20 + f2.len());
    if scan_frames(empty_scan(), fs1) is Ok {
        lemma_decode_match(e1, m1, e2, m2, version, scan_frames(empty_scan(), fs1)->Ok_0, scan_frames(empty_scan(), fs2)->Ok_0);
    }
}

proof fn lemma_frames_len(p: int, cs: Seq<(Tag, Seq<u8>)>)
    ensures
        frames_from(p, cs).len() == cs.len(),
    decreases cs.len(),
{
    if cs.len() > 0 {
        lemma_frames_len(p + 12 + cs[0].1.len(), cs.skip(1));
    }
}

/// Each header of a list of childless chunks laid out from `p`: where it starts is `p` plus the
/// length of the chunks before it.
proof fn lemma_frame_at_index(p: int, cs: Seq<(Tag, Seq<u8>)>, k: int)
    requires
        0 <= p,
        0 <= k < cs.len(),
        p + flatten_chunks(cs).len() <= usize::MAX,
    ensures
        frames_from(p, cs)[k] == (Chunk {
            id: chunk_id_of(cs[k].0),
            offset: (p + 12 + flatten_chunks(cs.take(k)).len()) as usize,
            content_len: cs[k].1.len() as u32,
            children_len: 0,
        }),
    decreases cs.len(),
{
    lemma_flatten_front(cs);
    let rest = cs.skip(1);
    let q = p + 12 + cs[0].1.len();
    let f0 = Chunk {
        id: chunk_id_of(cs[0].0),
        offset: (p + 12) as usize,
        content_len: cs[0].1.len() as u32,
        children_len: 0,
    };
    assert(frames_from(p, cs) == seq![f0] + frames_from(q, rest));
    if k == 0 {
        assert(cs.take(0) =~= Seq::<(Tag, Seq<u8>)>::empty());
        assert(flatten_chunks(cs.take(0)) =~= Seq::<u8>::empty());
    } else {
        lemma_frame_at_index(q, rest, k - 1);
        lemma_frames_len(q, rest);
        assert(frames_from(p, cs)[k] == frames_from(q, rest)[k - 1]);
        lemma_flatten_front(cs.take(k));
        assert(cs.take(k).skip(1) =~= rest.take(k - 1));
        assert(cs.take(k)[0] == cs[0]);
        assert(rest[k - 1] == cs[k]);
    }
}

/// Headers of kinds other than pack and palette leave those two slots as they were.
proof fn lemma_scan_no_singletons(st: Scan, fs: Seq<Chunk>)
    requires
        forall|k: int| 0 <= k < fs.len() ==> (#[trigger] fs[k]).id != ChunkId::Pack && fs[k].id != ChunkId::Rgba,
    ensures
        scan_frames(st, fs) is Ok,
        scan_frames(st, fs)->Ok_0.pack == st.pack,
        scan_frames(st, fs)->Ok_0.rgba == st.rgba,
    decreases fs.len(),
{
    if fs.len() > 0 {
        assert(fs[0].id != ChunkId::Pack && fs[0].id != ChunkId::Rgba);
        let n = scan_step(st, fs[0])->Ok_0;
        assert forall|k: int| 0 <= k < fs.skip(1).len() implies (#[trigger] fs.skip(1)[k]).id != ChunkId::Pack
            && fs.skip(1)[k].id != ChunkId::Rgba by {
            assert(fs.skip(1)[k] == fs[k + 1]);
        }
        lemma_scan_no_singletons(n, fs.skip(1));
    }
}

/// Walking headers that hold a second pack or palette chunk, with nothing of either kind
/// before it but the first, stops with the duplicate error naming both.
proof fn lemma_scan_duplicate(fs: Seq<Chunk>, i: int, j: int)
    requires
        0 <= i < j < fs.len(),
        fs[i].id == ChunkId::Pack || fs[i].id == ChunkId::Rgba,
        fs[j].id == fs[i].id,
        forall|k: int| 0 <= k < j && k != i ==> (#[trigger] fs[k]).id != ChunkId::Pack && fs[k].id != ChunkId::Rgba,
    ensures
        scan_frames(empty_scan(), fs) == if fs[i].id == ChunkId::Pack {
            Err::<Scan, Error>(Error::MultiplePackChunks { first: fs[i], second: fs[j] })
        } else {
            Err::<Scan, Error>(Error::MultipleRgbaChunks { first: fs[i], second: fs[j] })
        },
{
    let f1 = fs.subrange(0, i);
    let f2 = fs.subrange(i, i + 1);
    let f3 = fs.subrange(i + 1, j);
    let f4 = fs.subrange(j, j + 1);
    let f5 = fs.subrange(j + 1, fs.len() as int);
    assert(fs =~= f1 + f2 + f3 + f4 + f5);
    assert forall|k: int| 0 <= k < f1.len() implies (#[trigger] f1[k]).id != ChunkId::Pack && f1[k].id != ChunkId::Rgba by {
        assert(f1[k] == fs[k]);
    }
    assert forall|k: int| 0 <= k < f3.len() implies (#[trigger] f3[k]).id != ChunkId::Pack && f3[k].id != ChunkId::Rgba by {
        assert(f3[k] == fs[i + 1 + k]);
    }
    lemma_scan_no_singletons(empty_scan(), f1);
    let s1 = scan_frames(empty_scan(), f1)->Ok_0;
    let s2 = if fs[i].id == ChunkId::Pack { Scan { pack: Some(fs[i]), ..s1 } } else { Scan { rgba: Some(fs[i]), ..s1 } };
    assert(f2[0] == fs[i]);
    assert(f2.skip(1) =~= Seq::<Chunk>::empty());
    assert(scan_step(s1, f2[0]) == Ok::<Scan, Error>(s2));
    assert(scan_frames(s2, f2.skip(1)) == Ok::<Scan, Error>(s2));
    assert(scan_frames(s1, f2) == Ok::<Scan, Error>(s2));
    lemma_scan_no_singletons(s2, f3);
    let s3 = scan_frames(s2, f3)->Ok_0;
    assert(f4[0] == fs[j]);
    let err = if fs[i].id == ChunkId::Pack {
        Error::MultiplePackChunks { first: fs[i], second: fs[j] }
    } else {
        Error::MultipleRgbaChunks { first: fs[i], second: fs[j] }
    };
    assert(scan_step(s3, f4[0]) == Err::<Scan, Error>(err));
    assert(scan_frames(s3, f4) == Err::<Scan, Error>(err));
    lemma_scan_frames_append(empty_scan(), f1, f2);
    lemma_scan_frames_append(empty_scan(), f1 + f2, f3);
    lemma_scan_frames_append(empty_scan(), f1 + f2 + f3, f4);
    lemma_scan_frames_append(empty_scan(), f1 + f2 + f3 + f4, f5);
}

/// A second pack chunk, or a second palette chunk, among the container's children fails
/// decoding with the matching duplicate error, which names the first chunk of that kind and
/// the second, where they stand. The chunks before the second are of other kinds, so that no
/// earlier error comes first.
#[verifier::rlimit(100)]
pub proof fn lemma_duplicate_singleton(
    version: u32,
    a: Seq<(Tag, Seq<u8>)>,
    x: (Tag, Seq<u8>),
    b: Seq<(Tag, Seq<u8>)>,
    y: (Tag, Seq<u8>),
    c: Seq<(Tag, Seq<u8>)>,
)
    requires
        chunk_id_of(x.0) == ChunkId::Pack || chunk_id_of(x.0) == ChunkId::Rgba,
        chunk_id_of(y.0) == chunk_id_of(x.0),
        forall|k: int| 0 <= k < a.len() ==> chunk_id_of(#[trigger] a[k].0) != ChunkId::Pack && chunk_id_of(a[k].0) != ChunkId::Rgba,
        forall|k: int| 0 <= k < b.len() ==> chunk_id_of(#[trigger] b[k].0) != ChunkId::Pack && chunk_id_of(b[k].0) != ChunkId::Rgba,
        flatten_chunks(a.push(x) + b.push(y) + c).len() <= u32::MAX,
        20 + flatten_chunks(a.push(x) + b.push(y) + c).len() <= usize::MAX,
    ensures
        ({
            let first = Chunk {
                id: chunk_id_of(x.0),
                offset: (32 + flatten_chunks(a).len()) as usize,
                content_len: x.1.len() as u32,
                children_len: 0,
            };
            let second = Chunk {
                id: chunk_id_of(y.0),
                offset: (32 + flatten_chunks(a.push(x) + b).len()) as usize,
                content_len: y.1.len() as u32,
                children_len: 0,
            };
            decode(container(version, a.push(x) + b.push(y) + c)) == if chunk_id_of(x.0) == ChunkId::Pack {
                Err::<Decoded, Error>(Error::MultiplePackChunks { first, second })
            } else {
                Err::<Decoded, Error>(Error::MultipleRgbaChunks { first, second })
            }
        }),
{
    let l = a.push(x) + b.push(y) + c;
    let e = container(version, l);
    let i = a.len() as int;
    let j = i + 1 + b.len();
    lemma_container_header(version, l);
    lemma_scan_layout(e, 20, l, empty_scan());
    let fs = frames_from(20, l);
    assert(l[i] == x);
    assert(l[j] == y);
    assert(l.take(i) =~= a);
    assert(l.take(j) =~= a.push(x) + b);
    lemma_frame_at_index(20, l, i);
    lemma_frame_at_index(20, l, j);
    assert forall|k: int| 0 <= k < j && k != i implies (#[trigger] fs[k]).id != ChunkId::Pack && fs[k].id != ChunkId::Rgba by {
        if k < i {
            assert(l[k] == a[k]);
        } else {
            assert(l[k] == b[k - i - 1]);
        }
    }
    lemma_frames_len(20, l);
    lemma_scan_duplicate(fs, i, j);
    let err = if chunk_id_of(x.0) == ChunkId::Pack {
        Error::MultiplePackChunks { first: fs[i], second: fs[j] }
    } else {
        Error::MultipleRgbaChunks { first: fs[i], second: fs[j] }
    };
    let m = Chunk { id: ChunkId::Main, offset: 20, content_len: 0, children_len: flatten_chunks(l).len() as u32 };
    assert(children_start(m) == 20 && next_sibling(m) == 20 + flatten_chunks(l).len());
    assert(scan_children(e, children_start(m), next_sibling(m), empty_scan()) == Err::<Scan, Error>(err));
}

} // verus!
