use vox_format::chunk::read_header;
use vox_format::reader::Error as ReadError;
use vox_format::writer::Error as WriteError;
use vox_format::{
    from_slice, to_vec, ChunkId, ChunkWriter, Color, ColorIndex, ContentReader, Material,
    MaterialType, Model, Palette, Tag, Vector, VoxData, Voxel,
};

fn le(n: u32) -> Vec<u8> {
    n.to_le_bytes().to_vec()
}

fn chunk(id: &[u8; 4], content: &[u8], children: &[u8]) -> Vec<u8> {
    let mut v = id.to_vec();
    v.extend(le(content.len() as u32));
    v.extend(le(children.len() as u32));
    v.extend_from_slice(content);
    v.extend_from_slice(children);
    v
}

fn file(children: &[u8]) -> Vec<u8> {
    let mut v = b"VOX ".to_vec();
    v.extend(le(150));
    v.extend(chunk(b"MAIN", &[], children));
    v
}

fn size_chunk(x: i8, y: i8, z: i8) -> Vec<u8> {
    chunk(b"SIZE", &[x as u8, y as u8, z as u8], &[])
}

fn xyzi_chunk(voxels: &[[u8; 4]]) -> Vec<u8> {
    let mut c = le(voxels.len() as u32);
    for v in voxels {
        c.extend_from_slice(v);
    }
    chunk(b"XYZI", &c, &[])
}

fn glider() -> VoxData {
    let mut vox = VoxData::default();
    vox.models.push(Model {
        size: Vector::new(3, 3, 1),
        voxels: vec![
            Voxel::new([1, 0, 0], 1),
            Voxel::new([2, 1, 0], 1),
            Voxel::new([0, 2, 0], 1),
            Voxel::new([1, 2, 0], 1),
            Voxel::new([2, 2, 0], 1),
        ],
    });
    vox
}

#[test]
fn write_vox_from_data() {
    let vox = glider();
    let bytes = to_vec(&vox).unwrap();
    assert_eq!(&bytes[0..4], b"VOX ");
}

#[test]
fn round_trip_single_model() {
    let vox = glider();
    let bytes = to_vec(&vox).unwrap();
    let back = from_slice(&bytes).unwrap();
    assert_eq!(back.version.0, 150);
    assert_eq!(back.models.len(), 1);
    assert_eq!(back.models[0].size, Vector::new(3, 3, 1));
    assert_eq!(back.models[0].voxels, vox.models[0].voxels);
    assert!(back.palette.is_default());
}

#[test]
fn round_trip_two_models_and_palette() {
    let mut vox = glider();
    vox.models.push(Model {
        size: Vector::new(-1, 127, -128),
        voxels: vec![Voxel::new([-5, 6, -7], 255)],
    });
    vox.palette.colors[7] = Color { r: 1, g: 2, b: 3, a: 4 };
    let bytes = to_vec(&vox).unwrap();
    assert!(bytes.windows(4).any(|w| w == b"PACK"));
    assert!(bytes.windows(4).any(|w| w == b"RGBA"));
    let back = from_slice(&bytes).unwrap();
    assert_eq!(back.models.len(), 2);
    assert_eq!(back.models[1].size, Vector::new(-1, 127, -128));
    assert_eq!(back.models[1].voxels, vec![Voxel::new([-5, 6, -7], 255)]);
    assert_eq!(back.palette.colors, vox.palette.colors);
}

#[test]
fn no_models_is_an_error() {
    let vox = VoxData::default();
    assert_eq!(to_vec(&vox), Err(WriteError::NoModels));
}

#[test]
fn default_palette_is_omitted() {
    let bytes = to_vec(&glider()).unwrap();
    assert!(!bytes.windows(4).any(|w| w == b"RGBA"));
    assert!(!bytes.windows(4).any(|w| w == b"PACK"));
    let back = from_slice(&bytes).unwrap();
    assert!(back.palette.is_default());
}

#[test]
fn exact_bytes_of_one_model() {
    let mut vox = VoxData::default();
    vox.models.push(Model { size: Vector::new(1, 2, 3), voxels: vec![Voxel::new([4, 5, 6], 7)] });
    let bytes = to_vec(&vox).unwrap();
    let expected = file(&[size_chunk(1, 2, 3), xyzi_chunk(&[[4, 5, 6, 7]])].concat());
    assert_eq!(bytes, expected);
}

#[test]
fn main_children_length_is_sum_of_children() {
    let mut vox = glider();
    for _ in 0..3 {
        vox.models.push(Model { size: Vector::new(1, 1, 1), voxels: vec![Voxel::new([0, 0, 0], 3)] });
    }
    let bytes = to_vec(&vox).unwrap();
    let main = read_header(&bytes, 8).unwrap();
    assert_eq!(main.id, ChunkId::Main);
    assert_eq!(main.content_len, 0);
    let mut sum = 0u32;
    let mut n = 0;
    let mut it = main.children();
    while let Some(c) = it.next(&bytes) {
        let c = c.unwrap();
        sum += 12 + c.content_len + c.children_len;
        n += 1;
    }
    // one pack chunk, then a size and a voxel-list chunk per model
    assert_eq!(n, 1 + 2 * 4);
    assert_eq!(sum, main.children_len);
    assert_eq!(bytes.len() as u32, 20 + main.children_len);
}

#[test]
fn unknown_chunk_is_skipped() {
    let plain = file(&[size_chunk(2, 2, 2), xyzi_chunk(&[[1, 1, 1, 9]])].concat());
    let with_extra = file(
        &[size_chunk(2, 2, 2), chunk(b"nTRN", &[1, 2, 3, 4, 5], &chunk(b"XYZI", &[0xff; 3], &[])), xyzi_chunk(&[[1, 1, 1, 9]])]
            .concat(),
    );
    let a = from_slice(&plain).unwrap();
    let b = from_slice(&with_extra).unwrap();
    assert_eq!(a.models.len(), b.models.len());
    assert_eq!(a.models[0].size, b.models[0].size);
    assert_eq!(a.models[0].voxels, b.models[0].voxels);
    assert_eq!(b.models[0].voxels, vec![Voxel::new([1, 1, 1], 9)]);
}

#[test]
fn two_pack_chunks_are_rejected() {
    let pack = chunk(b"PACK", &le(1), &[]);
    let bytes = file(&[pack.clone(), pack, size_chunk(1, 1, 1), xyzi_chunk(&[])].concat());
    match from_slice(&bytes) {
        Err(ReadError::MultiplePackChunks { first, second }) => {
            assert_eq!(first.offset, 32);
            assert_eq!(second.offset, 32 + 16);
        }
        other => panic!("unexpected {:?}", other.map(|_| ())),
    }
}

#[test]
fn two_palette_chunks_are_rejected() {
    let rgba = chunk(b"RGBA", &[0u8; 1020], &[]);
    let bytes = file(&[size_chunk(1, 1, 1), xyzi_chunk(&[]), rgba.clone(), rgba].concat());
    assert!(matches!(from_slice(&bytes), Err(ReadError::MultipleRgbaChunks { .. })));
}

#[test]
fn pack_count_mismatch_is_rejected() {
    let pack = chunk(b"PACK", &le(2), &[]);
    let bytes = file(&[pack, size_chunk(1, 1, 1), xyzi_chunk(&[])].concat());
    assert_eq!(
        from_slice(&bytes).err(),
        Some(ReadError::InvalidNumberOfSizeAndXyziChunks { size_chunks: 1, xyzi_chunks: 1, num_models: 2 })
    );
}

#[test]
fn bad_magic_is_rejected() {
    let mut bytes = file(&[size_chunk(1, 1, 1), xyzi_chunk(&[])].concat());
    bytes[0] = b'B';
    assert_eq!(from_slice(&bytes).err(), Some(ReadError::InvalidMagic { got: Tag(b'B', b'O', b'X', b' ') }));
}

#[test]
fn wrong_top_chunk_is_rejected() {
    let mut bytes = b"VOX ".to_vec();
    bytes.extend(le(150));
    bytes.extend(size_chunk(1, 1, 1));
    assert!(matches!(from_slice(&bytes), Err(ReadError::ExpectedMainChunk { .. })));
}

#[test]
fn truncated_input_is_rejected() {
    let bytes = file(&[size_chunk(1, 1, 1), xyzi_chunk(&[[1, 2, 3, 4]])].concat());
    for cut in [0, 3, 7, 15, bytes.len() - 1] {
        assert_eq!(from_slice(&bytes[..cut]).err(), Some(ReadError::Truncated));
    }
}

#[test]
fn missing_models_are_a_count_mismatch() {
    let bytes = file(&[]);
    assert_eq!(
        from_slice(&bytes).err(),
        Some(ReadError::InvalidNumberOfSizeAndXyziChunks { size_chunks: 0, xyzi_chunks: 0, num_models: 1 })
    );
}

#[test]
fn content_reader_stops_at_chunk_end() {
    let bytes = [chunk(b"SIZE", &[1, 2], &[]), vec![9, 9, 9, 9]].concat();
    let c = read_header(&bytes, 0).unwrap();
    let mut r = c.content(&bytes);
    assert_eq!(r.remaining(), 2);
    assert_eq!(Vector::read(&mut r), Err(ReadError::Truncated));
}

#[test]
fn material_with_plastic_and_specular() {
    let mut rec = vec![1u8];
    rec.extend(0.5f32.to_bits().to_le_bytes());
    rec.extend(le(0b0000101));
    rec.extend(0.25f32.to_bits().to_le_bytes());
    rec.extend(0.75f32.to_bits().to_le_bytes());
    let mut r = ContentReader::new(&rec);
    let m = Material::read(&mut r).unwrap();
    assert_eq!(m.ty, MaterialType::Metal);
    assert_eq!(f32::from_bits(m.weight), 0.5);
    assert_eq!(m.plastic.map(f32::from_bits), Some(0.25));
    assert_eq!(m.specular.map(f32::from_bits), Some(0.75));
    assert_eq!(m.roughness, None);
    assert_eq!(m.ior, None);
    assert_eq!(m.attenuation, None);
    assert_eq!(m.power, None);
    assert_eq!(m.glow, None);
    assert!(!m.is_total_power);
    assert_eq!(r.remaining(), 0);
}

#[test]
fn material_total_power_flag_only() {
    let mut rec = vec![3u8];
    rec.extend(le(0));
    rec.extend(le(128));
    let mut r = ContentReader::new(&rec);
    let m = Material::read(&mut r).unwrap();
    assert_eq!(m.ty, MaterialType::Emissive);
    assert!(m.is_total_power);
    assert_eq!(m.plastic, None);
    assert_eq!(m.glow, None);
    assert_eq!(r.remaining(), 0);
}

#[test]
fn material_bad_type_and_short_record() {
    let rec = [9u8, 0, 0, 0, 0, 0, 0, 0, 0];
    assert_eq!(Material::read(&mut ContentReader::new(&rec)), Err(ReadError::InvalidMaterial(9)));
    let mut short = vec![0u8];
    short.extend(le(0));
    short.extend(le(64));
    assert_eq!(Material::read(&mut ContentReader::new(&short)), Err(ReadError::Truncated));
}

#[test]
fn default_palette_entries() {
    let p = Palette::default();
    assert!(p.is_default());
    assert_eq!(p.get(ColorIndex(0)), Color { r: 0, g: 0, b: 0, a: 0 });
    assert_eq!(p.get(ColorIndex(1)), Color { r: 255, g: 255, b: 255, a: 255 });
    assert_eq!(p.get(ColorIndex(2)), Color { r: 255, g: 255, b: 0xcc, a: 255 });
    assert_eq!(p.get(ColorIndex(216)), Color { r: 0xee, g: 0, b: 0, a: 255 });
    assert_eq!(p.get(ColorIndex(255)), Color { r: 0x11, g: 0x11, b: 0x11, a: 255 });
    assert_eq!(p.iter().len(), 256);
}

#[test]
fn palette_write_then_read() {
    let mut p = Palette::default();
    p.colors[1] = Color { r: 10, g: 20, b: 30, a: 40 };
    p.colors[255] = Color { r: 1, g: 1, b: 1, a: 1 };
    let mut out = Vec::new();
    p.write(&mut out);
    assert_eq!(out.len(), 1020);
    assert_eq!(&out[0..4], &[10, 20, 30, 40]);
    let q = Palette::read(&mut ContentReader::new(&out)).unwrap();
    assert_eq!(q.colors, p.colors);
    assert!(!q.is_default());
}

#[test]
fn chunk_writer_patches_nested_lengths() {
    let mut w = ChunkWriter::new(Vec::new());
    w.open(ChunkId::Main);
    w.write_content(&[1, 2]);
    w.open(ChunkId::Size);
    w.write_content(&[3, 4, 5]);
    w.close().unwrap();
    w.close().unwrap();
    let bytes = w.into_bytes();
    let expected = chunk(b"MAIN", &[1, 2], &chunk(b"SIZE", &[3, 4, 5], &[]));
    assert_eq!(bytes, expected);
}

#[test]
fn vector_voxel_color_bytes() {
    let mut out = Vec::new();
    Voxel::new([-1, 2, -3], 200).write(&mut out);
    Color { r: 1, g: 2, b: 3, a: 4 }.write(&mut out);
    assert_eq!(out, vec![0xff, 2, 0xfd, 200, 1, 2, 3, 4]);
    let mut r = ContentReader::new(&out);
    assert_eq!(Voxel::read(&mut r).unwrap(), Voxel::new([-1, 2, -3], 200));
    assert_eq!(Color::read(&mut r).unwrap(), Color { r: 1, g: 2, b: 3, a: 4 });
    assert_eq!(ColorIndex::read(&mut r), Err(ReadError::Truncated));
}

fn plain_material(weight: u32) -> Material {
    Material {
        ty: MaterialType::Glass,
        weight,
        plastic: None,
        roughness: None,
        specular: None,
        ior: None,
        attenuation: None,
        power: None,
        glow: None,
        is_total_power: false,
    }
}

#[test]
fn material_palette_insert_replaces() {
    let mut mp = vox_format::MaterialPalette::new();
    assert!(mp.is_empty());
    mp.insert(ColorIndex(5), plain_material(1));
    mp.insert(ColorIndex(9), plain_material(2));
    mp.insert(ColorIndex(5), plain_material(3));
    assert!(!mp.is_empty());
    assert_eq!(mp.get(ColorIndex(5)), Some(plain_material(3)));
    assert_eq!(mp.get(ColorIndex(9)), Some(plain_material(2)));
    assert_eq!(mp.get(ColorIndex(7)), None);
    assert_eq!(mp.iter().len(), 2);
}

#[test]
fn material_type_bytes() {
    assert_eq!(MaterialType::try_from_u8(2), Ok(MaterialType::Glass));
    assert_eq!(MaterialType::try_from_u8(4), Err(vox_format::MaterialTryFromError(4)));
    let mut out = Vec::new();
    MaterialType::Emissive.write(&mut out);
    assert_eq!(out, vec![3]);
}

#[test]
fn written_version_is_the_format_version() {
    let mut vox = glider();
    vox.version = vox_format::Version(200);
    let bytes = to_vec(&vox).unwrap();
    assert_eq!(&bytes[4..8], &150u32.to_le_bytes());
    assert_eq!(from_slice(&bytes).unwrap().version.0, 150);
}

#[test]
fn material_read_consumes_exactly_its_record() {
    let mut rec = vec![0u8];
    rec.extend(1.0f32.to_bits().to_le_bytes());
    rec.extend(le(0b101));
    rec.extend(0.5f32.to_bits().to_le_bytes());
    rec.extend(0.25f32.to_bits().to_le_bytes());
    rec.push(0xaa);
    let mut r = ContentReader::new(&rec);
    Material::read(&mut r).unwrap();
    assert_eq!(r.remaining(), 1);

    let mut only_total = vec![1u8];
    only_total.extend(le(0));
    only_total.extend(le(128));
    only_total.extend([7, 7]);
    let mut r = ContentReader::new(&only_total);
    assert!(Material::read(&mut r).unwrap().is_total_power);
    assert_eq!(r.remaining(), 2);

    let bad = [5u8, 1, 2, 3];
    let mut r = ContentReader::new(&bad);
    assert_eq!(Material::read(&mut r), Err(ReadError::InvalidMaterial(5)));
    assert_eq!(r.remaining(), 3);
}

#[test]
fn buffer_after_read_errors() {
    let mut bytes = file(&[size_chunk(1, 1, 1), xyzi_chunk(&[])].concat());
    bytes[0] = b'X';
    let mut buffer = glider();
    buffer.version = vox_format::Version(7);
    assert!(vox_format::read_vox_into(&bytes, &mut buffer).is_err());
    assert_eq!(buffer.version.0, 7);
    assert_eq!(buffer.models.len(), 1);

    let mut bytes = b"VOX ".to_vec();
    bytes.extend(le(99));
    bytes.extend(chunk(b"MAIN", &[], &chunk(b"PACK", &le(3), &[])));
    let mut buffer = glider();
    assert!(matches!(
        vox_format::read_vox_into(&bytes, &mut buffer),
        Err(ReadError::InvalidNumberOfSizeAndXyziChunks { .. })
    ));
    assert_eq!(buffer.version.0, 99);
    assert_eq!(buffer.models.len(), 1);
}
