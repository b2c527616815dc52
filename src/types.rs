//! The values stored in a VOX file and their fixed byte layouts.
use crate::bytes::{le_u32_at, push_u32, u32_bytes};
use crate::chunk::ContentReader;
use crate::reader::Error as ReadError;
use vstd::prelude::*;

verus! {

/// The format version found after the magic bytes.
#[derive(Clone, Copy, Debug, PartialEq, Eq, Structural, Hash)]
pub struct Version(pub u32);

/// The version written by this library.
pub const DEFAULT_VERSION: u32 = 150;

impl Default for Version {
    fn default() -> (r: Version)
        ensures
            r.0 == DEFAULT_VERSION,
    {
        Version(DEFAULT_VERSION)
    }
}

impl Version {
    pub fn read(reader: &mut ContentReader) -> (r: Result<Version, ReadError>)
        ensures
            old(reader)@.len() >= 4 ==> r == Ok::<Version, ReadError>(Version(le_u32_at(old(reader)@, 0) as u32))
                && final(reader)@ == old(reader)@.skip(4),
            old(reader)@.len() < 4 ==> r == Err::<Version, ReadError>(ReadError::Truncated),
    {
        match reader.read_u32() {
            Ok(v) => Ok(Version(v)),
            Err(e) => Err(e),
        }
    }

    pub fn write(&self, out: &mut Vec<u8>)
        ensures
            final(out)@ == old(out)@ + u32_bytes(self.0),
    {
        push_u32(out, self.0);
    }
}

/// A point of the voxel lattice, or the extent of a model.
#[derive(Clone, Copy, Debug, Default, PartialEq, Eq, Structural, Hash)]
pub struct Vector {
    pub x: i8,
    pub y: i8,
    pub z: i8,
}

/// The vector stored in the three bytes at `at`.
pub open spec fn vector_at(s: Seq<u8>, at: int) -> Vector {
    Vector { x: s[at] as i8, y: s[at + 1] as i8, z: s[at + 2] as i8 }
}

/// The three bytes of a vector.
pub open spec fn vector_bytes(v: Vector) -> Seq<u8> {
    seq![v.x as u8, v.y as u8, v.z as u8]
}

impl Vector {
    pub fn new(x: i8, y: i8, z: i8) -> (r: Vector)
        ensures
            r == (Vector { x, y, z }),
    {
        Vector { x, y, z }
    }

    pub fn read(reader: &mut ContentReader) -> (r: Result<Vector, ReadError>)
        ensures
            old(reader)@.len() >= 3 ==> r == Ok::<Vector, ReadError>(vector_at(old(reader)@, 0))
                && final(reader)@ == old(reader)@.skip(3),
            old(reader)@.len() < 3 ==> r == Err::<Vector, ReadError>(ReadError::Truncated),
    {
        let ghost s = reader@;
        let x = match reader.read_i8() {
            Ok(v) => v,
            Err(e) => return Err(e),
        };
        let y = match reader.read_i8() {
            Ok(v) => v,
            Err(e) => return Err(e),
        };
        let z = match reader.read_i8() {
            Ok(v) => v,
            Err(e) => return Err(e),
        };
        assert(s.skip(1).skip(1).skip(1) =~= s.skip(3));
        Ok(Vector { x, y, z })
    }

    pub fn write(&self, out: &mut Vec<u8>)
        ensures
            final(out)@ == old(out)@ + vector_bytes(*self),
    {
        out.push(self.x as u8);
        out.push(self.y as u8);
        out.push(self.z as u8);
        assert(out@ =~= old(out)@ + vector_bytes(*self));
    }
}

impl From<[i8; 3]> for Vector {
    fn from(v: [i8; 3]) -> (r: Vector) {
        Vector { x: v[0], y: v[1], z: v[2] }
    }
}

impl vstd::std_specs::convert::FromSpecImpl<[i8; 3]> for Vector {
    open spec fn obeys_from_spec() -> bool {
        true
    }

    open spec fn from_spec(v: [i8; 3]) -> Vector {
        Vector { x: v@[0], y: v@[1], z: v@[2] }
    }
}

impl From<Vector> for [i8; 3] {
    fn from(v: Vector) -> (r: [i8; 3]) {
        [v.x, v.y, v.z]
    }
}

impl vstd::std_specs::convert::FromSpecImpl<Vector> for [i8; 3] {
    open spec fn obeys_from_spec() -> bool {
        true
    }

    open spec fn from_spec(v: Vector) -> [i8; 3] {
        [v.x, v.y, v.z]
    }
}

/// An index into the palette.
#[derive(Clone, Copy, Debug, Default, PartialEq, Eq, Structural, Hash)]
pub struct ColorIndex(pub u8);

impl ColorIndex {
    pub fn read(reader: &mut ContentReader) -> (r: Result<ColorIndex, ReadError>)
        ensures
            old(reader)@.len() >= 1 ==> r == Ok::<ColorIndex, ReadError>(ColorIndex(old(reader)@[0]))
                && final(reader)@ == old(reader)@.skip(1),
            old(reader)@.len() < 1 ==> r == Err::<ColorIndex, ReadError>(ReadError::Truncated),
    {
        match reader.read_u8() {
            Ok(b) => Ok(ColorIndex(b)),
            Err(e) => Err(e),
        }
    }

    pub fn write(&self, out: &mut Vec<u8>)
        ensures
            final(out)@ == old(out)@.push(self.0),
    {
        out.push(self.0);
    }
}

impl From<u8> for ColorIndex {
    fn from(x: u8) -> (r: ColorIndex) {
        ColorIndex(x)
    }
}

impl vstd::std_specs::convert::FromSpecImpl<u8> for ColorIndex {
    open spec fn obeys_from_spec() -> bool {
        true
    }

    open spec fn from_spec(x: u8) -> ColorIndex {
        ColorIndex(x)
    }
}

impl From<ColorIndex> for u8 {
    fn from(x: ColorIndex) -> (r: u8) {
        x.0
    }
}

impl vstd::std_specs::convert::FromSpecImpl<ColorIndex> for u8 {
    open spec fn obeys_from_spec() -> bool {
        true
    }

    open spec fn from_spec(x: ColorIndex) -> u8 {
        x.0
    }
}

/// A voxel: a lattice point and the palette index of its color.
#[derive(Clone, Copy, Debug, PartialEq, Eq, Structural, Hash)]
pub struct Voxel {
    pub point: Vector,
    pub color_index: ColorIndex,
}

/// The voxel stored in the four bytes at `at`.
pub open spec fn voxel_at(s: Seq<u8>, at: int) -> Voxel {
    Voxel { point: vector_at(s, at), color_index: ColorIndex(s[at + 3]) }
}

/// The four bytes of a voxel.
pub open spec fn voxel_bytes(v: Voxel) -> Seq<u8> {
    vector_bytes(v.point).push(v.color_index.0)
}

impl Voxel {
    pub fn new(point: [i8; 3], color_index: u8) -> (r: Voxel)
        ensures
            r.point == (Vector { x: point@[0], y: point@[1], z: point@[2] }),
            r.color_index == ColorIndex(color_index),
    {
        Voxel { point: Vector { x: point[0], y: point[1], z: point[2] }, color_index: ColorIndex(color_index) }
    }

    pub fn read(reader: &mut ContentReader) -> (r: Result<Voxel, ReadError>)
        ensures
            old(reader)@.len() >= 4 ==> r == Ok::<Voxel, ReadError>(voxel_at(old(reader)@, 0))
                && final(reader)@ == old(reader)@.skip(4),
            old(reader)@.len() < 4 ==> r == Err::<Voxel, ReadError>(ReadError::Truncated),
    {
        let ghost s = reader@;
        let point = match Vector::read(reader) {
            Ok(v) => v,
            Err(e) => return Err(e),
        };
        let color_index = match ColorIndex::read(reader) {
            Ok(v) => v,
            Err(e) => return Err(e),
        };
        assert(s.skip(3).skip(1) =~= s.skip(4));
        Ok(Voxel { point, color_index })
    }

    pub fn write(&self, out: &mut Vec<u8>)
        ensures
            final(out)@ == old(out)@ + voxel_bytes(*self),
    {
        self.point.write(out);
        self.color_index.write(out);
        assert(out@ =~= old(out)@ + voxel_bytes(*self));
    }
}

/// A color as stored in the palette, channels in file order.
#[derive(Clone, Copy, Debug, Default, PartialEq, Eq, Structural, Hash)]
pub struct Color {
    pub r: u8,
    pub g: u8,
    pub b: u8,
    pub a: u8,
}

/// The color stored in the four bytes at `at`.
pub open spec fn color_at(s: Seq<u8>, at: int) -> Color {
    Color { r: s[at], g: s[at + 1], b: s[at + 2], a: s[at + 3] }
}

/// The four bytes of a color.
pub open spec fn color_bytes(c: Color) -> Seq<u8> {
    seq![c.r, c.g, c.b, c.a]
}

impl Color {
    pub fn read(reader: &mut ContentReader) -> (r: Result<Color, ReadError>)
        ensures
            old(reader)@.len() >= 4 ==> r == Ok::<Color, ReadError>(color_at(old(reader)@, 0))
                && final(reader)@ == old(reader)@.skip(4),
            old(reader)@.len() < 4 ==> r == Err::<Color, ReadError>(ReadError::Truncated),
    {
        let ghost s = reader@;
        let r = match reader.read_u8() {
            Ok(v) => v,
            Err(e) => return Err(e),
        };
        let g = match reader.read_u8() {
            Ok(v) => v,
            Err(e) => return Err(e),
        };
        let b = match reader.read_u8() {
            Ok(v) => v,
            Err(e) => return Err(e),
        };
        let a = match reader.read_u8() {
            Ok(v) => v,
            Err(e) => return Err(e),
        };
        assert(s.skip(1).skip(1).skip(1).skip(1) =~= s.skip(4));
        Ok(Color { r, g, b, a })
    }

    pub fn write(&self, out: &mut Vec<u8>)
        ensures
            final(out)@ == old(out)@ + color_bytes(*self),
    {
        out.push(self.r);
        out.push(self.g);
        out.push(self.b);
        out.push(self.a);
        assert(out@ =~= old(out)@ + color_bytes(*self));
    }
}

impl From<[u8; 4]> for Color {
    fn from(c: [u8; 4]) -> (r: Color) {
        Color { r: c[0], g: c[1], b: c[2], a: c[3] }
    }
}

impl vstd::std_specs::convert::FromSpecImpl<[u8; 4]> for Color {
    open spec fn obeys_from_spec() -> bool {
        true
    }

    open spec fn from_spec(c: [u8; 4]) -> Color {
        Color { r: c@[0], g: c@[1], b: c@[2], a: c@[3] }
    }
}

impl From<Color> for [u8; 4] {
    fn from(c: Color) -> (r: [u8; 4]) {
        [c.r, c.g, c.b, c.a]
    }
}

impl vstd::std_specs::convert::FromSpecImpl<Color> for [u8; 4] {
    open spec fn obeys_from_spec() -> bool {
        true
    }

    open spec fn from_spec(c: Color) -> [u8; 4] {
        [c.r, c.g, c.b, c.a]
    }
}

/// The level of a step of the gray ramps at the end of the default palette.
pub open spec fn ramp(j: int) -> u8 {
    (17 * (14 - j - j / 2)) as u8
}

/// The built-in palette: index 0 is transparent black, indices 1 to 215 walk a 6x6x6 color
/// cube from white, and the last forty are ramps of red, green, blue and gray.
pub open spec fn default_color(i: int) -> Color {
    if i == 0 {
        Color { r: 0, g: 0, b: 0, a: 0 }
    } else if i <= 215 {
        let k = i - 1;
        Color {
            r: (255 - 51 * (k / 36)) as u8,
            g: (255 - 51 * ((k / 6) % 6)) as u8,
            b: (255 - 51 * (k % 6)) as u8,
            a: 255,
        }
    } else if i <= 225 {
        Color { r: ramp(i - 216), g: 0, b: 0, a: 255 }
    } else if i <= 235 {
        Color { r: 0, g: ramp(i - 226), b: 0, a: 255 }
    } else if i <= 245 {
        Color { r: 0, g: 0, b: ramp(i - 236), a: 255 }
    } else {
        Color { r: ramp(i - 246), g: ramp(i - 246), b: ramp(i - 246), a: 255 }
    }
}

/// All 256 colors of the built-in palette.
pub open spec fn default_colors() -> Seq<Color> {
    Seq::new(256, |i: int| default_color(i))
}

/// The palette that a palette chunk's content gives: its 255 colors at indices 1 to 255,
/// index 0 from the built-in palette.
pub open spec fn palette_from(s: Seq<u8>) -> Seq<Color> {
    Seq::new(256, |i: int| if i == 0 { default_color(0) } else { color_at(s, 4 * (i - 1)) })
}

/// The content of a palette chunk: the colors at indices 1 to 255.
pub open spec fn palette_bytes(colors: Seq<Color>) -> Seq<u8> {
    Seq::new(1020, |k: int| color_bytes(colors[k / 4 + 1])[k % 4])
}

fn ramp_level(j: u8) -> (r: u8)
    requires
        j < 10,
    ensures
        r == ramp(j as int),
{
    17 * (14 - j - j / 2)
}

fn default_color_of(i: usize) -> (r: Color)
    requires
        i < 256,
    ensures
        r == default_color(i as int),
{
    if i == 0 {
        Color { r: 0, g: 0, b: 0, a: 0 }
    } else if i <= 215 {
        let k = i - 1;
        assert(k / 36 <= 5) by (nonlinear_arith) requires k <= 214;
        assert((k / 6) % 6 <= 5) by (nonlinear_arith);
        assert(k % 6 <= 5) by (nonlinear_arith);
        Color {
            r: (255 - 51 * (k / 36)) as u8,
            g: (255 - 51 * ((k / 6) % 6)) as u8,
            b: (255 - 51 * (k % 6)) as u8,
            a: 255,
        }
    } else if i <= 225 {
        Color { r: ramp_level((i - 216) as u8), g: 0, b: 0, a: 255 }
    } else if i <= 235 {
        Color { r: 0, g: ramp_level((i - 226) as u8), b: 0, a: 255 }
    } else if i <= 245 {
        Color { r: 0, g: 0, b: ramp_level((i - 236) as u8), a: 255 }
    } else {
        let v = ramp_level((i - 246) as u8);
        Color { r: v, g: v, b: v, a: 255 }
    }
}

/// The 256 colors that palette indices select.
#[derive(Clone, Debug)]
pub struct Palette {
    pub colors: [Color; 256],
}

impl Default for Palette {
    fn default() -> (r: Palette)
        ensures
            r.colors@ == default_colors(),
    {
        let mut colors = [Color { r: 0, g: 0, b: 0, a: 0 }; 256];
        let mut i: usize = 0;
        while i < 256
            invariant
                i <= 256,
                colors@.len() == 256,
                forall|j: int| 0 <= j < i ==> colors@[j] == default_color(j),
            decreases 256 - i,
        {
            colors[i] = default_color_of(i);
            i = i + 1;
        }
        assert(colors@ =~= default_colors());
        Palette { colors }
    }
}

impl Palette {
    /// Whether every entry equals the built-in palette's.
    pub fn is_default(&self) -> (r: bool)
        ensures
            r == (self.colors@ == default_colors()),
    {
        let mut i: usize = 0;
        while i < 256
            invariant
                i <= 256,
                forall|j: int| 0 <= j < i ==> self.colors@[j] == default_color(j),
            decreases 256 - i,
        {
            if self.colors[i] != default_color_of(i) {
                assert(self.colors@ != default_colors() ) by {
                    assert(default_colors()[i as int] == default_color(i as int));
                }
                return false;
            }
            i = i + 1;
        }
        assert(self.colors@ =~= default_colors());
        true
    }

    pub fn get(&self, color_index: ColorIndex) -> (r: Color)
        ensures
            r == self.colors@[color_index.0 as int],
    {
        self.colors[color_index.0 as usize]
    }

    /// Every entry with its index, in index order.
    pub fn iter(&self) -> (r: Vec<(ColorIndex, Color)>)
        ensures
            r@.len() == 256,
            forall|i: int| 0 <= i < 256 ==> #[trigger] r@[i] == (ColorIndex(i as u8), self.colors@[i]),
    {
        let mut v: Vec<(ColorIndex, Color)> = Vec::new();
        let mut i: usize = 0;
        while i < 256
            invariant
                i <= 256,
                v@.len() == i,
                forall|j: int| 0 <= j < i ==> #[trigger] v@[j] == (ColorIndex(j as u8), self.colors@[j]),
            decreases 256 - i,
        {
            v.push((ColorIndex(i as u8), self.colors[i]));
            i = i + 1;
        }
        v
    }

    /// Reads the 255 colors of a palette chunk into indices 1 to 255; index 0 keeps the
    /// built-in color.
    pub fn read(reader: &mut ContentReader) -> (r: Result<Palette, ReadError>)
        ensures
            old(reader)@.len() >= 1020 ==> r is Ok && r->Ok_0.colors@ == palette_from(old(reader)@)
                && final(reader)@ == old(reader)@.skip(1020),
            old(reader)@.len() < 1020 ==> r == Err::<Palette, ReadError>(ReadError::Truncated),
    {
        let ghost s = reader@;
        let mut palette = Palette::default();
        let mut i: usize = 0;
        while i < 255
            invariant
                i <= 255,
                palette.colors@.len() == 256,
                s.len() >= 4 * i,
                s == old(reader)@,
                reader@ == s.skip(4 * i),
                palette.colors@[0] == default_color(0),
                forall|j: int| 1 <= j <= i ==> palette.colors@[j] == color_at(s, 4 * (j - 1)),
            decreases 255 - i,
        {
            assert(reader@.len() == s.len() - 4 * i);
            let c = match Color::read(reader) {
                Ok(c) => c,
                Err(e) => {
                    assert(s.len() < 1020);
                    return Err(e);
                },
            };
            proof {
                let t = s.skip(4 * i);
                assert(color_at(t, 0) == color_at(s, 4 * i));
                assert(t.skip(4) =~= s.skip(4 * (i + 1)));
            }
            palette.colors[i + 1] = c;
            i = i + 1;
        }
        assert(palette.colors@ =~= palette_from(s));
        Ok(palette)
    }

    /// Writes the colors at indices 1 to 255, as a palette chunk holds them.
    pub fn write(&self, out: &mut Vec<u8>)
        ensures
            final(out)@ == old(out)@ + palette_bytes(self.colors@),
    {
        let mut i: usize = 1;
        while i < 256
            invariant
                1 <= i <= 256,
                out@ == old(out)@ + palette_bytes(self.colors@).subrange(0, 4 * (i - 1)),
            decreases 256 - i,
        {
            let ghost before = out@;
            self.colors[i].write(out);
            proof {
                let pb = palette_bytes(self.colors@);
                assert forall|k: int| 4 * (i - 1) <= k < 4 * i implies pb[k] == color_bytes(self.colors@[i as int])[k - 4 * (i - 1)] by {
                    assert(k / 4 + 1 == i) by (nonlinear_arith) requires 4 * (i - 1) <= k < 4 * i;
                    assert(k % 4 == k - 4 * (i - 1)) by (nonlinear_arith) requires 4 * (i - 1) <= k < 4 * i;
                }
                assert(out@ =~= old(out)@ + pb.subrange(0, 4 * i));
            }
            i = i + 1;
        }
        assert(palette_bytes(self.colors@).subrange(0, 1020) =~= palette_bytes(self.colors@));
    }
}

/// How a material scatters light.
#[derive(Clone, Copy, Debug, PartialEq, Eq, Structural, Hash)]
pub enum MaterialType {
    Diffuse,
    Metal,
    Glass,
    Emissive,
}

/// The material type a byte stands for, if any.
pub open spec fn material_type_of(x: u8) -> Option<MaterialType> {
    if x == 0 {
        Some(MaterialType::Diffuse)
    } else if x == 1 {
        Some(MaterialType::Metal)
    } else if x == 2 {
        Some(MaterialType::Glass)
    } else if x == 3 {
        Some(MaterialType::Emissive)
    } else {
        None
    }
}

/// The byte written for a material type.
pub open spec fn material_type_byte(t: MaterialType) -> u8 {
    match t {
        MaterialType::Diffuse => 0,
        MaterialType::Metal => 1,
        MaterialType::Glass => 2,
        MaterialType::Emissive => 3,
    }
}

/// A byte that names no material type.
#[derive(Clone, Copy, Debug, PartialEq, Eq, Structural)]
pub struct MaterialTryFromError(pub u8);

impl MaterialType {
    /// The material type a byte stands for.
    pub fn try_from_u8(x: u8) -> (r: Result<MaterialType, MaterialTryFromError>)
        ensures
            match material_type_of(x) {
                Some(t) => r == Ok::<MaterialType, MaterialTryFromError>(t),
                None => r == Err::<MaterialType, MaterialTryFromError>(MaterialTryFromError(x)),
            },
    {
        match x {
            0 => Ok(MaterialType::Diffuse),
            1 => Ok(MaterialType::Metal),
            2 => Ok(MaterialType::Glass),
            3 => Ok(MaterialType::Emissive),
            _ => Err(MaterialTryFromError(x)),
        }
    }

    pub fn to_u8(&self) -> (r: u8)
        ensures
            r == material_type_byte(*self),
            material_type_of(r) == Some(*self),
    {
        match self {
            MaterialType::Diffuse => 0,
            MaterialType::Metal => 1,
            MaterialType::Glass => 2,
            MaterialType::Emissive => 3,
        }
    }

    pub fn read(reader: &mut ContentReader) -> (r: Result<MaterialType, ReadError>)
        ensures
            old(reader)@.len() < 1 ==> r == Err::<MaterialType, ReadError>(ReadError::Truncated),
            old(reader)@.len() >= 1 ==> final(reader)@ == old(reader)@.skip(1) && match material_type_of(old(reader)@[0]) {
                Some(t) => r == Ok::<MaterialType, ReadError>(t),
                None => r == Err::<MaterialType, ReadError>(ReadError::InvalidMaterial(old(reader)@[0])),
            },
    {
        let b = match reader.read_u8() {
            Ok(b) => b,
            Err(e) => return Err(e),
        };
        match MaterialType::try_from_u8(b) {
            Ok(t) => Ok(t),
            Err(e) => Err(ReadError::InvalidMaterial(e.0)),
        }
    }

    pub fn write(&self, out: &mut Vec<u8>)
        ensures
            final(out)@ == old(out)@.push(material_type_byte(*self)),
    {
        out.push(self.to_u8());
    }
}

impl From<MaterialType> for u8 {
    fn from(t: MaterialType) -> (r: u8) {
        t.to_u8()
    }
}

impl vstd::std_specs::convert::FromSpecImpl<MaterialType> for u8 {
    open spec fn obeys_from_spec() -> bool {
        true
    }

    open spec fn from_spec(t: MaterialType) -> u8 {
        material_type_byte(t)
    }
}

/// Whether flag `bit` is set.
pub open spec fn has_flag(flags: u32, bit: u32) -> bool {
    flags & bit != 0
}

/// The room that an optional parameter takes: four bytes if its flag is set.
pub open spec fn field_len(flags: u32, bit: u32) -> int {
    if has_flag(flags, bit) { 4 } else { 0 }
}

/// The optional parameter at `at`, present if its flag is set.
pub open spec fn field_at(s: Seq<u8>, flags: u32, bit: u32, at: int) -> Option<u32> {
    if has_flag(flags, bit) { Some(le_u32_at(s, at) as u32) } else { None }
}

/// Shading parameters of a palette entry. Each real number is kept as the bit pattern of an
/// IEEE 754 single-precision value, as the file stores it.
#[derive(Clone, Copy, Debug, PartialEq, Eq, Structural)]
pub struct Material {
    pub ty: MaterialType,
    pub weight: u32,
    pub plastic: Option<u32>,
    pub roughness: Option<u32>,
    pub specular: Option<u32>,
    pub ior: Option<u32>,
    pub attenuation: Option<u32>,
    pub power: Option<u32>,
    pub glow: Option<u32>,
    pub is_total_power: bool,
}

/// The flag of the `k`-th optional parameter: 1, 2, 4, 8, 16, 32, 64.
pub open spec fn flag_bit(k: int) -> u32 {
    if k == 0 { 1 } else if k == 1 { 2 } else if k == 2 { 4 } else if k == 3 { 8 } else if k == 4 {
        16
    } else if k == 5 { 32 } else { 64 }
}

/// Where the `k`-th optional parameter of a material record starts: after the type byte,
/// the weight, the flag word and the parameters before it that are present.
pub open spec fn field_offset(flags: u32, k: nat) -> int
    decreases k,
{
    if k == 0 { 9 } else { field_offset(flags, (k - 1) as nat) + field_len(flags, flag_bit(k - 1)) }
}

proof fn lemma_field_offset_grows(flags: u32, j: nat, k: nat)
    requires
        j <= k,
    ensures
        field_offset(flags, j) <= field_offset(flags, k),
    decreases k,
{
    if j < k {
        lemma_field_offset_grows(flags, j, (k - 1) as nat);
    }
}

/// What a material record decodes to: a type byte, the weight and the flag word, then one
/// four-byte value for each of the flags 1, 2, 4, 8, 16, 32 and 64 that is set, in that
/// order; flag 128 carries no value.
pub open spec fn material_from(s: Seq<u8>) -> Result<Material, ReadError> {
    if s.len() < 1 {
        Err(ReadError::Truncated)
    } else if material_type_of(s[0]) is None {
        Err(ReadError::InvalidMaterial(s[0]))
    } else if s.len() < 9 {
        Err(ReadError::Truncated)
    } else {
        let flags = le_u32_at(s, 5) as u32;
        if s.len() < field_offset(flags, 7) {
            Err(ReadError::Truncated)
        } else {
            Ok(
                Material {
                    ty: material_type_of(s[0])->Some_0,
                    weight: le_u32_at(s, 1) as u32,
                    plastic: field_at(s, flags, 1, field_offset(flags, 0)),
                    roughness: field_at(s, flags, 2, field_offset(flags, 1)),
                    specular: field_at(s, flags, 4, field_offset(flags, 2)),
                    ior: field_at(s, flags, 8, field_offset(flags, 3)),
                    attenuation: field_at(s, flags, 16, field_offset(flags, 4)),
                    power: field_at(s, flags, 32, field_offset(flags, 5)),
                    glow: field_at(s, flags, 64, field_offset(flags, 6)),
                    is_total_power: has_flag(flags, 128),
                },
            )
        }
    }
}

/// Reads one optional parameter that flag `bit` selects.
fn read_field(reader: &mut ContentReader, flags: u32, bit: u32) -> (r: Result<Option<u32>, ReadError>)
    ensures
        !has_flag(flags, bit) ==> r == Ok::<Option<u32>, ReadError>(None) && final(reader)@ == old(reader)@,
        has_flag(flags, bit) && old(reader)@.len() >= 4 ==> r == Ok::<Option<u32>, ReadError>(Some(le_u32_at(old(reader)@, 0) as u32))
            && final(reader)@ == old(reader)@.skip(4),
        has_flag(flags, bit) && old(reader)@.len() < 4 ==> r == Err::<Option<u32>, ReadError>(ReadError::Truncated),
{
    if flags & bit != 0 {
        match reader.read_u32() {
            Ok(v) => Ok(Some(v)),
            Err(e) => Err(e),
        }
    } else {
        Ok(None)
    }
}

impl Material {
    /// Reads a material record. On success it consumes the type byte, the weight, the flag
    /// word and the parameters present; on a bad type byte it consumes that byte alone.
    pub fn read(reader: &mut ContentReader) -> (r: Result<Material, ReadError>)
        ensures
            r == material_from(old(reader)@),
            r is Ok ==> final(reader)@ == old(reader)@.skip(
                field_offset(le_u32_at(old(reader)@, 5) as u32, 7),
            ),
            old(reader)@.len() >= 1 && material_type_of(old(reader)@[0]) is None ==> final(reader)@
                == old(reader)@.skip(1),
    {
        let ghost s = reader@;
        let ty = match MaterialType::read(reader) {
            Ok(t) => t,
            Err(e) => return Err(e),
        };
        let weight = match reader.read_u32() {
            Ok(v) => v,
            Err(e) => return Err(e),
        };
        let flags = match reader.read_u32() {
            Ok(v) => v,
            Err(e) => return Err(e),
        };
        proof {
            assert(reader@ =~= s.skip(9));
            assert(le_u32_at(s.skip(1), 0) == le_u32_at(s, 1));
            assert(le_u32_at(s.skip(5), 0) == le_u32_at(s, 5));
        }
        let bits: [u32; 7] = [1, 2, 4, 8, 16, 32, 64];
        let mut vals: [Option<u32>; 7] = [None; 7];
        let mut k: usize = 0;
        while k < 7
            invariant
                k <= 7,
                s == old(reader)@,
                s.len() >= 9,
                material_type_of(s[0]) == Some(ty),
                weight == le_u32_at(s, 1) as u32,
                flags == le_u32_at(s, 5) as u32,
                bits@ == seq![1u32, 2, 4, 8, 16, 32, 64],
                vals@.len() == 7,
                s.len() >= field_offset(flags, k as nat),
                reader@ == s.skip(field_offset(flags, k as nat)),
                forall|j: int| 0 <= j < k ==> vals@[j] == field_at(s, flags, flag_bit(j), field_offset(flags, j as nat)),
            decreases 7 - k,
        {
            let ghost o = field_offset(flags, k as nat);
            assert(bits@[k as int] == flag_bit(k as int));
            let v = match read_field(reader, flags, bits[k]) {
                Ok(v) => v,
                Err(e) => {
                    proof {
                        assert(field_offset(flags, (k + 1) as nat) == o + field_len(flags, flag_bit(k as int)));
                        lemma_field_offset_grows(flags, (k + 1) as nat, 7);
                    }
                    return Err(e);
                },
            };
            proof {
                if has_flag(flags, flag_bit(k as int)) {
                    assert(s.skip(o).skip(4) =~= s.skip(o + 4));
                    assert(le_u32_at(s.skip(o), 0) == le_u32_at(s, o));
                }
            }
            vals[k] = v;
            k = k + 1;
        }
        Ok(Material {
            ty,
            weight,
            plastic: vals[0],
            roughness: vals[1],
            specular: vals[2],
            ior: vals[3],
            attenuation: vals[4],
            power: vals[5],
            glow: vals[6],
            is_total_power: flags & 128 != 0,
        })
    }
}

/// The materials of a scene, each under the palette index it shades, at most one per index.
#[derive(Clone, Debug)]
pub struct MaterialPalette {
    materials: Vec<(ColorIndex, Material)>,
}

impl View for MaterialPalette {
    type V = Map<u8, Material>;

    closed spec fn view(&self) -> Map<u8, Material> {
        Map::new(
            |k: u8| exists|i: int| 0 <= i < self.materials@.len() && self.materials@[i].0.0 == k,
            |k: u8| self.materials@[choose|i: int| 0 <= i < self.materials@.len() && self.materials@[i].0.0 == k].1,
        )
    }
}

impl Default for MaterialPalette {
    fn default() -> (r: MaterialPalette)
        ensures
            r.wf(),
            r@ == Map::<u8, Material>::empty(),
    {
        MaterialPalette::new()
    }
}

impl MaterialPalette {
    /// No two entries share an index.
    pub closed spec fn wf(&self) -> bool {
        forall|i: int, j: int|
            0 <= i < j < self.materials@.len() ==> #[trigger] self.materials@[i].0 != #[trigger] self.materials@[j].0
    }

    pub fn new() -> (r: MaterialPalette)
        ensures
            r.wf(),
            r@ == Map::<u8, Material>::empty(),
    {
        let r = MaterialPalette { materials: Vec::new() };
        assert(r@ =~= Map::<u8, Material>::empty());
        r
    }

    pub fn is_empty(&self) -> (r: bool)
        requires
            self.wf(),
        ensures
            r == (self@ == Map::<u8, Material>::empty()),
    {
        proof {
            if self.materials@.len() > 0 {
                assert(self@.dom().contains(self.materials@[0].0.0));
                assert(!Map::<u8, Material>::empty().dom().contains(self.materials@[0].0.0));
            } else {
                assert(self@ =~= Map::<u8, Material>::empty());
            }
        }
        self.materials.len() == 0
    }

    fn find(&self, material_id: ColorIndex) -> (r: Option<usize>)
        requires
            self.wf(),
        ensures
            match r {
                Some(i) => i < self.materials@.len() && self.materials@[i as int].0 == material_id,
                None => forall|i: int| 0 <= i < self.materials@.len() ==> self.materials@[i].0 != material_id,
            },
    {
        let mut i: usize = 0;
        while i < self.materials.len()
            invariant
                i <= self.materials@.len(),
                forall|j: int| 0 <= j < i ==> self.materials@[j].0 != material_id,
            decreases self.materials@.len() - i,
        {
            if self.materials[i].0 == material_id {
                return Some(i);
            }
            i = i + 1;
        }
        None
    }

    pub fn get(&self, material_id: ColorIndex) -> (r: Option<Material>)
        requires
            self.wf(),
        ensures
            self@.contains_key(material_id.0) ==> r == Some(self@[material_id.0]),
            !self@.contains_key(material_id.0) ==> r is None,
    {
        match self.find(material_id) {
            Some(i) => {
                proof {
                    assert(self@.dom().contains(material_id.0));
                    let c = choose|j: int| 0 <= j < self.materials@.len() && self.materials@[j].0.0 == material_id.0;
                    assert(c == i as int);
                }
                Some(self.materials[i].1)
            },
            None => None,
        }
    }

    /// Every entry, in the order of insertion.
    pub fn iter(&self) -> (r: Vec<(ColorIndex, Material)>)
        requires
            self.wf(),
        ensures
            r@.len() == self@.dom().len(),
            forall|i: int| 0 <= i < r@.len() ==> self@.contains_key(r@[i].0.0) && self@[r@[i].0.0] == #[trigger] r@[i].1,
    {
        proof {
            let ks = self.materials@.map_values(|e: (ColorIndex, Material)| e.0.0);
            assert(ks.no_duplicates());
            assert(ks.to_set() =~= self@.dom()) by {
                assert forall|k: u8| ks.to_set().contains(k) <==> self@.dom().contains(k) by {
                    if self@.dom().contains(k) {
                        let i = choose|i: int| 0 <= i < self.materials@.len() && self.materials@[i].0.0 == k;
                        assert(ks[i] == k);
                    }
                }
            }
            ks.unique_seq_to_set();
            assert forall|i: int| 0 <= i < self.materials@.len() implies self@.contains_key(self.materials@[i].0.0)
                && self@[self.materials@[i].0.0] == #[trigger] self.materials@[i].1 by {
                let k = self.materials@[i].0.0;
                assert(self@.dom().contains(k));
                let c = choose|j: int| 0 <= j < self.materials@.len() && self.materials@[j].0.0 == k;
                assert(c == i);
            }
        }
        let mut r: Vec<(ColorIndex, Material)> = Vec::new();
        let mut i: usize = 0;
        while i < self.materials.len()
            invariant
                i <= self.materials@.len(),
                r@ == self.materials@.take(i as int),
            decreases self.materials@.len() - i,
        {
            r.push(self.materials[i]);
            i = i + 1;
            assert(r@ =~= self.materials@.take(i as int));
        }
        assert(r@ =~= self.materials@);
        r
    }

    /// Sets the material of a palette index, replacing the one it had.
    pub fn insert(&mut self, material_id: ColorIndex, material: Material)
        requires
            old(self).wf(),
        ensures
            final(self).wf(),
            final(self)@ == old(self)@.insert(material_id.0, material),
    {
        match self.find(material_id) {
            Some(i) => {
                self.materials.set(i, (material_id, material));
                proof {
                    assert forall|k: u8| #[trigger] self@.dom().contains(k) <==> old(self)@.insert(material_id.0, material).dom().contains(k) by {
                        if old(self)@.dom().contains(k) {
                            let j = choose|j: int| 0 <= j < old(self).materials@.len() && old(self).materials@[j].0.0 == k;
                            assert(self.materials@[j].0.0 == k);
                        }
                        if self@.dom().contains(k) && k != material_id.0 {
                            let j = choose|j: int| 0 <= j < self.materials@.len() && self.materials@[j].0.0 == k;
                            assert(old(self).materials@[j].0.0 == k);
                        }
                    }
                    assert forall|k: u8| self@.dom().contains(k) implies self@[k] == #[trigger] old(self)@.insert(material_id.0, material)[k] by {
                        let j = choose|j: int| 0 <= j < self.materials@.len() && self.materials@[j].0.0 == k;
                        if k != material_id.0 {
                            let j0 = choose|j: int| 0 <= j < old(self).materials@.len() && old(self).materials@[j].0.0 == k;
                            assert(j == j0);
                        } else {
                            assert(j == i as int);
                        }
                    }
                    assert(self@ =~= old(self)@.insert(material_id.0, material));
                }
            },
            None => {
                self.materials.push((material_id, material));
                proof {
                    let n = old(self).materials@.len() as int;
                    assert forall|k: u8| #[trigger] self@.dom().contains(k) <==> old(self)@.insert(material_id.0, material).dom().contains(k) by {
                        if old(self)@.dom().contains(k) {
                            let j = choose|j: int| 0 <= j < old(self).materials@.len() && old(self).materials@[j].0.0 == k;
                            assert(self.materials@[j].0.0 == k);
                        }
                        if k == material_id.0 {
                            assert(self.materials@[n].0.0 == k);
                        }
                        if self@.dom().contains(k) && k != material_id.0 {
                            let j = choose|j: int| 0 <= j < self.materials@.len() && self.materials@[j].0.0 == k;
                            assert(old(self).materials@[j].0.0 == k);
                        }
                    }
                    assert forall|k: u8| self@.dom().contains(k) implies self@[k] == #[trigger] old(self)@.insert(material_id.0, material)[k] by {
                        let j = choose|j: int| 0 <= j < self.materials@.len() && self.materials@[j].0.0 == k;
                        if k != material_id.0 {
                            let j0 = choose|j: int| 0 <= j < old(self).materials@.len() && old(self).materials@[j].0.0 == k;
                            assert(self.materials@[j0].0.0 == k);
                            assert(j == j0);
                        } else {
                            assert(self.materials@[n].0 == material_id);
                            assert(j == n);
                        }
                    }
                    assert(self@ =~= old(self)@.insert(material_id.0, material));
                }
            },
        }
    }
}

} // verus!
