//! A whole scene held in memory.
use crate::types::{Material, MaterialPalette, Palette, Vector, Version, Voxel};
use vstd::prelude::*;

verus! {

/// One model: its extent and its voxels.
#[derive(Clone, Debug)]
pub struct Model {
    pub size: Vector,
    pub voxels: Vec<Voxel>,
}

/// A model as a mathematical value.
pub struct ModelView {
    pub size: Vector,
    pub voxels: Seq<Voxel>,
}

impl View for Model {
    type V = ModelView;

    open spec fn view(&self) -> ModelView {
        ModelView { size: self.size, voxels: self.voxels@ }
    }
}

/// The models of a scene as mathematical values.
pub open spec fn models_view(ms: Seq<Model>) -> Seq<ModelView> {
    ms.map_values(|m: Model| m@)
}

/// A scene: format version, models, palette and materials.
#[derive(Clone, Debug)]
pub struct VoxData {
    pub version: Version,
    pub models: Vec<Model>,
    pub palette: Palette,
    pub materials: MaterialPalette,
}

impl Default for VoxData {
    fn default() -> (r: VoxData)
        ensures
            r.version.0 == crate::types::DEFAULT_VERSION,
            r.models@.len() == 0,
            r.palette.colors@ == crate::types::default_colors(),
            r.materials.wf(),
            r.materials@ == Map::<u8, Material>::empty(),
    {
        VoxData {
            version: Version::default(),
            models: Vec::new(),
            palette: Palette::default(),
            materials: MaterialPalette::new(),
        }
    }
}

} // verus!
