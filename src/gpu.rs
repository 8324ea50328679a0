//! What the host is asked to create on the GPU. Each command names the
//! object it creates by a [`GpuId`] that the cache entries refer to.
use vstd::prelude::*;
use crate::cache::{GpuId, TextureRef};
use crate::packer::{pack_square, padded, side_for, MAX_TEXELS};

verus! {

/// Relies on bytemuck::cast_slice from `u32` to `u8`: the words' memory
/// viewed as bytes, four bytes per word in the machine's byte order.
#[verifier::external_body]
fn words_to_bytes(words: &Vec<u32>) -> (r: Vec<u8>)
    ensures
        r@.len() == 4 * words@.len(),
{
    bytemuck::cast_slice::<u32, u8>(words.as_slice()).to_vec()
}

/// How a buffer is bound.
#[derive(PartialEq, Eq, Structural, Clone, Copy, Debug)]
pub enum BufferUsage {
    /// Per-instance vertex input.
    Vertex,
    /// Shader uniform.
    Uniform,
}

/// The bind group layouts of the grass pipeline.
#[derive(PartialEq, Eq, Structural, Clone, Copy, Debug)]
pub enum Layout {
    /// One uniform height buffer.
    UniformHeight,
    /// One per-blade height texture.
    HeightTexture,
    /// One texture of explicit Y positions.
    ExplicitY,
    /// A terrain height-map texture and the bounding-box size buffer.
    HeightMap,
    /// The region configuration buffer and the wind-noise texture.
    Region,
}

/// One resource bound in a bind group.
#[derive(PartialEq, Eq, Structural, Clone, Copy, Debug)]
pub enum Binding {
    /// A buffer created by an earlier command.
    Buffer(GpuId),
    /// The view of an image asset, or of the fallback image.
    Asset(TextureRef),
    /// The view of a texture created by an earlier command.
    Created(GpuId),
}

/// One GPU object to create.
#[derive(Debug)]
pub enum GpuCommand {
    /// A buffer initialised with `bytes`, the memory of `words`.
    Buffer { id: GpuId, usage: BufferUsage, words: Vec<u32>, bytes: Vec<u8> },
    /// A square 2D texture of 32-bit float texels, one mip level and one
    /// layer, written from `bytes` (the memory of `texels`) with rows of
    /// `bytes_per_row` bytes.
    Texture { id: GpuId, side: u32, bytes_per_row: u32, texels: Vec<u32>, bytes: Vec<u8> },
    /// A bind group of `layout` over one or two resources.
    BindGroup { id: GpuId, layout: Layout, first: Binding, second: Option<Binding> },
}

impl GpuCommand {
    /// The identity of the object this command creates.
    pub open spec fn id(&self) -> GpuId {
        match self {
            GpuCommand::Buffer { id, .. } => *id,
            GpuCommand::Texture { id, .. } => *id,
            GpuCommand::BindGroup { id, .. } => *id,
        }
    }

    /// This command is a buffer `id` of `usage` holding `words`.
    pub open spec fn is_buffer(&self, id: GpuId, usage: BufferUsage, words: Seq<u32>) -> bool {
        match self {
            GpuCommand::Buffer { id: i, usage: u, words: w, bytes } => *i == id && *u == usage
                && w@ == words && bytes@.len() == 4 * words.len(),
            _ => false,
        }
    }

    /// This command is the bind group `id` of `layout` over the given
    /// resources.
    pub open spec fn is_bind_group(
        &self,
        id: GpuId,
        layout: Layout,
        first: Binding,
        second: Option<Binding>,
    ) -> bool {
        *self == (GpuCommand::BindGroup { id, layout, first, second })
    }
}

/// A buffer command for `words`.
pub fn buffer_command(id: GpuId, usage: BufferUsage, words: Vec<u32>) -> (c: GpuCommand)
    ensures
        c.is_buffer(id, usage, words@),
{
    let bytes = words_to_bytes(&words);
    GpuCommand::Buffer { id, usage, words, bytes }
}

/// Packs `data` into a square texture and describes its upload: the side
/// is `floor(sqrt(n)) + 1`, the texels are the data followed by zero
/// padding, and each row is four bytes per texel.
pub fn prepare_texture_from_data(id: GpuId, data: &Vec<u32>) -> (c: GpuCommand)
    requires
        data@.len() <= MAX_TEXELS,
    ensures
        c matches GpuCommand::Texture { id: i, side, bytes_per_row, texels, bytes } && i == id
            && side_for(data@.len() as int, side as int)
            && side * side >= data@.len()
            && texels@ == padded(data@, side as nat)
            && bytes_per_row == 4 * side
            && bytes@.len() == 4 * texels@.len(),
{
    let t = pack_square(data);
    proof {
        assert(t.side <= 0xFFFF) by (nonlinear_arith)
            requires side_for(data@.len() as int, t.side as int), data@.len() <= 0xFFFE_0000;
    }
    let bytes = words_to_bytes(&t.texels);
    GpuCommand::Texture { id, side: t.side, bytes_per_row: 4 * t.side, texels: t.texels, bytes }
}

} // verus!
