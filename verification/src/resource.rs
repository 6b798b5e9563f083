//! The resource kinds that come with a serialised payload of their own.

use vstd::prelude::*;

verus! {

/// The payload type of the serialised data behind a resource.
#[derive(Clone, Copy, Debug, PartialEq, Eq, Structural)]
pub enum BuildinResourceType {
    Bytes,
    Texture,
    Atlas,
    Shader,
    Material,
}

/// A resource kind whose serialised form carries its payload type with it.
pub trait BuildinResource: Sized {
    /// The payload type that this kind of resource is loaded from.
    fn payload() -> BuildinResourceType;
}

/// Raw bytes.
pub struct Bytes;

/// A texture.
pub struct Texture;

/// A texture atlas.
pub struct Atlas;

/// A shader.
pub struct Shader;

/// A material: a shader with its textures and uniforms.
pub struct Material;

impl BuildinResource for Bytes {
    fn payload() -> (r: BuildinResourceType)
        ensures
            r == BuildinResourceType::Bytes,
    {
        BuildinResourceType::Bytes
    }
}

impl BuildinResource for Texture {
    fn payload() -> (r: BuildinResourceType)
        ensures
            r == BuildinResourceType::Texture,
    {
        BuildinResourceType::Texture
    }
}

impl BuildinResource for Atlas {
    fn payload() -> (r: BuildinResourceType)
        ensures
            r == BuildinResourceType::Atlas,
    {
        BuildinResourceType::Atlas
    }
}

impl BuildinResource for Shader {
    fn payload() -> (r: BuildinResourceType)
        ensures
            r == BuildinResourceType::Shader,
    {
        BuildinResourceType::Shader
    }
}

impl BuildinResource for Material {
    fn payload() -> (r: BuildinResourceType)
        ensures
            r == BuildinResourceType::Material,
    {
        BuildinResourceType::Material
    }
}

} // verus!
