use scene_ecs::resource::{
    Atlas, BuildinResource, BuildinResourceType, Bytes, Material, Shader, Texture,
};

#[test]
fn each_resource_names_its_payload() {
    assert_eq!(Bytes::payload(), BuildinResourceType::Bytes);
    assert_eq!(Texture::payload(), BuildinResourceType::Texture);
    assert_eq!(Atlas::payload(), BuildinResourceType::Atlas);
    assert_eq!(Shader::payload(), BuildinResourceType::Shader);
    assert_eq!(Material::payload(), BuildinResourceType::Material);
}
