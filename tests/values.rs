use voxel_world::polarization::{LightPolarizationType, PolarizerType};
use voxel_world::demos::Demo;
use voxel_world::palette::generate_colors_list;
use voxel_world::util::{i32_to_u32_vec, IVec3, UVec3};
use voxel_world::world::{Alignment, ObjectType};

#[test]
fn palette_has_thirteen_colours() {
    let c = generate_colors_list();
    assert_eq!(c.len(), 13);
    assert_eq!(c[0], [250, 100, 0, 255]);
    assert_eq!(c[5], [78, 175, 51, 255]);
    assert_eq!(c[12], [200, 40, 235, 255]);
}

#[test]
fn object_type_tags_follow_declaration_order() {
    assert_eq!(ObjectType::CubeWall.tag(), 0);
    assert_eq!(ObjectType::LightSource.tag(), 3);
    assert_eq!(ObjectType::OpticalObjectRoundWall.tag(), 6);
}

#[test]
fn labels() {
    assert_eq!(ObjectType::LightSource.label(), "Light source (sphere)");
    assert_eq!(ObjectType::OpticalObjectSquareWall.label(), "Optical object (square)");
    assert_eq!(Alignment::Right.label(), "Right");
    assert_eq!(Demo::NoDemo.label(), "No demo");
    assert_eq!(Demo::TripleSlit.label(), "Triple slit demo");
}

#[test]
fn signed_vector_reinterpreted_as_unsigned() {
    assert_eq!(i32_to_u32_vec(IVec3::new(1, 2, 3)), UVec3::new(1, 2, 3));
    assert_eq!(i32_to_u32_vec(IVec3::new(-1, 0, 7)), UVec3::new(u32::MAX, 0, 7));
}

#[test]
fn polarization_labels() {
    assert_eq!(LightPolarizationType::LinearAntiDiagonal.label(), "Linear rotated θ degrees");
    assert_eq!(LightPolarizationType::NotPolarized.label(), "Not polarized");
    assert_eq!(PolarizerType::HalfWavePlateRotatedTheta.label(), "Half-wave plate rotated by θ");
}
