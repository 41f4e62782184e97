use ray_bvh::frame::{FrameTiming, TmpResources};
use ray_bvh::material::{MaterialFlag, TextureDefinition, TextureRef};

#[test]
fn frame_timing_averages() {
    let mut t = FrameTiming::new();
    assert_eq!(t.dt, 0);
    assert_eq!(t.average_frame_time, 0);
    t.update(16);
    assert_eq!(t.dt, 16);
    assert_eq!(t.average_frame_time, 8);
    t.update(33);
    assert_eq!(t.average_frame_time, 20);
    t.update(u64::MAX);
    assert_eq!(t.average_frame_time, 9223372036854775817);
    t.reset();
    assert_eq!(t.average_frame_time, 0);
    assert_eq!(t.dt, u64::MAX);
}

#[test]
fn tmp_resources_default() {
    let t = TmpResources::default();
    assert!(!t.use_mouse && !t.mouse_pressed && !t.fullscreen && !t.low_res);
}

#[test]
fn texture_ref_default_has_no_index() {
    let t = TextureRef::default();
    assert_eq!((t.width, t.height, t.index), (0, 0, -1));
}

#[test]
fn material_flag_codes() {
    assert_eq!(MaterialFlag::DEFAULT.code(), 0);
    assert_eq!(MaterialFlag::GLASS.code(), 1);
    assert_eq!(MaterialFlag::TEXTURE.code(), 2);
    let d = TextureDefinition::FromFile { path: String::from("a.png") };
    assert!(matches!(d, TextureDefinition::FromFile { .. }));
}
