//! Tests for the copy-on-write light storage.

use voxel_world::lightmap::{Light, LightMap};

#[test]
fn light_sentinels() {
    assert_eq!(Light::full(), Light { intensity: 0x0F, hsl_color: 0 });
    assert_eq!(Light::none(), Light { intensity: 0, hsl_color: 0 });
}

#[test]
fn lightmap_cow_splits_on_differing_write() {
    let mut lm = LightMap::uniform_none();
    assert!(lm.uniform());
    assert_eq!(lm.get(5), Some(Light::none()));

    // writing the uniform value is a no-op and keeps the shared backing
    assert_eq!(lm.set(3, Light::none()), Some(Light::none()));
    assert!(lm.uniform());

    // the first differing write splits off an owned buffer
    let bright = Light { intensity: 0xFF, hsl_color: 3 };
    assert_eq!(lm.set(5, bright), Some(Light::none()));
    assert!(!lm.uniform());
    assert_eq!(lm.get(5), Some(bright));
    assert_eq!(lm.get(4), Some(Light::none()));
    assert_eq!(lm.get(6), Some(Light::none()));
}

#[test]
fn lightmap_uniform_resets() {
    let mut lm = LightMap::uniform_full();
    assert_eq!(lm.get(77), Some(Light::full()));
    lm.set(77, Light::none());
    assert!(!lm.uniform());
    lm.set_uniform_none();
    assert!(lm.uniform());
    assert_eq!(lm.get(77), Some(Light::none()));
    lm.set_uniform_full();
    assert_eq!(lm.get(0), Some(Light::full()));
}

#[test]
fn lightmap_rejects_out_of_range() {
    let mut lm = LightMap::uniform_none();
    assert_eq!(lm.get(32768), None);
    assert_eq!(lm.set(32768, Light::full()), None);
    assert!(lm.uniform());
}
