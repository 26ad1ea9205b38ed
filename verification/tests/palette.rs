//! Tests for the palette-compressed subchunk storage.

use voxel_world::palette::{Bpi, PaletteArray};
use voxel_world::voxel::Voxel;

/// A small deterministic generator for test inputs.
pub struct TestRng(pub u64);

impl TestRng {
    pub fn new(seed: u64) -> Self {
        TestRng(seed)
    }

    pub fn next(&mut self) -> u64 {
        let r = u128::from(self.0).wrapping_mul(0x8373ABCDEF397838ABCDEF1);
        let h = ((r >> 64) ^ r) as u64;
        self.0 = self.0.wrapping_add(h);
        h
    }
}

#[test]
fn palette_random() {
    let mut arr = PaletteArray::empty();
    let mut rng = TestRng::new(0x3738787387391);
    let mut nums = Vec::new();

    for i in 0..32768 {
        arr.set(i, (i & 7) as u16);
    }

    for i in 0..32768 {
        let r = (rng.next() & 511) as u16;
        nums.push(r);
        assert_eq!(arr.replace(i, r), (i & 7) as u16);
    }

    for i in 0..32768 {
        assert_eq!(arr.get(i), nums[i]);
    }
}

#[test]
fn palette_palette_random() {
    let mut arr = PaletteArray::empty();
    let mut rng = TestRng::new(0x3738787387391);
    let mut nums = Vec::new();

    for i in 0..32768 {
        assert_eq!(arr.replace(i, (i & 7) as u16), 0);
    }

    for i in 0..32768 {
        let r = (rng.next() & 511) as u16;
        nums.push(r);
        assert_eq!(arr.replace(i, r), (i & 7) as u16);
    }

    for i in 0..32768 {
        assert_eq!(arr.get(i), nums[i]);
    }
}

#[test]
fn palette_bpi_promotion() {
    let mut arr = PaletteArray::empty();
    assert_eq!(arr.bpi(), Bpi::B0);

    // eight distinct states keep the palette small and the width at 4 bits
    for i in 0..32768 {
        arr.set(i, (i & 7) as u16);
    }
    assert!(arr.palette_len() <= 8);
    assert_eq!(arr.bpi(), Bpi::B4);

    // 512 distinct states push the palette past 16 and past 256 entries,
    // promoting the width to 8 and then 16 bits
    let mut rng = TestRng::new(0x3738787387391);
    let mut nums = Vec::new();
    for i in 0..32768 {
        let r = (rng.next() & 511) as u16;
        nums.push(r);
        arr.set(i, r);
    }
    assert!(arr.palette_len() > 256);
    assert_eq!(arr.bpi(), Bpi::B16);
    for i in 0..32768 {
        assert_eq!(arr.get(i), nums[i]);
    }
}

#[test]
fn palette_last_write_wins() {
    let mut arr = PaletteArray::empty();
    arr.set(5, 7);
    arr.set(5, 9);
    assert_eq!(arr.get(5), 9);
    assert_eq!(arr.replace(5, 7), 9);
    assert_eq!(arr.get(5), 7);
    // the palette keeps every state it ever saw, air first
    assert!(arr.palette_len() >= 3);
}

#[test]
fn palette_with_capacity_starts_empty() {
    let arr = PaletteArray::with_palette_capacity(300);
    assert_eq!(arr.bpi(), Bpi::B16);
    assert_eq!(arr.palette_len(), 1);
    for i in 0..64 {
        assert_eq!(arr.get(i * 512), 0);
    }
}

#[test]
fn palette_spans() {
    let mut arr = PaletteArray::empty();
    let span = vec![Voxel(3), Voxel(1), Voxel(4), Voxel(1), Voxel(5)];
    arr.set_span(100, &span);
    let mut out = vec![Voxel(0); 7];
    arr.get_span(99, &mut out);
    assert_eq!(out, vec![Voxel(0), Voxel(3), Voxel(1), Voxel(4), Voxel(1), Voxel(5), Voxel(0)]);
}
