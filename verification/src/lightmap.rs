//! Per-voxel light storage with a copy-on-write uniform fast path.

use vstd::prelude::*;
use crate::consts::SUBCHUNK_LENGTH;

verus! {

/// A packed light record: 4 bits ambient and 4 bits torch intensity,
/// 4 bits HSL hue and 4 bits HSL lightness.
#[derive(Copy, Clone, Eq, PartialEq, Structural, Debug)]
pub struct Light {
    /// 4 bits ambient intensity, 4 bits torch intensity.
    pub intensity: u8,
    /// 4 bits HSL hue, 4 bits HSL lightness
    pub hsl_color: u8,
}

impl Light {
    /// Full ambient light, no color.
    pub fn full() -> (r: Light)
        ensures
            r == Light::spec_full(),
    {
        Light { intensity: 0x0F, hsl_color: 0 }
    }

    /// No light.
    pub fn none() -> (r: Light)
        ensures
            r == Light::spec_none(),
    {
        Light { intensity: 0, hsl_color: 0 }
    }

    /// The full-ambient sentinel value.
    pub open spec fn spec_full() -> Light {
        Light { intensity: 0x0F, hsl_color: 0 }
    }

    /// The no-light sentinel value.
    pub open spec fn spec_none() -> Light {
        Light { intensity: 0, hsl_color: 0 }
    }
}

/// The sequence of 32768 equal light values.
pub open spec fn uniform_lights(l: Light) -> Seq<Light> {
    Seq::new(SUBCHUNK_LENGTH as nat, |i: int| l)
}

/// Light values for the 32768 voxels of one subchunk.
///
/// A fresh map is uniform: every cell reads as one shared value and no
/// per-cell buffer is held. The first write of a different value clones the
/// uniform contents into an owned buffer (copy-on-write).
pub struct LightMap {
    uniform: bool,
    value: Light,
    data: Vec<Light>,
}

impl View for LightMap {
    type V = Seq<Light>;

    closed spec fn view(&self) -> Seq<Light> {
        if self.uniform {
            uniform_lights(self.value)
        } else {
            self.data@
        }
    }
}

impl LightMap {
    /// Whether the map is still backed by the uniform value rather than an
    /// owned per-cell buffer.
    pub closed spec fn is_uniform(&self) -> bool {
        self.uniform
    }

    /// The map holds 32768 light values.
    pub closed spec fn wf(&self) -> bool {
        !self.uniform ==> self.data@.len() == SUBCHUNK_LENGTH
    }

    /// A map where every cell is fully lit.
    pub fn uniform_full() -> (r: LightMap)
        ensures
            r.wf(),
            r.is_uniform(),
            r@ == uniform_lights(Light::spec_full()),
    {
        LightMap { uniform: true, value: Light::full(), data: Vec::new() }
    }

    /// A map where every cell is dark.
    pub fn uniform_none() -> (r: LightMap)
        ensures
            r.wf(),
            r.is_uniform(),
            r@ == uniform_lights(Light::spec_none()),
    {
        LightMap { uniform: true, value: Light::none(), data: Vec::new() }
    }

    /// Reset the map to the uniform fully-lit state, releasing any owned
    /// buffer.
    pub fn set_uniform_full(&mut self)
        ensures
            final(self).wf(),
            final(self).is_uniform(),
            final(self)@ == uniform_lights(Light::spec_full()),
    {
        self.uniform = true;
        self.value = Light::full();
        self.data = Vec::new();
    }

    /// Reset the map to the uniform dark state, releasing any owned buffer.
    pub fn set_uniform_none(&mut self)
        ensures
            final(self).wf(),
            final(self).is_uniform(),
            final(self)@ == uniform_lights(Light::spec_none()),
    {
        self.uniform = true;
        self.value = Light::none();
        self.data = Vec::new();
    }

    /// Whether the map is still uniform: no per-cell buffer has been
    /// split off yet.
    pub fn uniform(&self) -> (r: bool)
        ensures
            r == self.is_uniform(),
    {
        self.uniform
    }

    /// The light value at `idx`, or `None` when `idx` is out of range.
    pub fn get(&self, idx: usize) -> (r: Option<Light>)
        requires
            self.wf(),
        ensures
            idx < SUBCHUNK_LENGTH ==> r == Some(self@[idx as int]),
            idx >= SUBCHUNK_LENGTH ==> r is None,
    {
        if idx < SUBCHUNK_LENGTH {
            Some(self.get_unchecked(idx))
        } else {
            None
        }
    }

    /// The light value at `idx`; the caller has already checked the range.
    pub fn get_unchecked(&self, idx: usize) -> (r: Light)
        requires
            self.wf(),
            idx < SUBCHUNK_LENGTH,
        ensures
            r == self@[idx as int],
    {
        if self.uniform {
            self.value
        } else {
            self.data[idx]
        }
    }

    /// Assign the light value at `idx`, returning the previous value, or
    /// `None` when `idx` is out of range.
    pub fn set(&mut self, idx: usize, light: Light) -> (r: Option<Light>)
        requires
            old(self).wf(),
        ensures
            final(self).wf(),
            idx < SUBCHUNK_LENGTH ==> r == Some(old(self)@[idx as int]) && final(self)@ == old(
                self,
            )@.update(idx as int, light),
            idx >= SUBCHUNK_LENGTH ==> r is None && *final(self) == *old(self),
            old(self).is_uniform() && light != old(self)@[0] && idx < SUBCHUNK_LENGTH
                ==> !final(self).is_uniform(),
            old(self).is_uniform() && light == old(self)@[0] ==> *final(self) == *old(self),
    {
        if idx < SUBCHUNK_LENGTH {
            Some(self.set_unchecked(idx, light))
        } else {
            None
        }
    }

    /// Assign the light value at `idx`, returning the previous value; the
    /// caller has already checked the range.
    ///
    /// On a uniform map, writing the uniform value itself is a no-op; writing
    /// any other value first clones the uniform contents into an owned buffer.
    pub fn set_unchecked(&mut self, idx: usize, light: Light) -> (r: Light)
        requires
            old(self).wf(),
            idx < SUBCHUNK_LENGTH,
        ensures
            final(self).wf(),
            r == old(self)@[idx as int],
            final(self)@ == old(self)@.update(idx as int, light),
            old(self).is_uniform() && light != old(self)@[0] ==> !final(self).is_uniform(),
            old(self).is_uniform() && light == old(self)@[0] ==> *final(self) == *old(self),
    {
        if self.uniform {
            if light == self.value {
                proof {
                    assert(self@ =~= old(self)@.update(idx as int, light));
                }
                light
            } else {
                let mut data: Vec<Light> = Vec::new();
                while data.len() < SUBCHUNK_LENGTH
                    invariant
                        data@.len() <= SUBCHUNK_LENGTH,
                        forall|i: int| 0 <= i < data@.len() ==> data@[i] == self.value,
                        self == old(self),
                    decreases SUBCHUNK_LENGTH - data.len(),
                {
                    data.push(self.value);
                }
                proof {
                    assert(old(self)@[idx as int] == self.value);
                }
                let prev = data[idx];
                data[idx] = light;
                self.uniform = false;
                self.data = data;
                proof {
                    assert(self@ =~= old(self)@.update(idx as int, light));
                }
                prev
            }
        } else {
            let prev = self.data[idx];
            self.data[idx] = light;
            proof {
                assert(self@ =~= old(self)@.update(idx as int, light));
            }
            prev
        }
    }
}

/// A uniform map reads the same record at every cell.
pub proof fn lemma_uniform_view(m: &LightMap)
    requires
        m.is_uniform(),
    ensures
        forall|i: int| 0 <= i < SUBCHUNK_LENGTH ==> #[trigger] m@[i] == m@[0],
{
}

/// A well-formed light map always views as exactly one subchunk of cells.
pub broadcast proof fn lemma_lightmap_view_len(m: LightMap)
    ensures
        m.wf() ==> (#[trigger] m@).len() == SUBCHUNK_LENGTH,
{
}

} // verus!
