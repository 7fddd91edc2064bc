use vstd::prelude::*;

verus! {

/// The stereo output node: its two signal inlets go to the main audio bus.
#[derive(Clone, Copy, Debug, Default, PartialEq, Eq)]
pub struct DacS;

/// Audio configuration of [`DacS`].
#[derive(Clone, Copy, Debug, Default, PartialEq, Eq)]
pub struct DacSConfig;

/// Audio configuration of the signal clipper.
#[derive(Clone, Copy, Debug, Default, PartialEq, Eq)]
pub struct ClipSConfig;

/// Audio configuration of the signal multiplier.
#[derive(Clone, Copy, Debug, Default, PartialEq, Eq)]
pub struct MultSConfig;

/// Audio configuration of the noise generator.
#[derive(Clone, Copy, Debug, Default, PartialEq, Eq)]
pub struct NoiseSConfig;

/// Audio configuration of the oscillator.
#[derive(Clone, Copy, Debug, Default, PartialEq, Eq)]
pub struct OscSConfig;

/// Audio configuration of the phasor.
#[derive(Clone, Copy, Debug, Default, PartialEq, Eq)]
pub struct PhasorSConfig;

/// Audio configuration of the envelope line.
#[derive(Clone, Copy, Debug, Default, PartialEq, Eq)]
pub struct VlineSConfig;

/// Audio configuration of the signal selector.
#[derive(Clone, Copy, Debug, Default, PartialEq, Eq)]
pub struct SelectConfig;

} // verus!
