//! Why a configuration is rejected.

use vstd::prelude::*;

verus! {

/// A parameter that no scene, camera or image can be built from.
#[derive(Clone, Copy, Debug, PartialEq, Eq, Structural)]
pub enum ConfigError {
    /// A sphere's radius is zero or negative.
    NonPositiveRadius,
    /// A sphere's radius exceeds the coordinate limit.
    RadiusOutOfRange,
    /// A refractive index is zero or negative.
    NonPositiveRefractiveIndex,
    /// A refractive index is positive but outside the supported range.
    RefractiveIndexOutOfRange,
    /// An albedo channel is negative or greater than one.
    AlbedoOutOfRange,
    /// The image is at most one pixel wide.
    WidthTooSmall,
    /// The image has no row.
    HeightTooSmall,
    /// The image has more rows than can be counted.
    ImageTooLarge,
    /// No sample is taken per pixel.
    NoSamples,
    /// More samples are taken per pixel than their sum has room for.
    TooManySamples,
    /// The aspect ratio is zero or negative.
    NonPositiveAspectRatio,
    /// The field of view is zero or negative.
    NonPositiveFieldOfView,
    /// The camera looks at its own position, or along its up vector.
    DegenerateCamera,
    /// The camera's viewport reaches beyond the coordinate limit.
    CameraOutOfRange,
}

impl ConfigError {
    /// The sentence that says what was wrong.
    pub open spec fn sentence(self) -> Seq<char> {
        match self {
            ConfigError::NonPositiveRadius => "the radius of a sphere must be positive"@,
            ConfigError::RadiusOutOfRange => "the radius of a sphere exceeds the coordinate limit"@,
            ConfigError::NonPositiveRefractiveIndex => "a refractive index must be positive"@,
            ConfigError::RefractiveIndexOutOfRange =>
                "a refractive index must lie between 1/2048 and 2048"@,
            ConfigError::AlbedoOutOfRange => "every albedo channel must lie between 0 and 1"@,
            ConfigError::WidthTooSmall => "the image must be at least two pixels wide"@,
            ConfigError::HeightTooSmall => "the image must have at least one row"@,
            ConfigError::ImageTooLarge => "the image has too many rows"@,
            ConfigError::NoSamples => "at least one sample per pixel is needed"@,
            ConfigError::TooManySamples => "at most 16384 samples per pixel can be summed"@,
            ConfigError::NonPositiveAspectRatio => "the aspect ratio must be positive"@,
            ConfigError::NonPositiveFieldOfView => "the field of view must be positive"@,
            ConfigError::DegenerateCamera =>
                "the camera must look away from its position and not along its up vector"@,
            ConfigError::CameraOutOfRange => "the viewport exceeds the coordinate limit"@,
        }
    }

    /// A sentence that says what was wrong.
    pub fn message(&self) -> (r: &'static str)
        ensures
            r@ == self.sentence(),
    {
        match self {
            ConfigError::NonPositiveRadius => "the radius of a sphere must be positive",
            ConfigError::RadiusOutOfRange => "the radius of a sphere exceeds the coordinate limit",
            ConfigError::NonPositiveRefractiveIndex => "a refractive index must be positive",
            ConfigError::RefractiveIndexOutOfRange =>
                "a refractive index must lie between 1/2048 and 2048",
            ConfigError::AlbedoOutOfRange => "every albedo channel must lie between 0 and 1",
            ConfigError::WidthTooSmall => "the image must be at least two pixels wide",
            ConfigError::HeightTooSmall => "the image must have at least one row",
            ConfigError::ImageTooLarge => "the image has too many rows",
            ConfigError::NoSamples => "at least one sample per pixel is needed",
            ConfigError::TooManySamples => "at most 16384 samples per pixel can be summed",
            ConfigError::NonPositiveAspectRatio => "the aspect ratio must be positive",
            ConfigError::NonPositiveFieldOfView => "the field of view must be positive",
            ConfigError::DegenerateCamera =>
                "the camera must look away from its position and not along its up vector",
            ConfigError::CameraOutOfRange => "the viewport exceeds the coordinate limit",
        }
    }
}

} // verus!
