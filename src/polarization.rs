use vstd::prelude::*;

verus! {

/// The polarization state of a light source.
#[derive(Debug, Clone, Copy, PartialEq, Eq, Structural)]
pub enum LightPolarizationType {
    LinearHorizontal,
    LinearVertical,
    LinearDiagonal,
    LinearAntiDiagonal,
    CircularRightHand,
    CircularLeftHand,
    NotPolarized,
}

/// The kind of optical element that an optical object's Jones matrix
/// describes.
#[derive(Debug, Clone, Copy, PartialEq, Eq, Structural)]
pub enum PolarizerType {
    LinearHorizontal,
    LinearVertical,
    Linear45Degrees,
    LinearTheta,
    RightCircular,
    LeftCircular,
    QuarterWavePlateFastAxisVertical,
    QuarterWavePlateFastAxisHorizontal,
    QuarterWavePlateFastAxisTheta,
    HalfWavePlateRotatedTheta,
    HalfWavePlateFastAxisTheta,
    GeneralWavePlateLinearRetarderTheta,
    ArbitraryBirefringentMaterialTheta,
}

impl LightPolarizationType {
    /// The name shown in the polarization list.
    pub fn label(&self) -> (r: &'static str)
        ensures
            r@ == match *self {
                LightPolarizationType::LinearHorizontal => "Linear horizontal"@,
                LightPolarizationType::LinearVertical => "Linear vertical"@,
                LightPolarizationType::LinearDiagonal => "Linear rotated 45 degrees"@,
                LightPolarizationType::LinearAntiDiagonal => "Linear rotated θ degrees"@,
                LightPolarizationType::CircularRightHand => "Right circular"@,
                LightPolarizationType::CircularLeftHand => "Left circular"@,
                LightPolarizationType::NotPolarized => "Not polarized"@,
            },
    {
        match self {
            LightPolarizationType::LinearHorizontal => "Linear horizontal",
            LightPolarizationType::LinearVertical => "Linear vertical",
            LightPolarizationType::LinearDiagonal => "Linear rotated 45 degrees",
            LightPolarizationType::LinearAntiDiagonal => "Linear rotated θ degrees",
            LightPolarizationType::CircularRightHand => "Right circular",
            LightPolarizationType::CircularLeftHand => "Left circular",
            LightPolarizationType::NotPolarized => "Not polarized",
        }
    }
}

impl PolarizerType {
    /// The name shown in the polarizer list.
    pub fn label(&self) -> (r: &'static str)
        ensures
            r@ == match *self {
                PolarizerType::LinearHorizontal => "Linear horizontal"@,
                PolarizerType::LinearVertical => "Linear vertical"@,
                PolarizerType::Linear45Degrees => "Linear rotated 45 degrees"@,
                PolarizerType::LinearTheta => "Linear rotated θ degrees"@,
                PolarizerType::RightCircular => "Right circular"@,
                PolarizerType::LeftCircular => "Left circular"@,
                PolarizerType::QuarterWavePlateFastAxisVertical =>
                    "Quarter-wave plate with fast axis vertical"@,
                PolarizerType::QuarterWavePlateFastAxisHorizontal =>
                    "Quarter-wave plate with fast axis horizontal"@,
                PolarizerType::QuarterWavePlateFastAxisTheta =>
                    "Quarter-wave plate with fast axis at angle θ w.r.t the horizontal axis "@,
                PolarizerType::HalfWavePlateRotatedTheta => "Half-wave plate rotated by θ"@,
                PolarizerType::HalfWavePlateFastAxisTheta =>
                    "Half-wave plate with fast axis at angle θ w.r.t the horizontal axis"@,
                PolarizerType::GeneralWavePlateLinearRetarderTheta =>
                    "General Waveplate (Linear Phase Retarder)"@,
                PolarizerType::ArbitraryBirefringentMaterialTheta =>
                    "Arbitrary birefringent material (Elliptical phase retarder)"@,
            },
    {
        match self {
            PolarizerType::LinearHorizontal => "Linear horizontal",
            PolarizerType::LinearVertical => "Linear vertical",
            PolarizerType::Linear45Degrees => "Linear rotated 45 degrees",
            PolarizerType::LinearTheta => "Linear rotated θ degrees",
            PolarizerType::RightCircular => "Right circular",
            PolarizerType::LeftCircular => "Left circular",
            PolarizerType::QuarterWavePlateFastAxisVertical =>
                "Quarter-wave plate with fast axis vertical",
            PolarizerType::QuarterWavePlateFastAxisHorizontal =>
                "Quarter-wave plate with fast axis horizontal",
            PolarizerType::QuarterWavePlateFastAxisTheta =>
                "Quarter-wave plate with fast axis at angle θ w.r.t the horizontal axis ",
            PolarizerType::HalfWavePlateRotatedTheta => "Half-wave plate rotated by θ",
            PolarizerType::HalfWavePlateFastAxisTheta =>
                "Half-wave plate with fast axis at angle θ w.r.t the horizontal axis",
            PolarizerType::GeneralWavePlateLinearRetarderTheta =>
                "General Waveplate (Linear Phase Retarder)",
            PolarizerType::ArbitraryBirefringentMaterialTheta =>
                "Arbitrary birefringent material (Elliptical phase retarder)",
        }
    }
}

} // verus!
