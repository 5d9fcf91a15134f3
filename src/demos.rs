use vstd::prelude::*;

verus! {

/// The prepared scenes that a user can load.
#[derive(Debug, Clone, Copy, PartialEq, Eq, Structural)]
pub enum Demo {
    NoDemo,
    LightProfile,
    SimpleInterferenceDemo,
    DoubleSlit,
    TripleSlit,
    UncoordinatedInterference,
    CoordinatedInterference,
}

impl Demo {
    /// The name shown in the scene list.
    pub fn label(&self) -> (r: &'static str)
        ensures
            r@ == match *self {
                Demo::NoDemo => "No demo"@,
                Demo::LightProfile => "Light profile demo"@,
                Demo::SimpleInterferenceDemo => "Simple interference demo"@,
                Demo::DoubleSlit => "Double slit demo"@,
                Demo::TripleSlit => "Triple slit demo"@,
                Demo::UncoordinatedInterference => "Uncoordinated interference demo"@,
                Demo::CoordinatedInterference => "Coordinated interference demo"@,
            },
    {
        match self {
            Demo::NoDemo => "No demo",
            Demo::LightProfile => "Light profile demo",
            Demo::SimpleInterferenceDemo => "Simple interference demo",
            Demo::DoubleSlit => "Double slit demo",
            Demo::TripleSlit => "Triple slit demo",
            Demo::UncoordinatedInterference => "Uncoordinated interference demo",
            Demo::CoordinatedInterference => "Coordinated interference demo",
        }
    }
}

} // verus!
