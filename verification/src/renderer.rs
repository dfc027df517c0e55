//! Which backend a renderer runs on.

use vstd::prelude::*;

verus! {

/// Which backend a renderer runs on.
#[derive(Debug, Clone, Copy, PartialEq, Eq, Structural, Hash)]
#[non_exhaustive]
pub enum Backend {
    /// Hardware rendering through wgpu.
    Wgpu,
    /// Software rendering through tiny-skia.
    TinySkia,
}

impl Backend {
    /// The backend's name as it is displayed: `wgpu` or `tiny-skia`.
    pub fn name(self) -> (name: &'static str)
        ensures
            self == Backend::Wgpu ==> name@ == "wgpu"@,
            self == Backend::TinySkia ==> name@ == "tiny-skia"@,
    {
        match self {
            Backend::Wgpu => "wgpu",
            Backend::TinySkia => "tiny-skia",
        }
    }

    /// The string form of [`Backend::name`].
    pub fn to_string(self) -> (text: String)
        ensures
            self == Backend::Wgpu ==> text@ == "wgpu"@,
            self == Backend::TinySkia ==> text@ == "tiny-skia"@,
    {
        String::from_str(self.name())
    }
}

} // verus!
