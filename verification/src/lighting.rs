//! The lighting presets the server can name; how each looks is up to the
//! clients.
use vstd::prelude::*;

verus! {

/// `name` is one of the presets: `bright`, `dim` or `dark`.
pub open spec fn is_light_preset(name: Seq<char>) -> bool {
    name == "bright"@ || name == "dim"@ || name == "dark"@
}

/// The preset called `name`, if there is one.
pub fn light_preset_from_str(name: &str) -> (preset: Option<&'static str>)
    ensures
        preset is Some <==> is_light_preset(name@),
        preset matches Some(p) ==> p@ == name@,
{
    let given = name.to_owned();
    let bright: &'static str = "bright";
    let dim: &'static str = "dim";
    let dark: &'static str = "dark";
    if given == bright.to_owned() {
        Some(bright)
    } else if given == dim.to_owned() {
        Some(dim)
    } else if given == dark.to_owned() {
        Some(dark)
    } else {
        None
    }
}

} // verus!
