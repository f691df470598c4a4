//! The catalogue of drawing methods: each method has a stable backend id
//! and a display name. The generators themselves are pure producers of
//! `sample_xy` / `raise_pen` events against a drawing surface and live with
//! the caller; the parameter types whose fields the core reads are here.

use vstd::prelude::*;

verus! {

/// Marker trait for the parameter bundle of a drawing method.
pub trait DrawParameters {

}

/// Parameters of the lines method.
#[derive(Debug, Clone, Copy, PartialEq, Eq)]
pub struct LinesParameters {
    /// How many horizontal passes to draw down the page.
    pub num_lines: u32,
    /// The margin kept free on either side, in millimetres.
    pub horizontal_margin: u32,
}

impl DrawParameters for LinesParameters {

}

/// Parameters of the custom (plugin-driven) method.
#[derive(Debug, Clone, PartialEq, Eq)]
pub struct CustomParameters {
    /// Where the plugin file stands on disk.
    pub plugin_path: String,
    /// The plugin's own parameters, serialised as JSON.
    pub plugin_parameters_json: String,
}

impl DrawParameters for CustomParameters {

}

/// The atom drawing method.
pub struct AtomMethod;

impl AtomMethod {
    /// The backend id of the method.
    pub fn get_id(&self) -> (r: &'static str)
        ensures
            r@ == "atom"@,
    {
        "atom"
    }

    /// The display name of the method.
    pub fn get_formatted_name(&self) -> (r: &'static str)
        ensures
            r@ == "Atom"@,
    {
        "Atom"
    }
}

/// The bubbles drawing method.
pub struct BubblesMethod;

impl BubblesMethod {
    /// The backend id of the method.
    pub fn get_id(&self) -> (r: &'static str)
        ensures
            r@ == "bubbles"@,
    {
        "bubbles"
    }

    /// The display name of the method.
    pub fn get_formatted_name(&self) -> (r: &'static str)
        ensures
            r@ == "Bubbles"@,
    {
        "Bubbles"
    }
}

/// The cascade drawing method.
pub struct CascadeMethod;

impl CascadeMethod {
    /// The backend id of the method.
    pub fn get_id(&self) -> (r: &'static str)
        ensures
            r@ == "cascade"@,
    {
        "cascade"
    }

    /// The display name of the method.
    pub fn get_formatted_name(&self) -> (r: &'static str)
        ensures
            r@ == "Cascade"@,
    {
        "Cascade"
    }
}

/// The custom, plugin-driven drawing method.
pub struct CustomMethod;

impl CustomMethod {
    /// The backend id of the method.
    pub fn get_id(&self) -> (r: &'static str)
        ensures
            r@ == "custom"@,
    {
        "custom"
    }

    /// The display name of the method.
    pub fn get_formatted_name(&self) -> (r: &'static str)
        ensures
            r@ == "Custom"@,
    {
        "Custom"
    }
}

/// The dunes drawing method.
pub struct DunesMethod;

impl DunesMethod {
    /// The backend id of the method.
    pub fn get_id(&self) -> (r: &'static str)
        ensures
            r@ == "dunes"@,
    {
        "dunes"
    }

    /// The display name of the method.
    pub fn get_formatted_name(&self) -> (r: &'static str)
        ensures
            r@ == "Dunes"@,
    {
        "Dunes"
    }
}

/// The entropy drawing method.
pub struct EntropyMethod;

impl EntropyMethod {
    /// The backend id of the method.
    pub fn get_id(&self) -> (r: &'static str)
        ensures
            r@ == "entropy"@,
    {
        "entropy"
    }

    /// The display name of the method.
    pub fn get_formatted_name(&self) -> (r: &'static str)
        ensures
            r@ == "Entropy"@,
    {
        "Entropy"
    }
}

/// The islands drawing method.
pub struct IslandsMethod;

impl IslandsMethod {
    /// The backend id of the method.
    pub fn get_id(&self) -> (r: &'static str)
        ensures
            r@ == "islands"@,
    {
        "islands"
    }

    /// The display name of the method.
    pub fn get_formatted_name(&self) -> (r: &'static str)
        ensures
            r@ == "Islands"@,
    {
        "Islands"
    }
}

/// The lines drawing method.
pub struct LinesMethod;

impl LinesMethod {
    /// The backend id of the method.
    pub fn get_id(&self) -> (r: &'static str)
        ensures
            r@ == "lines"@,
    {
        "lines"
    }

    /// The display name of the method.
    pub fn get_formatted_name(&self) -> (r: &'static str)
        ensures
            r@ == "Lines"@,
    {
        "Lines"
    }
}

/// The links drawing method.
pub struct LinksMethod;

impl LinksMethod {
    /// The backend id of the method.
    pub fn get_id(&self) -> (r: &'static str)
        ensures
            r@ == "links"@,
    {
        "links"
    }

    /// The display name of the method.
    pub fn get_formatted_name(&self) -> (r: &'static str)
        ensures
            r@ == "Links"@,
    {
        "Links"
    }
}

/// The scribble drawing method.
pub struct ScribbleMethod;

impl ScribbleMethod {
    /// The backend id of the method.
    pub fn get_id(&self) -> (r: &'static str)
        ensures
            r@ == "scribble"@,
    {
        "scribble"
    }

    /// The display name of the method.
    pub fn get_formatted_name(&self) -> (r: &'static str)
        ensures
            r@ == "Scribbles"@,
    {
        "Scribbles"
    }
}

/// The shades drawing method.
pub struct ShadesMethod;

impl ShadesMethod {
    /// The backend id of the method.
    pub fn get_id(&self) -> (r: &'static str)
        ensures
            r@ == "shades"@,
    {
        "shades"
    }

    /// The display name of the method.
    pub fn get_formatted_name(&self) -> (r: &'static str)
        ensures
            r@ == "Shades"@,
    {
        "Shades"
    }
}

/// The vinyl drawing method.
pub struct VinylMethod;

impl VinylMethod {
    /// The backend id of the method.
    pub fn get_id(&self) -> (r: &'static str)
        ensures
            r@ == "vinyl"@,
    {
        "vinyl"
    }

    /// The display name of the method.
    pub fn get_formatted_name(&self) -> (r: &'static str)
        ensures
            r@ == "Vinyl"@,
    {
        "Vinyl"
    }
}

/// The waves drawing method.
pub struct WavesMethod;

impl WavesMethod {
    /// The backend id of the method.
    pub fn get_id(&self) -> (r: &'static str)
        ensures
            r@ == "waves"@,
    {
        "waves"
    }

    /// The display name of the method.
    pub fn get_formatted_name(&self) -> (r: &'static str)
        ensures
            r@ == "Waves"@,
    {
        "Waves"
    }
}

} // verus!
