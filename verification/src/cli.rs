use vstd::prelude::*;

verus! {

/// Container for the command-line arguments the spritesheet pipeline is
/// driven by, as plain values: the argument parser at the program's edge
/// fills one in and hands it over.
pub struct Cli {
    /// A directory of vector images to include in the spritesheet.
    pub input: String,
    /// Name of the file in which to save the spritesheet.
    pub output: String,
    /// The output pixel ratio.
    pub ratio: u8,
    /// Set the pixel ratio to 2.
    pub retina: bool,
    /// Store only unique images, mapping every name to one of them.
    pub unique: bool,
    /// Include images in sub-directories.
    pub recursive: bool,
    /// Pixel spacing kept between sprites.
    pub spacing: u8,
    /// Remove whitespace from the index file.
    pub minify_index_file: bool,
    /// Output only the geometric fields to the index file.
    pub simple_index_file: bool,
    /// Build a signed-distance-field spritesheet.
    pub sdf: bool,
}

impl Cli {
    /// The pixel ratio the arguments ask for: the retina shorthand means 2,
    /// anything else defers to the explicit ratio.
    pub fn pixel_ratio(&self) -> (r: u8)
        ensures
            r == if self.retina {
                2u8
            } else {
                self.ratio
            },
    {
        if self.retina {
            2
        } else {
            self.ratio
        }
    }
}

} // verus!
