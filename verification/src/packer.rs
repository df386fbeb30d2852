//! The packer's configuration surface: directory, accepted formats, border,
//! output name and verbosity, set up before a run. The surrounding
//! application reads these fields to drive discovery, decoding and saving;
//! the packing itself runs through the placement, slicing and compositing
//! functions of this library.

use vstd::prelude::*;
use vstd::string::StringExecFns;

verus! {

/// Configuration of one packing tool instance.
pub struct ImagePacker {
    pub cli: bool,
    pub dir_name: String,
    pub supported_formats: Vec<String>,
    pub print_output: bool,
    pub border: u32,
    pub save_name: String,
}

impl ImagePacker {
    /// A packer with the default configuration: images are read from
    /// `packer/images/` (or the given directory), only `png` is accepted,
    /// no border, quiet output, saving to `packed_image.png`.
    pub fn new(dir: Option<String>) -> (r: ImagePacker)
        ensures
            r.cli == false,
            r.print_output == false,
            r.border == 0,
            r.save_name@ == "packed_image.png"@,
            r.supported_formats@.len() == 1,
            r.supported_formats@[0]@ == "png"@,
            match dir {
                Some(d) => r.dir_name == d,
                None => r.dir_name@ == "packer/images/"@,
            },
    {
        let name: String = match dir {
            None => String::from_str("packer/images/"),
            Some(d) => d,
        };
        let mut formats: Vec<String> = Vec::new();
        formats.push(String::from_str("png"));
        ImagePacker {
            cli: false,
            dir_name: name,
            supported_formats: formats,
            print_output: false,
            border: 0,
            save_name: String::from_str("packed_image.png"),
        }
    }

    /// Replaces the image directory; everything else is unchanged.
    pub fn set_directory(&mut self, dir: String)
        ensures
            final(self).dir_name == dir,
            final(self).cli == old(self).cli,
            final(self).supported_formats == old(self).supported_formats,
            final(self).print_output == old(self).print_output,
            final(self).border == old(self).border,
            final(self).save_name == old(self).save_name,
    {
        self.dir_name = dir;
    }

    /// Replaces the inter-image border; everything else is unchanged.
    pub fn set_border(&mut self, new_border: u8)
        ensures
            final(self).border == new_border as u32,
            final(self).cli == old(self).cli,
            final(self).dir_name == old(self).dir_name,
            final(self).supported_formats == old(self).supported_formats,
            final(self).print_output == old(self).print_output,
            final(self).save_name == old(self).save_name,
    {
        self.border = new_border as u32;
    }

    /// Appends one accepted file extension; everything else is unchanged.
    pub fn add_supported_format(&mut self, fmt: String)
        ensures
            final(self).supported_formats@ == old(self).supported_formats@.push(fmt),
            final(self).cli == old(self).cli,
            final(self).dir_name == old(self).dir_name,
            final(self).print_output == old(self).print_output,
            final(self).border == old(self).border,
            final(self).save_name == old(self).save_name,
    {
        self.supported_formats.push(fmt);
    }

    /// Switches progress printing on or off; everything else is unchanged.
    pub fn set_print_output(&mut self, b: bool)
        ensures
            final(self).print_output == b,
            final(self).cli == old(self).cli,
            final(self).dir_name == old(self).dir_name,
            final(self).supported_formats == old(self).supported_formats,
            final(self).border == old(self).border,
            final(self).save_name == old(self).save_name,
    {
        self.print_output = b;
    }

    /// Replaces the output file name; everything else is unchanged.
    pub fn set_file_save_name(&mut self, f_name: String)
        ensures
            final(self).save_name == f_name,
            final(self).cli == old(self).cli,
            final(self).dir_name == old(self).dir_name,
            final(self).supported_formats == old(self).supported_formats,
            final(self).print_output == old(self).print_output,
            final(self).border == old(self).border,
    {
        self.save_name = f_name;
    }

    /// Whether progress printing is on.
    pub fn get_print_output(&self) -> (b: bool)
        ensures
            b == self.print_output,
    {
        self.print_output
    }
}

} // verus!
