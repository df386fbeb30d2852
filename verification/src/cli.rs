//! Applies already-parsed command-line options to a packer configuration.
//! Reading the actual command line is the surrounding application's job; the
//! rules for how each option changes the configuration live here, verified.

use vstd::prelude::*;
use vstd::string::StringExecFns;

use crate::packer::ImagePacker;

verus! {

/// The extensions that are kept when the user lists extra formats: every one
/// except `png`, which is always accepted anyway, in the order given.
pub open spec fn non_png(s: Seq<String>) -> Seq<String>
    decreases s.len(),
{
    if s.len() == 0 {
        Seq::<String>::empty()
    } else {
        let rest = non_png(s.drop_last());
        if s.last()@ == "png"@ {
            rest
        } else {
            rest.push(s.last())
        }
    }
}

/// Applies the parsed command-line options: marks the packer as driven from
/// the command line, replaces the save name and directory when given, keeps
/// every listed extension but `png`, and raises the border and verbosity
/// only when asked.
pub fn cli_parse(
    image_packer: &mut ImagePacker,
    file_name: Option<String>,
    verbose: bool,
    border: u8,
    dir_name: Option<String>,
    extensions: Vec<String>,
)
    ensures
        final(image_packer).cli == true,
        match file_name {
            Some(f) => final(image_packer).save_name == f,
            None => final(image_packer).save_name == old(image_packer).save_name,
        },
        match dir_name {
            Some(d) => final(image_packer).dir_name == d,
            None => final(image_packer).dir_name == old(image_packer).dir_name,
        },
        final(image_packer).supported_formats@ == old(image_packer).supported_formats@ + non_png(
            extensions@,
        ),
        final(image_packer).border == if border > 0 {
            border as u32
        } else {
            old(image_packer).border
        },
        final(image_packer).print_output == (old(image_packer).print_output || verbose),
{
    image_packer.cli = true;
    match file_name {
        Some(f) => image_packer.set_file_save_name(f),
        None => {},
    }
    match dir_name {
        Some(d) => image_packer.set_directory(d),
        None => {},
    }
    let ghost fmts0 = image_packer.supported_formats@;
    let ghost save0 = image_packer.save_name;
    let ghost dir0 = image_packer.dir_name;
    let ghost print0 = image_packer.print_output;
    let ghost border0 = image_packer.border;
    let png: String = String::from_str("png");
    let mut i: usize = 0;
    while i < extensions.len()
        invariant
            0 <= i <= extensions.len(),
            png@ == "png"@,
            image_packer.supported_formats@ == fmts0 + non_png(extensions@.take(i as int)),
            image_packer.cli == true,
            image_packer.save_name == save0,
            image_packer.dir_name == dir0,
            image_packer.print_output == print0,
            image_packer.border == border0,
        decreases extensions.len() - i,
    {
        let e = extensions[i].clone();
        proof {
            let t = extensions@.take(i as int + 1);
            assert(t.drop_last() =~= extensions@.take(i as int));
            assert(t.last() == extensions@[i as int]);
        }
        if e == png {
            proof {
                assert(extensions@[i as int]@ == "png"@);
            }
        } else {
            image_packer.add_supported_format(e);
            proof {
                assert(fmts0 + non_png(extensions@.take(i as int)).push(extensions@[i as int])
                    =~= (fmts0 + non_png(extensions@.take(i as int))).push(
                    extensions@[i as int],
                ));
            }
        }
        i = i + 1;
    }
    proof {
        assert(extensions@.take(extensions@.len() as int) =~= extensions@);
    }
    if border > 0 {
        image_packer.set_border(border);
    }
    if verbose {
        image_packer.set_print_output(true);
    }
}

} // verus!
