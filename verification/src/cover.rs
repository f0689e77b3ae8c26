//! The summary of an archive: how many images it holds, and the one image
//! that stands for it.
//!
//! The names alone decide the count and the choice. Only the chosen entry is
//! decoded, whatever the size of the archive.

use crate::archive::ZipReader;
use crate::failure::{detail_text, is_refusal, Failure};
use crate::image::{
    cover_file_name, cover_name, extension, extension_of, image_names, is_smallest_image,
    select_cover,
};
use crate::path::{resolve, RelativePath};
use crate::text::names_of;
use vstd::prelude::*;
use vstd::string::*;

verus! {

/// The file that the image named `name` is saved as, for an archive shown
/// as `display_name`: the file's name and the place it resolves to below the
/// destination. There is none if the name has no extension, or if the file
/// name leaves the destination or names no file in it.
pub open spec fn cover_for(display_name: Seq<char>, name: Seq<char>) -> Option<
    (Seq<char>, Seq<Seq<char>>),
> {
    match extension_of(name) {
        None => None,
        Some(ext) => {
            let file = cover_name(display_name, ext);
            match resolve(file) {
                None => None,
                Some(target) => if target.len() == 0 {
                    None
                } else {
                    Some((file, target))
                },
            }
        },
    }
}

/// Why the image named `name` has no file to be saved as: the name has no
/// extension, or the file name leaves the destination, or it names no file
/// in it.
pub open spec fn cover_refusal(display_name: Seq<char>, name: Seq<char>) -> Seq<char> {
    match extension_of(name) {
        None => detail_text("Invalid file extension"@, name),
        Some(ext) => {
            let file = cover_name(display_name, ext);
            if resolve(file) is None {
                detail_text("entry name leaves the destination"@, file)
            } else {
                detail_text("cover file name names no file"@, file)
            }
        },
    }
}

/// The image chosen for an archive, before it is decoded.
#[derive(Debug, Clone, PartialEq, Eq)]
pub struct CoverChoice {
    /// Index of the chosen entry.
    pub index: usize,
    /// Name of the file to save it as.
    pub file_name: String,
    /// Where that file lies below the destination.
    pub target: RelativePath,
}

/// The image chosen for an archive, with its bytes.
#[derive(Debug, Clone, PartialEq, Eq)]
pub struct Cover {
    /// Index of the chosen entry.
    pub index: usize,
    /// Name of the file to save it as.
    pub file_name: String,
    /// Where that file lies below the destination.
    pub target: RelativePath,
    /// The decoded bytes of the entry.
    pub data: Vec<u8>,
}

/// What is known of an archive after a look at its names.
#[derive(Debug, Clone, PartialEq, Eq)]
pub struct Summary {
    /// How many entries are images.
    pub image_count: usize,
    /// The image that stands for the archive; none if it holds no image.
    pub cover: Option<Cover>,
}

/// Counts the images among `names` and chooses the cover: the image whose
/// name is smallest, saved under the display name with the image's own
/// extension. Without an image there is no cover. The call fails, with
/// invalid input, exactly when the smallest image has no file to be saved
/// as.
pub fn choose_cover(display_name: &str, names: &Vec<String>) -> (r: Result<
    (usize, Option<CoverChoice>),
    Failure,
>)
    ensures
        match r {
            Ok((count, None)) => count == 0 && image_names(names_of(names@)).len() == 0,
            Ok((count, Some(choice))) => {
                &&& count == image_names(names_of(names@)).len()
                &&& is_smallest_image(names_of(names@), choice.index as int)
                &&& cover_for(display_name@, names@[choice.index as int]@) == Some(
                    (choice.file_name@, choice.target@),
                )
            },
            Err(e) => exists|k: int|
                {
                    &&& is_smallest_image(names_of(names@), k)
                    &&& cover_for(display_name@, #[trigger] names@[k]@) is None
                    &&& is_refusal(e, cover_refusal(display_name@, names@[k]@))
                },
        },
{
    let (count, best) = select_cover(names);
    match best {
        None => Ok((count, None)),
        Some(k) => {
            let ext: String = match extension(names[k].as_str()) {
                Ok(ext) => ext,
                Err(e) => {
                    return Err(e);
                },
            };
            let file_name: String = cover_file_name(display_name, ext.as_str());
            match RelativePath::resolve(file_name.as_str()) {
                Err(e) => Err(e),
                Ok(target) => {
                    if target.is_root() {
                        Err(Failure::refused("cover file name names no file", file_name.as_str()))
                    } else {
                        Ok((count, Some(CoverChoice { index: k, file_name, target })))
                    }
                },
            }
        },
    }
}

/// Summarises an open archive: counts its images by name, chooses the
/// cover, and decodes that one entry.
///
/// An archive without images has the count zero and no cover, and nothing
/// is decoded. Otherwise the call fails with invalid input if the smallest
/// image has no file to be saved as, and reports the entry as corrupt if it
/// does not decode. The archive is left as it was.
pub fn summarize(display_name: &str, reader: &mut ZipReader) -> (r: Result<Summary, Failure>)
    ensures
        final(reader).entries() == old(reader).entries(),
        match r {
            Ok(summary) => {
                &&& summary.image_count == image_names(old(reader).names()).len()
                &&& match summary.cover {
                    None => summary.image_count == 0,
                    Some(cover) => {
                        &&& is_smallest_image(old(reader).names(), cover.index as int)
                        &&& cover_for(display_name@, old(reader).names()[cover.index as int])
                            == Some((cover.file_name@, cover.target@))
                        &&& old(reader).entries()[cover.index as int].1 == Some(cover.data@)
                    },
                }
            },
            Err(Failure::CorruptEntry { index, .. }) => {
                &&& is_smallest_image(old(reader).names(), index as int)
                &&& cover_for(display_name@, old(reader).names()[index as int]) is Some
                &&& old(reader).entries()[index as int].1 is None
            },
            Err(e) => exists|k: int|
                {
                    &&& is_smallest_image(old(reader).names(), k)
                    &&& cover_for(display_name@, #[trigger] old(reader).names()[k]) is None
                    &&& is_refusal(e, cover_refusal(display_name@, old(reader).names()[k]))
                },
        },
{
    let names = reader.entry_names();
    let (image_count, choice) = match choose_cover(display_name, &names) {
        Ok(pair) => pair,
        Err(e) => {
            proof {
                let k = choose|k: int|
                    {
                        &&& is_smallest_image(names_of(names@), k)
                        &&& cover_for(display_name@, #[trigger] names@[k]@) is None
                        &&& is_refusal(e, cover_refusal(display_name@, names@[k]@))
                    };
                assert(names@[k]@ == reader.names()[k]);
            }
            return Err(e);
        },
    };
    match choice {
        None => Ok(Summary { image_count, cover: None }),
        Some(chosen) => {
            assert(names@[chosen.index as int]@ == reader.names()[chosen.index as int]);
            let index: usize = chosen.index;
            match reader.read(index) {
                Ok(data) => Ok(
                    Summary {
                        image_count,
                        cover: Some(
                            Cover {
                                index,
                                file_name: chosen.file_name,
                                target: chosen.target,
                                data,
                            },
                        ),
                    },
                ),
                Err(e) => Err(e),
            }
        },
    }
}

} // verus!
