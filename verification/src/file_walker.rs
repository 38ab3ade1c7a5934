//! Which entries of a directory walk are images to scan.

use vstd::prelude::*;

verus! {

/// The top-level media types (such as `image` in `image/png`) that
/// `mime_guess` guesses for a path from its extension.
pub uninterp spec fn mime_top_levels(path: Seq<char>) -> Seq<Seq<char>>;

/// Calls `mime_guess::from_path` and returns the top-level type of each
/// guessed media type, in the crate's order. The contract names the result
/// and claims that it depends on the path alone.
#[verifier::external_body]
fn guessed_top_levels(path: &str) -> (types: Vec<String>)
    ensures
        types@.map_values(|t: String| t@) == mime_top_levels(path@),
{
    mime_guess::from_path(path).iter().map(|m| m.type_().as_str().to_string()).collect()
}

/// One of the top-level types is `image`.
pub open spec fn includes_image(types: Seq<Seq<char>>) -> bool {
    exists|i: int| 0 <= i < types.len() && types[i] == "image"@
}

/// Whether one of the given top-level media types is `image`.
pub fn has_image_type(types: &Vec<String>) -> (found: bool)
    ensures
        found == includes_image(types@.map_values(|t: String| t@)),
{
    let ghost views = types@.map_values(|t: String| t@);
    let image = "image".to_owned();
    let mut i: usize = 0;
    while i < types.len()
        invariant
            views == types@.map_values(|t: String| t@),
            image@ == "image"@,
            i <= types@.len(),
            forall|j: int| 0 <= j < i ==> views[j] != "image"@,
        decreases types@.len() - i,
    {
        if types[i] == image {
            assert(views[i as int] == "image"@);
            return true;
        }
        i += 1;
    }
    false
}

/// A media type guessed for the path from its extension is an image type.
pub fn is_image_path(path: &str) -> (image: bool)
    ensures
        image == includes_image(mime_top_levels(path@)),
{
    let types = guessed_top_levels(path);
    has_image_type(&types)
}

/// The walk descends into the entry, and reports it when it is a file: the
/// extension, if any, is none of Lightroom's `lrdata`, `lrcat` and
/// `lrcat-data`.
pub fn skip_lightroom(extension: Option<&str>) -> (keep: bool)
    ensures
        keep == match extension {
            Some(e) => e@ != "lrdata"@ && e@ != "lrcat"@ && e@ != "lrcat-data"@,
            None => true,
        },
{
    match extension {
        Some(e) => {
            let e = e.to_owned();
            e != "lrdata".to_owned() && e != "lrcat".to_owned() && e != "lrcat-data".to_owned()
        },
        None => true,
    }
}

/// A walked entry is reported as an image: it is not known to be a
/// directory (an entry whose metadata could not be read counts as none),
/// and its path guesses as an image type.
pub fn is_image_file(is_dir: Option<bool>, path: &str) -> (report: bool)
    ensures
        report == (is_dir != Some(true) && includes_image(mime_top_levels(path@))),
{
    let dir = match is_dir {
        Some(d) => d,
        None => false,
    };
    !dir && is_image_path(path)
}

/// The roots to walk: the given ones, or the current directory when none
/// is given.
pub fn walk_roots(roots: &Vec<String>) -> (walked: Vec<String>)
    ensures
        roots@.len() == 0 ==> walked@.map_values(|r: String| r@) == seq!["."@],
        roots@.len() > 0 ==> walked@.map_values(|r: String| r@) == roots@.map_values(|r: String| r@),
{
    let mut walked: Vec<String> = Vec::new();
    if roots.len() == 0 {
        walked.push(".".to_owned());
        assert(walked@.map_values(|r: String| r@) =~= seq!["."@]);
        return walked;
    }
    let mut i: usize = 0;
    while i < roots.len()
        invariant
            i <= roots@.len(),
            walked@.map_values(|r: String| r@) =~= roots@.map_values(|r: String| r@).take(i as int),
        decreases roots@.len() - i,
    {
        let ghost before = walked@;
        walked.push(roots[i].clone());
        assert(walked@.map_values(|r: String| r@) =~= before.map_values(|r: String| r@).push(roots@[i as int]@));
        i += 1;
    }
    assert(roots@.map_values(|r: String| r@).take(i as int) =~= roots@.map_values(|r: String| r@));
    walked
}

} // verus!
