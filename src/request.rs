//! The decisions behind each request of the browsing server.

use vstd::prelude::*;
use crate::etag::{
    etag_for, etag_of, fingerprint_text, is_lower_hex, lemma_tag_names_itself, precondition_holds,
    precondition_matches, sha256_hex,
};
use crate::store::{DupGroups, ImgInfo, ImgView};

verus! {

/// Which coordinate of an address is out of range.
#[derive(Clone, Copy, PartialEq, Eq, Debug, Structural)]
pub enum AddressError {
    InvalidGroup,
    InvalidImage,
}

impl AddressError {
    /// The text sent with a "not found" answer.
    pub fn message(&self) -> (r: String)
        ensures
            *self == AddressError::InvalidGroup ==> r@ == "Invalid group index"@,
            *self == AddressError::InvalidImage ==> r@ == "Invalid image index"@,
    {
        match self {
            AddressError::InvalidGroup => String::from_str("Invalid group index"),
            AddressError::InvalidImage => String::from_str("Invalid image index"),
        }
    }
}

/// What is wrong with the address `(g, i)` in `gs`, if anything.
pub open spec fn address_error(gs: Seq<Seq<ImgView>>, g: int, i: int) -> Option<AddressError> {
    if !(0 <= g < gs.len()) {
        Some(AddressError::InvalidGroup)
    } else if !(0 <= i < gs[g].len()) {
        Some(AddressError::InvalidImage)
    } else {
        None
    }
}

impl DupGroups {
    /// The image at an address, or which coordinate is out of range.
    pub fn resolve(&self, group_idx: usize, image_idx: usize) -> (r: Result<&ImgInfo, AddressError>)
        ensures
            match address_error(self@, group_idx as int, image_idx as int) {
                Some(e) => r == Err::<&ImgInfo, AddressError>(e),
                None => r matches Ok(img) && img@ == self@[group_idx as int][image_idx as int],
            },
    {
        if group_idx >= self.groups.len() {
            return Err(AddressError::InvalidGroup);
        }
        match self.get_image(group_idx, image_idx) {
            Some(img) => Ok(img),
            None => Err(AddressError::InvalidImage),
        }
    }
}

/// What the page of one group shows.
#[derive(Clone, Copy, PartialEq, Eq, Debug, Structural)]
pub enum GroupPage {
    /// The report holds no groups at all.
    NoGroups,
    /// The index is out of range: go to the first group.
    ToFirst,
    /// The group at `group_idx`, and whether a group follows it.
    Show { group_idx: usize, has_next: bool },
}

/// Decides what the page of the group at `group_idx` shows.
pub fn plan_group(store: &DupGroups, group_idx: usize) -> (r: GroupPage)
    ensures
        store@.len() == 0 ==> r == GroupPage::NoGroups,
        store@.len() > 0 && group_idx >= store@.len() ==> r == GroupPage::ToFirst,
        group_idx < store@.len() ==> r == (GroupPage::Show {
            group_idx,
            has_next: group_idx + 1 < store@.len(),
        }),
{
    let n = store.num_groups();
    if n == 0 {
        GroupPage::NoGroups
    } else if group_idx >= n {
        GroupPage::ToFirst
    } else {
        GroupPage::Show { group_idx, has_next: group_idx < n - 1 }
    }
}

/// The first media type registered for the extension of `path`, if any.
pub uninterp spec fn mime_of(path: Seq<char>) -> Option<Seq<char>>;


/// Relies on mime_guess::from_path and MimeGuess::first_raw: the first media
/// type known for the path's extension, looked up in a fixed table.
#[verifier::external_body]
fn guess_mime(path: &str) -> (r: Option<String>)
    ensures
        r matches Some(m) ==> mime_of(path@) == Some(m@),
        r is None ==> mime_of(path@) is None,
{
    mime_guess::from_path(path).first_raw().map(|m| m.to_string())
}

/// The media type sent with an image: the one registered for its extension, or
/// `application/octet-stream`.
pub open spec fn content_type_of(path: Seq<char>) -> Seq<char> {
    match mime_of(path) {
        Some(m) => m,
        None => "application/octet-stream"@,
    }
}

/// Builds `content_type_of`.
pub fn content_type_for(path: &str) -> (r: String)
    ensures
        r@ == content_type_of(path@),
{
    match guess_mime(path) {
        Some(m) => m,
        None => String::from_str("application/octet-stream"),
    }
}

/// The answer to a fetch of an image, before its file is opened.
#[derive(Debug)]
pub enum ImageStep {
    /// The address is out of range.
    NotFound(AddressError),
    /// The client holds the current version: send the headers and no body.
    NotModified { etag: String, content_type: String },
    /// Send the file at `path`, relative to the report's directory.
    Send { path: String, etag: String, content_type: String },
}

/// The mathematical value of an [`ImageStep`].
pub enum ImageAnswer {
    NotFound(AddressError),
    NotModified { etag: Seq<char>, content_type: Seq<char> },
    Send { path: Seq<char>, etag: Seq<char>, content_type: Seq<char> },
}

impl View for ImageStep {
    type V = ImageAnswer;

    open spec fn view(&self) -> ImageAnswer {
        match self {
            ImageStep::NotFound(e) => ImageAnswer::NotFound(*e),
            ImageStep::NotModified { etag, content_type } => ImageAnswer::NotModified {
                etag: etag@,
                content_type: content_type@,
            },
            ImageStep::Send { path, etag, content_type } => ImageAnswer::Send {
                path: path@,
                etag: etag@,
                content_type: content_type@,
            },
        }
    }
}

/// The answer to a fetch of the image at `(g, i)` of `gs` for the report
/// directory `base`, with the client's `If-None-Match` value, if it sent one.
pub open spec fn image_answer(
    gs: Seq<Seq<ImgView>>,
    base: Seq<char>,
    g: nat,
    i: nat,
    if_none_match: Option<Seq<char>>,
) -> ImageAnswer {
    match address_error(gs, g as int, i as int) {
        Some(e) => ImageAnswer::NotFound(e),
        None => {
            let img = gs[g as int][i as int];
            let tag = etag_of(base, g, i, img.path);
            let ct = content_type_of(img.path);
            if if_none_match matches Some(h) && precondition_matches(h, tag) {
                ImageAnswer::NotModified { etag: tag, content_type: ct }
            } else {
                ImageAnswer::Send { path: img.path, etag: tag, content_type: ct }
            }
        },
    }
}

/// The view of an optional header value.
pub open spec fn opt_view(h: Option<&str>) -> Option<Seq<char>> {
    match h {
        Some(s) => Some(s@),
        None => None,
    }
}

/// Decides how to answer a fetch of the image at `(group_idx, image_idx)`.
pub fn plan_image(
    store: &DupGroups,
    base: &str,
    group_idx: usize,
    image_idx: usize,
    if_none_match: Option<&str>,
) -> (r: ImageStep)
    ensures
        r@ == image_answer(store@, base@, group_idx as nat, image_idx as nat, opt_view(if_none_match)),
{
    let img = match store.resolve(group_idx, image_idx) {
        Err(e) => return ImageStep::NotFound(e),
        Ok(img) => img,
    };
    let etag = etag_for(base, group_idx, image_idx, img.path.as_str());
    let content_type = content_type_for(img.path.as_str());
    let fresh = match if_none_match {
        Some(h) => precondition_holds(h, etag.as_str()),
        None => false,
    };
    if fresh {
        ImageStep::NotModified { etag, content_type }
    } else {
        ImageStep::Send { path: img.path.clone(), etag, content_type }
    }
}

/// Decides what a quarantine request moves: the path of the image, relative
/// to the report's directory, which is also its place under the trash
/// directory. An out-of-range address moves nothing.
pub fn plan_trash(store: &DupGroups, group_idx: usize, image_idx: usize) -> (r: Result<String, AddressError>)
    ensures
        match address_error(store@, group_idx as int, image_idx as int) {
            Some(e) => r == Err::<String, AddressError>(e),
            None => r matches Ok(p) && p@ == store@[group_idx as int][image_idx as int].path,
        },
{
    match store.resolve(group_idx, image_idx) {
        Err(e) => Err(e),
        Ok(img) => Ok(img.path.clone()),
    }
}

} // verus!

verus! {

/// A fetch that sends the image's current entity tag as its `If-None-Match`
/// is answered "not modified", with no file; a fetch with any value that does
/// not match the tag, or with none, gets the whole file under that tag. The
/// digest in the tag is lowercase hex, as `etag_for` produces it.
pub proof fn lemma_conditional_fetch(
    gs: Seq<Seq<ImgView>>,
    base: Seq<char>,
    g: nat,
    i: nat,
    other: Seq<char>,
)
    requires
        address_error(gs, g as int, i as int) is None,
        !precondition_matches(other, etag_of(base, g, i, gs[g as int][i as int].path)),
        forall|k: int| 0 <= k < sha256_hex(fingerprint_text(base, g, i, gs[g as int][i as int].path)).len()
            ==> is_lower_hex(#[trigger] sha256_hex(fingerprint_text(base, g, i, gs[g as int][i as int].path))[k]),
    ensures
        ({
            let img = gs[g as int][i as int];
            let tag = etag_of(base, g, i, img.path);
            let ct = content_type_of(img.path);
            &&& image_answer(gs, base, g, i, Some(tag)) == (ImageAnswer::NotModified { etag: tag, content_type: ct })
            &&& image_answer(gs, base, g, i, Some(other)) == (ImageAnswer::Send { path: img.path, etag: tag, content_type: ct })
            &&& image_answer(gs, base, g, i, None) == (ImageAnswer::Send { path: img.path, etag: tag, content_type: ct })
        }),
{
    lemma_tag_names_itself(sha256_hex(fingerprint_text(base, g, i, gs[g as int][i as int].path)));
}

} // verus!
