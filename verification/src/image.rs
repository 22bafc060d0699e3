//! The image inliner: a local image as base64 data with its MIME type.
//!
//! Reading the file is the caller's part.  The library is told what came
//! of it, the size of the file and then its bytes, and decides: whether
//! the file is small enough, which image format its name stands for, and
//! what is embedded.  Paths are read with `/` between their components.

use crate::error::{Access, Error};
use crate::markdown::{image_ref_views, ImageRef, ImageRefView};
use crate::text::{push_char, same_text};
use base64::Engine;
use vstd::prelude::*;
use vstd::string::*;

verus! {

/// The largest image file that is embedded, in bytes: 1 MiB.
pub const MAX_IMAGE_BYTES: u64 = 1_048_576;

/// Whether the `.` at `dot` begins the extension of a path that ends with
/// its file name: no `.` and no `/` follows it, and it is not the first
/// character of the file name.
pub open spec fn is_extension_dot(path: Seq<char>, dot: int) -> bool {
    &&& 0 < dot < path.len()
    &&& path[dot] == '.'
    &&& path[dot - 1] != '/'
    &&& forall|k: int| dot < k < path.len() ==> path[k] != '.' && path[k] != '/'
}

/// The extension of a path that ends with its file name: what follows the
/// last `.` of the file name, the part behind the last `/`.  A file name
/// without a `.`, or with none but at its start, has no extension.
pub open spec fn name_extension(path: Seq<char>) -> Option<Seq<char>> {
    if exists|dot: int| is_extension_dot(path, dot) {
        Some(path.skip((choose|dot: int| is_extension_dot(path, dot)) + 1))
    } else {
        None
    }
}

/// Whether the path ends in what names nothing: a `/`, or a `.` that is a
/// component of its own.
pub open spec fn ends_idle(path: Seq<char>) -> bool {
    &&& path.len() > 0
    &&& (path.last() == '/' || (path.last() == '.' && (path.len() == 1 || path[path.len() - 2]
        == '/')))
}

/// Where the last component of the path ends: before the run of `/` and
/// of `.` components at the end of the path.
pub open spec fn name_end(path: Seq<char>) -> int
    decreases path.len(),
{
    if ends_idle(path) {
        name_end(path.drop_last())
    } else {
        path.len() as int
    }
}

/// Whether the path ends in the component `..`, which names no file.
pub open spec fn ends_in_parent(path: Seq<char>) -> bool {
    &&& path.len() >= 2
    &&& path[path.len() - 1] == '.'
    &&& path[path.len() - 2] == '.'
    &&& (path.len() == 2 || path[path.len() - 3] == '/')
}

/// The extension of the path: that of its file name.
///
/// The file name is the last component of the path, with `/` between the
/// components; separators at the end of the path and components `.` are
/// passed over, and a component `..` is no file name.  The extension is
/// what follows the last `.` of the file name; a file name without a `.`,
/// or with none but at its start, has no extension.
pub open spec fn extension(path: Seq<char>) -> Option<Seq<char>> {
    let named = path.take(name_end(path));
    if ends_in_parent(named) {
        None
    } else {
        name_extension(named)
    }
}

/// A path has at most one `.` that begins its extension.
proof fn lemma_extension_dot_unique(path: Seq<char>, first: int, second: int)
    requires
        is_extension_dot(path, first),
        is_extension_dot(path, second),
    ensures
        first == second,
{
}

/// The file name of a path that ends in `/`, or in a `.` at the start of a
/// component, has no extension so far.
proof fn lemma_extension_none(path: Seq<char>)
    requires
        ends_idle(path),
    ensures
        name_extension(path) is None,
{
    assert forall|dot: int| !is_extension_dot(path, dot) by {
        if is_extension_dot(path, dot) && dot < path.len() - 1 {
            assert(path[path.len() - 1] != '.' && path[path.len() - 1] != '/');
        }
    }
}

/// The file name of a path that ends in a `.` behind the start of a
/// component has the empty extension.
proof fn lemma_extension_empty(path: Seq<char>)
    requires
        path.len() > 1,
        path.last() == '.',
        path[path.len() - 2] != '/',
    ensures
        name_extension(path) == Some(Seq::<char>::empty()),
{
    let dot = path.len() - 1;
    assert(is_extension_dot(path, dot));
    let chosen = choose|dot: int| is_extension_dot(path, dot);
    lemma_extension_dot_unique(path, dot, chosen);
    assert(path.skip(dot + 1) =~= Seq::<char>::empty());
}

/// One more character that is neither `.` nor `/` is one more character
/// of the extension, if there is one.
proof fn lemma_extension_push(path: Seq<char>, c: char)
    requires
        c != '.',
        c != '/',
    ensures
        name_extension(path.push(c)) == match name_extension(path) {
            Some(found) => Some(found.push(c)),
            None => None,
        },
{
    let longer = path.push(c);
    assert forall|dot: int| is_extension_dot(path, dot) <==> is_extension_dot(longer, dot) by {
        if is_extension_dot(path, dot) {
            assert(longer[dot] == path[dot]);
            assert(longer[dot - 1] == path[dot - 1]);
            assert forall|k: int| dot < k < longer.len() implies longer[k] != '.' && longer[k]
                != '/' by {
                if k < path.len() {
                    assert(longer[k] == path[k]);
                }
            }
        }
        if is_extension_dot(longer, dot) {
            assert(dot < path.len());
            assert(longer[dot] == path[dot]);
            assert(longer[dot - 1] == path[dot - 1]);
            assert forall|k: int| dot < k < path.len() implies path[k] != '.' && path[k] != '/' by {
                assert(longer[k] == path[k]);
            }
        }
    }
    if exists|dot: int| is_extension_dot(path, dot) {
        let dot = choose|dot: int| is_extension_dot(path, dot);
        let other = choose|dot: int| is_extension_dot(longer, dot);
        assert(is_extension_dot(longer, dot));
        lemma_extension_dot_unique(longer, dot, other);
        assert(longer.skip(dot + 1) =~= path.skip(dot + 1).push(c));
    }
}

/// The last component of a path ends in the path.
proof fn lemma_name_end(path: Seq<char>)
    ensures
        0 <= name_end(path) <= path.len(),
    decreases path.len(),
{
    if ends_idle(path) {
        lemma_name_end(path.drop_last());
    }
}

/// What names nothing at the end of a path leaves its extension as it is.
proof fn lemma_extension_of_idle(path: Seq<char>)
    requires
        ends_idle(path),
    ensures
        extension(path) == extension(path.drop_last()),
{
    let shorter = path.drop_last();
    lemma_name_end(shorter);
    assert(path.take(name_end(path)) =~= shorter.take(name_end(shorter)));
}

/// The extension of a path that ends with its last component is that of
/// the component, unless the component is `..`.
proof fn lemma_extension_of_named(path: Seq<char>)
    requires
        !ends_idle(path),
    ensures
        extension(path) == if ends_in_parent(path) {
            None
        } else {
            name_extension(path)
        },
{
    assert(path.take(path.len() as int) =~= path);
}

/// How a path ends, as far as it has been read.
enum Ending {
    /// In nothing, or in what names nothing.
    Idle,
    /// In the component `..`.
    Parent,
    /// In a component that is a file name.
    Named,
}

/// Finds the extension of the path.
pub fn find_extension(path: &str) -> (found: Option<String>)
    ensures
        match found {
            Some(name) => extension(path@) == Some(name@),
            None => extension(path@) is None,
        },
{
    let mut found: Option<String> = None;
    let mut ending = Ending::Idle;
    // Whether the next character is the first of a component.
    let mut at_start: bool = true;
    proof {
        let empty = path@.take(0);
        assert(name_extension(empty) is None);
        lemma_extension_of_named(empty);
    }
    for c in it: path.chars()
        invariant
            it.seq() == path@,
            at_start == (it.index() == 0 || path@[it.index() - 1] == '/'),
            match found {
                Some(name) => extension(path@.take(it.index())) == Some(name@),
                None => extension(path@.take(it.index())) is None,
            },
            match ending {
                Ending::Idle => {
                    &&& it.index() == 0 || ends_idle(path@.take(it.index()))
                    &&& name_extension(path@.take(it.index())) is None
                },
                Ending::Parent => {
                    &&& ends_in_parent(path@.take(it.index()))
                    &&& name_extension(path@.take(it.index())) == Some(Seq::<char>::empty())
                },
                Ending::Named => {
                    &&& it.index() > 0
                    &&& !ends_idle(path@.take(it.index()))
                    &&& !ends_in_parent(path@.take(it.index()))
                    &&& name_extension(path@.take(it.index())) == extension(
                        path@.take(it.index()),
                    )
                },
            },
    {
        let ghost before = path@.take(it.index());
        let ghost after = path@.take(it.index() + 1);
        proof {
            assert(after =~= before.push(c));
            assert(after.drop_last() =~= before);
            if ends_idle(after) {
                lemma_extension_none(after);
                lemma_extension_of_idle(after);
            } else {
                lemma_extension_of_named(after);
            }
        }
        if c == '/' {
            ending = Ending::Idle;
            at_start = true;
        } else if c == '.' {
            if at_start {
                ending = Ending::Idle;
            } else {
                proof {
                    lemma_extension_empty(after);
                }
                match ending {
                    Ending::Idle => {
                        found = None;
                        ending = Ending::Parent;
                    },
                    _ => {
                        found = Some(String::new());
                        ending = Ending::Named;
                    },
                }
            }
            at_start = false;
        } else {
            proof {
                lemma_extension_push(before, c);
            }
            match ending {
                Ending::Idle => {
                    found = None;
                },
                Ending::Parent => {
                    let mut name = String::new();
                    push_char(&mut name, c);
                    found = Some(name);
                },
                Ending::Named => {
                    match &mut found {
                        Some(name) => push_char(name, c),
                        None => {},
                    }
                },
            }
            ending = Ending::Named;
            at_start = false;
        }
    }
    assert(path@.take(path@.len() as int) =~= path@);
    found
}

/// The MIME type that an extension stands for.
pub open spec fn mime_of(name: Seq<char>) -> Option<Seq<char>> {
    if name == "apng"@ {
        Some("image/apng"@)
    } else if name == "avif"@ {
        Some("image/avif"@)
    } else if name == "gif"@ {
        Some("image/gif"@)
    } else if name == "jpg"@ || name == "jpeg"@ || name == "jfif"@ || name == "pjpeg"@ || name
        == "pjp"@ {
        Some("image/jpeg"@)
    } else if name == "png"@ {
        Some("image/png"@)
    } else if name == "svg"@ {
        Some("image/svg+xml"@)
    } else if name == "webp"@ {
        Some("image/webp"@)
    } else if name == "bmp"@ {
        Some("image/bmp"@)
    } else if name == "ico"@ || name == "cur"@ {
        Some("image/x-icon"@)
    } else if name == "tif"@ || name == "tiff"@ {
        Some("image/tiff"@)
    } else {
        None
    }
}

/// The MIME type of the image format that a path names by its extension.
pub open spec fn mime_of_path(path: Seq<char>) -> Option<Seq<char>> {
    match extension(path) {
        Some(name) => mime_of(name),
        None => None,
    }
}

/// Looks up the MIME type that an extension stands for.
pub fn mime_for_extension(name: &str) -> (found: Option<&'static str>)
    ensures
        match found {
            Some(mime) => mime_of(name@) == Some(mime@),
            None => mime_of(name@) is None,
        },
{
    if same_text(name, "apng") {
        Some("image/apng")
    } else if same_text(name, "avif") {
        Some("image/avif")
    } else if same_text(name, "gif") {
        Some("image/gif")
    } else if same_text(name, "jpg") || same_text(name, "jpeg") || same_text(name, "jfif")
        || same_text(name, "pjpeg") || same_text(name, "pjp") {
        Some("image/jpeg")
    } else if same_text(name, "png") {
        Some("image/png")
    } else if same_text(name, "svg") {
        Some("image/svg+xml")
    } else if same_text(name, "webp") {
        Some("image/webp")
    } else if same_text(name, "bmp") {
        Some("image/bmp")
    } else if same_text(name, "ico") || same_text(name, "cur") {
        Some("image/x-icon")
    } else if same_text(name, "tif") || same_text(name, "tiff") {
        Some("image/tiff")
    } else {
        None
    }
}

/// Whether the error says that the path names no known image format,
/// and with which extension.
pub open spec fn is_unsupported(error: Error, path: Seq<char>) -> bool {
    &&& error matches Error::UnsupportedImageFormat { path: named, extension: found }
    &&& named@ == path
    &&& match found {
        Some(name) => extension(path) == Some(name@),
        None => extension(path) is None,
    }
}

/// Gets the MIME type of the image at the given path from its extension.
///
/// Fails with `UnsupportedImageFormat` where the path has no extension,
/// or one that stands for no known image format.
pub fn mime(path: &str) -> (result: Result<&'static str, Error>)
    ensures
        match result {
            Ok(found) => mime_of_path(path@) == Some(found@),
            Err(error) => mime_of_path(path@) is None && is_unsupported(error, path@),
        },
{
    let found = find_extension(path);
    let known = match &found {
        Some(name) => mime_for_extension(name.as_str()),
        None => None,
    };
    match known {
        Some(mime) => Ok(mime),
        None => Err(Error::UnsupportedImageFormat { path: path.to_owned(), extension: found }),
    }
}

/// A local image, ready to be embedded.
#[derive(Debug, PartialEq, Eq)]
pub struct EncodedImage {
    /// The target of the references to the image.
    pub target: String,
    /// The MIME type of the image.
    pub mime: String,
    /// The bytes of the image file in base64.
    pub data_base64: String,
}

/// What an [`EncodedImage`] stands for.
pub struct EncodedImageView {
    pub target: Seq<char>,
    pub mime: Seq<char>,
    pub data_base64: Seq<char>,
}

impl View for EncodedImage {
    type V = EncodedImageView;

    open spec fn view(&self) -> EncodedImageView {
        EncodedImageView {
            target: self.target@,
            mime: self.mime@,
            data_base64: self.data_base64@,
        }
    }
}

/// The standard base64 encoding of the bytes, with padding.
pub uninterp spec fn base64_standard(data: Seq<u8>) -> Seq<char>;

/// Encodes the bytes with the `STANDARD` engine of `base64`, through
/// `Engine::encode`.  The contract claims that the text depends on the
/// bytes alone; it asks for so few bytes that the length of the text fits
/// a `usize`, since `encode` panics where it does not.
#[verifier::external_body]
fn encode_base64(data: &[u8]) -> (encoded: String)
    requires
        (data@.len() / 3 + 1) * 4 <= usize::MAX,
    ensures
        encoded@ == base64_standard(data@),
{
    base64::engine::general_purpose::STANDARD.encode(data)
}

/// Whether a file of the given size is too large to be embedded.
pub open spec fn is_too_large(size: int) -> bool {
    size > MAX_IMAGE_BYTES
}

/// Judges the size of the image file at the path before it is read;
/// `size` is `None` where the file could not be found.
///
/// Fails with `ImageNotFound` where there is no size, and with
/// `ImageTooLarge` where the size is above the ceiling of 1 MiB.
pub fn check_image_size(path: &str, size: Option<u64>) -> (result: Result<(), Error>)
    ensures
        match result {
            Ok(()) => size matches Some(bytes) && !is_too_large(bytes as int),
            Err(Error::ImageNotFound { path: named, access }) => {
                &&& size is None
                &&& named@ == path@
                &&& access == Access::Stat
            },
            Err(Error::ImageTooLarge { path: named }) => {
                &&& size matches Some(bytes)
                &&& is_too_large(bytes as int)
                &&& named@ == path@
            },
            Err(_) => false,
        },
{
    match size {
        None => Err(Error::ImageNotFound { path: path.to_owned(), access: Access::Stat }),
        Some(bytes) => {
            if bytes > MAX_IMAGE_BYTES {
                Err(Error::ImageTooLarge { path: path.to_owned() })
            } else {
                Ok(())
            }
        },
    }
}

/// Turns a local image into what is embedded for it.  `target` is what the
/// references to the image name, `path` is where its file lies, and
/// `contents` are the bytes of the file, `None` where it could not be
/// read.
///
/// Fails with `ImageNotFound` where there are no contents, with
/// `ImageTooLarge` where they are more than 1 MiB, and with
/// `UnsupportedImageFormat` where the extension of the path stands for no
/// known image format, in this order.
pub fn inline_image(target: &str, path: &str, contents: Option<&[u8]>) -> (result: Result<
    EncodedImage,
    Error,
>)
    ensures
        match result {
            Ok(image) => {
                &&& contents matches Some(data)
                &&& !is_too_large(data@.len() as int)
                &&& mime_of_path(path@) == Some(image@.mime)
                &&& image@.target == target@
                &&& image@.data_base64 == base64_standard(data@)
            },
            Err(Error::ImageNotFound { path: named, access }) => {
                &&& contents is None
                &&& named@ == path@
                &&& access == Access::Read
            },
            Err(Error::ImageTooLarge { path: named }) => {
                &&& contents matches Some(data)
                &&& is_too_large(data@.len() as int)
                &&& named@ == path@
            },
            Err(error) => {
                &&& contents matches Some(data)
                &&& !is_too_large(data@.len() as int)
                &&& mime_of_path(path@) is None
                &&& is_unsupported(error, path@)
            },
        },
{
    match contents {
        None => Err(Error::ImageNotFound { path: path.to_owned(), access: Access::Read }),
        Some(data) => {
            if data.len() as u64 > MAX_IMAGE_BYTES {
                Err(Error::ImageTooLarge { path: path.to_owned() })
            } else {
                match mime(path) {
                    Err(error) => Err(error),
                    Ok(found) => Ok(
                        EncodedImage {
                            target: target.to_owned(),
                            mime: found.to_owned(),
                            data_base64: encode_base64(data),
                        },
                    ),
                }
            }
        },
    }
}

/// What each of the texts holds.
pub open spec fn text_views(texts: Seq<String>) -> Seq<Seq<char>> {
    texts.map_values(|text: String| text@)
}

/// The targets of the image references, in their order.
pub open spec fn targets(images: Seq<ImageRefView>) -> Seq<Seq<char>> {
    images.map_values(|image: ImageRefView| image.target)
}

/// The items without their repetitions: each item once, where it stands
/// first.
pub open spec fn distinct(items: Seq<Seq<char>>) -> Seq<Seq<char>>
    decreases items.len(),
{
    if items.len() == 0 {
        seq![]
    } else {
        let before = distinct(items.drop_last());
        if before.contains(items.last()) {
            before
        } else {
            before.push(items.last())
        }
    }
}

/// Taking out the repetitions leaves every item that there was, and no
/// item twice.
pub proof fn lemma_distinct(items: Seq<Seq<char>>)
    ensures
        distinct(items).no_duplicates(),
        forall|item: Seq<char>| distinct(items).contains(item) <==> items.contains(item),
    decreases items.len(),
{
    if items.len() > 0 {
        let before = distinct(items.drop_last());
        let last = items.last();
        lemma_distinct(items.drop_last());
        assert forall|item: Seq<char>| distinct(items).contains(item) <==> items.contains(
            item,
        ) by {
            if items.contains(item) {
                let i = choose|i: int| 0 <= i < items.len() && items[i] == item;
                if i < items.len() - 1 {
                    assert(items.drop_last()[i] == item);
                    assert(items.drop_last().contains(item));
                    assert(before.contains(item));
                    let j = choose|j: int| 0 <= j < before.len() && before[j] == item;
                    assert(distinct(items)[j] == item);
                } else if !before.contains(last) {
                    assert(distinct(items)[before.len() as int] == item);
                }
            }
            if distinct(items).contains(item) {
                let j = choose|j: int| 0 <= j < distinct(items).len() && distinct(items)[j] == item;
                if j < before.len() {
                    assert(before[j] == item);
                    assert(before.contains(item));
                    assert(items.drop_last().contains(item));
                    let i = choose|i: int|
                        0 <= i < items.drop_last().len() && items.drop_last()[i] == item;
                    assert(items[i] == item);
                } else {
                    assert(items[items.len() - 1] == item);
                }
            }
        }
    }
}

/// Tells whether one of the texts holds the given characters.
fn holds(texts: &Vec<String>, wanted: &str) -> (found: bool)
    ensures
        found == text_views(texts@).contains(wanted@),
{
    let mut i: usize = 0;
    while i < texts.len()
        invariant
            i <= texts@.len(),
            forall|k: int| 0 <= k < i ==> text_views(texts@)[k] != wanted@,
        decreases texts@.len() - i,
    {
        if same_text(texts[i].as_str(), wanted) {
            assert(text_views(texts@)[i as int] == wanted@);
            return true;
        }
        i += 1;
    }
    false
}

/// Lists the targets of the image references, each target once and in
/// the order in which the targets first occur.
pub fn image_targets(images: &Vec<ImageRef>) -> (found: Vec<String>)
    ensures
        text_views(found@) == distinct(targets(image_ref_views(images@))),
        text_views(found@).no_duplicates(),
{
    let ghost all = targets(image_ref_views(images@));
    let mut found: Vec<String> = Vec::new();
    let mut i: usize = 0;
    while i < images.len()
        invariant
            i <= images@.len(),
            all == targets(image_ref_views(images@)),
            text_views(found@) == distinct(all.take(i as int)),
        decreases images@.len() - i,
    {
        let target = &images[i].target;
        let ghost before = text_views(found@);
        proof {
            assert(all.take(i + 1).drop_last() =~= all.take(i as int));
            assert(all.take(i + 1).last() == target@);
        }
        if !holds(&found, target.as_str()) {
            found.push(target.clone());
            assert(text_views(found@) =~= before.push(target@));
        }
        i += 1;
    }
    assert(all.take(images@.len() as int) =~= all);
    proof {
        lemma_distinct(all);
    }
    found
}

} // verus!
