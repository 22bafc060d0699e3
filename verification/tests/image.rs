//! Image files: their format, their size, and what is embedded.

use docext::error::{Access, Error};
use docext::image::{
    check_image_size, find_extension, image_targets, inline_image, mime, mime_for_extension,
    EncodedImage, MAX_IMAGE_BYTES,
};
use docext::markdown::ImageRef;

fn unsupported(path: &str, extension: Option<&str>) -> Error {
    Error::UnsupportedImageFormat {
        path: path.to_string(),
        extension: extension.map(|name| name.to_string()),
    }
}

/// What the language finds as the extension of the path.
fn path_extension(path: &str) -> Option<String> {
    std::path::Path::new(path)
        .extension()
        .map(|found| found.to_str().unwrap().to_string())
}

/// The extension is what follows the last `.` of the file name.
#[test]
fn extension_of_a_path() {
    assert_eq!(find_extension("a.png"), Some("png".to_string()));
    assert_eq!(find_extension("img/a.b.jpeg"), Some("jpeg".to_string()));
    assert_eq!(find_extension("/x.y/a.gif"), Some("gif".to_string()));
    assert_eq!(find_extension("a."), Some("".to_string()));
    assert_eq!(find_extension("..png"), Some("png".to_string()));
    assert_eq!(find_extension("..."), Some("".to_string()));
    assert_eq!(find_extension("a.ünï"), Some("ünï".to_string()));
    assert_eq!(find_extension(""), None);
    assert_eq!(find_extension("a"), None);
    assert_eq!(find_extension(".png"), None);
    assert_eq!(find_extension("img/.png"), None);
    assert_eq!(find_extension("img.d/a"), None);
    assert_eq!(find_extension("."), None);
    assert_eq!(find_extension("/"), None);
}

/// The file name is the last component of the path: separators at the end
/// and components `.` are passed over, and `..` is no file name.
#[test]
fn extension_of_the_last_component() {
    assert_eq!(find_extension("a.png/"), Some("png".to_string()));
    assert_eq!(find_extension("a.png//"), Some("png".to_string()));
    assert_eq!(find_extension("a.png/."), Some("png".to_string()));
    assert_eq!(find_extension("a.png/./"), Some("png".to_string()));
    assert_eq!(find_extension("a.png/.//./"), Some("png".to_string()));
    assert_eq!(find_extension("dir/a.png/./b/"), None);
    assert_eq!(find_extension("a.png/.b"), None);
    assert_eq!(find_extension("a.png/.."), None);
    assert_eq!(find_extension("a.png/../"), None);
    assert_eq!(find_extension(".."), None);
    assert_eq!(find_extension("./"), None);
    assert_eq!(find_extension("./."), None);
    assert_eq!(find_extension("/."), None);
    assert_eq!(find_extension("./a.gif"), Some("gif".to_string()));
    assert_eq!(find_extension("a.gif/../b.svg/"), Some("svg".to_string()));
}

/// What a path has as its extension is what the language finds there.
#[test]
fn extension_agrees_with_path() {
    for path in [
        "a.png",
        "img/a.b.jpeg",
        "/x.y/a.gif",
        "a.",
        "..png",
        "a",
        ".png",
        "img/.png",
        "img.d/a",
        "dir/sub.dir/name.tar.gz",
        "a.png/",
        "a.png//",
        "a.png/.",
        "a.png/./",
        "a.png/..",
        "a.png/../",
        "..",
        "...",
        ".",
        "./",
        "/",
        "",
        "./a.png",
        "a/./b.c/./",
    ] {
        assert_eq!(find_extension(path), path_extension(path), "{:?}", path);
    }
}

/// The same, for every path of up to eight characters out of `a`, `.` and
/// `/`.
#[test]
fn extension_agrees_with_path_on_short_paths() {
    let alphabet = ['a', '.', '/'];
    for length in 0..=8usize {
        let count = alphabet.len().pow(length as u32);
        for mut code in 0..count {
            let mut path = String::new();
            for _ in 0..length {
                path.push(alphabet[code % alphabet.len()]);
                code /= alphabet.len();
            }
            assert_eq!(find_extension(&path), path_extension(&path), "{:?}", path);
        }
    }
}

/// The table of image formats.
#[test]
fn mime_table() {
    assert_eq!(mime_for_extension("apng"), Some("image/apng"));
    assert_eq!(mime_for_extension("avif"), Some("image/avif"));
    assert_eq!(mime_for_extension("gif"), Some("image/gif"));
    assert_eq!(mime_for_extension("jpg"), Some("image/jpeg"));
    assert_eq!(mime_for_extension("jpeg"), Some("image/jpeg"));
    assert_eq!(mime_for_extension("jfif"), Some("image/jpeg"));
    assert_eq!(mime_for_extension("pjpeg"), Some("image/jpeg"));
    assert_eq!(mime_for_extension("pjp"), Some("image/jpeg"));
    assert_eq!(mime_for_extension("png"), Some("image/png"));
    assert_eq!(mime_for_extension("svg"), Some("image/svg+xml"));
    assert_eq!(mime_for_extension("webp"), Some("image/webp"));
    assert_eq!(mime_for_extension("bmp"), Some("image/bmp"));
    assert_eq!(mime_for_extension("ico"), Some("image/x-icon"));
    assert_eq!(mime_for_extension("cur"), Some("image/x-icon"));
    assert_eq!(mime_for_extension("tif"), Some("image/tiff"));
    assert_eq!(mime_for_extension("tiff"), Some("image/tiff"));
    assert_eq!(mime_for_extension(""), None);
    assert_eq!(mime_for_extension("PNG"), None);
    assert_eq!(mime_for_extension("pngx"), None);
    assert_eq!(mime_for_extension("pn"), None);
    assert_eq!(mime_for_extension("txt"), None);
}

/// The MIME type of a path goes by its extension.
#[test]
fn mime_of_a_path() {
    assert_eq!(mime("img/pepega.png"), Ok("image/png"));
    assert_eq!(mime("a.b.svg"), Ok("image/svg+xml"));
    assert_eq!(mime("/abs/dir.png/photo.jpeg"), Ok("image/jpeg"));
    assert_eq!(mime("a.png/"), Ok("image/png"));
    assert_eq!(mime("a.png//"), Ok("image/png"));
    assert_eq!(mime("a.png/."), Ok("image/png"));
    assert_eq!(mime("img/pepega"), Err(unsupported("img/pepega", None)));
    assert_eq!(mime("img.png/pepega"), Err(unsupported("img.png/pepega", None)));
    assert_eq!(mime(".png"), Err(unsupported(".png", None)));
    assert_eq!(mime("a.png/.."), Err(unsupported("a.png/..", None)));
    assert_eq!(mime(""), Err(unsupported("", None)));
    assert_eq!(mime("a.txt"), Err(unsupported("a.txt", Some("txt"))));
    assert_eq!(mime("a.PNG"), Err(unsupported("a.PNG", Some("PNG"))));
    assert_eq!(mime("a."), Err(unsupported("a.", Some(""))));
}

/// The MIME type is that of the table wherever the language finds an
/// extension of the table, and there is none elsewhere.
#[test]
fn mime_agrees_with_path() {
    let table = [
        ("apng", "image/apng"),
        ("avif", "image/avif"),
        ("gif", "image/gif"),
        ("jpg", "image/jpeg"),
        ("jpeg", "image/jpeg"),
        ("jfif", "image/jpeg"),
        ("pjpeg", "image/jpeg"),
        ("pjp", "image/jpeg"),
        ("png", "image/png"),
        ("svg", "image/svg+xml"),
        ("webp", "image/webp"),
        ("bmp", "image/bmp"),
        ("ico", "image/x-icon"),
        ("cur", "image/x-icon"),
        ("tif", "image/tiff"),
        ("tiff", "image/tiff"),
    ];
    for (name, expected) in table {
        for shape in ["a.{}", "dir/a.b.{}", "a.{}/", "a.{}//", "a.{}/.", "/x/.a.{}/./"] {
            let path = shape.replace("{}", name);
            assert_eq!(mime(&path), Ok(expected), "{:?}", path);
        }
        for shape in [".{}", "a.{}/..", "a.{}/b", "a.{}x", "{}"] {
            let path = shape.replace("{}", name);
            assert!(mime(&path).is_err(), "{:?}", path);
            assert_eq!(
                path_extension(&path).filter(|found| table.iter().any(|(name, _)| found.as_str() == *name)),
                None,
                "{:?}",
                path
            );
        }
    }
}

/// A file of 1 MiB is embedded, a file of one byte more is too large.
#[test]
fn size_ceiling() {
    assert_eq!(MAX_IMAGE_BYTES, 1024 * 1024);
    assert_eq!(check_image_size("a.png", Some(0)), Ok(()));
    assert_eq!(check_image_size("a.png", Some(1024 * 1024)), Ok(()));
    assert_eq!(
        check_image_size("a.png", Some(1024 * 1024 + 1)),
        Err(Error::ImageTooLarge { path: "a.png".to_string() })
    );
    assert_eq!(
        check_image_size("a.png", Some(u64::MAX)),
        Err(Error::ImageTooLarge { path: "a.png".to_string() })
    );
    assert_eq!(
        check_image_size("a.png", None),
        Err(Error::ImageNotFound { path: "a.png".to_string(), access: Access::Stat })
    );
}

/// The ceiling holds for the bytes that were read, too.
#[test]
fn size_ceiling_of_contents() {
    let exactly = vec![0u8; 1024 * 1024];
    let image = inline_image("a.png", "/crate/a.png", Some(&exactly)).unwrap();
    assert_eq!(image.data_base64.len(), 1398104);
    assert!(image.data_base64.starts_with("AAAA"));
    assert!(image.data_base64.ends_with("AA=="));
    let above = vec![0u8; 1024 * 1024 + 1];
    assert_eq!(
        inline_image("a.png", "/crate/a.png", Some(&above)),
        Err(Error::ImageTooLarge { path: "/crate/a.png".to_string() })
    );
}

/// An image is embedded with its target, its MIME type and its bytes in
/// base64.
#[test]
fn inlines_an_image() {
    assert_eq!(
        inline_image("img/a.png", "/crate/img/a.png", Some(b"hello")),
        Ok(EncodedImage {
            target: "img/a.png".to_string(),
            mime: "image/png".to_string(),
            data_base64: "aGVsbG8=".to_string(),
        })
    );
    assert_eq!(
        inline_image("b.svg", "b.svg", Some(b"<svg/>\xff")),
        Ok(EncodedImage {
            target: "b.svg".to_string(),
            mime: "image/svg+xml".to_string(),
            data_base64: "PHN2Zy8+/w==".to_string(),
        })
    );
    assert_eq!(
        inline_image("empty.gif", "/crate/empty.gif", Some(b"")),
        Ok(EncodedImage {
            target: "empty.gif".to_string(),
            mime: "image/gif".to_string(),
            data_base64: "".to_string(),
        })
    );
}

/// The format goes by the path of the file, and the target is kept as it
/// stands in the references.
#[test]
fn inlines_by_the_path() {
    assert_eq!(
        inline_image("picture", "/crate/picture.webp", Some(b"hello")),
        Ok(EncodedImage {
            target: "picture".to_string(),
            mime: "image/webp".to_string(),
            data_base64: "aGVsbG8=".to_string(),
        })
    );
    assert_eq!(
        inline_image("picture.webp", "/crate/picture", Some(b"hello")),
        Err(unsupported("/crate/picture", None))
    );
}

/// The failures of embedding, in their order: no contents, too large, no
/// known format.
#[test]
fn inline_failures() {
    assert_eq!(
        inline_image("a.txt", "/crate/a.txt", None),
        Err(Error::ImageNotFound { path: "/crate/a.txt".to_string(), access: Access::Read })
    );
    let above = vec![0u8; 1024 * 1024 + 1];
    assert_eq!(
        inline_image("a.txt", "/crate/a.txt", Some(&above)),
        Err(Error::ImageTooLarge { path: "/crate/a.txt".to_string() })
    );
    assert_eq!(
        inline_image("a.txt", "/crate/a.txt", Some(b"text")),
        Err(unsupported("/crate/a.txt", Some("txt")))
    );
    assert_eq!(
        inline_image("noextension", "/crate/noextension", Some(b"text")),
        Err(unsupported("/crate/noextension", None))
    );
}

/// Each target is listed once, where it first occurs.
#[test]
fn targets_are_listed_once() {
    let image = |target: &str, start: usize| ImageRef {
        target: target.to_string(),
        range: start..start + 1,
    };
    assert_eq!(
        image_targets(&vec![
            image("b.png", 0),
            image("a.png", 1),
            image("b.png", 2),
            image("c.png", 3),
            image("a.png", 4),
            image("B.png", 5),
        ]),
        vec!["b.png", "a.png", "c.png", "B.png"]
    );
    assert_eq!(image_targets(&vec![]), Vec::<String>::new());
}

/// The messages of the errors name the path, or the extension.
#[test]
fn error_messages() {
    assert_eq!(
        Error::InvalidMathBlock { range: 3..9 }.message(),
        "blank lines in math blocks are not supported"
    );
    assert_eq!(
        Error::ImageNotFound { path: "/crate/img/a.png".to_string(), access: Access::Stat }
            .message(),
        "failed to stat image: \"/crate/img/a.png\", is the file missing?"
    );
    assert_eq!(
        Error::ImageNotFound { path: "/crate/img/a.png".to_string(), access: Access::Read }
            .message(),
        "failed to read image: \"/crate/img/a.png\", is the file missing?"
    );
    assert_eq!(
        Error::ImageTooLarge { path: "/crate/img/a.png".to_string() }.message(),
        "image file too large: \"/crate/img/a.png\", max size is 1MB"
    );
    assert_eq!(
        unsupported("/crate/img/a.txt", Some("txt")).message(),
        "unsupported image format: \"txt\""
    );
    assert_eq!(
        unsupported("/crate/img/a", None).message(),
        "image path has no extension: \"/crate/img/a\""
    );
    assert_eq!(
        Error::MissingDocumentation.message(),
        "only items with doc comments can be prepared"
    );
}
