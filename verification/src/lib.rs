//! Prepares documentation text that holds TeX math and local images for a
//! Markdown renderer.
//!
//! Math between `$ … $` or `$$ … $$` is found by a scanner that respects
//! brace groups and backslash escapes.  Math outside of Markdown code is
//! escaped, so that the renderer cannot take its punctuation for list, link
//! or emphasis syntax, and is typeset in the rendered page.  Local images
//! are embedded as base64 data, so that the page needs no file beside it.
//!
//! The work is done in stages, each of which hands a new value to the
//! next:
//!
//! - [`parser`] scans the text for math;
//! - [`markdown`] finds the code and the image references of the text;
//! - [`reconcile`] settles the math against the code, rejects math with a
//!   blank line, and picks the images to embed;
//! - [`escape`] and [`assemble`] write the display text of the segments;
//! - [`image`] turns the bytes of an image file into what is embedded;
//! - [`assemble`] joins it all with the fragments that render the math and
//!   put the images in place.
//!
//! [`pipeline`] runs the stages up to the point where the image files are
//! needed.  Reading the files is left to the caller, who hands their bytes
//! to [`image::inline_image`] and the outcome to [`assemble::assemble`].
//!
//! Beside the stages stand [`characters`], which proves that scanning the
//! bytes of a text finds what the grammar says of its characters,
//! [`order`], which says what it is to put items in order, and [`text`]
//! and [`lines`], which hold what the stages need of strings.
//!
//! Every function states what it returns in its contract, and Verus proves
//! that it does.  What the Markdown parser, the URL parser and the base64
//! encoder return is not proved: their results go by a name, and the
//! contracts say what the library makes of them.

pub mod assemble;
pub mod characters;
pub mod error;
pub mod escape;
pub mod examples;
pub mod image;
pub mod lines;
pub mod markdown;
pub mod order;
pub mod parser;
pub mod pipeline;
pub mod reconcile;
pub mod text;
