//! Documented items to try the preparation on.
//!
//! The documentation of each item is a text that the library has to get
//! right; the tests prepare the same texts.

use vstd::prelude::*;

verus! {

/// Is rejected: a blank line stands in the math, before its end.
///
/// $$1
/// -
/// 2\newline
/// \pi
///
/// $$
pub trait BrokenExample {

}

// The escaped brace opens no group, and the `-` starts no list.
/// Renders as "{ -x".
///
/// $$
/// \{
/// - x
/// $$
pub trait BrokenExample2 {

}

// The `$$` behind the closed group ends the math.
/// Renders as "-x".
///
/// $$
/// {
/// - x
/// }
/// $$
pub trait BrokenExample3 {

}

// The text stays as it is.
/// Is not math, because the brace is not closed.
///
/// $$
/// {
/// - x
/// $$
pub trait IntentionallyInvalidTeX {

}

// The two backslashes reach the typesetter.
/// Holds a line break.
///
/// $$
/// a
/// \\
/// b
/// $$
pub trait BackslashAsNewline {

}

/// Hey $\pi$ there
///
/// Is not rendered as a link:
///
/// $$
/// [a](b)
/// $$
///
/// _Inline_:
///
/// Hello $[a](b)$ world.
///
/// Hello $\int_0^{\infty}, \sigma = \pi$ world.
pub trait LinkGoneWrong {

}

/// Hey there
///
/// ![pepega](img/pepega.png)
///
/// Bye there
pub trait Image {

}

/// Hey there
///
/// ![pepega](img/pepega.png)
/// ![pepega](img/pepega.png)
/// ![pepega2](img/pepega2.png)
///
/// Bye there
///
/// Some $math$ text.
pub trait Images {

}

// What looks like images is math, and no file is looked for.
/// Hey there
///
/// $$
/// ![pepega](img/pepegas.png)
/// $$
///
/// $$
/// ![pepega](img/pepega.png)
/// $$
///
/// Bye there
pub trait BrokenImageInTex {

}

/// Hey there
///
/// $$
/// x = y = z
/// $$
///
/// Bye there
pub trait TraitWithItems {
    /// Some $a$.
    const A: usize;
}

/// Hey there $what$ the hell
///
/// What is this $\mathrm{AB}_{16}$ and also $\mathrm{CD}_{16}$ and some
/// $\mathrm{EF}_{16}$.
pub trait BrokenItalics {
    /// Some $a$.
    const A: usize;
}

/// Math in code block:
/// ```text
/// $$
/// This stays as it is.
/// $$
/// ```
/// Math in inline code: `$This, too.$`
/// Math outside code block: $\pi$
pub trait MathInCode {

}

} // verus!
