//! Component resolution and inlining for trees of markup files.
//!
//! A markup file may use other files as components: a comment declares
//! `import '<path>'`, and every element whose tag is the stem of that file
//! name is a usage of it. Compiling a file takes its inline `style` and
//! `script` blocks out, fills in the props it was given, and puts in the
//! place of each usage the body of the component, compiled in its turn with
//! the attributes of the usage as props. What comes out is one flat
//! document and the style and script text of all files that went into it.
//!
//! - [`text`] and [`path`]: the text and path algebra underneath all else.
//! - [`dom`]: the document tree and its view.
//! - [`parse`]: markup text to document tree.
//! - [`extract`]: taking `style` and `script` blocks out.
//! - [`imports`]: reading import declarations.
//! - [`props`]: props and their substitution.
//! - [`component`]: replacing the usages of one component.
//! - [`compile`]: the compiler that ties these together.
//! - [`page`]: what a compiled page needs before it is written.
//!
//! Every function states what it returns over the view of its arguments, a
//! tree of sequences of characters, and nothing here reads or writes a file.

pub mod compile;
pub mod component;
pub mod dom;
pub mod extract;
pub mod imports;
pub mod page;
pub mod parse;
pub mod path;
pub mod props;
pub mod text;
