//! The template object model for document strategies.
//!
//! A strategy is a template that carries default formatting information and
//! meta fields for a document. These are inert data declarations: the
//! layers that would fill and consume them live outside this crate, so the
//! types here only fix the shape that those collaborators exchange.

use vstd::prelude::*;

verus! {

/// A document strategy: default formatting information and meta fields.
#[derive(Debug)]
pub struct Strategy {
    /// The name of the strategy.
    pub name: Vec<u8>,
    /// Meta fields, such as an author's name; small changes that do not
    /// affect formatting.
    pub meta: Vec<Field>,
    /// Fields such as page size; the larger settings that affect
    /// formatting strongly.
    pub fields: Vec<Field>,
    /// Default text formatting settings.
    pub text_settings: TextSettings,
    /// Header format, if any.
    pub header: Option<Header>,
    /// Footer format, if any.
    pub footer: Option<Footer>,
    /// Frontmatter, if any.
    pub frontmatter: Option<Frontmatter>,
    /// Backmatter, if any.
    pub backmatter: Option<Backmatter>,
    /// Bibliography, if any.
    pub bibliography: Option<Bibliography>,
    /// The body formatter.
    pub body: Body,
}

/// A grouping of a name, a field type, a possible default value, and
/// optionality.
#[derive(Debug, Copy, Clone)]
pub struct Field;

/// Text settings.
#[derive(Debug, Copy, Clone)]
pub struct TextSettings;

/// Header settings.
#[derive(Debug, Copy, Clone)]
pub struct Header;

/// Footer settings.
#[derive(Debug, Copy, Clone)]
pub struct Footer;

/// Frontmatter, like a title page or a table of contents.
#[derive(Debug, Copy, Clone)]
pub struct Frontmatter;

/// Backmatter, like a glossary of terms or an index.
#[derive(Debug, Copy, Clone)]
pub struct Backmatter;

/// Bibliography settings.
#[derive(Debug, Copy, Clone)]
pub struct Bibliography;

/// Body settings.
#[derive(Debug, Copy, Clone)]
pub struct Body;

} // verus!
