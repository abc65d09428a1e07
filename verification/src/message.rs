//! The catalog data model: comments and messages, with their ghost models.

use vstd::prelude::*;

verus! {

/// The kind of a comment line, given by the character after `#`.
#[derive(Clone, Copy, PartialEq, Eq, Structural, Debug)]
pub enum PotCommentKind {
    /// `#:` — a source reference.
    Reference,
    /// `#.` — a comment extracted from source code.
    Extracted,
    /// `#,` — a flag such as `fuzzy`.
    Flag,
    /// `#|` — a previous untranslated string.
    Previous,
    /// `#` with no marker — a translator comment.
    Translator,
}

/// One comment of a message: its kind and its trimmed content.
#[derive(Debug)]
pub struct PotComment {
    pub kind: PotCommentKind,
    pub content: String,
}

/// The mathematical model of a comment.
#[verifier::ext_equal]
pub struct CommentModel {
    pub kind: PotCommentKind,
    pub content: Seq<char>,
}

impl View for PotComment {
    type V = CommentModel;

    open spec fn view(&self) -> CommentModel {
        CommentModel { kind: self.kind, content: self.content@ }
    }
}

impl PotComment {
    /// Whether a line is a comment line: non-empty and starting with `#`.
    pub fn is_comment(s: &str) -> (r: bool)
        ensures
            r == (s@.len() > 0 && s@[0] == '#'),
    {
        s.unicode_len() > 0 && s.get_char(0) == '#'
    }
}

/// One translation unit of a catalog.
#[derive(Debug)]
pub struct PotMessage {
    /// The comments of the unit, in source order.
    pub comments: Vec<PotComment>,
    /// The `msgctxt` string, set at most once.
    pub context: Option<String>,
    /// The `msgid` string, set at most once.
    pub id: Option<String>,
    /// The `msgid_plural` string, set at most once.
    pub id_plural: Option<String>,
    /// The translated strings, indexed positionally.
    pub strings: Vec<String>,
}

/// The mathematical model of a message.
#[verifier::ext_equal]
pub struct MessageModel {
    pub comments: Seq<CommentModel>,
    pub context: Option<Seq<char>>,
    pub id: Option<Seq<char>>,
    pub id_plural: Option<Seq<char>>,
    pub strings: Seq<Seq<char>>,
}

/// The model of an optional owned string.
pub open spec fn view_opt(s: Option<String>) -> Option<Seq<char>> {
    match s {
        None => None,
        Some(t) => Some(t@),
    }
}

impl View for PotMessage {
    type V = MessageModel;

    open spec fn view(&self) -> MessageModel {
        MessageModel {
            comments: self.comments@.map_values(|c: PotComment| c@),
            context: view_opt(self.context),
            id: view_opt(self.id),
            id_plural: view_opt(self.id_plural),
            strings: self.strings@.map_values(|s: String| s@),
        }
    }
}

/// The model of a message with no fields set.
pub open spec fn empty_message() -> MessageModel {
    MessageModel {
        comments: Seq::empty(),
        context: None,
        id: None,
        id_plural: None,
        strings: Seq::empty(),
    }
}

/// A message is valid — may be closed and pushed onto the catalog — when its
/// id is set and it either holds exactly one translated string with no
/// plural id, or holds a plural id together with more than one translated
/// string.
pub open spec fn is_valid_spec(m: MessageModel) -> bool {
    m.id is Some && ((m.strings.len() == 1 && m.id_plural is None) || (m.id_plural is Some
        && m.strings.len() > 1))
}

impl Default for PotMessage {
    /// A message with no fields set.
    fn default() -> (r: Self)
        ensures
            r@ == empty_message(),
    {
        let r = PotMessage {
            comments: Vec::new(),
            context: None,
            id: None,
            id_plural: None,
            strings: Vec::new(),
        };
        proof {
            assert(r@ =~= empty_message());
        }
        r
    }
}

impl PotMessage {
    /// A message with no fields set.
    pub fn new() -> (r: Self)
        ensures
            r@ == empty_message(),
    {
        Default::default()
    }

    /// Whether this message may be closed and pushed onto the catalog.
    pub fn is_valid(&self) -> (r: bool)
        ensures
            r == is_valid_spec(self@),
    {
        self.id.is_some() && ((self.strings.len() == 1 && self.id_plural.is_none())
            || (self.id_plural.is_some() && self.strings.len() > 1))
    }
}

} // verus!
