//! The structural values the scanner emits: tokens, tags, attributes, text
//! runs and diagnostics, together with their mathematical models.
//!
//! Every executable type has a ghost model (`...M`) over `Seq<u8>` and `int`;
//! the contracts of the scanning pipeline are stated over those models.

use vstd::prelude::*;

verus! {

/// How an attribute value was quoted in the source.
#[derive(Clone, Copy, PartialEq, Eq, Structural, Debug)]
pub enum Quote {
    Unquoted,
    Single,
    Double,
}

/// Classification of a text run.
#[derive(Clone, Copy, PartialEq, Eq, Structural, Debug)]
pub enum TextClass {
    /// The run consists of whitespace only.
    WhitespaceOnly,
    /// The run contains at least one recognized entity reference.
    ContainsEntity,
    /// The run sits inside a whitespace-preserving or raw-text element and
    /// must never be collapsed.
    RawPreserve,
    /// Ordinary character data.
    Normal,
}

/// Non-fatal and fatal problem kinds found during a scan.
#[derive(Clone, Copy, PartialEq, Eq, Structural, Debug)]
pub enum DiagKind {
    MalformedTag,
    DuplicateAttribute,
    UnterminatedComment,
    UnterminatedRawText,
    UnrecognizedEntity,
    EncodingError,
    ResourceExhausted,
}

/// A half-open byte range `start..end` into the scanned input.
#[derive(Clone, Copy, PartialEq, Eq, Structural, Debug)]
pub struct Span {
    pub start: usize,
    pub end: usize,
}

pub ghost struct SpanM {
    pub start: int,
    pub end: int,
}

impl View for Span {
    type V = SpanM;

    open spec fn view(&self) -> SpanM {
        SpanM { start: self.start as int, end: self.end as int }
    }
}

/// One attribute of a start tag. The name is never empty; duplicates are
/// retained (the scanner flags them with a diagnostic instead of dropping
/// them).
#[derive(Clone, Debug)]
pub struct Attribute {
    pub name: Vec<u8>,
    /// `None` for a valueless (boolean) attribute.
    pub value: Option<Vec<u8>>,
    pub quote: Quote,
    /// Offset of the first byte of the name in the scanned input.
    pub name_offset: usize,
    /// Offset of the first byte of the value; zero when there is no value.
    pub value_offset: usize,
}

pub ghost struct AttrM {
    pub name: Seq<u8>,
    pub value: Option<Seq<u8>>,
    pub quote: Quote,
    pub name_offset: int,
    pub value_offset: int,
}

impl View for Attribute {
    type V = AttrM;

    open spec fn view(&self) -> AttrM {
        AttrM {
            name: self.name@,
            value: match self.value {
                Option::Some(v) => Option::Some(v@),
                Option::None => Option::None,
            },
            quote: self.quote,
            name_offset: self.name_offset as int,
            value_offset: self.value_offset as int,
        }
    }
}

/// The model of an attribute list.
pub open spec fn attrs_view(attrs: Seq<Attribute>) -> Seq<AttrM> {
    attrs.map_values(|a: Attribute| a@)
}

/// Copy an attribute; the copy has the same model.
pub fn clone_attr(a: &Attribute) -> (r: Attribute)
    ensures
        r@ == a@,
{
    Attribute {
        name: crate::bytes::clone_bytes(&a.name),
        value: match &a.value {
            Option::Some(v) => Option::Some(crate::bytes::clone_bytes(v)),
            Option::None => Option::None,
        },
        quote: a.quote,
        name_offset: a.name_offset,
        value_offset: a.value_offset,
    }
}

/// A recognized entity reference found inside a text run: the offset of its
/// `&` in the scanned input and the code point it resolves to. Recording one
/// never alters the emitted bytes.
#[derive(Clone, Copy, PartialEq, Eq, Structural, Debug)]
pub struct EntityRef {
    pub offset: usize,
    pub code: u32,
}

pub ghost struct EntM {
    pub offset: int,
    pub code: int,
}

impl View for EntityRef {
    type V = EntM;

    open spec fn view(&self) -> EntM {
        EntM { offset: self.offset as int, code: self.code as int }
    }
}

/// A parsed start tag.
#[derive(Clone, Debug)]
pub struct Tag {
    /// Tag name, case-normalized per the configuration.
    pub name: Vec<u8>,
    pub attrs: Vec<Attribute>,
    pub self_closing: bool,
    /// True when the element's content is opaque to tokenization.
    pub raw_text: bool,
    pub span: Span,
}

pub ghost struct TagM {
    pub name: Seq<u8>,
    pub attrs: Seq<AttrM>,
    pub self_closing: bool,
    pub raw_text: bool,
    pub span: SpanM,
}

impl View for Tag {
    type V = TagM;

    open spec fn view(&self) -> TagM {
        TagM {
            name: self.name@,
            attrs: attrs_view(self.attrs@),
            self_closing: self.self_closing,
            raw_text: self.raw_text,
            span: self.span@,
        }
    }
}

/// A run of character data between tags.
#[derive(Clone, Debug)]
pub struct TextRun {
    pub span: Span,
    pub class: TextClass,
    /// Entity references found in the run, in source order; advisory
    /// metadata only.
    pub entities: Vec<EntityRef>,
}

pub ghost struct TextM {
    pub span: SpanM,
    pub class: TextClass,
    pub entities: Seq<EntM>,
}

impl View for TextRun {
    type V = TextM;

    open spec fn view(&self) -> TextM {
        TextM {
            span: self.span@,
            class: self.class,
            entities: self.entities@.map_values(|e: EntityRef| e@),
        }
    }
}

/// An end tag `</name ...>`.
#[derive(Clone, Debug)]
pub struct EndTag {
    /// Tag name, case-normalized per the configuration.
    pub name: Vec<u8>,
    pub span: Span,
}

pub ghost struct EndTagM {
    pub name: Seq<u8>,
    pub span: SpanM,
}

impl View for EndTag {
    type V = EndTagM;

    open spec fn view(&self) -> EndTagM {
        EndTagM { name: self.name@, span: self.span@ }
    }
}

/// One structural unit of the token stream.
#[derive(Clone, Debug)]
pub enum Token {
    StartTag(Tag),
    EndTag(EndTag),
    Text(TextRun),
    Comment(Span),
    Doctype(Span),
    CData(Span),
    Declaration(Span),
    ProcessingInstruction(Span),
}

pub ghost enum TokenM {
    StartTag(TagM),
    EndTag(EndTagM),
    Text(TextM),
    Comment(SpanM),
    Doctype(SpanM),
    CData(SpanM),
    Declaration(SpanM),
    ProcessingInstruction(SpanM),
}

impl View for Token {
    type V = TokenM;

    open spec fn view(&self) -> TokenM {
        match self {
            Token::StartTag(t) => TokenM::StartTag(t@),
            Token::EndTag(t) => TokenM::EndTag(t@),
            Token::Text(t) => TokenM::Text(t@),
            Token::Comment(s) => TokenM::Comment(s@),
            Token::Doctype(s) => TokenM::Doctype(s@),
            Token::CData(s) => TokenM::CData(s@),
            Token::Declaration(s) => TokenM::Declaration(s@),
            Token::ProcessingInstruction(s) => TokenM::ProcessingInstruction(s@),
        }
    }
}

/// The model of a token list.
pub open spec fn tokens_view(toks: Seq<Token>) -> Seq<TokenM> {
    toks.map_values(|t: Token| t@)
}

/// A problem found during a scan; non-fatal kinds never abort the scan.
#[derive(Clone, Copy, PartialEq, Eq, Structural, Debug)]
pub struct Diagnostic {
    pub kind: DiagKind,
    /// Byte offset of the triggering construct; line and column come from
    /// the position tracker.
    pub offset: usize,
}

pub ghost struct DiagM {
    pub kind: DiagKind,
    pub offset: int,
}

impl View for Diagnostic {
    type V = DiagM;

    open spec fn view(&self) -> DiagM {
        DiagM { kind: self.kind, offset: self.offset as int }
    }
}

/// The model of a diagnostic list.
pub open spec fn diags_view(ds: Seq<Diagnostic>) -> Seq<DiagM> {
    ds.map_values(|d: Diagnostic| d@)
}

/// The fixed human-readable message for each diagnostic kind.
pub open spec fn spec_diag_message(kind: DiagKind) -> Seq<char> {
    match kind {
        DiagKind::MalformedTag => "malformed tag"@,
        DiagKind::DuplicateAttribute => "duplicate attribute"@,
        DiagKind::UnterminatedComment => "unterminated comment"@,
        DiagKind::UnterminatedRawText => "unterminated raw text element"@,
        DiagKind::UnrecognizedEntity => "unrecognized entity reference"@,
        DiagKind::EncodingError => "invalid character encoding"@,
        DiagKind::ResourceExhausted => "resource bound exceeded"@,
    }
}

impl Diagnostic {
    /// The human-readable message of this diagnostic.
    pub fn message(&self) -> (r: &'static str)
        ensures
            r@ == spec_diag_message(self.kind),
    {
        match self.kind {
            DiagKind::MalformedTag => "malformed tag",
            DiagKind::DuplicateAttribute => "duplicate attribute",
            DiagKind::UnterminatedComment => "unterminated comment",
            DiagKind::UnterminatedRawText => "unterminated raw text element",
            DiagKind::UnrecognizedEntity => "unrecognized entity reference",
            DiagKind::EncodingError => "invalid character encoding",
            DiagKind::ResourceExhausted => "resource bound exceeded",
        }
    }

    /// Whether this kind aborts a scan; only encoding errors and resource
    /// exhaustion are fatal.
    pub fn is_fatal(&self) -> (r: bool)
        ensures
            r == (self.kind == DiagKind::EncodingError || self.kind
                == DiagKind::ResourceExhausted),
    {
        match self.kind {
            DiagKind::EncodingError => true,
            DiagKind::ResourceExhausted => true,
            _ => false,
        }
    }
}

} // verus!
