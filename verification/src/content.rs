use vstd::prelude::*;

verus! {

/// The errors the content-stream interpreter raises.
#[derive(Clone, Copy, Debug, PartialEq, Eq, Structural)]
pub enum PdfError {
    /// An operator carries malformed operands: the wrong count, or an
    /// operand of the wrong kind where a number or a name is needed.
    Syntax,
    /// A font reference is absent from the page's resource mapping, or a
    /// referenced structural object is missing.
    ResourceNotFound,
}

/// An element of a show-array operand. Only text elements are ever read;
/// kerning adjustments and anything else are `Other`.
pub enum ArrayElem {
    Text(String),
    Other,
}

/// One operand of a drawing operator, as far as the interpreter reads it.
/// Numbers are carried as order-preserving integer keys (see `PdfFont`).
pub enum Operand {
    Num(u32),
    Name(String),
    Text(String),
    Array(Vec<ArrayElem>),
    Other,
}

/// The operator kinds the interpreter distinguishes.
#[derive(Clone, Copy, Debug, PartialEq, Eq, Structural)]
pub enum OpKind {
    /// "Tf": select a font resource at a nominal size.
    SetFont,
    /// "Tm": set the text matrix; its diagonal holds the effective scales.
    SetMatrix,
    /// "Tj": show a text string (operand 0).
    ShowText,
    /// "'": move to the next line and show a text string (operand 0).
    ShowTextNewline,
    /// "\"": set word and character spacing, move to the next line and show
    /// a text string (operand 2).
    ShowTextSpaced,
    /// "TJ": show an array of text runs with kerning adjustments.
    ShowTextArray,
    /// Any other operator: ignored.
    Other,
}

/// The four show-text operator kinds: the observation points.
pub open spec fn is_show_kind(k: OpKind) -> bool {
    k == OpKind::ShowText || k == OpKind::ShowTextNewline || k == OpKind::ShowTextSpaced
        || k == OpKind::ShowTextArray
}

/// The two font-changing operator kinds.
pub open spec fn is_font_kind(k: OpKind) -> bool {
    k == OpKind::SetFont || k == OpKind::SetMatrix
}

/// One drawing operator with its operands.
pub struct Op {
    pub kind: OpKind,
    pub operands: Vec<Operand>,
}

/// One entry of a page's font resource mapping: a short resource name
/// bound to the base font name it resolves to.
pub struct ResourceEntry {
    pub name: String,
    pub base_font: String,
}

/// One page: its 1-based number, its drawing operators in stream order,
/// and its font resource mapping.
pub struct Page {
    pub number: u32,
    pub ops: Vec<Op>,
    pub resources: Vec<ResourceEntry>,
}

} // verus!
