//! Log lines as spans of text, each with the role that it plays.

use vstd::prelude::*;

verus! {

/// The part of the client that a line speaks of.
#[derive(Debug, Clone, Copy, PartialEq, Eq, Structural)]
pub enum Scope {
    App,
    Req,
    Upstream,
    Netstack,
}

/// The kind of a route.
#[derive(Debug, Clone, Copy, PartialEq, Eq, Structural)]
pub enum RouteKind {
    Remote,
    Fallback,
    Direct,
}

/// A piece of a line.
#[derive(Debug, Clone)]
pub enum Span {
    /// Plain text.
    Text(String),
    /// Punctuation to be shown weakly.
    Weak(String),
    /// A value to be shown as such.
    Value(String),
    /// The label of a kind of route.
    Label(RouteKind),
}

/// A [`Span`] with its text as characters.
pub enum SpanView {
    Text(Seq<char>),
    Weak(Seq<char>),
    Value(Seq<char>),
    Label(RouteKind),
}

impl View for Span {
    type V = SpanView;

    open spec fn view(&self) -> SpanView {
        match *self {
            Span::Text(text) => SpanView::Text(text@),
            Span::Weak(text) => SpanView::Weak(text@),
            Span::Value(text) => SpanView::Value(text@),
            Span::Label(kind) => SpanView::Label(kind),
        }
    }
}

/// Plain text.
pub fn text(s: &str) -> (r: Span)
    ensures
        r@ == SpanView::Text(s@),
{
    Span::Text(s.to_string())
}

/// Punctuation to be shown weakly.
pub fn weak(s: &str) -> (r: Span)
    ensures
        r@ == SpanView::Weak(s@),
{
    Span::Weak(s.to_string())
}

/// A value to be shown as such.
pub fn value(s: &str) -> (r: Span)
    ensures
        r@ == SpanView::Value(s@),
{
    Span::Value(s.to_string())
}

/// The label of a kind of route.
pub fn route_label(kind: RouteKind) -> (r: Span)
    ensures
        r@ == SpanView::Label(kind),
{
    Span::Label(kind)
}

/// The view of a span keeps its role and its text.
pub proof fn law_span_view(s: String, kind: RouteKind)
    ensures
        Span::Text(s)@ == SpanView::Text(s@),
        Span::Weak(s)@ == SpanView::Weak(s@),
        Span::Value(s)@ == SpanView::Value(s@),
        Span::Label(kind)@ == SpanView::Label(kind),
{
}

} // verus!
