//! Coloured text fragments that blocks are rendered into.
use std::sync::Arc;
use vstd::prelude::*;

verus! {

/// A palette entry. The engine depends only on which entry a fragment uses;
/// what colour each entry shows is left to the renderer.
#[derive(Clone, Copy, Debug, PartialEq, Eq, Structural)]
pub enum Color {
    White,
    Blue,
    Magenta,
    Red,
    Purple,
    Green,
    Gray10,
    Gray20,
    Gray30,
    Gray40,
    Gray60,
    Gray99,
    GrayAA,
}

/// Text that is either a literal of the program or a shared heap string.
#[derive(Debug, Clone)]
pub enum MaybeStatic {
    Dynamic(Arc<String>),
    Static(&'static str),
}

impl View for MaybeStatic {
    type V = Seq<char>;

    open spec fn view(&self) -> Seq<char> {
        match self {
            MaybeStatic::Dynamic(s) => s@,
            MaybeStatic::Static(s) => s@,
        }
    }
}

impl MaybeStatic {
    /// The text, whichever way it is held.
    pub fn as_str(&self) -> (r: &str)
        ensures
            r@ == self@,
    {
        match self {
            MaybeStatic::Dynamic(s) => s.as_str(),
            MaybeStatic::Static(s) => s,
        }
    }
}

/// One fragment of rendered text with its colour.
#[derive(Debug, Clone)]
pub struct Token {
    pub text: MaybeStatic,
    pub color: Color,
}

impl Token {
    /// A fragment over a literal.
    pub fn from_str(text: &'static str, color: Color) -> (r: Token)
        ensures
            r.text@ == text@,
            r.color == color,
    {
        Token { text: MaybeStatic::Static(text), color }
    }

    /// A fragment that takes ownership of `text`.
    pub fn from_string(text: String, color: Color) -> (r: Token)
        ensures
            r.text@ == text@,
            r.color == color,
    {
        Token { text: MaybeStatic::Dynamic(Arc::new(text)), color }
    }
}

impl Token {
    /// A fragment with the same text and colour; shared text stays shared.
    pub fn duplicate(&self) -> (r: Token)
        ensures
            r.text@ == self.text@,
            r.color == self.color,
    {
        let text = match &self.text {
            MaybeStatic::Dynamic(s) => MaybeStatic::Dynamic(s.clone()),
            MaybeStatic::Static(s) => MaybeStatic::Static(s),
        };
        Token { text, color: self.color }
    }
}

/// Copies a list of fragments.
pub fn duplicate_all(ts: &Vec<Token>) -> (r: Vec<Token>)
    ensures
        fragments(r@) == fragments(ts@),
{
    let mut r: Vec<Token> = Vec::with_capacity(ts.len());
    let mut i: usize = 0;
    while i < ts.len()
        invariant
            i <= ts@.len(),
            fragments(r@) == fragments(ts@.take(i as int)),
        decreases ts@.len() - i,
    {
        let ghost before = r@;
        r.push(ts[i].duplicate());
        i += 1;
        proof {
            let t = ts@[i - 1];
            assert(fragments(r@) =~= fragments(before).push((t.text@, t.color)));
            assert(fragments(ts@.take(i as int)) =~= fragments(ts@.take(i - 1)).push((t.text@, t.color)));
        }
    }
    proof {
        assert(ts@.take(i as int) =~= ts@);
    }
    r
}

/// The text and colour of each fragment of a list, in order.
pub open spec fn fragments(ts: Seq<Token>) -> Seq<(Seq<char>, Color)> {
    ts.map_values(|t: Token| (t.text@, t.color))
}

/// An ordered list of fragments that the renderer consumes.
#[derive(Debug)]
pub struct TokenStream {
    pub inner: Vec<Token>,
}

impl TokenStream {
    pub fn new() -> (r: TokenStream)
        ensures
            r.inner@.len() == 0,
    {
        TokenStream { inner: Vec::new() }
    }

    /// Appends a literal fragment.
    pub fn push(&mut self, text: &'static str, color: Color)
        ensures
            fragments(final(self).inner@) == fragments(old(self).inner@).push((text@, color)),
    {
        self.inner.push(Token::from_str(text, color));
        proof {
            assert(fragments(self.inner@) =~= fragments(old(self).inner@).push((text@, color)));
        }
    }

    /// Appends a fragment that owns its text.
    pub fn push_owned(&mut self, text: String, color: Color)
        ensures
            fragments(final(self).inner@) == fragments(old(self).inner@).push((text@, color)),
    {
        let ghost t = text@;
        self.inner.push(Token::from_string(text, color));
        proof {
            assert(fragments(self.inner@) =~= fragments(old(self).inner@).push((t, color)));
        }
    }
}


/// The colours of each kind of fragment in rendered text.
pub trait ColorScheme {
    fn brackets() -> Color;

    fn delimiter() -> Color;

    fn comment() -> Color;

    fn item() -> Color;

    fn spacing() -> Color {
        Color::White
    }

    fn known() -> Color {
        Self::item()
    }

    fn root() -> Color {
        Self::item()
    }

    fn annotation() -> Color {
        Self::item()
    }

    fn special() -> Color {
        Self::item()
    }

    fn expr() -> Color;

    fn opcode() -> Color;

    fn register() -> Color;

    fn immediate() -> Color;

    fn attribute() -> Color;

    fn segment() -> Color;
}

/// A scheme after IBM's palette.
pub struct IBM;

impl ColorScheme for IBM {
    fn brackets() -> Color {
        Color::Gray60
    }

    fn delimiter() -> Color {
        Color::Gray40
    }

    fn comment() -> Color {
        Color::Gray20
    }

    fn item() -> Color {
        Color::Magenta
    }

    fn known() -> Color {
        Color::Purple
    }

    fn root() -> Color {
        Color::Purple
    }

    fn annotation() -> Color {
        Color::Blue
    }

    fn special() -> Color {
        Color::Red
    }

    fn expr() -> Color {
        Color::Gray99
    }

    fn opcode() -> Color {
        Color::White
    }

    fn register() -> Color {
        Color::Magenta
    }

    fn immediate() -> Color {
        Color::Blue
    }

    fn attribute() -> Color {
        Color::Gray40
    }

    fn segment() -> Color {
        Color::Green
    }
}

/// The scheme in use.
pub type Colors = IBM;

} // verus!
