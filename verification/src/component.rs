//! The platform-independent component abstraction: the classification of a
//! component, its mathematical model, and the shared query surface that every
//! platform-specific component type exposes.

use vstd::prelude::*;

verus! {

/// The lexical classification of a path component. Exactly one of these
/// holds for any component: the classifications partition the component
/// space.
#[derive(Clone, Copy, Debug, PartialEq, Eq, Structural)]
pub enum Classification {
    /// A root or prefix marker: no component may validly precede it.
    Root,
    /// The lexical "go up one level" marker, `..`.
    Parent,
    /// The lexical "stay in this directory" marker, `.`.
    Current,
    /// An ordinary named segment.
    Normal,
}

/// The mathematical model of a component: its classification, together with
/// the text an ordinary named segment carries. Root, Parent and Current
/// markers have canonical text fixed by the platform grammar, so the model
/// records text only for Normal components.
pub enum ComponentModel {
    Root,
    Parent,
    Current,
    Normal(Seq<char>),
}

/// The number of bytes in the UTF-8 encoding of `s`: what `str::len`
/// returns for a string slice whose characters are `s`.
pub open spec fn byte_len(s: Seq<char>) -> nat {
    vstd::utf8::encode_utf8(s).len()
}

/// A character sequence encodes to zero bytes exactly when it is empty.
pub proof fn lemma_byte_len_zero(s: Seq<char>)
    ensures
        byte_len(s) == 0 <==> s.len() == 0,
    decreases s.len(),
{
    if s.len() > 0 {
        assert(vstd::utf8::encode_scalar(s[0] as u32).len() >= 1);
    }
}

/// The uniform, read-only query surface of a path component, shared by every
/// platform-specific component type. A component is an immutable borrowed
/// view into a slice of a UTF-8 path string: it is classified as exactly one
/// of Root, Parent, Current or Normal, and its text reconstructs, by
/// concatenation with separators, the path it was decomposed from.
pub trait Utf8Component<'a>: Sized + Clone + core::fmt::Debug + PartialEq + Eq + PartialOrd + Ord
    + crate::sealed::Sealed {
    /// The classification of this component, fixed at construction.
    spec fn classification(&self) -> Classification;

    /// The text of this component, as a sequence of characters.
    spec fn text(&self) -> Seq<char>;

    /// Extracts the underlying string slice, borrowed from the original
    /// path string.
    fn as_str(&self) -> (r: &'a str)
        ensures
            r@ == self.text(),
    ;

    /// True iff this component is a root or prefix marker, meaning there
    /// are no more components before this one.
    fn is_root(&self) -> (r: bool)
        ensures
            r == (self.classification() is Root),
    ;

    /// True iff this component is an ordinary named segment.
    fn is_normal(&self) -> (r: bool)
        ensures
            r == (self.classification() is Normal),
    ;

    /// True iff this component is the lexical parent-directory marker.
    fn is_parent(&self) -> (r: bool)
        ensures
            r == (self.classification() is Parent),
    ;

    /// True iff this component is the lexical current-directory marker.
    fn is_current(&self) -> (r: bool)
        ensures
            r == (self.classification() is Current),
    ;

    /// The size of this component's text in bytes.
    fn len(&self) -> (r: usize)
        ensures
            r == byte_len(self.text()) as usize,
            byte_len(self.text()) <= usize::MAX ==> r == byte_len(self.text()),
    ;

    /// True iff this component's text is empty, that is, iff `len` returns
    /// zero.
    fn is_empty(&self) -> (r: bool)
        ensures
            r == (byte_len(self.text()) as usize == 0),
            byte_len(self.text()) <= usize::MAX ==> r == (self.text().len() == 0),
    {
        let n = self.len();
        proof {
            lemma_byte_len_zero(self.text());
        }
        n == 0
    }

    /// A canonical root component, not tied to any particular source string.
    fn root() -> (r: Self)
        ensures
            r.classification() is Root,
    ;

    /// A canonical parent-directory component.
    fn parent() -> (r: Self)
        ensures
            r.classification() is Parent,
    ;

    /// A canonical current-directory component.
    fn current() -> (r: Self)
        ensures
            r.classification() is Current,
    ;
}

/// Exclusivity: every component is classified as exactly one of Root,
/// Parent, Current and Normal, so exactly one of `is_root`, `is_parent`,
/// `is_current` and `is_normal` returns true on it.
pub proof fn lemma_classification_exclusive<'a, C: Utf8Component<'a>>(c: &C)
    ensures
        (c.classification() is Root) || (c.classification() is Parent) || (
        c.classification() is Current) || (c.classification() is Normal),
        c.classification() is Root ==> !(c.classification() is Parent) && !(
        c.classification() is Current) && !(c.classification() is Normal),
        c.classification() is Parent ==> !(c.classification() is Root) && !(
        c.classification() is Current) && !(c.classification() is Normal),
        c.classification() is Current ==> !(c.classification() is Root) && !(
        c.classification() is Parent) && !(c.classification() is Normal),
        c.classification() is Normal ==> !(c.classification() is Root) && !(
        c.classification() is Parent) && !(c.classification() is Current),
{
}

} // verus!
