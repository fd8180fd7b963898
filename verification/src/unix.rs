//! The component type of the Unix-style path grammar: a single separator
//! `/` as the root marker, `..` and `.` as the parent- and
//! current-directory markers, and any other segment as a named component
//! borrowed from the source path string.

use vstd::prelude::*;
use core::cmp::Ordering;
use crate::component::{Classification, ComponentModel, Utf8Component};
use crate::order::{lemma_lex_cmp_equal, lemma_lex_cmp_flip, lemma_lex_cmp_trans, lex_cmp,
    lex_compare};

verus! {

/// A component of a Unix-style path: an immutable, lexically classified,
/// borrowed view into a slice of a UTF-8 path string.
#[derive(Clone, Copy, Debug, Eq, Ord)]
pub enum Utf8UnixComponent<'a> {
    /// The root marker `/`.
    RootDir,
    /// The parent-directory marker `..`.
    ParentDir,
    /// The current-directory marker `.`.
    CurDir,
    /// An ordinary named segment, borrowed from the source path string.
    Normal(&'a str),
}

impl<'a> Utf8UnixComponent<'a> {
    /// The mathematical model of this component: its classification,
    /// together with the text a named segment carries.
    pub open spec fn model(self) -> ComponentModel {
        match self {
            Utf8UnixComponent::RootDir => ComponentModel::Root,
            Utf8UnixComponent::ParentDir => ComponentModel::Parent,
            Utf8UnixComponent::CurDir => ComponentModel::Current,
            Utf8UnixComponent::Normal(s) => ComponentModel::Normal(s@),
        }
    }

    /// Structural equality: same classification and same text.
    pub open spec fn same(self, other: Utf8UnixComponent<'a>) -> bool {
        self.classification() == other.classification() && self.text() == other.text()
    }

    /// The position of this component's classification in the total order:
    /// Root, then Parent, then Current, then Normal.
    pub open spec fn rank(self) -> int {
        match self {
            Utf8UnixComponent::RootDir => 0,
            Utf8UnixComponent::ParentDir => 1,
            Utf8UnixComponent::CurDir => 2,
            Utf8UnixComponent::Normal(_) => 3,
        }
    }

    /// The total order on components: by classification rank, then
    /// lexicographically by text.
    pub open spec fn order_spec(self, other: Utf8UnixComponent<'a>) -> Ordering {
        if self.rank() < other.rank() {
            Ordering::Less
        } else if other.rank() < self.rank() {
            Ordering::Greater
        } else {
            lex_cmp(self.text(), other.text())
        }
    }

    fn rank_exec(&self) -> (r: u8)
        ensures
            r as int == self.rank(),
    {
        match *self {
            Utf8UnixComponent::RootDir => 0,
            Utf8UnixComponent::ParentDir => 1,
            Utf8UnixComponent::CurDir => 2,
            Utf8UnixComponent::Normal(_) => 3,
        }
    }

    /// Compares two components in the total order.
    pub fn compare(&self, other: &Self) -> (r: Ordering)
        ensures
            r == self.order_spec(*other),
    {
        let ra = self.rank_exec();
        let rb = other.rank_exec();
        if ra < rb {
            Ordering::Less
        } else if rb < ra {
            Ordering::Greater
        } else {
            match (self, other) {
                (Utf8UnixComponent::Normal(a), Utf8UnixComponent::Normal(b)) => lex_compare(
                    a,
                    b,
                ),
                _ => {
                    proof {
                        lemma_lex_cmp_equal(self.text(), other.text());
                    }
                    Ordering::Equal
                },
            }
        }
    }
}

impl<'a> crate::sealed::Sealed for Utf8UnixComponent<'a> {

}

impl<'a> Utf8Component<'a> for Utf8UnixComponent<'a> {
    open spec fn classification(&self) -> Classification {
        match *self {
            Utf8UnixComponent::RootDir => Classification::Root,
            Utf8UnixComponent::ParentDir => Classification::Parent,
            Utf8UnixComponent::CurDir => Classification::Current,
            Utf8UnixComponent::Normal(_) => Classification::Normal,
        }
    }

    open spec fn text(&self) -> Seq<char> {
        match *self {
            Utf8UnixComponent::RootDir => seq!['/'],
            Utf8UnixComponent::ParentDir => seq!['.', '.'],
            Utf8UnixComponent::CurDir => seq!['.'],
            Utf8UnixComponent::Normal(s) => s@,
        }
    }

    fn as_str(&self) -> (r: &'a str) {
        proof {
            reveal_strlit("/");
            reveal_strlit("..");
            reveal_strlit(".");
            assert("/"@ =~= seq!['/']);
            assert(".."@ =~= seq!['.', '.']);
            assert("."@ =~= seq!['.']);
        }
        match *self {
            Utf8UnixComponent::RootDir => "/",
            Utf8UnixComponent::ParentDir => "..",
            Utf8UnixComponent::CurDir => ".",
            Utf8UnixComponent::Normal(s) => s,
        }
    }

    fn is_root(&self) -> (r: bool) {
        matches!(*self, Utf8UnixComponent::RootDir)
    }

    fn is_normal(&self) -> (r: bool) {
        matches!(*self, Utf8UnixComponent::Normal(_))
    }

    fn is_parent(&self) -> (r: bool) {
        matches!(*self, Utf8UnixComponent::ParentDir)
    }

    fn is_current(&self) -> (r: bool) {
        matches!(*self, Utf8UnixComponent::CurDir)
    }

    fn len(&self) -> (r: usize) {
        self.as_str().len()
    }

    fn root() -> (r: Self)
        ensures
            r == Utf8UnixComponent::<'a>::RootDir,
    {
        Utf8UnixComponent::RootDir
    }

    fn parent() -> (r: Self)
        ensures
            r == Utf8UnixComponent::<'a>::ParentDir,
    {
        Utf8UnixComponent::ParentDir
    }

    fn current() -> (r: Self)
        ensures
            r == Utf8UnixComponent::<'a>::CurDir,
    {
        Utf8UnixComponent::CurDir
    }
}

impl<'a> PartialEq for Utf8UnixComponent<'a> {
    fn eq(&self, other: &Self) -> (r: bool) {
        match (self, other) {
            (Utf8UnixComponent::RootDir, Utf8UnixComponent::RootDir) => true,
            (Utf8UnixComponent::ParentDir, Utf8UnixComponent::ParentDir) => true,
            (Utf8UnixComponent::CurDir, Utf8UnixComponent::CurDir) => true,
            (Utf8UnixComponent::Normal(a), Utf8UnixComponent::Normal(b)) => {
                let c = lex_compare(a, b);
                proof {
                    lemma_lex_cmp_equal(a@, b@);
                }
                matches!(c, Ordering::Equal)
            },
            _ => false,
        }
    }
}

impl<'a> vstd::std_specs::cmp::PartialEqSpecImpl for Utf8UnixComponent<'a> {
    open spec fn obeys_eq_spec() -> bool {
        true
    }

    open spec fn eq_spec(&self, other: &Self) -> bool {
        self.same(*other)
    }
}

impl<'a> PartialOrd for Utf8UnixComponent<'a> {
    fn partial_cmp(&self, other: &Self) -> (r: Option<Ordering>) {
        Some(self.compare(other))
    }
}

impl<'a> vstd::std_specs::cmp::PartialOrdSpecImpl for Utf8UnixComponent<'a> {
    open spec fn obeys_partial_cmp_spec() -> bool {
        true
    }

    open spec fn partial_cmp_spec(&self, other: &Self) -> Option<Ordering> {
        Some(self.order_spec(*other))
    }
}

/// The order on components is total and consistent with structural
/// equality: any two components compare as exactly one of Less, Equal and
/// Greater; they compare as Equal exactly when they have the same
/// classification and the same text; and swapping the operands swaps Less
/// and Greater.
pub proof fn lemma_order_total<'a>(x: Utf8UnixComponent<'a>, y: Utf8UnixComponent<'a>)
    ensures
        (x.order_spec(y) is Less) || (x.order_spec(y) is Equal) || (x.order_spec(y) is Greater),
        (x.order_spec(y) is Less) ==> !(x.order_spec(y) is Equal) && !(x.order_spec(y) is Greater),
        (x.order_spec(y) is Equal) ==> !(x.order_spec(y) is Less) && !(x.order_spec(y) is Greater),
        (x.order_spec(y) is Greater) ==> !(x.order_spec(y) is Less) && !(x.order_spec(y) is Equal),
        (x.order_spec(y) is Equal) <==> x.same(y),
        (x.order_spec(y) is Less) <==> (y.order_spec(x) is Greater),
{
    lemma_lex_cmp_equal(x.text(), y.text());
    lemma_lex_cmp_flip(x.text(), y.text());
}

/// The strict order on components is transitive.
pub proof fn lemma_order_trans<'a>(
    x: Utf8UnixComponent<'a>,
    y: Utf8UnixComponent<'a>,
    z: Utf8UnixComponent<'a>,
)
    requires
        x.order_spec(y) is Less,
        y.order_spec(z) is Less,
    ensures
        x.order_spec(z) is Less,
{
    if x.rank() == y.rank() && y.rank() == z.rank() {
        lemma_lex_cmp_trans(x.text(), y.text(), z.text());
    }
}

} // verus!
