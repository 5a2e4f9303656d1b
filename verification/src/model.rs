//! The declarations that the catalog holds.

use vstd::prelude::*;

verus! {

/// One field of a structure.
#[derive(Debug)]
pub struct Member {
    /// The field's name.
    pub ident: Vec<u8>,
    /// The field's base type, its tokens joined with `~`.
    pub type_: Vec<u8>,
    /// The array dimension, its tokens joined with `~`, if the field has one.
    pub dims: Option<Vec<u8>>,
}

/// One enumerator.
#[derive(Debug)]
pub struct Value {
    /// The enumerator's name.
    pub ident: Vec<u8>,
    /// The explicit value, its tokens joined with `~`. Never computed when
    /// the source leaves it out.
    pub value: Option<Vec<u8>>,
}

/// What a type name stands for.
#[derive(Debug)]
pub enum Stmt {
    /// Another name for the type whose tokens, joined with `~`, it holds.
    Alias(Vec<u8>),
    /// An enumeration with its enumerators in source order.
    Enum(Vec<Value>),
    /// A structure with its fields in source order.
    Struct(Vec<Member>),
}

/// Mathematical value of a [`Member`].
pub struct MemberView {
    pub ident: Seq<u8>,
    pub type_: Seq<u8>,
    pub dims: Option<Seq<u8>>,
}

/// Mathematical value of a [`Value`].
pub struct ValueView {
    pub ident: Seq<u8>,
    pub value: Option<Seq<u8>>,
}

/// Mathematical value of a [`Stmt`].
pub enum StmtView {
    Alias(Seq<u8>),
    Enum(Seq<ValueView>),
    Struct(Seq<MemberView>),
}

/// The bytes of an optional byte string.
pub open spec fn option_bytes(text: Option<Vec<u8>>) -> Option<Seq<u8>> {
    match text {
        Some(bytes) => Some(bytes@),
        None => None,
    }
}

impl View for Member {
    type V = MemberView;

    open spec fn view(&self) -> MemberView {
        MemberView { ident: self.ident@, type_: self.type_@, dims: option_bytes(self.dims) }
    }
}

impl View for Value {
    type V = ValueView;

    open spec fn view(&self) -> ValueView {
        ValueView { ident: self.ident@, value: option_bytes(self.value) }
    }
}

/// The values of a list of members.
pub open spec fn member_views(members: Seq<Member>) -> Seq<MemberView> {
    members.map_values(|m: Member| m@)
}

/// The values of a list of enumerators.
pub open spec fn value_views(values: Seq<Value>) -> Seq<ValueView> {
    values.map_values(|v: Value| v@)
}

impl View for Stmt {
    type V = StmtView;

    open spec fn view(&self) -> StmtView {
        match self {
            Stmt::Alias(target) => StmtView::Alias(target@),
            Stmt::Enum(values) => StmtView::Enum(value_views(values@)),
            Stmt::Struct(members) => StmtView::Struct(member_views(members@)),
        }
    }
}

} // verus!
