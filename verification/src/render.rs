//! The text of a binding declaration.

use vstd::prelude::*;
use vstd::string::*;
use crate::bytes::{push_bytes, push_str, word};
use crate::model::{
    member_views,
    value_views,
    Member,
    MemberView,
    Stmt,
    StmtView,
    Value,
    ValueView,
};

verus! {

/// One line of an enumeration: `ident,` or `ident=value,`.
pub open spec fn value_text(value: ValueView) -> Seq<u8> {
    match value.value {
        Some(explicit) => word("\t") + value.ident + word("=") + explicit + word(",\n"),
        None => word("\t") + value.ident + word(",\n"),
    }
}

/// One line of a structure: `ident: type,` or `ident: type[dimension],`.
pub open spec fn member_text(member: MemberView) -> Seq<u8> {
    match member.dims {
        Some(dims) => word("\tpub ") + member.ident + word(": ") + member.type_ + word("[") + dims
            + word("],\n"),
        None => word("\tpub ") + member.ident + word(": ") + member.type_ + word(",\n"),
    }
}

/// The lines of the enumerators, in order.
pub open spec fn values_text(values: Seq<ValueView>) -> Seq<u8>
    decreases values.len(),
{
    if values.len() == 0 {
        Seq::empty()
    } else {
        values_text(values.drop_last()) + value_text(values.last())
    }
}

/// The lines of the members, in order.
pub open spec fn members_text(members: Seq<MemberView>) -> Seq<u8>
    decreases members.len(),
{
    if members.len() == 0 {
        Seq::empty()
    } else {
        members_text(members.drop_last()) + member_text(members.last())
    }
}

/// The declaration of `name` as `definition`.
///
/// An alias is one line, `name = target`. An enumeration and a structure
/// are blocks with one line for each enumerator or member, in the order of
/// the source, marked for C-compatible representation and layout.
pub open spec fn declaration_text(name: Seq<u8>, definition: StmtView) -> Seq<u8> {
    match definition {
        StmtView::Alias(target) => word("pub type ") + name + word(" = ") + target + word(";\n\n"),
        StmtView::Enum(values) => word("#[repr(C)]\npub enum ") + name + word(" {\n")
            + values_text(values) + word("}\n\n"),
        StmtView::Struct(members) => word("#[repr(C)]\npub struct ") + name + word(" {\n")
            + members_text(members) + word("}\n\n"),
    }
}

fn render_value(out: &mut Vec<u8>, value: &Value)
    ensures
        final(out)@ == old(out)@ + value_text(value@),
{
    push_str(out, "\t");
    push_bytes(out, value.ident.as_slice());
    match &value.value {
        Some(explicit) => {
            push_str(out, "=");
            push_bytes(out, explicit.as_slice());
            assert(out@ =~= old(out)@ + (word("\t") + value.ident@ + word("=") + explicit@));
        },
        None => {
            assert(out@ =~= old(out)@ + (word("\t") + value.ident@));
        },
    }
    push_str(out, ",\n");
    assert(out@ =~= old(out)@ + value_text(value@));
}

fn render_member(out: &mut Vec<u8>, member: &Member)
    ensures
        final(out)@ == old(out)@ + member_text(member@),
{
    push_str(out, "\tpub ");
    push_bytes(out, member.ident.as_slice());
    push_str(out, ": ");
    push_bytes(out, member.type_.as_slice());
    match &member.dims {
        Some(dims) => {
            push_str(out, "[");
            push_bytes(out, dims.as_slice());
            push_str(out, "],\n");
        },
        None => {
            push_str(out, ",\n");
        },
    }
    assert(out@ =~= old(out)@ + member_text(member@));
}

/// The text of the declaration of `name` as `definition`.
pub fn render(name: &[u8], definition: &Stmt) -> (out: Vec<u8>)
    ensures
        out@ == declaration_text(name@, definition@),
{
    let mut out: Vec<u8> = Vec::new();
    match definition {
        Stmt::Alias(target) => {
            push_str(&mut out, "pub type ");
            push_bytes(&mut out, name);
            push_str(&mut out, " = ");
            push_bytes(&mut out, target.as_slice());
            push_str(&mut out, ";\n\n");
            assert(out@ =~= declaration_text(name@, definition@));
        },
        Stmt::Enum(values) => {
            push_str(&mut out, "#[repr(C)]\npub enum ");
            push_bytes(&mut out, name);
            push_str(&mut out, " {\n");
            let ghost head = out@;
            assert(head =~= word("#[repr(C)]\npub enum ") + name@ + word(" {\n"));
            let mut i: usize = 0;
            while i < values.len()
                invariant
                    0 <= i <= values@.len(),
                    out@ == head + values_text(value_views(values@).subrange(0, i as int)),
                decreases values@.len() - i,
            {
                render_value(&mut out, &values[i]);
                i += 1;
                proof {
                    let now = value_views(values@).subrange(0, i as int);
                    assert(now.drop_last() =~= value_views(values@).subrange(0, i - 1));
                    assert(now.last() == values@[i - 1]@);
                    assert(out@ =~= head + values_text(now));
                }
            }
            assert(value_views(values@).subrange(0, i as int) =~= value_views(values@));
            push_str(&mut out, "}\n\n");
            assert(out@ =~= declaration_text(name@, definition@));
        },
        Stmt::Struct(members) => {
            push_str(&mut out, "#[repr(C)]\npub struct ");
            push_bytes(&mut out, name);
            push_str(&mut out, " {\n");
            let ghost head = out@;
            assert(head =~= word("#[repr(C)]\npub struct ") + name@ + word(" {\n"));
            let mut i: usize = 0;
            while i < members.len()
                invariant
                    0 <= i <= members@.len(),
                    out@ == head + members_text(member_views(members@).subrange(0, i as int)),
                decreases members@.len() - i,
            {
                render_member(&mut out, &members[i]);
                i += 1;
                proof {
                    let now = member_views(members@).subrange(0, i as int);
                    assert(now.drop_last() =~= member_views(members@).subrange(0, i - 1));
                    assert(now.last() == members@[i - 1]@);
                    assert(out@ =~= head + members_text(now));
                }
            }
            assert(member_views(members@).subrange(0, i as int) =~= member_views(members@));
            push_str(&mut out, "}\n\n");
            assert(out@ =~= declaration_text(name@, definition@));
        },
    }
    out
}

} // verus!
