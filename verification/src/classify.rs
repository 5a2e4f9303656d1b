//! Declaration classifier: tells what kind of declaration a statement is
//! and registers the types that it declares.
//!
//! The spec functions of this module work on the texts of a statement's
//! tokens; each recognizer has one spec function that says what it accepts
//! and what it takes out of the statement.

use vstd::prelude::*;
use vstd::slice::slice_subrange;
use vstd::string::*;
use crate::bytes::{copy_range, is_word, join, joined, position, texts, word};
use crate::catalog::{table_insert, unique, Catalog};
use crate::model::{
    member_views,
    value_views,
    Member,
    MemberView,
    Stmt,
    StmtView,
    Value,
    ValueView,
};
use crate::nesting::{closes, field_end, lemma_brackets_differ, lemma_field_end, opens};

verus! {

/// What a statement was recognized as.
#[derive(Debug, Clone, Copy, PartialEq, Eq, Structural)]
pub enum Kind {
    /// `typedef ... struct { .. } name`: registered.
    Struct,
    /// `typedef ... enum { .. } name`: registered.
    Enum,
    /// A typedef of a function pointer: recognized, not registered.
    FunctionType,
    /// Any other typedef: registered as an alias.
    Alias,
    /// A structure without a typedef: recognized, not registered.
    BareStruct,
    /// A function declaration: recognized, not registered.
    Function,
    /// A compiler directive: recognized, not registered.
    Directive,
    /// None of these.
    Unrecognized,
}

/// `keyword { body }` or `keyword tag { body }`: the tag, if any, and the
/// body.
pub open spec fn braced(stmt: Seq<Seq<u8>>, keyword: Seq<u8>) -> Option<
    (Option<Seq<u8>>, Seq<Seq<u8>>),
> {
    let l = stmt.len() as int;
    if l >= 3 && stmt[0] == keyword && stmt[1] == word("{") && stmt[l - 1] == word("}") {
        Some((None, stmt.subrange(2, l - 1)))
    } else if l >= 4 && stmt[0] == keyword && stmt[2] == word("{") && stmt[l - 1] == word("}") {
        Some((Some(stmt[1]), stmt.subrange(3, l - 1)))
    } else {
        None
    }
}

/// The member that one field of a structure body declares.
///
/// A field that ends in `]` is an array: its name stands before the first
/// `[`, its dimension between that `[` and the final `]`, its type before
/// the name. Any other field ends in its name. An empty field declares
/// nothing, nor does an array field without `[` or without a name.
pub open spec fn member_of(field: Seq<Seq<u8>>) -> Option<MemberView> {
    let l = field.len() as int;
    if l == 0 {
        None
    } else if field[l - 1] == word("]") {
        match field.index_of_first(word("[")) {
            Some(pos) => if pos >= 1 {
                Some(
                    MemberView {
                        ident: field[pos - 1],
                        type_: joined(field.subrange(0, pos - 1), word("~")),
                        dims: Some(joined(field.subrange(pos + 1, l - 1), word("~"))),
                    },
                )
            } else {
                None
            },
            None => None,
        }
    } else {
        Some(
            MemberView {
                ident: field[l - 1],
                type_: joined(field.subrange(0, l - 1), word("~")),
                dims: None,
            },
        )
    }
}

/// The enumerator that one field of an enumeration body declares:
/// `name = value...` or `name` alone.
pub open spec fn value_of(field: Seq<Seq<u8>>) -> Option<ValueView> {
    let l = field.len() as int;
    if l >= 2 && field[1] == word("=") {
        Some(ValueView { ident: field[0], value: Some(joined(field.subrange(2, l), word("~"))) })
    } else if l == 1 {
        Some(ValueView { ident: field[0], value: None })
    } else {
        None
    }
}

/// The members declared by the fields of `body[from..]`, the fields being
/// separated by `;` at nesting depth zero.
pub open spec fn members_from(body: Seq<Seq<u8>>, from: int) -> Seq<MemberView>
    decreases body.len() - from,
{
    if from < 0 || from > body.len() {
        Seq::empty()
    } else {
        let end = field_end(body, word(";"), from, 0);
        let head = match member_of(body.subrange(from, end)) {
            Some(member) => seq![member],
            None => Seq::empty(),
        };
        if end >= body.len() {
            head
        } else {
            proof {
                lemma_field_end(body, word(";"), from, 0);
            }
            head + members_from(body, end + 1)
        }
    }
}

/// The enumerators declared by the fields of `body[from..]`, the fields
/// being separated by `,` at nesting depth zero.
pub open spec fn values_from(body: Seq<Seq<u8>>, from: int) -> Seq<ValueView>
    decreases body.len() - from,
{
    if from < 0 || from > body.len() {
        Seq::empty()
    } else {
        let end = field_end(body, word(","), from, 0);
        let head = match value_of(body.subrange(from, end)) {
            Some(value) => seq![value],
            None => Seq::empty(),
        };
        if end >= body.len() {
            head
        } else {
            proof {
                lemma_field_end(body, word(","), from, 0);
            }
            head + values_from(body, end + 1)
        }
    }
}

/// `typedef target... name`: the name and the target.
pub open spec fn typedef_of(stmt: Seq<Seq<u8>>) -> Option<(Seq<u8>, Seq<Seq<u8>>)> {
    let l = stmt.len() as int;
    if l >= 2 && stmt[0] == word("typedef") {
        Some((stmt[l - 1], stmt.subrange(1, l - 1)))
    } else {
        None
    }
}

/// `ret... name ( params... )`: the return type, the name and the
/// parameters. The name is the token before the first `(`.
pub open spec fn function_of(stmt: Seq<Seq<u8>>) -> Option<
    (Seq<Seq<u8>>, Seq<u8>, Seq<Seq<u8>>),
> {
    let l = stmt.len() as int;
    if l >= 1 && stmt[l - 1] == word(")") {
        match stmt.index_of_first(word("(")) {
            Some(pos) => if pos >= 1 {
                Some((stmt.subrange(0, pos - 1), stmt[pos - 1], stmt.subrange(pos + 1, l - 1)))
            } else {
                None
            },
            None => None,
        }
    } else {
        None
    }
}

/// Index of the `(` that matches a `)`, the search going down from the
/// token below `upto` and `depth` further `)` being open on the way. With
/// `depth` zero this is the opener of the group that a `)` at `upto` closes.
/// `None` when the statement holds no such `(`.
pub open spec fn opener_before(stmt: Seq<Seq<u8>>, upto: int, depth: nat) -> Option<int>
    decreases upto,
{
    if upto <= 0 {
        None
    } else if stmt[upto - 1] == word(")") {
        opener_before(stmt, upto - 1, depth + 1)
    } else if stmt[upto - 1] == word("(") {
        if depth == 0 {
            Some(upto - 1)
        } else {
            opener_before(stmt, upto - 1, (depth - 1) as nat)
        }
    } else {
        opener_before(stmt, upto - 1, depth)
    }
}

/// `ret... ( tag... ) ( params... )`, the shape of a function pointer, the
/// parentheses being matched by nesting: the statement ends in `)`, the
/// group that this `)` closes holds the parameters, and the group that
/// stands directly before it holds the tag. Gives what stands before the
/// tag group, the token before the tag group's `)` and what stands inside
/// the parameter group.
pub open spec fn function_type_of(stmt: Seq<Seq<u8>>) -> Option<
    (Seq<Seq<u8>>, Seq<u8>, Seq<Seq<u8>>),
> {
    let l = stmt.len() as int;
    if l >= 1 && stmt[l - 1] == word(")") {
        match opener_before(stmt, l - 1, 0) {
            Some(params) => if params >= 1 && stmt[params - 1] == word(")") {
                match opener_before(stmt, params - 1, 0) {
                    Some(tag) => Some(
                        (
                            stmt.subrange(0, tag),
                            stmt[params - 2],
                            stmt.subrange(params + 1, l - 1),
                        ),
                    ),
                    None => None,
                }
            } else {
                None
            },
            None => None,
        }
    } else {
        None
    }
}

/// A statement that starts with a compiler-directive marker.
pub open spec fn is_directive(stmt: Seq<Seq<u8>>) -> bool {
    stmt.len() >= 1 && (stmt[0] == word("__pragma") || stmt[0] == word("__declspec"))
}

/// `extern decl...`: the declaration.
pub open spec fn extern_of(stmt: Seq<Seq<u8>>) -> Option<Seq<Seq<u8>>> {
    if stmt.len() >= 1 && stmt[0] == word("extern") {
        Some(stmt.subrange(1, stmt.len() as int))
    } else {
        None
    }
}

/// The statement without the `;` that ends it.
pub open spec fn stripped(stmt: Seq<Seq<u8>>) -> Seq<Seq<u8>> {
    if stmt.len() >= 1 && stmt.last() == word(";") {
        stmt.drop_last()
    } else {
        stmt
    }
}

/// The kind of a declaration, the recognizers being tried in this order:
/// typedef of a structure, of an enumeration, of a function pointer, any
/// other typedef, bare structure, function declaration, directive.
pub open spec fn kind_of(decl: Seq<Seq<u8>>) -> Kind {
    match typedef_of(decl) {
        Some((name, target)) => if braced(target, word("struct")) is Some {
            Kind::Struct
        } else if braced(target, word("enum")) is Some {
            Kind::Enum
        } else if function_type_of(decl.subrange(1, decl.len() as int)) is Some {
            Kind::FunctionType
        } else {
            Kind::Alias
        },
        None => if braced(decl, word("struct")) is Some {
            Kind::BareStruct
        } else if function_of(decl) is Some {
            Kind::Function
        } else if is_directive(decl) {
            Kind::Directive
        } else {
            Kind::Unrecognized
        },
    }
}

/// The body of `keyword { body }` or `keyword tag { body }`.
pub open spec fn body_of(stmt: Seq<Seq<u8>>, keyword: Seq<u8>) -> Seq<Seq<u8>> {
    match braced(stmt, keyword) {
        Some((tag, body)) => body,
        None => Seq::empty(),
    }
}

/// The name and the definition that a declaration registers.
pub open spec fn registered(decl: Seq<Seq<u8>>) -> Option<(Seq<u8>, StmtView)> {
    match typedef_of(decl) {
        Some((name, target)) => match kind_of(decl) {
            Kind::Struct => Some(
                (name, StmtView::Struct(members_from(body_of(target, word("struct")), 0))),
            ),
            Kind::Enum => Some((name, StmtView::Enum(values_from(body_of(target, word("enum")), 0)))),
            Kind::Alias => Some((name, StmtView::Alias(joined(target, word("~"))))),
            _ => None,
        },
        None => None,
    }
}

/// The declaration that a statement holds: the statement without its final
/// `;`, and without a leading `extern` where nothing is recognized with it.
/// The qualifier is stripped once.
pub open spec fn declaration(stmt: Seq<Seq<u8>>) -> Seq<Seq<u8>> {
    let plain = stripped(stmt);
    if kind_of(plain) == Kind::Unrecognized && extern_of(plain) is Some {
        extern_of(plain)->0
    } else {
        plain
    }
}

/// The kind of a statement.
pub open spec fn classify(stmt: Seq<Seq<u8>>) -> Kind {
    kind_of(declaration(stmt))
}

/// The table after a statement is classified.
pub open spec fn table_after(table: Seq<(Seq<u8>, StmtView)>, stmt: Seq<Seq<u8>>) -> Seq<
    (Seq<u8>, StmtView),
> {
    match registered(declaration(stmt)) {
        Some((name, definition)) => table_insert(table, name, definition),
        None => table,
    }
}

/// The view of an optional tag and a body.
pub open spec fn tagged_view(r: Option<(Option<&Vec<u8>>, &[Vec<u8>])>) -> Option<
    (Option<Seq<u8>>, Seq<Seq<u8>>),
> {
    match r {
        Some((Some(tag), body)) => Some((Some(tag@), texts(body@))),
        Some((None, body)) => Some((None, texts(body@))),
        None => None,
    }
}

/// The view of the three parts of a function declaration.
pub open spec fn function_view(r: Option<(&[Vec<u8>], &Vec<u8>, &[Vec<u8>])>) -> Option<
    (Seq<Seq<u8>>, Seq<u8>, Seq<Seq<u8>>),
> {
    match r {
        Some((ret, name, params)) => Some((texts(ret@), name@, texts(params@))),
        None => None,
    }
}

/// The view of an optional list of tokens.
pub open spec fn tokens_view(r: Option<&[Vec<u8>]>) -> Option<Seq<Seq<u8>>> {
    match r {
        Some(tokens) => Some(texts(tokens@)),
        None => None,
    }
}

/// The view of an optional member.
pub open spec fn member_view(r: Option<Member>) -> Option<MemberView> {
    match r {
        Some(member) => Some(member@),
        None => None,
    }
}

/// The view of an optional enumerator.
pub open spec fn value_view(r: Option<Value>) -> Option<ValueView> {
    match r {
        Some(value) => Some(value@),
        None => None,
    }
}

/// The tokens `stmt[from..to]`.
fn part<'a>(stmt: &'a [Vec<u8>], from: usize, to: usize) -> (out: &'a [Vec<u8>])
    requires
        from <= to <= stmt@.len(),
    ensures
        texts(out@) == texts(stmt@).subrange(from as int, to as int),
{
    let out = slice_subrange(stmt, from, to);
    assert(texts(out@) =~= texts(stmt@).subrange(from as int, to as int));
    out
}

/// Whether `stmt[i]` spells `text`.
fn at(stmt: &[Vec<u8>], i: usize, text: &str) -> (r: bool)
    requires
        i < stmt@.len(),
    ensures
        r == (texts(stmt@)[i as int] == word(text)),
{
    is_word(stmt[i].as_slice(), text)
}

fn try_parse_braced<'a>(stmt: &'a [Vec<u8>], keyword: &str) -> (r: Option<
    (Option<&'a Vec<u8>>, &'a [Vec<u8>]),
>)
    ensures
        tagged_view(r) == braced(texts(stmt@), word(keyword)),
{
    let l = stmt.len();
    if l >= 3 && at(stmt, 0, keyword) && at(stmt, 1, "{") && at(stmt, l - 1, "}") {
        Some((None, part(stmt, 2, l - 1)))
    } else if l >= 4 && at(stmt, 0, keyword) && at(stmt, 2, "{") && at(stmt, l - 1, "}") {
        Some((Some(&stmt[1]), part(stmt, 3, l - 1)))
    } else {
        None
    }
}

/// Recognizes `struct { body }` and `struct tag { body }`.
pub fn try_parse_struct<'a>(stmt: &'a [Vec<u8>]) -> (r: Option<
    (Option<&'a Vec<u8>>, &'a [Vec<u8>]),
>)
    ensures
        tagged_view(r) == braced(texts(stmt@), word("struct")),
{
    try_parse_braced(stmt, "struct")
}

/// Recognizes `enum { body }` and `enum tag { body }`.
pub fn try_parse_enum<'a>(stmt: &'a [Vec<u8>]) -> (r: Option<(Option<&'a Vec<u8>>, &'a [Vec<u8>])>)
    ensures
        tagged_view(r) == braced(texts(stmt@), word("enum")),
{
    try_parse_braced(stmt, "enum")
}

/// The member that one field of a structure body declares.
pub fn try_parse_member(stmt: &[Vec<u8>]) -> (r: Option<Member>)
    ensures
        member_view(r) == member_of(texts(stmt@)),
{
    let l = stmt.len();
    if l == 0 {
        None
    } else if at(stmt, l - 1, "]") {
        match position(stmt, "[") {
            Some(pos) => {
                if pos >= 1 {
                    proof {
                        lemma_brackets_differ();
                        texts(stmt@).index_of_first_ensures(word("["));
                    }
                    let ident = copy_range(stmt[pos - 1].as_slice(), 0, stmt[pos - 1].len());
                    let type_ = join(part(stmt, 0, pos - 1), "~");
                    let dims = join(part(stmt, pos + 1, l - 1), "~");
                    assert(ident@ =~= stmt@[pos - 1]@);
                    Some(Member { ident, type_, dims: Some(dims) })
                } else {
                    None
                }
            },
            None => None,
        }
    } else {
        let ident = copy_range(stmt[l - 1].as_slice(), 0, stmt[l - 1].len());
        let type_ = join(part(stmt, 0, l - 1), "~");
        assert(ident@ =~= stmt@[l - 1]@);
        Some(Member { ident, type_, dims: None })
    }
}

/// The members that a structure body declares.
pub fn parse_members(stmt: &[Vec<u8>]) -> (members: Vec<Member>)
    ensures
        member_views(members@) == members_from(texts(stmt@), 0),
{
    let ghost body = texts(stmt@);
    let mut members: Vec<Member> = Vec::new();
    let mut start: usize = 0;
    let mut depth: usize = 0;
    let mut i: usize = 0;
    assert(member_views(members@) =~= Seq::<MemberView>::empty());
    while i < stmt.len()
        invariant
            body == texts(stmt@),
            0 <= start <= i <= stmt@.len(),
            depth <= i,
            field_end(body, word(";"), start as int, 0) == field_end(
                body,
                word(";"),
                i as int,
                depth as nat,
            ),
            members_from(body, 0) == member_views(members@) + members_from(body, start as int),
        decreases stmt@.len() - i,
    {
        let token = stmt[i].as_slice();
        assert(token@ == body[i as int]);
        if depth == 0 && is_word(token, ";") {
            let found = try_parse_member(part(stmt, start, i));
            let ghost before = member_views(members@);
            match found {
                Some(member) => {
                    members.push(member);
                    assert(member_views(members@) =~= before + seq![member@]);
                },
                None => {},
            }
            start = i + 1;
        } else if opens(token) {
            depth += 1;
        } else if closes(token) && depth > 0 {
            depth -= 1;
        }
        i += 1;
    }
    let found = try_parse_member(part(stmt, start, i));
    let ghost before = member_views(members@);
    match found {
        Some(member) => {
            members.push(member);
            assert(member_views(members@) =~= before + seq![member@]);
        },
        None => {},
    }
    members
}

/// The enumerator that one field of an enumeration body declares.
pub fn try_parse_value(stmt: &[Vec<u8>]) -> (r: Option<Value>)
    ensures
        value_view(r) == value_of(texts(stmt@)),
{
    let l = stmt.len();
    if l >= 2 && at(stmt, 1, "=") {
        let ident = copy_range(stmt[0].as_slice(), 0, stmt[0].len());
        let value = join(part(stmt, 2, l), "~");
        assert(ident@ =~= stmt@[0]@);
        Some(Value { ident, value: Some(value) })
    } else if l == 1 {
        let ident = copy_range(stmt[0].as_slice(), 0, stmt[0].len());
        assert(ident@ =~= stmt@[0]@);
        Some(Value { ident, value: None })
    } else {
        None
    }
}

/// The enumerators that an enumeration body declares.
pub fn parse_values(stmt: &[Vec<u8>]) -> (values: Vec<Value>)
    ensures
        value_views(values@) == values_from(texts(stmt@), 0),
{
    let ghost body = texts(stmt@);
    let mut values: Vec<Value> = Vec::new();
    let mut start: usize = 0;
    let mut depth: usize = 0;
    let mut i: usize = 0;
    assert(value_views(values@) =~= Seq::<ValueView>::empty());
    while i < stmt.len()
        invariant
            body == texts(stmt@),
            0 <= start <= i <= stmt@.len(),
            depth <= i,
            field_end(body, word(","), start as int, 0) == field_end(
                body,
                word(","),
                i as int,
                depth as nat,
            ),
            values_from(body, 0) == value_views(values@) + values_from(body, start as int),
        decreases stmt@.len() - i,
    {
        let token = stmt[i].as_slice();
        assert(token@ == body[i as int]);
        if depth == 0 && is_word(token, ",") {
            let found = try_parse_value(part(stmt, start, i));
            let ghost before = value_views(values@);
            match found {
                Some(value) => {
                    values.push(value);
                    assert(value_views(values@) =~= before + seq![value@]);
                },
                None => {},
            }
            start = i + 1;
        } else if opens(token) {
            depth += 1;
        } else if closes(token) && depth > 0 {
            depth -= 1;
        }
        i += 1;
    }
    let found = try_parse_value(part(stmt, start, i));
    let ghost before = value_views(values@);
    match found {
        Some(value) => {
            values.push(value);
            assert(value_views(values@) =~= before + seq![value@]);
        },
        None => {},
    }
    values
}

/// Recognizes `typedef target... name`.
pub fn try_parse_typedef<'a>(stmt: &'a [Vec<u8>]) -> (r: Option<(&'a Vec<u8>, &'a [Vec<u8>])>)
    ensures
        match r {
            Some((name, target)) => typedef_of(texts(stmt@)) == Some((name@, texts(target@))),
            None => typedef_of(texts(stmt@)) is None,
        },
{
    let l = stmt.len();
    if l >= 2 && at(stmt, 0, "typedef") {
        Some((&stmt[l - 1], part(stmt, 1, l - 1)))
    } else {
        None
    }
}

/// Recognizes `ret... name ( params... )`.
pub fn try_parse_function<'a>(stmt: &'a [Vec<u8>]) -> (r: Option<
    (&'a [Vec<u8>], &'a Vec<u8>, &'a [Vec<u8>]),
>)
    ensures
        function_view(r) == function_of(texts(stmt@)),
{
    let l = stmt.len();
    if l >= 1 && at(stmt, l - 1, ")") {
        match position(stmt, "(") {
            Some(pos) => {
                if pos >= 1 {
                    proof {
                        lemma_brackets_differ();
                        texts(stmt@).index_of_first_ensures(word("("));
                    }
                    Some((part(stmt, 0, pos - 1), &stmt[pos - 1], part(stmt, pos + 1, l - 1)))
                } else {
                    None
                }
            },
            None => None,
        }
    } else {
        None
    }
}

/// Index of the `(` that opens the group which a `)` at index `close`
/// closes.
fn matching_opener(stmt: &[Vec<u8>], close: usize) -> (r: Option<usize>)
    requires
        close <= stmt@.len(),
    ensures
        opener_before(texts(stmt@), close as int, 0) == match r {
            Some(open) => Some(open as int),
            None => None,
        },
        r matches Some(open) ==> open < close,
{
    let ghost all = texts(stmt@);
    let mut i: usize = close;
    let mut depth: usize = 0;
    while i > 0
        invariant
            all == texts(stmt@),
            0 <= i <= close <= stmt@.len(),
            depth <= close - i,
            opener_before(all, close as int, 0) == opener_before(all, i as int, depth as nat),
        decreases i,
    {
        i -= 1;
        if at(stmt, i, ")") {
            depth += 1;
        } else if at(stmt, i, "(") {
            if depth == 0 {
                return Some(i);
            }
            depth -= 1;
        }
    }
    None
}

/// Recognizes the shape of a function pointer, `ret... ( tag... ) ( params... )`.
pub fn try_parse_function_type<'a>(stmt: &'a [Vec<u8>]) -> (r: Option<
    (&'a [Vec<u8>], &'a Vec<u8>, &'a [Vec<u8>]),
>)
    ensures
        function_view(r) == function_type_of(texts(stmt@)),
{
    let l = stmt.len();
    if l == 0 || !at(stmt, l - 1, ")") {
        return None;
    }
    let params = match matching_opener(stmt, l - 1) {
        Some(params) => params,
        None => {
            return None;
        },
    };
    if params == 0 || !at(stmt, params - 1, ")") {
        return None;
    }
    let tag = match matching_opener(stmt, params - 1) {
        Some(tag) => tag,
        None => {
            return None;
        },
    };
    Some((part(stmt, 0, tag), &stmt[params - 2], part(stmt, params + 1, l - 1)))
}

/// Recognizes a statement that starts with `__pragma` or `__declspec`.
pub fn try_parse_decl<'a>(stmt: &'a [Vec<u8>]) -> (r: Option<&'a [Vec<u8>]>)
    ensures
        r is Some == is_directive(texts(stmt@)),
        r matches Some(all) ==> all@ == stmt@,
{
    if stmt.len() >= 1 && (at(stmt, 0, "__pragma") || at(stmt, 0, "__declspec")) {
        Some(stmt)
    } else {
        None
    }
}

/// Recognizes `extern decl...` and gives the declaration.
pub fn try_parse_extern<'a>(stmt: &'a [Vec<u8>]) -> (r: Option<&'a [Vec<u8>]>)
    ensures
        tokens_view(r) == extern_of(texts(stmt@)),
{
    if stmt.len() >= 1 && at(stmt, 0, "extern") {
        Some(part(stmt, 1, stmt.len()))
    } else {
        None
    }
}

/// Classifies a declaration that carries neither `;` nor `extern`, and
/// registers the type that it declares.
fn parse_declaration(decl: &[Vec<u8>], types: &mut Catalog) -> (kind: Kind)
    ensures
        kind == kind_of(texts(decl@)),
        final(types)@ == match registered(texts(decl@)) {
            Some((name, definition)) => table_insert(old(types)@, name, definition),
            None => old(types)@,
        },
        unique(old(types)@) ==> unique(final(types)@),
{
    if let Some((name, typedef)) = try_parse_typedef(decl) {
        let name = copy_range(name.as_slice(), 0, name.len());
        assert(name@ =~= texts(decl@).last());
        if let Some((_tag, members)) = try_parse_struct(typedef) {
            let members = parse_members(members);
            types.insert(name, Stmt::Struct(members));
            Kind::Struct
        } else if let Some((_tag, values)) = try_parse_enum(typedef) {
            let values = parse_values(values);
            types.insert(name, Stmt::Enum(values));
            Kind::Enum
        } else if let Some(_) = try_parse_function_type(part(decl, 1, decl.len())) {
            Kind::FunctionType
        } else {
            types.insert(name, Stmt::Alias(join(typedef, "~")));
            Kind::Alias
        }
    } else if let Some(_) = try_parse_struct(decl) {
        Kind::BareStruct
    } else if let Some(_) = try_parse_function(decl) {
        Kind::Function
    } else if let Some(_) = try_parse_decl(decl) {
        Kind::Directive
    } else {
        Kind::Unrecognized
    }
}

/// Classifies one statement and registers the type that it declares.
///
/// The `;` that ends the statement is not part of the declaration. A
/// statement that nothing recognizes and that starts with `extern` is
/// classified once more without that word.
pub fn parse_statement(stmt: &[Vec<u8>], types: &mut Catalog) -> (kind: Kind)
    ensures
        kind == classify(texts(stmt@)),
        final(types)@ == table_after(old(types)@, texts(stmt@)),
        unique(old(types)@) ==> unique(final(types)@),
{
    let l = stmt.len();
    let plain = if l >= 1 && at(stmt, l - 1, ";") {
        part(stmt, 0, l - 1)
    } else {
        stmt
    };
    assert(texts(plain@) =~= stripped(texts(stmt@)));
    let kind = parse_declaration(plain, types);
    if let Kind::Unrecognized = kind {
        if let Some(inner) = try_parse_extern(plain) {
            return parse_declaration(inner, types);
        }
    }
    kind
}

} // verus!
