//! Dependency resolver and emitter: walks the catalog and emits each
//! declaration after the declarations of the member types that it refers to.

use vstd::prelude::*;
use vstd::string::*;
use crate::bytes::{bytes_eq, copy_range, texts};
use crate::catalog::{lemma_find, table_find, table_get, Catalog};
use crate::model::{member_views, MemberView, Stmt, StmtView};
use crate::render::{declaration_text, render};

verus! {

/// What the resolver hands out.
#[derive(Debug)]
pub enum Emitted {
    /// The declaration of `name`, as text.
    Declaration { name: Vec<u8>, text: Vec<u8> },
    /// `name` is referred to and the catalog does not hold it.
    UndefinedReferencedType { name: Vec<u8> },
}

/// Mathematical value of an [`Emitted`].
pub enum EmittedView {
    Declaration { name: Seq<u8>, text: Seq<u8> },
    UndefinedReferencedType { name: Seq<u8> },
}

impl View for Emitted {
    type V = EmittedView;

    open spec fn view(&self) -> EmittedView {
        match self {
            Emitted::Declaration { name, text } => EmittedView::Declaration {
                name: name@,
                text: text@,
            },
            Emitted::UndefinedReferencedType { name } => EmittedView::UndefinedReferencedType {
                name: name@,
            },
        }
    }
}

impl EmittedView {
    /// The name that the item is about.
    pub open spec fn name(self) -> Seq<u8> {
        match self {
            EmittedView::Declaration { name, text } => name,
            EmittedView::UndefinedReferencedType { name } => name,
        }
    }
}

/// The names that the items are about, in order.
pub open spec fn emitted_names(out: Seq<EmittedView>) -> Seq<Seq<u8>> {
    out.map_values(|e: EmittedView| e.name())
}

/// Whether the item says of its name what the table holds: a declaration
/// carries the text of the definition registered under the name, and a name
/// reported as undefined is not registered.
pub open spec fn agrees(table: Seq<(Seq<u8>, StmtView)>, item: EmittedView) -> bool {
    match item {
        EmittedView::Declaration { name, text } => table_get(table, name) is Some && text
            == declaration_text(name, table_get(table, name)->0),
        EmittedView::UndefinedReferencedType { name } => table_get(table, name) is None,
    }
}

/// Whether `out` is a faithful account of the names visited between `known`
/// and `after`: the names that became known are those of the items, no item
/// is about a name known before, no two items are about the same name, and
/// each item agrees with the table.
pub open spec fn faithful(
    table: Seq<(Seq<u8>, StmtView)>,
    known: Set<Seq<u8>>,
    out: Seq<EmittedView>,
    after: Set<Seq<u8>>,
) -> bool {
    &&& after == known.union(emitted_names(out).to_set())
    &&& forall|i: int| 0 <= i < out.len() ==> !known.contains((#[trigger] out[i]).name())
    &&& forall|i: int| 0 <= i < out.len() ==> agrees(table, #[trigger] out[i])
    &&& forall|i: int, j: int|
        0 <= i < j < out.len() ==> (#[trigger] out[i]).name() != (#[trigger] out[j]).name()
}

/// The values of a list of emitted items.
pub open spec fn emitted_views(out: Seq<Emitted>) -> Seq<EmittedView> {
    out.map_values(|e: Emitted| e@)
}

/// Number of entries of the table whose name is not in `known`.
pub open spec fn pending(table: Seq<(Seq<u8>, StmtView)>, known: Set<Seq<u8>>) -> nat
    decreases table.len(),
{
    if table.len() == 0 {
        0
    } else if known.contains(table.last().0) {
        pending(table.drop_last(), known)
    } else {
        pending(table.drop_last(), known) + 1
    }
}

/// Names that become known leave no more entries pending.
pub proof fn lemma_pending_grows(
    table: Seq<(Seq<u8>, StmtView)>,
    known: Set<Seq<u8>>,
    more: Set<Seq<u8>>,
)
    requires
        known.subset_of(more),
    ensures
        pending(table, more) <= pending(table, known),
    decreases table.len(),
{
    if table.len() > 0 {
        lemma_pending_grows(table.drop_last(), known, more);
    }
}

/// A name of the table that becomes known leaves fewer entries pending.
pub proof fn lemma_pending_insert(
    table: Seq<(Seq<u8>, StmtView)>,
    known: Set<Seq<u8>>,
    name: Seq<u8>,
)
    requires
        table_find(table, name) is Some,
        !known.contains(name),
    ensures
        pending(table, known.insert(name)) < pending(table, known),
    decreases table.len(),
{
    lemma_find(table, name);
    let i = table_find(table, name)->0;
    if i == table.len() - 1 {
        lemma_pending_grows(table.drop_last(), known, known.insert(name));
    } else {
        let rest = table.drop_last();
        assert(rest[i].0 == name);
        lemma_find(rest, name);
        lemma_pending_insert(rest, known, name);
    }
}

/// What resolving one name yields: the names known afterwards, what is
/// emitted, and whether the catalog holds the name.
pub struct Resolution {
    pub known: Set<Seq<u8>>,
    pub out: Seq<EmittedView>,
    pub found: bool,
}

/// What resolving a list of member types yields.
pub struct Walk {
    pub known: Set<Seq<u8>>,
    pub out: Seq<EmittedView>,
}

/// Resolving `name` when the names in `known` were visited before.
///
/// A name that was visited yields nothing. Any other name is visited now.
/// If the catalog does not hold it, that is reported. An alias and an
/// enumeration are declared as they are. For a structure the types of its
/// members are resolved first, in the order of the members, and then the
/// structure is declared.
pub open spec fn resolve(
    table: Seq<(Seq<u8>, StmtView)>,
    known: Set<Seq<u8>>,
    name: Seq<u8>,
) -> Resolution
    decreases pending(table, known), 0nat,
{
    if known.contains(name) {
        Resolution { known, out: Seq::empty(), found: true }
    } else {
        match table_get(table, name) {
            None => Resolution {
                known: known.insert(name),
                out: seq![EmittedView::UndefinedReferencedType { name }],
                found: false,
            },
            Some(definition) => {
                let declaration = EmittedView::Declaration {
                    name,
                    text: declaration_text(name, definition),
                };
                match definition {
                    StmtView::Struct(members) => {
                        proof {
                            lemma_pending_insert(table, known, name);
                        }
                        let walk = resolve_members(table, known.insert(name), members, 0);
                        Resolution {
                            known: walk.known,
                            out: walk.out.push(declaration),
                            found: true,
                        }
                    },
                    _ => Resolution {
                        known: known.insert(name),
                        out: seq![declaration],
                        found: true,
                    },
                }
            },
        }
    }
}

/// Resolving the types of `members[from..]`, one after the other.
pub open spec fn resolve_members(
    table: Seq<(Seq<u8>, StmtView)>,
    known: Set<Seq<u8>>,
    members: Seq<MemberView>,
    from: int,
) -> Walk
    decreases pending(table, known), members.len() - from + 1,
{
    if 0 <= from < members.len() {
        let first = resolve(table, known, members[from].type_);
        proof {
            lemma_pending_grows(table, known, known.union(first.known));
        }
        let rest = resolve_members(table, known.union(first.known), members, from + 1);
        Walk { known: rest.known, out: first.out + rest.out }
    } else {
        Walk { known, out: Seq::empty() }
    }
}

/// Resolving `names[from..]`, one after the other: the run over a catalog
/// takes its names in first-declared order.
pub open spec fn resolve_names(
    table: Seq<(Seq<u8>, StmtView)>,
    known: Set<Seq<u8>>,
    names: Seq<Seq<u8>>,
    from: int,
) -> Walk
    decreases names.len() - from,
{
    if 0 <= from < names.len() {
        let first = resolve(table, known, names[from]);
        let rest = resolve_names(table, first.known, names, from + 1);
        Walk { known: rest.known, out: first.out + rest.out }
    } else {
        Walk { known, out: Seq::empty() }
    }
}

/// The set of names visited so far.
pub struct NameSet {
    names: Vec<Vec<u8>>,
}

impl View for NameSet {
    type V = Set<Seq<u8>>;

    closed spec fn view(&self) -> Set<Seq<u8>> {
        texts(self.names@).to_set()
    }
}

impl NameSet {
    /// The empty set.
    pub fn new() -> (set: Self)
        ensures
            set@ == Set::<Seq<u8>>::empty(),
    {
        let set = NameSet { names: Vec::new() };
        assert(set@ =~= Set::<Seq<u8>>::empty());
        set
    }

    /// Whether `name` is in the set.
    pub fn contains(&self, name: &[u8]) -> (r: bool)
        ensures
            r == self@.contains(name@),
    {
        let mut i: usize = 0;
        while i < self.names.len()
            invariant
                0 <= i <= self.names@.len(),
                forall|j: int| 0 <= j < i ==> (#[trigger] texts(self.names@)[j]) != name@,
            decreases self.names@.len() - i,
        {
            if bytes_eq(self.names[i].as_slice(), name) {
                assert(texts(self.names@)[i as int] == name@);
                return true;
            }
            i += 1;
        }
        false
    }

    /// Puts `name` into the set.
    pub fn insert(&mut self, name: Vec<u8>)
        ensures
            final(self)@ == old(self)@.insert(name@),
    {
        let ghost before = texts(self.names@);
        self.names.push(name);
        proof {
            let after = texts(self.names@);
            assert(after =~= before.push(name@));
            assert forall|n: Seq<u8>| after.contains(n) <==> before.contains(n) || n == name@ by {
                if before.contains(n) {
                    let k = choose|k: int| 0 <= k < before.len() && before[k] == n;
                    assert(after[k] == n);
                }
                if n == name@ {
                    assert(after[after.len() - 1] == n);
                }
            }
            assert(self@ =~= old(self)@.insert(name@));
        }
    }
}

/// Resolves `name`: emits the declarations that it needs and its own, or
/// reports that the catalog does not hold it. Returns whether it does.
pub fn lookup(name: &[u8], types: &Catalog, known: &mut NameSet, out: &mut Vec<Emitted>) -> (found:
    bool)
    ensures
        final(known)@ == resolve(types@, old(known)@, name@).known,
        emitted_views(final(out)@) == emitted_views(old(out)@) + resolve(
            types@,
            old(known)@,
            name@,
        ).out,
        found == resolve(types@, old(known)@, name@).found,
    decreases pending(types@, old(known)@),
{
    let ghost before = emitted_views(out@);
    if known.contains(name) {
        assert(emitted_views(out@) =~= before + Seq::<EmittedView>::empty());
        return true;
    }
    let own = copy_range(name, 0, name.len());
    assert(own@ =~= name@);
    known.insert(own);
    let ghost visited = known@;
    match types.get(name) {
        Some(definition) => {
            if let Stmt::Struct(members) = definition {
                proof {
                    lemma_pending_insert(types@, old(known)@, name@);
                    lemma_find(types@, name@);
                }
                let ghost all = member_views(members@);
                let mut i: usize = 0;
                assert(emitted_views(out@) =~= before + Seq::<EmittedView>::empty());
                while i < members.len()
                    invariant
                        0 <= i <= members@.len(),
                        all == member_views(members@),
                        pending(types@, known@) < pending(types@, old(known)@),
                        resolve_members(types@, visited, all, 0).known == resolve_members(
                            types@,
                            known@,
                            all,
                            i as int,
                        ).known,
                        before + resolve_members(types@, visited, all, 0).out == emitted_views(out@)
                            + resolve_members(types@, known@, all, i as int).out,
                    decreases members@.len() - i,
                {
                    let ghost here = known@;
                    proof {
                        lemma_resolve_grows(types@, here, all[i as int].type_);
                        lemma_pending_grows(
                            types@,
                            here,
                            resolve(types@, here, all[i as int].type_).known,
                        );
                    }
                    lookup(members[i].type_.as_slice(), types, known, out);
                    assert(here.union(known@) =~= known@);
                    assert(before + resolve_members(types@, visited, all, 0).out =~= emitted_views(
                        out@,
                    ) + resolve_members(types@, known@, all, i + 1).out);
                    i += 1;
                }
            }
            let ghost walked = emitted_views(out@);
            let text = render(name, definition);
            let own = copy_range(name, 0, name.len());
            assert(own@ =~= name@);
            let declaration = Emitted::Declaration { name: own, text };
            out.push(declaration);
            assert(emitted_views(out@) =~= walked.push(declaration@));
            assert(emitted_views(out@) =~= before + resolve(types@, old(known)@, name@).out);
            true
        },
        None => {
            let own = copy_range(name, 0, name.len());
            assert(own@ =~= name@);
            let missing = Emitted::UndefinedReferencedType { name: own };
            out.push(missing);
            assert(emitted_views(out@) =~= before + seq![missing@]);
            false
        },
    }
}

/// Resolves every name of the catalog, in first-declared order, and hands
/// out what is emitted on the way.
pub fn resolve_all(types: &Catalog) -> (out: Vec<Emitted>)
    ensures
        emitted_views(out@) == resolve_names(
            types@,
            Set::empty(),
            crate::catalog::names(types@),
            0,
        ).out,
{
    let ghost all = crate::catalog::names(types@);
    let mut known = NameSet::new();
    let mut out: Vec<Emitted> = Vec::new();
    let mut i: usize = 0;
    assert(emitted_views(out@) =~= Seq::<EmittedView>::empty());
    while i < types.len()
        invariant
            0 <= i <= types@.len(),
            all == crate::catalog::names(types@),
            resolve_names(types@, Set::empty(), all, 0).out == emitted_views(out@) + resolve_names(
                types@,
                known@,
                all,
                i as int,
            ).out,
        decreases types@.len() - i,
    {
        lookup(types.name(i).as_slice(), types, &mut known, &mut out);
        assert(resolve_names(types@, Set::empty(), all, 0).out =~= emitted_views(out@)
            + resolve_names(types@, known@, all, i + 1).out);
        i += 1;
    }
    assert(emitted_views(out@) + Seq::<EmittedView>::empty() =~= emitted_views(out@));
    out
}

/// Resolving marks the name as visited and forgets none.
pub proof fn lemma_resolve_grows(
    table: Seq<(Seq<u8>, StmtView)>,
    known: Set<Seq<u8>>,
    name: Seq<u8>,
)
    ensures
        known.subset_of(resolve(table, known, name).known),
        resolve(table, known, name).known.contains(name),
    decreases pending(table, known), 0nat,
{
    if !known.contains(name) {
        match table_get(table, name) {
            Some(StmtView::Struct(members)) => {
                lemma_pending_insert(table, known, name);
                lemma_walk_grows(table, known.insert(name), members, 0);
            },
            _ => {},
        }
    }
}

/// Resolving a list of member types forgets no name.
pub proof fn lemma_walk_grows(
    table: Seq<(Seq<u8>, StmtView)>,
    known: Set<Seq<u8>>,
    members: Seq<MemberView>,
    from: int,
)
    ensures
        known.subset_of(resolve_members(table, known, members, from).known),
    decreases pending(table, known), members.len() - from + 1,
{
    if 0 <= from < members.len() {
        let first = resolve(table, known, members[from].type_);
        lemma_resolve_grows(table, known, members[from].type_);
        lemma_pending_grows(table, known, known.union(first.known));
        lemma_walk_grows(table, known.union(first.known), members, from + 1);
    }
}

/// A name that was resolved is not declared or reported a second time in
/// the same run: resolving it again emits nothing.
pub proof fn lemma_resolve_once(
    table: Seq<(Seq<u8>, StmtView)>,
    known: Set<Seq<u8>>,
    name: Seq<u8>,
)
    ensures
        resolve(table, resolve(table, known, name).known, name).out == Seq::<EmittedView>::empty(),
        resolve(table, resolve(table, known, name).known, name).known == resolve(
            table,
            known,
            name,
        ).known,
{
    lemma_resolve_grows(table, known, name);
}

/// A name that the catalog holds and that was not visited is declared,
/// whatever becomes of the types that it refers to: its declaration is the
/// last item emitted.
pub proof fn lemma_declared_last(
    table: Seq<(Seq<u8>, StmtView)>,
    known: Set<Seq<u8>>,
    name: Seq<u8>,
)
    requires
        !known.contains(name),
        table_get(table, name) is Some,
    ensures
        resolve(table, known, name).found,
        resolve(table, known, name).out.len() > 0,
        resolve(table, known, name).out.last() == (EmittedView::Declaration {
            name,
            text: declaration_text(name, table_get(table, name)->0),
        }),
{
}

/// A structure whose one member has a type that the catalog does not hold:
/// the type is reported once, and the structure is still declared.
pub proof fn lemma_missing_member(
    table: Seq<(Seq<u8>, StmtView)>,
    known: Set<Seq<u8>>,
    name: Seq<u8>,
    member: MemberView,
)
    requires
        !known.contains(name),
        !known.contains(member.type_),
        table_get(table, name) == Some(StmtView::Struct(seq![member])),
        table_get(table, member.type_) is None,
    ensures
        resolve(table, known, name).found,
        resolve(table, known, name).out == seq![
            EmittedView::UndefinedReferencedType { name: member.type_ },
            EmittedView::Declaration {
                name,
                text: declaration_text(name, StmtView::Struct(seq![member])),
            },
        ],
{
    let members = seq![member];
    let inside = known.insert(name);
    let first = resolve(table, inside, member.type_);
    assert(members[0] == member);
    assert(first.out == seq![EmittedView::UndefinedReferencedType { name: member.type_ }]);
    let rest = resolve_members(table, inside.union(first.known), members, 1);
    assert(rest.out == Seq::<EmittedView>::empty());
    let walk = resolve_members(table, inside, members, 0);
    assert(walk.out =~= first.out + rest.out);
    assert(resolve(table, known, name).out =~= seq![
        EmittedView::UndefinedReferencedType { name: member.type_ },
        EmittedView::Declaration {
            name,
            text: declaration_text(name, StmtView::Struct(seq![member])),
        },
    ]);
}

/// Two faithful accounts, one taken up where the other ends, make one.
pub proof fn lemma_faithful_append(
    table: Seq<(Seq<u8>, StmtView)>,
    known: Set<Seq<u8>>,
    first: Seq<EmittedView>,
    between: Set<Seq<u8>>,
    rest: Seq<EmittedView>,
    after: Set<Seq<u8>>,
)
    requires
        faithful(table, known, first, between),
        faithful(table, between, rest, after),
    ensures
        faithful(table, known, first + rest, after),
{
    let out = first + rest;
    let a = emitted_names(first);
    let b = emitted_names(rest);
    assert(emitted_names(out) =~= a + b);
    assert forall|n: Seq<u8>| (a + b).to_set().contains(n) <==> a.to_set().contains(n)
        || b.to_set().contains(n) by {
        if a.contains(n) {
            let k = choose|k: int| 0 <= k < a.len() && a[k] == n;
            assert((a + b)[k] == n);
        }
        if b.contains(n) {
            let k = choose|k: int| 0 <= k < b.len() && b[k] == n;
            assert((a + b)[a.len() + k] == n);
        }
        if (a + b).contains(n) {
            let k = choose|k: int| 0 <= k < (a + b).len() && (a + b)[k] == n;
            if k < a.len() {
                assert(a[k] == n);
            } else {
                assert(b[k - a.len()] == n);
            }
        }
    }
    assert(after =~= known.union(emitted_names(out).to_set()));
    assert forall|i: int| 0 <= i < out.len() implies !known.contains((#[trigger] out[i]).name())
        && agrees(table, out[i]) by {
        if i < first.len() {
            assert(out[i] == first[i]);
        } else {
            assert(out[i] == rest[i - first.len()]);
        }
    }
    assert forall|i: int, j: int| 0 <= i < j < out.len() implies (#[trigger] out[i]).name() != (
    #[trigger] out[j]).name() by {
        if j < first.len() {
            assert(out[i] == first[i] && out[j] == first[j]);
        } else if i >= first.len() {
            assert(out[i] == rest[i - first.len()] && out[j] == rest[j - first.len()]);
        } else {
            assert(out[i] == first[i] && out[j] == rest[j - first.len()]);
            assert(a[i] == first[i].name());
            assert(a.to_set().contains(first[i].name()));
        }
    }
}

/// One item about a name that was not known is a faithful account.
pub proof fn lemma_faithful_single(
    table: Seq<(Seq<u8>, StmtView)>,
    known: Set<Seq<u8>>,
    item: EmittedView,
)
    requires
        !known.contains(item.name()),
        agrees(table, item),
    ensures
        faithful(table, known, seq![item], known.insert(item.name())),
{
    let names = emitted_names(seq![item]);
    assert(names[0] == item.name());
    assert forall|n: Seq<u8>| names.to_set().contains(n) <==> n == item.name() by {
        if names.contains(n) {
            let k = choose|k: int| 0 <= k < names.len() && names[k] == n;
        }
    }
    assert(known.insert(item.name()) =~= known.union(names.to_set()));
}

/// What one resolution emits is a faithful account of the names that it
/// visits: every name is declared or reported at most once, only names
/// that were not visited before, and as the catalog holds them.
pub proof fn lemma_resolve_faithful(
    table: Seq<(Seq<u8>, StmtView)>,
    known: Set<Seq<u8>>,
    name: Seq<u8>,
)
    ensures
        faithful(table, known, resolve(table, known, name).out, resolve(table, known, name).known),
    decreases pending(table, known), 0nat,
{
    let r = resolve(table, known, name);
    if known.contains(name) {
        assert(emitted_names(r.out).to_set() =~= Set::<Seq<u8>>::empty());
        assert(r.known =~= known.union(emitted_names(r.out).to_set()));
    } else {
        match table_get(table, name) {
            None => {
                lemma_faithful_single(
                    table,
                    known,
                    EmittedView::UndefinedReferencedType { name },
                );
            },
            Some(definition) => {
                let declaration = EmittedView::Declaration {
                    name,
                    text: declaration_text(name, definition),
                };
                match definition {
                    StmtView::Struct(members) => {
                        lemma_pending_insert(table, known, name);
                        let inside = known.insert(name);
                        let walk = resolve_members(table, inside, members, 0);
                        lemma_walk_faithful(table, inside, members, 0);
                        lemma_walk_grows(table, inside, members, 0);
                        // the account of the members starts from a set that
                        // holds the name: rebase it on `known`
                        let names = emitted_names(walk.out);
                        assert forall|i: int| 0 <= i < walk.out.len() implies names[i]
                            != name by {
                            assert(!inside.contains(walk.out[i].name()));
                        }
                        assert(!names.to_set().contains(name)) by {
                            if names.contains(name) {
                                let k = choose|k: int| 0 <= k < names.len() && names[k] == name;
                                assert(names[k] != name);
                            }
                        }
                        let middle = known.union(names.to_set());
                        assert(faithful(table, known, walk.out, middle)) by {
                            assert forall|i: int| 0 <= i < walk.out.len() implies !known.contains(
                                (#[trigger] walk.out[i]).name(),
                            ) by {
                                assert(!inside.contains(walk.out[i].name()));
                            }
                        }
                        assert(!middle.contains(name));
                        lemma_faithful_single(table, middle, declaration);
                        lemma_faithful_append(
                            table,
                            known,
                            walk.out,
                            middle,
                            seq![declaration],
                            middle.insert(name),
                        );
                        assert(walk.out.push(declaration) =~= walk.out + seq![declaration]);
                        assert(walk.known =~= middle.insert(name));
                    },
                    _ => {
                        lemma_faithful_single(table, known, declaration);
                    },
                }
            },
        }
    }
}

/// What resolving a list of member types emits is a faithful account.
pub proof fn lemma_walk_faithful(
    table: Seq<(Seq<u8>, StmtView)>,
    known: Set<Seq<u8>>,
    members: Seq<MemberView>,
    from: int,
)
    ensures
        faithful(
            table,
            known,
            resolve_members(table, known, members, from).out,
            resolve_members(table, known, members, from).known,
        ),
    decreases pending(table, known), members.len() - from + 1,
{
    if 0 <= from < members.len() {
        let first = resolve(table, known, members[from].type_);
        lemma_resolve_faithful(table, known, members[from].type_);
        lemma_resolve_grows(table, known, members[from].type_);
        assert(known.union(first.known) =~= first.known);
        lemma_pending_grows(table, known, first.known);
        lemma_walk_faithful(table, first.known, members, from + 1);
        let rest = resolve_members(table, first.known, members, from + 1);
        lemma_faithful_append(table, known, first.out, first.known, rest.out, rest.known);
    } else {
        let out = Seq::<EmittedView>::empty();
        assert(emitted_names(out).to_set() =~= Set::<Seq<u8>>::empty());
        assert(known =~= known.union(emitted_names(out).to_set()));
    }
}

/// What a run over a list of names emits is a faithful account, and every
/// name of the list is visited.
pub proof fn lemma_names_faithful(
    table: Seq<(Seq<u8>, StmtView)>,
    known: Set<Seq<u8>>,
    names: Seq<Seq<u8>>,
    from: int,
)
    requires
        0 <= from,
    ensures
        faithful(
            table,
            known,
            resolve_names(table, known, names, from).out,
            resolve_names(table, known, names, from).known,
        ),
        forall|i: int|
            from <= i < names.len() ==> resolve_names(table, known, names, from).known.contains(
                #[trigger] names[i],
            ),
    decreases names.len() - from,
{
    if from < names.len() {
        let first = resolve(table, known, names[from]);
        lemma_resolve_faithful(table, known, names[from]);
        lemma_resolve_grows(table, known, names[from]);
        lemma_names_faithful(table, first.known, names, from + 1);
        let rest = resolve_names(table, first.known, names, from + 1);
        lemma_faithful_append(table, known, first.out, first.known, rest.out, rest.known);
    } else {
        let out = Seq::<EmittedView>::empty();
        assert(emitted_names(out).to_set() =~= Set::<Seq<u8>>::empty());
        assert(known =~= known.union(emitted_names(out).to_set()));
    }
}

/// Resolving a list of member types visits each of them.
pub proof fn lemma_walk_visits(
    table: Seq<(Seq<u8>, StmtView)>,
    known: Set<Seq<u8>>,
    members: Seq<MemberView>,
    from: int,
)
    requires
        0 <= from,
    ensures
        forall|i: int|
            from <= i < members.len() ==> resolve_members(table, known, members, from).known.contains(
                (#[trigger] members[i]).type_,
            ),
    decreases pending(table, known), members.len() - from + 1,
{
    if from < members.len() {
        let first = resolve(table, known, members[from].type_);
        lemma_resolve_grows(table, known, members[from].type_);
        assert(known.union(first.known) =~= first.known);
        lemma_pending_grows(table, known, first.known);
        lemma_walk_grows(table, first.known, members, from + 1);
        lemma_walk_visits(table, first.known, members, from + 1);
    }
}

/// Dependencies come first: when a structure is declared, the type of each
/// of its members was visited before this resolution, or it is declared or
/// reported before the structure, or it is the structure itself.
pub proof fn lemma_members_come_first(
    table: Seq<(Seq<u8>, StmtView)>,
    known: Set<Seq<u8>>,
    name: Seq<u8>,
    members: Seq<MemberView>,
    i: int,
)
    requires
        !known.contains(name),
        table_get(table, name) == Some(StmtView::Struct(members)),
        0 <= i < members.len(),
        !known.contains(members[i].type_),
        members[i].type_ != name,
    ensures
        exists|k: int|
            0 <= k < resolve(table, known, name).out.len() - 1 && (#[trigger] resolve(
                table,
                known,
                name,
            ).out[k]).name() == members[i].type_,
{
    let inside = known.insert(name);
    let walk = resolve_members(table, inside, members, 0);
    let wanted = members[i].type_;
    lemma_pending_insert(table, known, name);
    lemma_walk_visits(table, inside, members, 0);
    lemma_walk_faithful(table, inside, members, 0);
    let listed = emitted_names(walk.out);
    assert(walk.known.contains(wanted));
    assert(listed.to_set().contains(wanted));
    let k = choose|k: int| 0 <= k < listed.len() && listed[k] == wanted;
    let out = resolve(table, known, name).out;
    assert(out[k] == walk.out[k]);
    assert(out[k].name() == wanted);
}

/// A run over a catalog declares every entry, with the text of its
/// definition, and emits nothing twice: every name that the catalog holds is
/// declared exactly once, and every name that is referred to and missing is
/// reported exactly once.
pub proof fn lemma_run_declares_each_entry_once(table: Seq<(Seq<u8>, StmtView)>)
    ensures
        faithful(
            table,
            Set::empty(),
            resolve_names(table, Set::empty(), crate::catalog::names(table), 0).out,
            resolve_names(table, Set::empty(), crate::catalog::names(table), 0).known,
        ),
        forall|i: int|
            0 <= i < table.len() ==> resolve_names(
                table,
                Set::empty(),
                crate::catalog::names(table),
                0,
            ).out.contains(
                EmittedView::Declaration {
                    name: (#[trigger] table[i]).0,
                    text: declaration_text(table[i].0, table_get(table, table[i].0)->0),
                },
            ),
{
    let all = crate::catalog::names(table);
    let run = resolve_names(table, Set::empty(), all, 0);
    lemma_names_faithful(table, Set::empty(), all, 0);
    assert forall|i: int| 0 <= i < table.len() implies run.out.contains(
        EmittedView::Declaration {
            name: (#[trigger] table[i]).0,
            text: declaration_text(table[i].0, table_get(table, table[i].0)->0),
        },
    ) by {
        let name = table[i].0;
        assert(all[i] == name);
        assert(run.known.contains(name));
        let listed = emitted_names(run.out);
        assert(listed.to_set().contains(name));
        let k = choose|k: int| 0 <= k < listed.len() && listed[k] == name;
        assert(run.out[k].name() == name);
        assert(agrees(table, run.out[k]));
        lemma_find(table, name);
        assert(table_get(table, name) is Some);
    }
}

} // verus!
