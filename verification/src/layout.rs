//! Layouts: the ordered list of bindings that a namespace is built from, and
//! what such a list means.
//!
//! Everything here but [`LayoutEntry`] itself is mathematics: which layouts
//! are accepted, why the others are refused, and which namespace an accepted
//! layout stands for.

use vstd::prelude::*;
use crate::error::ConfigurationError;
use crate::function::{ExportedFunction, FunctionView};
use crate::path::{all_segments, is_dotted_path, is_segment, split_dotted};
use crate::tree::{is_blocked, leads_to, with_binding, FunctionId, Item, Namespace};

verus! {

/// One binding of a layout: in the module at `path`, `name` is bound to
/// `function`. The path is dotted and starts with the name of the root
/// module.
#[derive(Debug, PartialEq, Eq)]
pub struct LayoutEntry {
    pub path: String,
    pub name: String,
    pub function: ExportedFunction,
}

/// The contents of a [`LayoutEntry`].
pub ghost struct LayoutEntryView {
    pub path: Seq<char>,
    pub name: Seq<char>,
    pub function: FunctionView,
}

impl View for LayoutEntry {
    type V = LayoutEntryView;

    open spec fn view(&self) -> LayoutEntryView {
        LayoutEntryView { path: self.path@, name: self.name@, function: self.function@ }
    }
}

impl Clone for LayoutEntry {
    /// A copy with the same contents.
    fn clone(&self) -> (e: LayoutEntry)
        ensures
            e@ == self@,
    {
        LayoutEntry {
            path: self.path.clone(),
            name: self.name.clone(),
            function: self.function.clone(),
        }
    }
}

impl LayoutEntry {
    /// The binding of `name` to `function` in the module at `path`.
    pub fn new(path: &str, name: &str, function: ExportedFunction) -> (e: LayoutEntry)
        ensures
            e@ == (LayoutEntryView { path: path@, name: name@, function: function@ }),
    {
        LayoutEntry { path: path.to_owned(), name: name.to_owned(), function }
    }
}

/// The contents of a layout, entry by entry.
pub open spec fn entry_views(layout: Seq<LayoutEntry>) -> Seq<LayoutEntryView> {
    layout.map_values(|e: LayoutEntry| e@)
}

impl LayoutEntryView {
    /// The segments that lead to the module of the binding.
    pub open spec fn module_segments(self) -> Seq<Seq<char>> {
        split_dotted(self.path)
    }

    /// The segments that lead to the bound function.
    pub open spec fn binding_segments(self) -> Seq<Seq<char>> {
        self.module_segments().push(self.name)
    }

    /// The path has no empty piece, and the name is a segment.
    pub open spec fn is_well_formed(self) -> bool {
        is_dotted_path(self.path) && is_segment(self.name)
    }
}

/// Two bindings that cannot stand in one namespace: they bind one place to
/// two different functions, or one of them binds a function where the other
/// needs a module.
pub open spec fn clash(a: LayoutEntryView, b: LayoutEntryView) -> bool {
    ||| a.binding_segments() == b.binding_segments() && a.function != b.function
    ||| a.binding_segments().is_prefix_of(b.module_segments())
    ||| b.binding_segments().is_prefix_of(a.module_segments())
}

/// No two entries clash.
pub open spec fn is_clash_free(layout: Seq<LayoutEntryView>) -> bool {
    forall|i: int, j: int|
        0 <= i < layout.len() && 0 <= j < layout.len() ==> !#[trigger] clash(layout[i], layout[j])
}

/// Every entry is well formed.
pub open spec fn all_well_formed(layout: Seq<LayoutEntryView>) -> bool {
    forall|i: int| 0 <= i < layout.len() ==> (#[trigger] layout[i]).is_well_formed()
}

/// Every path starts with the same name, that of the root module.
pub open spec fn has_one_root(layout: Seq<LayoutEntryView>) -> bool {
    forall|i: int|
        0 <= i < layout.len() ==> (#[trigger] layout[i]).module_segments()[0]
            == layout[0].module_segments()[0]
}

/// A layout that a namespace can be built from: it has an entry, every
/// entry is well formed, there is one root, and no two entries clash.
pub open spec fn is_valid_layout(layout: Seq<LayoutEntryView>) -> bool {
    &&& layout.len() > 0
    &&& all_well_formed(layout)
    &&& has_one_root(layout)
    &&& is_clash_free(layout)
}

/// The entry at `k` clashes with one that stands before it.
pub open spec fn clashes_with_earlier(layout: Seq<LayoutEntryView>, k: int) -> bool {
    exists|i: int| 0 <= i < k && #[trigger] clash(layout[i], layout[k])
}

/// Why the entry at `k` cannot be taken in, if it cannot: it is malformed,
/// it lies outside the root module that the first entry names, or it clashes
/// with an earlier entry.
pub open spec fn rejection_of(layout: Seq<LayoutEntryView>, k: int) -> Option<ConfigurationError> {
    if !layout[k].is_well_formed() {
        Some(ConfigurationError::InvalidName)
    } else if layout[k].module_segments()[0] != layout[0].module_segments()[0] {
        Some(ConfigurationError::ForeignRoot)
    } else if clashes_with_earlier(layout, k) {
        Some(ConfigurationError::Collision)
    } else {
        None
    }
}

/// Every entry before `k` can be taken in.
pub open spec fn accepted_before(layout: Seq<LayoutEntryView>, k: int) -> bool {
    forall|j: int| 0 <= j < k ==> (#[trigger] rejection_of(layout, j)) is None
}

/// `k` is the first entry that cannot be taken in.
pub open spec fn is_first_refused(layout: Seq<LayoutEntryView>, k: int) -> bool {
    &&& 0 <= k < layout.len()
    &&& rejection_of(layout, k) is Some
    &&& accepted_before(layout, k)
}

/// What becomes of a layout: it is accepted, or it is refused for the reason
/// that its first unacceptable entry gives.
pub open spec fn verdict(layout: Seq<LayoutEntryView>) -> Result<(), ConfigurationError> {
    if layout.len() == 0 {
        Err(ConfigurationError::EmptyLayout)
    } else if exists|k: int| is_first_refused(layout, k) {
        Err(rejection_of(layout, choose|k: int| is_first_refused(layout, k))->0)
    } else {
        Ok(())
    }
}

/// The functions of a layout, each once, in the order in which they first
/// appear.
pub open spec fn functions_of(layout: Seq<LayoutEntryView>) -> Seq<FunctionView>
    decreases layout.len(),
{
    if layout.len() == 0 {
        Seq::<FunctionView>::empty()
    } else {
        let before = functions_of(layout.drop_last());
        if before.contains(layout.last().function) {
            before
        } else {
            before.push(layout.last().function)
        }
    }
}

/// The entry at `i` binds a function at `q`.
pub open spec fn declares_function(
    layout: Seq<LayoutEntryView>,
    q: Seq<Seq<char>>,
    i: int,
) -> bool {
    0 <= i < layout.len() && q == layout[i].binding_segments()
}

/// The entry at `i` needs a module at `q`: `q` is its module path or a
/// beginning of it.
pub open spec fn declares_module(
    layout: Seq<LayoutEntryView>,
    q: Seq<Seq<char>>,
    i: int,
) -> bool {
    0 <= i < layout.len() && q.len() > 0 && q.is_prefix_of(layout[i].module_segments())
}

/// The entry at `i` puts something at `q`.
pub open spec fn declares(layout: Seq<LayoutEntryView>, q: Seq<Seq<char>>, i: int) -> bool {
    declares_function(layout, q, i) || declares_module(layout, q, i)
}

/// The id under which `function` stands in the table of `layout`.
pub open spec fn id_of(layout: Seq<LayoutEntryView>, function: FunctionView) -> FunctionId {
    functions_of(layout).index_of(function) as usize
}

/// The contents of a root module.
pub ghost struct RootView {
    /// The name of the root module, the first segment of every path.
    pub name: Seq<char>,
    /// The table of exported functions; a [`FunctionId`] is a place in it.
    pub functions: Seq<FunctionView>,
    /// Every path that leads somewhere, from the root's own name on, with
    /// what it leads to.
    pub items: Namespace,
}

/// Some path of `items` leads to the function `id`.
pub open spec fn is_bound(items: Namespace, id: FunctionId) -> bool {
    exists|q: Seq<Seq<char>>| #[trigger] leads_to(items, q, Item::Function(id))
}

impl RootView {
    /// What holds of the contents of every root module:
    /// the root is a module and carries a proper name; every path that
    /// leads somewhere starts at the root and is made of segments; what
    /// lies directly above a path that leads somewhere is a module; the
    /// table holds no function twice and no stable name twice; every
    /// function that a path leads to stands in the table; every function in
    /// the table is bound somewhere; and the paths that lead somewhere are
    /// finitely many.
    pub open spec fn is_well_formed(self) -> bool {
        &&& is_segment(self.name)
        &&& self.items.get(seq![self.name]) == Some(Item::Module)
        &&& forall|q: Seq<Seq<char>>| #[trigger]
            self.items.dom().contains(q) ==> q.len() > 0 && q[0] == self.name && all_segments(q)
        &&& forall|q: Seq<Seq<char>>| #[trigger]
            self.items.dom().contains(q) && q.len() > 1 ==> self.items.get(q.drop_last()) == Some(
                Item::Module,
            )
        &&& self.functions.no_duplicates()
        &&& forall|i: int, j: int|
            0 <= i < j < self.functions.len() ==> (#[trigger] self.functions[i]).name != (
            #[trigger] self.functions[j]).name
        &&& forall|q: Seq<Seq<char>>, id: FunctionId| #[trigger]
            leads_to(self.items, q, Item::Function(id)) ==> id < self.functions.len()
        &&& forall|id: FunctionId| id < self.functions.len() ==> #[trigger] is_bound(self.items, id)
        &&& self.items.dom().finite()
    }
}

/// The namespace that a layout stands for: at the binding path of each entry
/// its function, at each module path and each beginning of one a module, and
/// nothing anywhere else.
pub open spec fn namespace_of(layout: Seq<LayoutEntryView>) -> RootView {
    RootView {
        name: layout[0].module_segments()[0],
        functions: functions_of(layout),
        items: Map::new(
            |q: Seq<Seq<char>>| exists|i: int| declares(layout, q, i),
            |q: Seq<Seq<char>>|
                if exists|i: int| declares_function(layout, q, i) {
                    Item::Function(
                        id_of(layout, layout[choose|i: int| declares_function(layout, q, i)].function),
                    )
                } else {
                    Item::Module
                },
        ),
    }
}

/// A namespace together with the empty path, which leads to the nameless
/// place above the root module.
pub open spec fn with_top(items: Namespace) -> Namespace {
    items.insert(Seq::<Seq<char>>::empty(), Item::Module)
}

/// In a sequence without duplicates, an element is found where it stands.
pub(crate) proof fn lemma_index_of_unique<A>(s: Seq<A>, i: int)
    requires
        s.no_duplicates(),
        0 <= i < s.len(),
    ensures
        s.index_of(s[i]) == i,
{
    let found = s.index_of(s[i]);
    assert(0 <= found < s.len() && s[found] == s[i]);
}

/// What pushing an entry does to the table of functions.
pub(crate) proof fn lemma_functions_after_push(before: Seq<LayoutEntryView>, e: LayoutEntryView)
    ensures
        functions_of(before.push(e)) == if functions_of(before).contains(e.function) {
            functions_of(before)
        } else {
            functions_of(before).push(e.function)
        },
{
    assert(before.push(e).drop_last() =~= before);
}

/// The table of a layout holds no function twice, holds the function of
/// every entry, holds nothing else, and is no longer than the layout.
pub proof fn lemma_functions_of(layout: Seq<LayoutEntryView>)
    ensures
        functions_of(layout).no_duplicates(),
        functions_of(layout).len() <= layout.len(),
        forall|i: int|
            0 <= i < layout.len() ==> functions_of(layout).contains((#[trigger] layout[i]).function),
        forall|n: int|
            0 <= n < functions_of(layout).len() ==> exists|i: int|
                0 <= i < layout.len() && (#[trigger] layout[i]).function == (
                #[trigger] functions_of(layout)[n]),
    decreases layout.len(),
{
    if layout.len() > 0 {
        let front = layout.drop_last();
        let before = functions_of(front);
        let table = functions_of(layout);
        lemma_functions_of(front);
        assert forall|i: int| 0 <= i < layout.len() implies table.contains(
            (#[trigger] layout[i]).function,
        ) by {
            if i < front.len() {
                assert(front[i] == layout[i]);
                let n = choose|n: int| 0 <= n < before.len() && before[n] == front[i].function;
                assert(table[n] == layout[i].function);
            } else if !before.contains(layout.last().function) {
                assert(table[before.len() as int] == layout[i].function);
            }
        }
        assert forall|n: int| 0 <= n < table.len() implies exists|i: int|
            0 <= i < layout.len() && (#[trigger] layout[i]).function == (#[trigger] table[n]) by {
            if n < before.len() {
                let i = choose|i: int|
                    0 <= i < front.len() && (#[trigger] front[i]).function == before[n];
                assert(layout[i].function == table[n]);
            } else {
                assert(layout[layout.len() - 1].function == table[n]);
            }
        }
    }
}

/// The id of the function of an entry is a place in the table, and the
/// function stands there.
pub proof fn lemma_id_of(layout: Seq<LayoutEntryView>, i: int)
    requires
        0 <= i < layout.len(),
        layout.len() <= usize::MAX,
    ensures
        id_of(layout, layout[i].function) < functions_of(layout).len(),
        functions_of(layout)[id_of(layout, layout[i].function) as int] == layout[i].function,
{
    lemma_functions_of(layout);
    let table = functions_of(layout);
    assert(table.contains(layout[i].function));
    let found = table.index_of(layout[i].function);
    assert(0 <= found < table.len() && table[found] == layout[i].function);
}

/// A function keeps its id when an entry is pushed behind.
pub(crate) proof fn lemma_id_is_stable(before: Seq<LayoutEntryView>, e: LayoutEntryView, i: int)
    requires
        0 <= i < before.len(),
    ensures
        id_of(before.push(e), before[i].function) == id_of(before, before[i].function),
{
    let after = before.push(e);
    lemma_functions_of(before);
    lemma_functions_of(after);
    lemma_functions_after_push(before, e);
    let old_table = functions_of(before);
    let new_table = functions_of(after);
    assert(old_table.contains(before[i].function));
    let n = old_table.index_of(before[i].function);
    assert(0 <= n < old_table.len() && old_table[n] == before[i].function);
    assert(new_table[n] == old_table[n]);
    lemma_index_of_unique(new_table, n);
}

/// Entries that were all taken in do not clash with one another.
pub(crate) proof fn lemma_accepted_is_clash_free(layout: Seq<LayoutEntryView>, n: int)
    requires
        0 <= n <= layout.len(),
        accepted_before(layout, n),
    ensures
        is_clash_free(layout.take(n)),
{
    let taken = layout.take(n);
    assert forall|i: int, j: int|
        0 <= i < taken.len() && 0 <= j < taken.len() implies !#[trigger] clash(
        taken[i],
        taken[j],
    ) by {
        assert(rejection_of(layout, i) is None);
        assert(rejection_of(layout, j) is None);
        if i < j {
            assert(!clashes_with_earlier(layout, j));
            assert(!clash(layout[i], layout[j]));
        } else if j < i {
            assert(!clashes_with_earlier(layout, i));
            assert(!clash(layout[j], layout[i]));
        } else {
            assert(!taken[i].binding_segments().is_prefix_of(taken[i].module_segments()));
        }
    }
}

/// A layout is valid exactly when it has an entry and each of its entries
/// can be taken in after those that stand before it.
pub proof fn lemma_valid_iff_all_accepted(layout: Seq<LayoutEntryView>)
    ensures
        is_valid_layout(layout) <==> layout.len() > 0 && accepted_before(
            layout,
            layout.len() as int,
        ),
{
    if is_valid_layout(layout) {
        assert forall|k: int| 0 <= k < layout.len() implies (#[trigger] rejection_of(
            layout,
            k,
        )) is None by {
            assert(layout[k].is_well_formed());
            if clashes_with_earlier(layout, k) {
                let i = choose|i: int| 0 <= i < k && #[trigger] clash(layout[i], layout[k]);
                assert(!clash(layout[i], layout[k]));
            }
        }
    }
    if layout.len() > 0 && accepted_before(layout, layout.len() as int) {
        lemma_accepted_is_clash_free(layout, layout.len() as int);
        assert(layout.take(layout.len() as int) =~= layout);
        assert forall|i: int| 0 <= i < layout.len() implies (#[trigger] layout[i]).is_well_formed()
            && layout[i].module_segments()[0] == layout[0].module_segments()[0] by {
            assert(rejection_of(layout, i) is None);
        }
    }
}

/// What the namespace of a clash-free layout holds at `q`: the function of
/// every entry that binds one there, a module where an entry needs one, and
/// nothing where no entry puts anything.
pub proof fn lemma_items_of(layout: Seq<LayoutEntryView>, q: Seq<Seq<char>>)
    requires
        is_clash_free(layout),
    ensures
        forall|i: int| #[trigger]
            declares_function(layout, q, i) ==> namespace_of(layout).items.get(q) == Some(
                Item::Function(id_of(layout, layout[i].function)),
            ),
        forall|i: int| #[trigger]
            declares_module(layout, q, i) ==> namespace_of(layout).items.get(q) == Some(Item::Module),
        namespace_of(layout).items.dom().contains(q) ==> exists|i: int| declares(layout, q, i),
{
    let items = namespace_of(layout).items;
    assert forall|i: int| #[trigger] declares_function(layout, q, i) implies items.get(q) == Some(
        Item::Function(id_of(layout, layout[i].function)),
    ) by {
        assert(declares(layout, q, i));
        let chosen = choose|i: int| declares_function(layout, q, i);
        assert(!clash(layout[chosen], layout[i]));
    }
    assert forall|i: int| #[trigger] declares_module(layout, q, i) implies items.get(q) == Some(
        Item::Module,
    ) by {
        assert(declares(layout, q, i));
        if exists|j: int| declares_function(layout, q, j) {
            let j = choose|j: int| declares_function(layout, q, j);
            assert(!clash(layout[j], layout[i]));
        }
    }
}

/// Taking a prefix of a sequence by its own length gives that prefix.
proof fn lemma_prefix_is_take<A>(prefix: Seq<A>, whole: Seq<A>)
    requires
        prefix.is_prefix_of(whole),
    ensures
        whole.take(prefix.len() as int) == prefix,
{
    assert(whole.take(prefix.len() as int) =~= prefix);
}

/// An entry is in the way of the namespace built so far exactly when it
/// clashes with one of the entries that the namespace was built from.
pub(crate) proof fn lemma_blocked_iff_clash(before: Seq<LayoutEntryView>, e: LayoutEntryView)
    requires
        is_clash_free(before),
        before.len() < usize::MAX,
    ensures
        is_blocked(
            with_top(namespace_of(before).items),
            e.module_segments(),
            e.name,
            id_of(before.push(e), e.function),
        ) <==> exists|i: int| 0 <= i < before.len() && #[trigger] clash(before[i], e),
{
    let after = before.push(e);
    let items = namespace_of(before).items;
    let space = with_top(items);
    let path = e.module_segments();
    let target = e.binding_segments();
    let id = id_of(after, e.function);
    assert(after[before.len() as int] == e);
    lemma_id_of(after, before.len() as int);
    lemma_functions_of(after);
    if is_blocked(space, path, e.name, id) {
        if exists|k: int|
            1 <= k <= path.len() && space.dom().contains(#[trigger] path.take(k)) && space[path.take(
                k,
            )] is Function {
            let k = choose|k: int|
                1 <= k <= path.len() && space.dom().contains(#[trigger] path.take(k))
                    && space[path.take(k)] is Function;
            let q = path.take(k);
            assert(q.len() > 0);
            assert(items.dom().contains(q) && items[q] is Function);
            lemma_items_of(before, q);
            let i = choose|i: int| declares(before, q, i);
            assert(declares_function(before, q, i));
            assert(q.is_prefix_of(path));
            assert(clash(before[i], e));
        } else {
            assert(target.len() > 0);
            assert(items.dom().contains(target) && items[target] != Item::Function(id));
            lemma_items_of(before, target);
            let i = choose|i: int| declares(before, target, i);
            if declares_function(before, target, i) {
                lemma_id_is_stable(before, e, i);
                assert(after[i] == before[i]);
                lemma_id_of(after, i);
                assert(before[i].function != e.function);
            }
            assert(clash(before[i], e));
        }
    }
    if exists|i: int| 0 <= i < before.len() && #[trigger] clash(before[i], e) {
        let i = choose|i: int| 0 <= i < before.len() && #[trigger] clash(before[i], e);
        let other = before[i];
        if other.binding_segments() == target && other.function != e.function {
            assert(declares_function(before, target, i));
            lemma_items_of(before, target);
            lemma_id_is_stable(before, e, i);
            assert(after[i] == before[i]);
            lemma_id_of(after, i);
            assert(id_of(before, other.function) != id);
            assert(space.dom().contains(target) && space[target] != Item::Function(id));
        } else if other.binding_segments().is_prefix_of(path) {
            let q = other.binding_segments();
            let k = q.len() as int;
            lemma_prefix_is_take(q, path);
            crate::path::lemma_split_len(other.path);
            assert(declares_function(before, q, i));
            lemma_items_of(before, q);
            assert(1 <= k <= path.len() && space.dom().contains(path.take(k)) && space[path.take(
                k,
            )] is Function);
        } else {
            assert(target.is_prefix_of(other.module_segments()));
            assert(declares_module(before, target, i));
            lemma_items_of(before, target);
            assert(space.dom().contains(target) && space[target] != Item::Function(id));
        }
        assert(is_blocked(space, path, e.name, id));
    }
}

/// The namespace of a layout with one more entry is the namespace of the
/// layout with that entry bound into it.
pub(crate) proof fn lemma_namespace_after_push(before: Seq<LayoutEntryView>, e: LayoutEntryView)
    requires
        is_clash_free(before.push(e)),
        before.len() < usize::MAX,
    ensures
        with_top(namespace_of(before.push(e)).items) == with_binding(
            with_top(namespace_of(before).items),
            e.module_segments(),
            e.name,
            id_of(before.push(e), e.function),
        ),
{
    let after = before.push(e);
    let last = before.len() as int;
    let path = e.module_segments();
    let target = e.binding_segments();
    let id = id_of(after, e.function);
    let old_space = with_top(namespace_of(before).items);
    let new_space = with_top(namespace_of(after).items);
    let expected = with_binding(old_space, path, e.name, id);
    assert(after[last] == e);
    assert(is_clash_free(before)) by {
        assert forall|i: int, j: int|
            0 <= i < before.len() && 0 <= j < before.len() implies !#[trigger] clash(
            before[i],
            before[j],
        ) by {
            assert(!clash(after[i], after[j]));
        }
    }
    assert forall|q: Seq<Seq<char>>| new_space.get(q) == expected.get(q) by {
        lemma_items_of(after, q);
        lemma_items_of(before, q);
        if q.len() == 0 {
            assert(q =~= Seq::<Seq<char>>::empty());
            assert(q.is_prefix_of(path));
        } else if q == target {
            assert(declares_function(after, q, last));
        } else if q.is_prefix_of(path) {
            assert(declares_module(after, q, last));
        } else {
            if namespace_of(after).items.dom().contains(q) {
                let i = choose|i: int| declares(after, q, i);
                assert(i != last);
                assert(after[i] == before[i]);
                if declares_function(after, q, i) {
                    assert(declares_function(before, q, i));
                    lemma_id_is_stable(before, e, i);
                } else {
                    assert(declares_module(before, q, i));
                }
            }
            if namespace_of(before).items.dom().contains(q) {
                let i = choose|i: int| declares(before, q, i);
                assert(after[i] == before[i]);
                if declares_function(before, q, i) {
                    assert(declares_function(after, q, i));
                    lemma_id_is_stable(before, e, i);
                } else {
                    assert(declares_module(after, q, i));
                }
            }
        }
    }
    assert forall|q: Seq<Seq<char>>| new_space.dom().contains(q) == expected.dom().contains(q) by {
        assert(new_space.get(q) == expected.get(q));
    }
    assert forall|q: Seq<Seq<char>>| new_space.dom().contains(q) implies new_space[q]
        == expected[q] by {
        assert(new_space.get(q) == expected.get(q));
    }
    assert(new_space =~= expected);
}

} // verus!
