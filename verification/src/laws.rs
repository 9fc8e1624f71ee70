//! What holds of every layout, and of every namespace that is built from
//! one. Each statement here is proved once and for all inputs.

use vstd::prelude::*;
use vstd::set_lib::lemma_len_subset;
use crate::error::ConfigurationError;
use crate::layout::{
    accepted_before, clash, declares, declares_function, declares_module, id_of, is_bound,
    is_first_refused, is_valid_layout, lemma_functions_of, lemma_id_of, lemma_index_of_unique,
    lemma_items_of, lemma_valid_iff_all_accepted, namespace_of, rejection_of, verdict,
    LayoutEntryView,
};
use crate::function::law_stable_name_names_the_function;
use crate::path::{is_segment, lemma_split_len, lemma_split_of_appended_segment, split_dotted};
use crate::tree::{leads_to, FunctionId, Item};

verus! {

/// Where an entry cannot be taken in, there is a first such entry.
proof fn lemma_first_refused_exists(layout: Seq<LayoutEntryView>, j: int)
    requires
        0 <= j < layout.len(),
        rejection_of(layout, j) is Some,
    ensures
        exists|k: int| is_first_refused(layout, k),
    decreases j,
{
    if accepted_before(layout, j) {
        assert(is_first_refused(layout, j));
    } else {
        let earlier = choose|i: int| 0 <= i < j && !((#[trigger] rejection_of(layout, i)) is None);
        lemma_first_refused_exists(layout, earlier);
    }
}

/// A layout is refused for the reason that its first unacceptable entry
/// gives, whatever stands behind that entry.
pub proof fn law_first_refusal_decides(layout: Seq<LayoutEntryView>, k: int, e: ConfigurationError)
    requires
        is_first_refused(layout, k),
        rejection_of(layout, k) == Some(e),
    ensures
        verdict(layout) == Err::<(), ConfigurationError>(e),
{
    let chosen = choose|k: int| is_first_refused(layout, k);
    assert(is_first_refused(layout, chosen));
    if chosen < k {
        assert(rejection_of(layout, chosen) is None);
    }
    if k < chosen {
        assert(rejection_of(layout, k) is None);
    }
}

/// A layout is accepted exactly when it is valid: it is not empty, every
/// path and name in it is well formed, every path starts at the one root,
/// and no two entries clash.
pub proof fn law_accepted_iff_valid(layout: Seq<LayoutEntryView>)
    ensures
        verdict(layout) is Ok <==> is_valid_layout(layout),
{
    lemma_valid_iff_all_accepted(layout);
    if is_valid_layout(layout) {
        if exists|k: int| is_first_refused(layout, k) {
            let k = choose|k: int| is_first_refused(layout, k);
            assert(rejection_of(layout, k) is None);
        }
    }
    if verdict(layout) is Ok {
        assert forall|j: int| 0 <= j < layout.len() implies (#[trigger] rejection_of(
            layout,
            j,
        )) is None by {
            if rejection_of(layout, j) is Some {
                lemma_first_refused_exists(layout, j);
            }
        }
    }
}

/// Reachability: in the namespace of a valid layout, the dotted path of
/// every entry, its module path, a dot and its name, leads to the function
/// of that entry.
pub proof fn law_declared_functions_are_reachable(layout: Seq<LayoutEntryView>, i: int)
    requires
        is_valid_layout(layout),
        layout.len() <= usize::MAX,
        0 <= i < layout.len(),
    ensures
        verdict(layout) is Ok,
        namespace_of(layout).items.get(
            split_dotted(layout[i].path + seq!['.'] + layout[i].name),
        ) matches Some(Item::Function(id)) && id < namespace_of(layout).functions.len()
            && namespace_of(layout).functions[id as int] == layout[i].function,
{
    law_accepted_iff_valid(layout);
    assert(layout[i].is_well_formed());
    lemma_split_of_appended_segment(layout[i].path, layout[i].name);
    let target = layout[i].binding_segments();
    assert(declares_function(layout, target, i));
    lemma_items_of(layout, target);
    lemma_id_of(layout, i);
}

/// Every module that a path of a valid layout names is there: each
/// beginning of the module path of each entry leads to a module.
pub proof fn law_declared_modules_exist(layout: Seq<LayoutEntryView>, i: int, k: int)
    requires
        is_valid_layout(layout),
        0 <= i < layout.len(),
        1 <= k <= layout[i].module_segments().len(),
    ensures
        namespace_of(layout).items.get(layout[i].module_segments().take(k)) == Some(Item::Module),
{
    let q = layout[i].module_segments().take(k);
    assert(declares_module(layout, q, i));
    lemma_items_of(layout, q);
}

/// Conflicts are refused: a layout that binds one name in one module to two
/// different functions is not accepted, wherever the two entries stand.
pub proof fn law_conflicting_bindings_are_refused(layout: Seq<LayoutEntryView>, i: int, j: int)
    requires
        0 <= i < layout.len(),
        0 <= j < layout.len(),
        layout[i].path == layout[j].path,
        layout[i].name == layout[j].name,
        layout[i].function != layout[j].function,
    ensures
        verdict(layout) is Err,
        !is_valid_layout(layout),
{
    law_accepted_iff_valid(layout);
    assert(clash(layout[i], layout[j]));
}

/// Sharing: in the namespace of a valid layout, the binding paths of two
/// entries lead to the same place in the table of functions exactly when
/// the two entries name the same function. A function that is exported
/// under several paths is held once.
pub proof fn law_reexports_share_one_implementation(layout: Seq<LayoutEntryView>, i: int, j: int)
    requires
        is_valid_layout(layout),
        layout.len() <= usize::MAX,
        0 <= i < layout.len(),
        0 <= j < layout.len(),
    ensures
        namespace_of(layout).items.get(layout[i].binding_segments()) == Some(
            Item::Function(id_of(layout, layout[i].function)),
        ),
        namespace_of(layout).items.get(layout[j].binding_segments()) == Some(
            Item::Function(id_of(layout, layout[j].function)),
        ),
        layout[i].function == layout[j].function <==> id_of(layout, layout[i].function) == id_of(
            layout,
            layout[j].function,
        ),
{
    assert(declares_function(layout, layout[i].binding_segments(), i));
    assert(declares_function(layout, layout[j].binding_segments(), j));
    lemma_items_of(layout, layout[i].binding_segments());
    lemma_items_of(layout, layout[j].binding_segments());
    lemma_id_of(layout, i);
    lemma_id_of(layout, j);
}

/// The beginnings of a path, the path itself and the empty one among them.
spec fn beginnings(path: Seq<Seq<char>>) -> Set<Seq<Seq<char>>> {
    Set::new(|q: Seq<Seq<char>>| q.is_prefix_of(path))
}

proof fn lemma_beginnings_finite(path: Seq<Seq<char>>)
    ensures
        beginnings(path).finite(),
    decreases path.len(),
{
    if path.len() == 0 {
        assert(beginnings(path) =~= Set::<Seq<Seq<char>>>::empty().insert(path)) by {
            assert forall|q: Seq<Seq<char>>| q.is_prefix_of(path) implies q == path by {
                assert(q =~= path);
            }
            assert(path.is_prefix_of(path));
        }
    } else {
        let shorter = path.drop_last();
        lemma_beginnings_finite(shorter);
        assert(beginnings(path) =~= beginnings(shorter).insert(path)) by {
            assert forall|q: Seq<Seq<char>>| q.is_prefix_of(path) implies q == path
                || q.is_prefix_of(shorter) by {
                if q.len() == path.len() {
                    assert(q =~= path);
                } else {
                    assert(q =~= shorter.subrange(0, q.len() as int));
                }
            }
            assert forall|q: Seq<Seq<char>>| q.is_prefix_of(shorter) implies q.is_prefix_of(
                path,
            ) by {
                assert(q =~= path.subrange(0, q.len() as int));
            }
            assert(path.is_prefix_of(path)) by {
                assert(path =~= path.subrange(0, path.len() as int));
            }
        }
    }
}

/// Every beginning of a binding path of the layout.
spec fn reach(layout: Seq<LayoutEntryView>) -> Set<Seq<Seq<char>>>
    decreases layout.len(),
{
    if layout.len() == 0 {
        Set::empty()
    } else {
        reach(layout.drop_last()).union(beginnings(layout.last().binding_segments()))
    }
}

proof fn lemma_reach(layout: Seq<LayoutEntryView>)
    ensures
        reach(layout).finite(),
        forall|i: int, q: Seq<Seq<char>>|
            0 <= i < layout.len() && q.is_prefix_of((#[trigger] layout[i]).binding_segments())
                ==> #[trigger] reach(layout).contains(q),
    decreases layout.len(),
{
    if layout.len() > 0 {
        let front = layout.drop_last();
        lemma_reach(front);
        lemma_beginnings_finite(layout.last().binding_segments());
        assert forall|i: int, q: Seq<Seq<char>>|
            0 <= i < layout.len() && q.is_prefix_of(
                (#[trigger] layout[i]).binding_segments(),
            ) implies #[trigger] reach(layout).contains(q) by {
            if i < front.len() {
                assert(front[i] == layout[i]);
                assert(reach(front).contains(q));
            } else {
                assert(beginnings(layout.last().binding_segments()).contains(q));
            }
        }
    }
}

/// The namespace of a valid layout is well formed.
pub proof fn law_namespace_is_well_formed(layout: Seq<LayoutEntryView>)
    requires
        is_valid_layout(layout),
        layout.len() <= usize::MAX,
    ensures
        namespace_of(layout).is_well_formed(),
{
    let space = namespace_of(layout);
    let items = space.items;
    lemma_functions_of(layout);
    assert(layout[0].is_well_formed());
    lemma_split_len(layout[0].path);
    assert(is_segment(space.name));
    assert(items.get(seq![space.name]) == Some(Item::Module)) by {
        let top = seq![space.name];
        assert(top =~= layout[0].module_segments().subrange(0, 1));
        assert(declares_module(layout, top, 0));
        lemma_items_of(layout, top);
    }
    assert forall|q: Seq<Seq<char>>| #[trigger] items.dom().contains(q) implies q.len() > 0 && q[0]
        == space.name && crate::path::all_segments(q) by {
        let i = choose|i: int| declares(layout, q, i);
        assert(layout[i].is_well_formed());
        lemma_split_len(layout[i].path);
        let path = layout[i].module_segments();
        if declares_function(layout, q, i) {
            assert(q[0] == path[0]);
            assert forall|n: int| 0 <= n < q.len() implies is_segment(#[trigger] q[n]) by {
                if n < path.len() {
                    assert(q[n] == path[n]);
                }
            }
        } else {
            let cut = path.subrange(0, q.len() as int);
            assert(q[0] == cut[0]);
            assert forall|n: int| 0 <= n < q.len() implies is_segment(#[trigger] q[n]) by {
                assert(q[n] == cut[n]);
                assert(cut[n] == path[n]);
            }
        }
    }
    assert forall|q: Seq<Seq<char>>| #[trigger] items.dom().contains(q) && q.len() > 1 implies items.get(
        q.drop_last(),
    ) == Some(Item::Module) by {
        let i = choose|i: int| declares(layout, q, i);
        let path = layout[i].module_segments();
        let above = q.drop_last();
        if declares_function(layout, q, i) {
            assert(above =~= path);
            assert(path =~= path.subrange(0, path.len() as int));
        } else {
            assert(above =~= path.subrange(0, above.len() as int));
        }
        assert(declares_module(layout, above, i));
        lemma_items_of(layout, above);
    }
    assert forall|i: int, j: int| 0 <= i < j < space.functions.len() implies (
    #[trigger] space.functions[i]).name != (#[trigger] space.functions[j]).name by {
        law_stable_name_names_the_function(space.functions[i], space.functions[j]);
    }
    assert forall|q: Seq<Seq<char>>, id: FunctionId| #[trigger]
        leads_to(items, q, Item::Function(id)) implies id < space.functions.len() by {
        lemma_items_of(layout, q);
        let i = choose|i: int| declares(layout, q, i);
        assert(declares_function(layout, q, i));
        lemma_id_of(layout, i);
    }
    assert forall|id: FunctionId| id < space.functions.len() implies #[trigger] is_bound(
        items,
        id,
    ) by {
        let i = choose|i: int|
            0 <= i < layout.len() && (#[trigger] layout[i]).function == space.functions[id as int];
        let q = layout[i].binding_segments();
        assert(declares_function(layout, q, i));
        lemma_items_of(layout, q);
        lemma_index_of_unique(space.functions, id as int);
        assert(leads_to(items, q, Item::Function(id)));
    }
    assert(items.dom().finite()) by {
        lemma_reach(layout);
        assert forall|q: Seq<Seq<char>>| items.dom().contains(q) implies reach(layout).contains(
            q,
        ) by {
            let i = choose|i: int| declares(layout, q, i);
            let path = layout[i].module_segments();
            let target = layout[i].binding_segments();
            if declares_function(layout, q, i) {
                assert(q =~= target.subrange(0, target.len() as int));
            } else {
                assert(q =~= target.subrange(0, q.len() as int)) by {
                    let cut = path.subrange(0, q.len() as int);
                    assert forall|n: int| 0 <= n < q.len() implies q[n] == target[n] by {
                        assert(q[n] == cut[n]);
                    }
                }
            }
            assert(q.is_prefix_of(target));
        }
        assert(items.dom().subset_of(reach(layout)));
        lemma_len_subset(items.dom(), reach(layout));
    }
}

} // verus!
