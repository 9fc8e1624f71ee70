//! The extension itself: the one layout that it ships, and the entry point
//! that builds the root module from it when the host loads the extension.

use vstd::prelude::*;
use crate::builder::{build, RootModule};
use crate::error::ConfigurationError;
use crate::function::{ExportedFunction, FunctionView, Routine};
use crate::layout::{
    declares, declares_function, declares_module, entry_views, functions_of, id_of,
    is_clash_free, is_valid_layout, lemma_index_of_unique, lemma_items_of, namespace_of,
    LayoutEntry, LayoutEntryView, RootView,
};
use crate::path::{is_segment, join_dotted, law_split_of_join};
use crate::tree::Item;

verus! {

/// The one function of the extension, as it is declared.
pub open spec fn shipped_function() -> FunctionView {
    FunctionView { name: "hello_from_bin"@, routine: Routine::HelloFromBin }
}

/// The layout of the extension: the root module `core` holds
/// `hello_from_bin`.
pub open spec fn shipped_entries() -> Seq<LayoutEntryView> {
    seq![
        LayoutEntryView { path: "core"@, name: "hello_from_bin"@, function: shipped_function() },
    ]
}

/// The namespace of the extension, written out.
pub open spec fn shipped_namespace() -> RootView {
    RootView {
        name: "core"@,
        functions: seq![shipped_function()],
        items: map![
            seq!["core"@] => Item::Module,
            seq!["core"@, "hello_from_bin"@] => Item::Function(0),
        ],
    }
}

/// The shipped layout is valid, and the namespace that it stands for is the
/// one written out above. Were a binding added that collides with another,
/// this proof would fail, and the extension would not build.
pub proof fn law_shipped_layout_is_valid()
    ensures
        is_valid_layout(shipped_entries()),
        namespace_of(shipped_entries()) == shipped_namespace(),
{
    let entries = shipped_entries();
    let e = entries[0];
    let root = "core"@;
    let name = "hello_from_bin"@;
    reveal_strlit("core");
    reveal_strlit("hello_from_bin");
    assert(!root.contains('.'));
    assert(is_segment(root));
    assert(is_segment(name));
    law_split_of_join(seq![root]);
    assert(join_dotted(seq![root]) == root);
    assert(e.module_segments() == seq![root]);
    assert(e.binding_segments() =~= seq![root, name]);
    assert(is_clash_free(entries)) by {
        assert(!e.binding_segments().is_prefix_of(e.module_segments()));
    }
    assert(is_valid_layout(entries));
    let table = functions_of(entries);
    assert(table =~= seq![shipped_function()]) by {
        assert(entries.drop_last() =~= Seq::<LayoutEntryView>::empty());
        assert(functions_of(entries.drop_last()) =~= Seq::<FunctionView>::empty());
    }
    lemma_index_of_unique(table, 0);
    assert(id_of(entries, e.function) == 0);
    let built = namespace_of(entries).items;
    let written = shipped_namespace().items;
    assert forall|q: Seq<Seq<char>>| built.get(q) == written.get(q) by {
        lemma_items_of(entries, q);
        if q == seq![root, name] {
            assert(declares_function(entries, q, 0));
        } else if q == seq![root] {
            assert(q =~= e.module_segments().subrange(0, 1));
            assert(declares_module(entries, q, 0));
        } else if built.dom().contains(q) {
            let i = choose|i: int| declares(entries, q, i);
            assert(i == 0);
            if declares_module(entries, q, 0) {
                assert(q =~= seq![root]);
            }
        }
    }
    assert(built =~= written) by {
        assert forall|q: Seq<Seq<char>>| built.dom().contains(q) == written.dom().contains(q) by {
            assert(built.get(q) == written.get(q));
        }
        assert forall|q: Seq<Seq<char>>| built.dom().contains(q) implies built[q] == written[q] by {
            assert(built.get(q) == written.get(q));
        }
    }
}

/// The layout that the extension ships.
pub fn shipped_layout() -> (layout: Vec<LayoutEntry>)
    ensures
        entry_views(layout@) == shipped_entries(),
{
    let hello = ExportedFunction::new("hello_from_bin", Routine::HelloFromBin);
    let layout = vec![LayoutEntry::new("core", "hello_from_bin", hello)];
    assert(entry_views(layout@) =~= shipped_entries());
    layout
}

/// The entry point: builds the root module of the extension. It takes
/// nothing, and it cannot fail, because the shipped layout is valid.
pub fn load() -> (r: Result<RootModule, ConfigurationError>)
    ensures
        r matches Ok(root) && root@ == shipped_namespace(),
{
    let layout = shipped_layout();
    proof {
        law_shipped_layout_is_valid();
    }
    build(layout.as_slice())
}

} // verus!
