//! The module tree builder: from a layout to the root module.

use vstd::prelude::*;
use crate::error::ConfigurationError;
use crate::function::{ExportedFunction, FunctionView};
use crate::laws::{
    law_accepted_iff_valid, law_first_refusal_decides, law_namespace_is_well_formed,
};
use crate::layout::{
    accepted_before, clash, clashes_with_earlier, declares, entry_views, functions_of, id_of,
    is_first_refused, is_valid_layout, lemma_accepted_is_clash_free, lemma_blocked_iff_clash,
    lemma_functions_after_push, lemma_functions_of, lemma_index_of_unique,
    lemma_namespace_after_push, namespace_of, rejection_of, verdict, with_top, LayoutEntry,
    LayoutEntryView, RootView,
};
use crate::path::{
    are_valid_segments, is_valid_segment, lemma_split_len, split_dotted, split_path, texts,
};
use crate::tree::{leads_to, FunctionId, Item, ModuleNode};

verus! {

/// The contents of a list of exported functions, one by one.
pub open spec fn function_views(functions: Seq<ExportedFunction>) -> Seq<FunctionView> {
    functions.map_values(|f: ExportedFunction| f@)
}

/// The root module: the one module node without a parent, with everything
/// below it and with the table of the functions bound there. It is made by
/// [`build`] and cannot be changed afterwards.
#[derive(Debug)]
pub struct RootModule {
    name: String,
    top: ModuleNode,
    functions: Vec<ExportedFunction>,
}

impl View for RootModule {
    type V = RootView;

    closed spec fn view(&self) -> RootView {
        RootView {
            name: self.name@,
            functions: function_views(self.functions@),
            items: self.top@.remove(Seq::<Seq<char>>::empty()),
        }
    }
}

impl RootModule {
    /// A root module is well formed, and so is its tree.
    #[verifier::type_invariant]
    spec fn inv(self) -> bool {
        self.top.wf() && self@.is_well_formed()
    }

    /// The name of the root module.
    pub fn name(&self) -> (s: &str)
        ensures
            s@ == self@.name,
    {
        self.name.as_str()
    }

    /// How many exported functions the table holds.
    pub fn function_count(&self) -> (n: usize)
        ensures
            n == self@.functions.len(),
    {
        self.functions.len()
    }

    /// The exported function with the given id.
    pub fn function(&self, id: FunctionId) -> (r: Option<&ExportedFunction>)
        ensures
            match r {
                Some(f) => id < self@.functions.len() && f@ == self@.functions[id as int],
                None => id >= self@.functions.len(),
            },
    {
        if id < self.functions.len() {
            Some(&self.functions[id])
        } else {
            None
        }
    }

    /// What the dotted path leads to: a module, a function, or nothing.
    /// Names are compared character by character; nothing but an exact match
    /// is found.
    pub fn resolve(&self, path: &str) -> (r: Option<Item>)
        ensures
            r == self@.items.get(split_dotted(path@)),
    {
        let segments = split_path(path);
        proof {
            lemma_split_len(path@);
        }
        self.top.resolve(&segments)
    }

    /// The exported function that the dotted path leads to, if it leads to
    /// one.
    pub fn lookup_function(&self, path: &str) -> (r: Option<&ExportedFunction>)
        ensures
            match r {
                Some(f) => {
                    &&& self@.items.get(split_dotted(path@)) matches Some(Item::Function(id))
                    &&& id < self@.functions.len()
                    &&& f@ == self@.functions[id as int]
                },
                None => !(self@.items.get(split_dotted(path@)) matches Some(Item::Function(_))),
            },
    {
        proof {
            use_type_invariant(self);
        }
        match self.resolve(path) {
            Some(Item::Function(id)) => {
                assert(leads_to(self@.items, split_dotted(path@), Item::Function(id)));
                self.function(id)
            },
            _ => None,
        }
    }

    /// The module node that the dotted path leads to, if it leads to one,
    /// for a walk through what lies below it.
    pub fn module(&self, path: &str) -> (r: Option<&ModuleNode>)
        ensures
            match r {
                Some(node) => {
                    &&& self@.items.get(split_dotted(path@)) == Some(Item::Module)
                    &&& node.wf()
                    &&& forall|q: Seq<Seq<char>>| #[trigger]
                        node@.get(q) == self@.items.get(split_dotted(path@) + q)
                },
                None => self@.items.get(split_dotted(path@)) != Some(Item::Module),
            },
    {
        let segments = split_path(path);
        proof {
            use_type_invariant(self);
            lemma_split_len(path@);
        }
        self.top.node_at(&segments)
    }
}

/// The id of `function` in the table, which takes the function in if it is
/// not there yet.
fn intern(functions: &mut Vec<ExportedFunction>, function: &ExportedFunction) -> (id: FunctionId)
    ensures
        function_views(final(functions)@) == if function_views(old(functions)@).contains(
            function@,
        ) {
            function_views(old(functions)@)
        } else {
            function_views(old(functions)@).push(function@)
        },
        id < final(functions).len(),
        function_views(final(functions)@)[id as int] == function@,
{
    let ghost table = function_views(functions@);
    let mut i: usize = 0;
    while i < functions.len()
        invariant
            i <= functions.len(),
            table == function_views(functions@),
            forall|k: int| 0 <= k < i ==> table[k] != function@,
        decreases functions.len() - i,
    {
        if functions[i].same_as(function) {
            assert(table[i as int] == function@);
            return i;
        }
        i = i + 1;
    }
    functions.push(function.clone());
    proof {
        assert(function_views(functions@) =~= table.push(function@));
    }
    i
}

/// A layout whose entries were all taken in is accepted.
proof fn lemma_verdict_accepted(layout: Seq<LayoutEntryView>)
    requires
        layout.len() > 0,
        accepted_before(layout, layout.len() as int),
    ensures
        verdict(layout) == Ok::<(), ConfigurationError>(()),
{
    if exists|k: int| is_first_refused(layout, k) {
        let k = choose|k: int| is_first_refused(layout, k);
        assert(rejection_of(layout, k) is None);
    }
}

/// Builds the root module that `layout` stands for.
///
/// The entries are taken in one by one, in their order. The modules that a
/// path names are made as they are needed. A function that stands in several
/// entries is held once, and each of its bindings leads to that one holding.
/// The first entry that cannot be taken in ends the build with its reason,
/// and then there is no root module at all.
pub fn build(layout: &[LayoutEntry]) -> (r: Result<RootModule, ConfigurationError>)
    ensures
        r is Ok <==> is_valid_layout(entry_views(layout@)),
        match r {
            Ok(root) => root@ == namespace_of(entry_views(layout@)) && root@.is_well_formed(),
            Err(e) => verdict(entry_views(layout@)) == Err::<(), ConfigurationError>(e),
        },
{
    let ghost entries = entry_views(layout@);
    proof {
        law_accepted_iff_valid(entries);
    }
    if layout.len() == 0 {
        return Err(ConfigurationError::EmptyLayout);
    }
    let mut name = String::new();
    let mut top = ModuleNode::new();
    let mut functions: Vec<ExportedFunction> = Vec::new();
    let mut k: usize = 0;
    proof {
        assert(namespace_of(entries.take(0)).items =~= Map::<Seq<Seq<char>>, Item>::empty()) by {
            assert forall|q: Seq<Seq<char>>| !namespace_of(entries.take(0)).items.dom().contains(
                q,
            ) by {}
        }
        assert(top@ =~= with_top(namespace_of(entries.take(0)).items));
        assert(function_views(functions@) =~= functions_of(entries.take(0)));
    }
    while k < layout.len()
        invariant
            0 < layout.len(),
            k <= layout.len(),
            entries == entry_views(layout@),
            accepted_before(entries, k as int),
            top.wf(),
            top@ == with_top(namespace_of(entries.take(k as int)).items),
            function_views(functions@) == functions_of(entries.take(k as int)),
            k > 0 ==> name@ == entries[0].module_segments()[0],
        decreases layout.len() - k,
    {
        let entry = &layout[k];
        let ghost before = entries.take(k as int);
        let ghost e = entries[k as int];
        proof {
            assert(e == entry@);
            assert(before.push(e) =~= entries.take(k + 1));
            lemma_split_len(e.path);
        }
        let segments = split_path(entry.path.as_str());
        if !are_valid_segments(&segments) || !is_valid_segment(entry.name.as_str()) {
            proof {
                law_first_refusal_decides(entries, k as int, ConfigurationError::InvalidName);
            }
            return Err(ConfigurationError::InvalidName);
        }
        assert(texts(segments@)[0] == segments@[0]@);
        if k == 0 {
            name = segments[0].clone();
        } else if segments[0] != name {
            proof {
                law_first_refusal_decides(entries, k as int, ConfigurationError::ForeignRoot);
            }
            return Err(ConfigurationError::ForeignRoot);
        }
        let id = intern(&mut functions, &entry.function);
        proof {
            lemma_functions_after_push(before, e);
            lemma_functions_of(before.push(e));
            lemma_index_of_unique(functions_of(before.push(e)), id as int);
            assert(id == id_of(before.push(e), e.function));
            lemma_accepted_is_clash_free(entries, k as int);
            lemma_blocked_iff_clash(before, e);
            assert(texts(segments@).skip(0) =~= texts(segments@));
            assert forall|i: int| 0 <= i < k implies before[i] == entries[i] by {}
        }
        let placed = top.place(&segments, 0, &entry.name, id);
        if !placed {
            proof {
                let i = choose|i: int| 0 <= i < before.len() && #[trigger] clash(before[i], e);
                assert(clash(entries[i], entries[k as int]));
                assert(clashes_with_earlier(entries, k as int));
                law_first_refusal_decides(entries, k as int, ConfigurationError::Collision);
            }
            return Err(ConfigurationError::Collision);
        }
        proof {
            assert(!clashes_with_earlier(entries, k as int)) by {
                if clashes_with_earlier(entries, k as int) {
                    let i = choose|i: int|
                        0 <= i < k && #[trigger] clash(entries[i], entries[k as int]);
                    assert(clash(before[i], e));
                }
            }
            assert(rejection_of(entries, k as int) is None);
            lemma_accepted_is_clash_free(entries, k + 1);
            lemma_namespace_after_push(before, e);
        }
        k = k + 1;
    }
    proof {
        assert(entries.take(k as int) =~= entries);
        lemma_verdict_accepted(entries);
        law_namespace_is_well_formed(entries);
        let items = namespace_of(entries).items;
        assert forall|i: int| !declares(entries, Seq::<Seq<char>>::empty(), i) by {
            if 0 <= i < entries.len() {
                assert(entries[i].binding_segments().len() > 0);
            }
        }
        assert(!items.dom().contains(Seq::<Seq<char>>::empty()));
        assert(with_top(items).remove(Seq::<Seq<char>>::empty()) =~= items);
    }
    Ok(RootModule { name, top, functions })
}

} // verus!
